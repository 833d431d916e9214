use acria::json::{json_check_validity, json_get_value};
use acria::settlement::parse_fees;

const EXAMPLE: &[u8] = br#"{"shortdescription":"xxxxxxxxxxxxxxxxxx","description":"xxxxxxxxxxxxxxxxxxxxxxxxx","apiurl":"https://api.supplier.com/documentation","fees":100}"#;

#[test]
fn validity_accepts_example_descriptor() {
    assert!(json_check_validity(EXAMPLE));
}

#[test]
fn validity_accepts_array_and_escaped_quote() {
    assert!(json_check_validity(b"[1,2,3]"));
    assert!(json_check_validity(br#"{"a":"b\"c"}"#));
    assert!(json_check_validity(b"{}"));
}

#[test]
fn validity_rejects_short_or_undelimited() {
    assert!(!json_check_validity(b""));
    assert!(!json_check_validity(b"{"));
    assert!(!json_check_validity(b"ab"));
    assert!(!json_check_validity(b"{]"));
    assert!(!json_check_validity(b"[}"));
    assert!(!json_check_validity(br#"x"a":1}"#));
}

#[test]
fn validity_rejects_open_string() {
    assert!(!json_check_validity(br#"{"a:1}"#));
    assert!(!json_check_validity(br#"{"a":"b\"}"#));
}

#[test]
fn validity_rejects_unbalanced_square_brackets() {
    assert!(!json_check_validity(br#"{"a":[1,2}"#));
    assert!(!json_check_validity(br#"{"a":1]}"#));
    assert!(json_check_validity(br#"{"a":"[1,2"}"#));
}

#[test]
fn extract_string_and_number_fields() {
    assert_eq!(json_get_value(EXAMPLE, b"shortdescription"), b"xxxxxxxxxxxxxxxxxx".to_vec());
    assert_eq!(json_get_value(EXAMPLE, b"description"), b"xxxxxxxxxxxxxxxxxxxxxxxxx".to_vec());
    assert_eq!(
        json_get_value(EXAMPLE, b"apiurl"),
        b"https://api.supplier.com/documentation".to_vec()
    );
    assert_eq!(json_get_value(EXAMPLE, b"fees"), b"100".to_vec());
}

#[test]
fn extract_missing_key_is_empty() {
    assert_eq!(json_get_value(EXAMPLE, b"owner"), Vec::<u8>::new());
    assert_eq!(json_get_value(b"{}", b"a"), Vec::<u8>::new());
    assert_eq!(json_get_value(b"", b"a"), Vec::<u8>::new());
}

#[test]
fn extract_stops_at_delimiters() {
    assert_eq!(json_get_value(br#"{"a":12,"b":3}"#, b"a"), b"12".to_vec());
    assert_eq!(json_get_value(br#"{"a":12,"b":3}"#, b"b"), b"3".to_vec());
    assert_eq!(json_get_value(br#"{"b":3,"a":[1,2]}"#, b"a"), b"[1,2]".to_vec());
    assert_eq!(json_get_value(br#"{"a":[1,2,3]}"#, b"a"), b"[1,2,3]".to_vec());
    assert_eq!(json_get_value(br#"{"a":"x,y}z","b":3}"#, b"a"), b"x,y}z".to_vec());
}

#[test]
fn extract_array_flag_is_only_reset_by_closing_brace() {
    assert_eq!(json_get_value(br#"{"a":[1,2],"b":3}"#, b"a"), b"[1,2],b".to_vec());
}

#[test]
fn extract_keeps_escaped_quote() {
    assert_eq!(json_get_value(br#"{"a":"b\"c"}"#, b"a"), br#"b\"c"#.to_vec());
}

#[test]
fn extract_takes_first_occurrence() {
    assert_eq!(json_get_value(br#"{"a":"one","a":"two"}"#, b"a"), b"one".to_vec());
}

#[test]
fn extract_round_trip_of_plain_values() {
    let text = br#"{"name":"plainvalue","count":42}"#;
    assert_eq!(json_get_value(text, b"name"), b"plainvalue".to_vec());
    assert_eq!(json_get_value(text, b"count"), b"42".to_vec());
}

#[test]
fn extract_key_inside_longer_key_is_not_found() {
    assert_eq!(json_get_value(br#"{"shortdescription":"abcd"}"#, b"description"), Vec::<u8>::new());
}

#[test]
fn descriptor_passes_check_and_fee_reads_back() {
    for fee in [1u64, 100, 4294967296, u64::MAX] {
        let d = format!(
            r#"{{"shortdescription":"fees","description":"fees: a lot","apiurl":"https://x.org/fees","fees":{}}}"#,
            fee
        );
        assert!(json_check_validity(d.as_bytes()));
        assert_eq!(parse_fees(&json_get_value(d.as_bytes(), b"fees")), fee);
    }
}
