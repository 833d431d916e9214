use acria::settlement::{parse_fees, provider_share, settlement_plan, staker_share, total_stake};

#[test]
fn parse_fees_reads_decimal_numbers() {
    assert_eq!(parse_fees(b"100"), 100);
    assert_eq!(parse_fees(b"+7"), 7);
    assert_eq!(parse_fees(b"007"), 7);
    assert_eq!(parse_fees(b"18446744073709551615"), u64::MAX);
}

#[test]
fn parse_fees_reads_other_text_as_zero() {
    assert_eq!(parse_fees(b""), 0);
    assert_eq!(parse_fees(b"+"), 0);
    assert_eq!(parse_fees(b"-1"), 0);
    assert_eq!(parse_fees(b"12a"), 0);
    assert_eq!(parse_fees(b" 1"), 0);
    assert_eq!(parse_fees(b"18446744073709551616"), 0);
    assert_eq!(parse_fees(b"99999999999999999999999"), 0);
}

#[test]
fn parse_fees_agrees_with_std() {
    let samples: [&[u8]; 12] = [
        b"0", b"1", b"+0", b"++1", b"1+", b"4294967296", b"00000000000000000000001",
        b"18446744073709551614", b"1844674407370955161a", b"\xff", b"1.5", b"1e3",
    ];
    for s in samples.iter() {
        let expected = std::str::from_utf8(s)
            .ok()
            .and_then(|t| t.parse::<u64>().ok())
            .unwrap_or(0);
        assert_eq!(parse_fees(s), expected);
    }
}

#[test]
fn provider_share_is_eighty_percent_rounded_down() {
    assert_eq!(provider_share(100), 80);
    assert_eq!(provider_share(7), 5);
    assert_eq!(provider_share(1), 0);
    assert_eq!(provider_share(u64::MAX), 14757395258967641292);
}

#[test]
fn staker_share_is_proportional_rounded_down() {
    assert_eq!(staker_share(20, 40, 100), 8);
    assert_eq!(staker_share(2, 1, 3), 0);
    assert_eq!(staker_share(u64::MAX, u64::MAX, u64::MAX as u128), u64::MAX);
}

#[test]
fn total_stake_adds_without_overflow() {
    assert_eq!(total_stake(&[]), 0);
    assert_eq!(total_stake(&[(1, u64::MAX), (2, u64::MAX)]), 2 * (u64::MAX as u128));
}

#[test]
fn settlement_example_fee_hundred() {
    let (provider, payouts) = settlement_plan(100, &[(1, 40), (2, 60)]);
    assert_eq!(provider, 80);
    assert_eq!(payouts, vec![(1, 8), (2, 12)]);
    let distributed: u64 = provider + payouts.iter().map(|p| p.1).sum::<u64>();
    assert!(distributed <= 100);
}

#[test]
fn settlement_rounding_loss_is_kept_by_nobody() {
    let (provider, payouts) = settlement_plan(7, &[(1, 1), (2, 1), (3, 1)]);
    assert_eq!(provider, 5);
    assert_eq!(payouts, vec![(1, 0), (2, 0), (3, 0)]);
}

#[test]
fn settlement_without_stake_pays_only_provider() {
    let (provider, payouts) = settlement_plan(100, &[]);
    assert_eq!(provider, 80);
    assert!(payouts.is_empty());
    let (provider, payouts) = settlement_plan(100, &[(1, 0), (2, 0)]);
    assert_eq!(provider, 80);
    assert!(payouts.is_empty());
}
