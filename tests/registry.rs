use acria::genesis::ExtBuilder;
use acria::ledger::{Currency, LedgerError, MemoryLedger};
use acria::pallet::{Error, Event, Module};

const ALICE: u64 = 1;
const BOB: u64 = 2;
const CAROL: u64 = 3;
const DAVE: u64 = 4;

fn descriptor(fees: &str) -> Vec<u8> {
    format!(
        r#"{{"shortdescription":"Euro price","description":"Euro to dollar rate","apiurl":"https://api.example.com/doc","fees":{}}}"#,
        fees
    )
    .into_bytes()
}

fn setup() -> (Module, MemoryLedger) {
    ExtBuilder::default()
        .balance(ALICE, 1000)
        .balance(BOB, 1000)
        .balance(CAROL, 1000)
        .build()
}

#[test]
fn register_valid_oracle() {
    let (mut m, _) = setup();
    let d = descriptor("100");
    assert_eq!(m.new_oracle(ALICE, 1, d.clone()), Ok(Event::NewOracle(1, ALICE)));
    assert_eq!(m.get_oracle(ALICE, 1), Some(&d));
    assert_eq!(m.get_oracle(BOB, 1), None);
}

#[test]
fn register_twice_is_duplicate_until_removed() {
    let (mut m, _) = setup();
    assert!(m.new_oracle(ALICE, 1, descriptor("100")).is_ok());
    assert_eq!(m.new_oracle(ALICE, 1, descriptor("100")), Err(Error::OracleDuplicated));
    assert_eq!(m.remove_oracle(ALICE, 1), Ok(Event::RemovedOracle(1, ALICE)));
    assert_eq!(m.new_oracle(ALICE, 1, descriptor("100")), Ok(Event::NewOracle(1, ALICE)));
}

#[test]
fn same_id_under_other_owner_is_no_duplicate() {
    let (mut m, _) = setup();
    assert!(m.new_oracle(ALICE, 1, descriptor("100")).is_ok());
    assert_eq!(m.new_oracle(BOB, 1, descriptor("100")), Ok(Event::NewOracle(1, BOB)));
}

#[test]
fn register_rejects_each_invalid_input() {
    let (mut m, _) = setup();
    assert_eq!(m.new_oracle(ALICE, 1, b"{\"a\":1}".to_vec()), Err(Error::TooShort));
    assert_eq!(m.new_oracle(ALICE, 1, vec![b' '; 8193]), Err(Error::TooLong));
    assert_eq!(m.new_oracle(ALICE, 0, descriptor("100")), Err(Error::InvalidValue));
    assert_eq!(m.new_oracle(ALICE, 1, b"{\"abc\":1".to_vec()), Err(Error::InvalidJson));
    assert_eq!(
        m.new_oracle(ALICE, 1, br#"{"shortdescription":"abc","description":"abcd"}"#.to_vec()),
        Err(Error::InvalidShortDescription)
    );
    assert_eq!(
        m.new_oracle(ALICE, 1, br#"{"shortdescription":"abcd","description":"abc"}"#.to_vec()),
        Err(Error::InvalidDescription)
    );
    assert_eq!(
        m.new_oracle(
            ALICE,
            1,
            br#"{"shortdescription":"abcd","description":"abcd","apiurl":"http://"}"#.to_vec()
        ),
        Err(Error::InvalidUrl)
    );
    assert_eq!(m.new_oracle(ALICE, 1, descriptor("0")), Err(Error::InvalidFees));
    assert_eq!(m.new_oracle(ALICE, 1, descriptor("\"ten\"")), Err(Error::InvalidFees));
    assert_eq!(m.get_oracle(ALICE, 1), None);
}

#[test]
fn register_accepts_longest_descriptor() {
    let (mut m, _) = setup();
    let mut d = descriptor("5");
    let pad = 8192 - d.len();
    let at = d.iter().position(|&b| b == b'E').unwrap();
    d.splice(at..at, std::iter::repeat(b'x').take(pad));
    assert_eq!(d.len(), 8192);
    assert_eq!(m.new_oracle(ALICE, 1, d), Ok(Event::NewOracle(1, ALICE)));
}

#[test]
fn remove_missing_or_foreign_oracle_is_not_found() {
    let (mut m, _) = setup();
    assert_eq!(m.remove_oracle(ALICE, 1), Err(Error::OracleNotFound));
    assert!(m.new_oracle(ALICE, 1, descriptor("100")).is_ok());
    assert_eq!(m.remove_oracle(BOB, 1), Err(Error::OracleNotFound));
    assert!(m.get_oracle(ALICE, 1).is_some());
}

#[test]
fn answer_needs_own_registered_oracle() {
    let (mut m, _) = setup();
    assert_eq!(m.oracle_update(ALICE, 1, b"42".to_vec()), Err(Error::OracleNotFound));
    assert!(m.new_oracle(ALICE, 1, descriptor("100")).is_ok());
    assert_eq!(m.oracle_update(BOB, 1, b"41".to_vec()), Err(Error::OracleNotFound));
    assert_eq!(m.oracle_update(ALICE, 1, b"42".to_vec()), Ok(Event::OracleUpdate(1, ALICE)));
    assert_eq!(m.get_oracledata(ALICE, 1), Some(&b"42".to_vec()));
    assert_eq!(m.oracle_update(ALICE, 1, b"43".to_vec()), Ok(Event::OracleUpdate(1, ALICE)));
    assert_eq!(m.get_oracledata(ALICE, 1), Some(&b"43".to_vec()));
    assert_eq!(m.get_oracledata(BOB, 1), None);
}

#[test]
fn relock_replaces_stake() {
    let (mut m, mut l) = setup();
    assert_eq!(
        m.lock_oracle_stakes(&mut l, BOB, ALICE, 300),
        Ok(Event::OracleLockedStakes(BOB, ALICE))
    );
    assert_eq!(m.get_oracle_account_stakes(ALICE, BOB), 300);
    assert_eq!(l.free_balance(BOB), 700);
    assert_eq!(l.reserved_balance(BOB), 300);
    assert!(m.lock_oracle_stakes(&mut l, BOB, ALICE, 100).is_ok());
    assert_eq!(m.get_oracle_account_stakes(ALICE, BOB), 100);
    assert_eq!(l.free_balance(BOB), 900);
    assert_eq!(l.reserved_balance(BOB), 100);
}

#[test]
fn lock_without_funds_changes_nothing() {
    let (mut m, mut l) = setup();
    assert!(m.lock_oracle_stakes(&mut l, BOB, ALICE, 300).is_ok());
    assert_eq!(m.lock_oracle_stakes(&mut l, BOB, ALICE, 701), Err(Error::NotEnoughFunds));
    assert_eq!(m.get_oracle_account_stakes(ALICE, BOB), 300);
    assert_eq!(l.free_balance(BOB), 700);
    assert_eq!(l.reserved_balance(BOB), 300);
}

#[test]
fn unlock_releases_stake() {
    let (mut m, mut l) = setup();
    assert!(m.lock_oracle_stakes(&mut l, BOB, ALICE, 300).is_ok());
    assert_eq!(m.unlock_oracle_stakes(&mut l, BOB, ALICE), Event::OracleUnlockedStakes(BOB, ALICE));
    assert_eq!(m.get_oracle_account_stakes(ALICE, BOB), 0);
    assert_eq!(l.free_balance(BOB), 1000);
    assert_eq!(l.reserved_balance(BOB), 0);
}

#[test]
fn unlock_without_stake_is_no_op() {
    let (mut m, mut l) = setup();
    assert_eq!(m.unlock_oracle_stakes(&mut l, BOB, ALICE), Event::OracleUnlockedStakes(BOB, ALICE));
    assert_eq!(m.get_oracle_account_stakes(ALICE, BOB), 0);
    assert_eq!(l.free_balance(BOB), 1000);
    assert_eq!(l.reserved_balance(BOB), 0);
    assert_eq!(l.free_balance(ALICE), 1000);
}

#[test]
fn request_settles_fee_between_provider_and_stakers() {
    let (mut m, mut l) = setup();
    assert!(m.new_oracle(ALICE, 1, descriptor("100")).is_ok());
    assert!(m.lock_oracle_stakes(&mut l, BOB, ALICE, 40).is_ok());
    assert!(m.lock_oracle_stakes(&mut l, CAROL, ALICE, 60).is_ok());
    assert_eq!(
        m.request_oracle_update(&mut l, DAVE, ALICE, 1, b"EURUSD".to_vec()),
        Err(Error::OracleSettlementError)
    );
    let mut l = {
        let mut l = l;
        assert!(l.deposit(DAVE, 500).is_ok());
        l
    };
    assert_eq!(
        m.request_oracle_update(&mut l, DAVE, ALICE, 1, b"EURUSD".to_vec()),
        Ok(Event::RequestOracleUpdate(1, ALICE, b"EURUSD".to_vec()))
    );
    assert_eq!(l.free_balance(ALICE), 1080);
    assert_eq!(l.free_balance(BOB), 960 + 8);
    assert_eq!(l.free_balance(CAROL), 940 + 12);
    assert_eq!(l.free_balance(DAVE), 400);
    assert_eq!(l.reserved_balance(BOB), 40);
}

#[test]
fn request_without_stakers_pays_only_provider() {
    let (mut m, mut l) = setup();
    assert!(m.new_oracle(ALICE, 1, descriptor("100")).is_ok());
    assert_eq!(
        m.request_oracle_update(&mut l, BOB, ALICE, 1, Vec::new()),
        Ok(Event::RequestOracleUpdate(1, ALICE, Vec::new()))
    );
    assert_eq!(l.free_balance(ALICE), 1080);
    assert_eq!(l.free_balance(BOB), 920);
}

#[test]
fn request_with_stakes_on_other_oracle_only() {
    let (mut m, mut l) = setup();
    assert!(m.new_oracle(ALICE, 1, descriptor("100")).is_ok());
    assert!(m.lock_oracle_stakes(&mut l, CAROL, BOB, 50).is_ok());
    assert!(m.request_oracle_update(&mut l, BOB, ALICE, 1, Vec::new()).is_ok());
    assert_eq!(l.free_balance(ALICE), 1080);
    assert_eq!(l.free_balance(BOB), 920);
    assert_eq!(l.free_balance(CAROL), 950);
}

#[test]
fn request_for_unknown_oracle_is_not_found() {
    let (m, mut l) = setup();
    assert_eq!(
        m.request_oracle_update(&mut l, BOB, ALICE, 1, Vec::new()),
        Err(Error::OracleNotFound)
    );
    assert_eq!(l.free_balance(BOB), 1000);
}

#[test]
fn request_fails_when_staker_cannot_be_paid() {
    let (mut m, mut l) = setup();
    assert!(m.new_oracle(ALICE, 1, descriptor("100")).is_ok());
    assert!(m.lock_oracle_stakes(&mut l, BOB, ALICE, 10).is_ok());
    assert!(l.deposit(DAVE, 85).is_ok());
    assert_eq!(
        m.request_oracle_update(&mut l, DAVE, ALICE, 1, Vec::new()),
        Err(Error::StakerSettlementError)
    );
}

#[test]
fn ledger_refuses_overdraft_and_overflow() {
    let mut l = MemoryLedger::new();
    assert_eq!(l.transfer(ALICE, BOB, 1), Err(LedgerError::InsufficientBalance));
    assert!(l.deposit(ALICE, u64::MAX).is_ok());
    assert_eq!(l.deposit(ALICE, 1), Err(LedgerError::Overflow));
    assert!(l.deposit(BOB, 1).is_ok());
    assert_eq!(l.transfer(ALICE, BOB, u64::MAX), Err(LedgerError::Overflow));
    assert_eq!(l.unreserve(ALICE, 5), 5);
    assert!(l.reserve(ALICE, 10).is_ok());
    assert_eq!(l.unreserve(ALICE, 15), 5);
    assert_eq!(l.free_balance(ALICE), u64::MAX);
}

#[test]
fn ext_builder_sets_starting_balances() {
    let (m, l) = ExtBuilder::default().balance(ALICE, 10).balance(ALICE, 5).build();
    assert_eq!(l.free_balance(ALICE), 15);
    assert_eq!(l.free_balance(BOB), 0);
    assert_eq!(m.get_oracle(ALICE, 1), None);
}
