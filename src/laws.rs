//! Properties that relate several operations of the registry, the stake
//! ledger and the settlement.
use vstd::prelude::*;

use crate::json::{
    bare_safe, json_valid, key_pattern, law_extract_bare, lemma_key_pattern, lemma_ready_bare,
    lemma_ready_byte, lemma_ready_quoted, lemma_scan_concat, matches_at, plain_bare, plain_string,
    quoted, ready, scan_from, scan_start, ScanState, CLOSE_CURLY, COLON, COMMA, OPEN_CURLY, QUOTE,
};
use crate::ledger::Currency;
use crate::pallet::{
    api_url_key, description_key, descriptor_fee, fees_key, locked, oracle_key,
    registration_check, short_description_key, unlocked, Error,
};
use crate::settlement::{
    decimal, lemma_decimal, lemma_fee_value_decimal, lemma_payouts_within_pool, provider_part,
    staker_payouts, sum_amounts,
};
use crate::{AccountId, Balance, OracleId};

verus! {

/// Registering the same oracle id twice fails the second time as a duplicate;
/// once the oracle is removed, the same registration succeeds again.
pub proof fn law_register_twice(
    oracles: Map<(u64, u64), Seq<u8>>,
    owner: AccountId,
    id: OracleId,
    d: Seq<u8>,
)
    requires
        registration_check(id, d, oracles.contains_key(oracle_key(owner, id))) is Ok,
    ensures
        ({
            let registered = oracles.insert(oracle_key(owner, id), d);
            &&& registration_check(id, d, registered.contains_key(oracle_key(owner, id)))
                == Err::<(), Error>(Error::OracleDuplicated)
            &&& registration_check(
                id,
                d,
                registered.remove(oracle_key(owner, id)).contains_key(oracle_key(owner, id)),
            ) is Ok
        }),
{
}

/// Oracles of different owners, or with different ids, never share a key: a
/// caller can neither find nor remove another owner's oracle.
pub proof fn law_keys_of_owners_differ(
    oracles: Map<(u64, u64), Seq<u8>>,
    owner: AccountId,
    other: AccountId,
    id: OracleId,
    other_id: OracleId,
)
    requires
        owner != other || id != other_id,
    ensures
        oracle_key(owner, id) != oracle_key(other, other_id),
        oracles.remove(oracle_key(other, other_id)).contains_key(oracle_key(owner, id))
            == oracles.contains_key(oracle_key(owner, id)),
{
}

/// Locking `s1` and then `s2` on the same oracle leaves a stake of `s2`, not
/// `s1 + s2`: between the two locks the reserved balance changes by
/// `s2 - s1` and the spendable balance by `s1 - s2`.  From no earlier stake,
/// exactly `s2` more than at the start is reserved.  The earlier stake
/// `previous` is one that was reserved.
pub proof fn law_relock_replaces<C: Currency>(
    stakes: Map<(u64, u64), Balance>,
    l0: C,
    l1: C,
    l2: C,
    oracle: AccountId,
    staker: AccountId,
    previous: nat,
    s1: Balance,
    s2: Balance,
)
    requires
        previous <= l0.reserved(staker),
        locked(l0, l1, staker, s1 as nat, previous),
        locked(l1, l2, staker, s2 as nat, s1 as nat),
    ensures
        stakes.insert((oracle, staker), s1).insert((oracle, staker), s2)[(oracle, staker)] == s2,
        l2.reserved(staker) == l1.reserved(staker) - s1 + s2,
        l2.free(staker) == l1.free(staker) + s1 - s2,
        previous == 0 ==> l2.reserved(staker) == l0.reserved(staker) + s2,
        previous == 0 ==> l2.free(staker) == l0.free(staker) - s2,
{
    assert(l1.reserved(staker) == l0.reserved(staker) + s1 - previous);
}

/// Unlocking where there is no stake changes neither the stakes nor any
/// balance.
pub proof fn law_unlock_without_stake<C: Currency>(
    stakes: Map<(u64, u64), Balance>,
    l0: C,
    l1: C,
    oracle: AccountId,
    staker: AccountId,
)
    requires
        !stakes.contains_key((oracle, staker)),
        unlocked(l0, l1, staker, 0),
    ensures
        stakes.remove((oracle, staker)) == stakes,
        forall|x: AccountId| l1.free(x) == l0.free(x) && l1.reserved(x) == l0.reserved(x),
{
    assert(stakes.remove((oracle, staker)) =~= stakes);
    assert forall|x: AccountId| l1.free(x) == l0.free(x) && l1.reserved(x) == l0.reserved(x) by {
        assert(l1.free(x) == l0.free(x));
        assert(l1.reserved(x) == l0.reserved(x));
    }
}

/// The provider's part and the stakers' shares together never exceed the fee.
pub proof fn law_settlement_within_fee(fee: u64, stakes: Seq<(AccountId, Balance)>)
    ensures
        provider_part(fee) + sum_amounts(
            staker_payouts(stakes, (fee - provider_part(fee)) as nat, sum_amounts(stakes)),
        ) <= fee,
{
    assert(provider_part(fee) <= fee) by (nonlinear_arith)
        requires
            provider_part(fee) == (fee * 80 / 100) as u64,
    ;
    lemma_payouts_within_pool(stakes, (fee - provider_part(fee)) as u64);
}

/// With no stake on the oracle, the stakers receive nothing.
pub proof fn law_no_stake_no_payouts(fee: u64, stakes: Seq<(AccountId, Balance)>)
    requires
        sum_amounts(stakes) == 0,
    ensures
        staker_payouts(stakes, (fee - provider_part(fee)) as nat, sum_amounts(stakes)).len() == 0,
{
}

/// The opening of a descriptor up to its fee: the short description, the
/// description and the API address, each a quoted string, each followed by a
/// comma.
pub open spec fn descriptor_head(short: Seq<u8>, description: Seq<u8>, url: Seq<u8>) -> Seq<u8> {
    seq![OPEN_CURLY] + key_pattern(short_description_key()) + quoted(short) + seq![COMMA]
        + key_pattern(description_key()) + quoted(description) + seq![COMMA] + key_pattern(
        api_url_key(),
    ) + quoted(url) + seq![COMMA]
}

/// A descriptor with a short description, a description, an API address and
/// last a fee written in decimal.
pub open spec fn descriptor_text(fee: u64, short: Seq<u8>, description: Seq<u8>, url: Seq<u8>) -> Seq<
    u8,
> {
    descriptor_head(short, description, url) + key_pattern(fees_key()) + decimal(fee as nat) + seq![
        CLOSE_CURLY,
    ]
}

proof fn lemma_ready_then_key(st: ScanState, prefix: Seq<u8>, key: Seq<u8>)
    requires
        ready(scan_from(st, prefix)),
        plain_string(key),
    ensures
        ready(scan_from(st, prefix + key_pattern(key))),
{
    let mid = scan_from(st, prefix);
    lemma_scan_concat(st, prefix, key_pattern(key));
    lemma_key_pattern(key);
    lemma_scan_concat(mid, quoted(key), seq![COLON]);
    lemma_ready_quoted(mid, key);
    lemma_ready_byte(scan_from(mid, quoted(key)), COLON);
}

proof fn lemma_ready_then_quoted(st: ScanState, prefix: Seq<u8>, t: Seq<u8>)
    requires
        ready(scan_from(st, prefix)),
        plain_string(t),
    ensures
        ready(scan_from(st, prefix + quoted(t))),
{
    lemma_scan_concat(st, prefix, quoted(t));
    lemma_ready_quoted(scan_from(st, prefix), t);
}

proof fn lemma_ready_then_byte(st: ScanState, prefix: Seq<u8>, b: u8)
    requires
        ready(scan_from(st, prefix)),
        b == COLON || b == COMMA || b == OPEN_CURLY || b == CLOSE_CURLY,
    ensures
        ready(scan_from(st, prefix + seq![b])),
{
    lemma_scan_concat(st, prefix, seq![b]);
    lemma_ready_byte(scan_from(st, prefix), b);
}

proof fn lemma_keys_plain()
    ensures
        plain_string(fees_key()),
        plain_string(short_description_key()),
        plain_string(description_key()),
        plain_string(api_url_key()),
{
}

proof fn lemma_head_ready(short: Seq<u8>, description: Seq<u8>, url: Seq<u8>)
    requires
        plain_string(short),
        plain_string(description),
        plain_string(url),
    ensures
        ready(scan_from(scan_start(), descriptor_head(short, description, url))),
{
    lemma_keys_plain();
    let st = scan_start();
    let p1 = seq![OPEN_CURLY];
    lemma_ready_byte(st, OPEN_CURLY);
    let p2 = p1 + key_pattern(short_description_key());
    lemma_ready_then_key(st, p1, short_description_key());
    let p3 = p2 + quoted(short);
    lemma_ready_then_quoted(st, p2, short);
    let p4 = p3 + seq![COMMA];
    lemma_ready_then_byte(st, p3, COMMA);
    let p5 = p4 + key_pattern(description_key());
    lemma_ready_then_key(st, p4, description_key());
    let p6 = p5 + quoted(description);
    lemma_ready_then_quoted(st, p5, description);
    let p7 = p6 + seq![COMMA];
    lemma_ready_then_byte(st, p6, COMMA);
    let p8 = p7 + key_pattern(api_url_key());
    lemma_ready_then_key(st, p7, api_url_key());
    let p9 = p8 + quoted(url);
    lemma_ready_then_quoted(st, p8, url);
    lemma_ready_then_byte(st, p9, COMMA);
}

/// The first `"fees":` of a descriptor is the one of its fee field: the
/// other keys differ, and the quoted texts hold no quote.
#[verifier::rlimit(50)]
proof fn lemma_fee_key_first(fee: u64, short: Seq<u8>, description: Seq<u8>, url: Seq<u8>)
    requires
        plain_string(short),
        plain_string(description),
        plain_string(url),
    ensures
        forall|y: int|
            0 <= y < descriptor_head(short, description, url).len() ==> !matches_at(
                descriptor_text(fee, short, description, url),
                key_pattern(fees_key()),
                y,
            ),
{
    lemma_keys_plain();
    let head = descriptor_head(short, description, url);
    let k = key_pattern(fees_key());
    let d = descriptor_text(fee, short, description, url);
    assert forall|y: int| 0 <= y < head.len() implies !matches_at(d, k, y) by {
        if matches_at(d, k, y) {
            assert(d.subrange(y, y + 7)[0] == d[y]);
            assert(d.subrange(y, y + 7)[1] == d[y + 1]);
            assert(d.subrange(y, y + 7)[5] == d[y + 5]);
            assert(d.subrange(y, y + 7)[6] == d[y + 6]);
            assert(d[y] == QUOTE);
            assert(d[y + 1] == 0x66);
            assert(d[y + 5] == QUOTE);
            assert(d[y + 6] == COLON);
        }
    }
}

/// A descriptor whose short description, description and API address hold
/// no quote or backslash, and whose fee is written in decimal, passes the
/// structural check, and its fee reads back as the number written.
pub proof fn law_descriptor_round_trip(fee: u64, short: Seq<u8>, description: Seq<u8>, url: Seq<u8>)
    requires
        plain_string(short),
        plain_string(description),
        plain_string(url),
    ensures
        json_valid(descriptor_text(fee, short, description, url)),
        descriptor_fee(descriptor_text(fee, short, description, url)) == fee,
{
    lemma_keys_plain();
    lemma_decimal(fee as nat);
    let digits = decimal(fee as nat);
    let head = descriptor_head(short, description, url);
    let d = descriptor_text(fee, short, description, url);
    let st = scan_start();
    lemma_head_ready(short, description, url);
    let p1 = head + key_pattern(fees_key());
    lemma_ready_then_key(st, head, fees_key());
    let p2 = p1 + digits;
    assert(bare_safe(digits));
    lemma_scan_concat(st, p1, digits);
    lemma_ready_bare(scan_from(st, p1), digits);
    lemma_ready_then_byte(st, p2, CLOSE_CURLY);
    assert(d[0] == OPEN_CURLY);
    assert(d.last() == CLOSE_CURLY);
    assert(plain_bare(digits));
    lemma_fee_key_first(fee, short, description, url);
    law_extract_bare(head, fees_key(), digits, seq![CLOSE_CURLY]);
    lemma_fee_value_decimal(fee);
}

} // verus!
