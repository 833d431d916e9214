//! The fee of a request and its split: eighty percent to the oracle's
//! provider, the rest shared among the oracle's stakers in proportion to
//! their stakes, each share rounded down.
use vstd::prelude::*;

use crate::{AccountId, Balance};

verus! {

pub const PLUS: u8 = 0x2b;
pub const ZERO_DIGIT: u8 = 0x30;
pub const NINE_DIGIT: u8 = 0x39;

/// Percentage of the fee that goes to the oracle's provider.
pub const PROVIDER_PERCENT: u64 = 80;

pub open spec fn is_digit(b: u8) -> bool {
    ZERO_DIGIT <= b <= NINE_DIGIT
}

pub open spec fn all_digits(s: Seq<u8>) -> bool {
    forall|i: int| 0 <= i < s.len() ==> is_digit(#[trigger] s[i])
}

/// The number that the decimal digits `s` write.
pub open spec fn digits_value(s: Seq<u8>) -> nat
    decreases s.len(),
{
    if s.len() == 0 {
        0
    } else {
        digits_value(s.drop_last()) * 10 + (s.last() - ZERO_DIGIT) as nat
    }
}

/// The digits of an unsigned number's text: an optional leading `+` is dropped.
pub open spec fn unsigned_digits(s: Seq<u8>) -> Seq<u8> {
    if s.len() > 0 && s[0] == PLUS {
        s.drop_first()
    } else {
        s
    }
}

/// The text `s` read as an unsigned 64-bit decimal number: an optional `+`,
/// then at least one digit, with a value that fits.  Any other text reads as 0.
pub open spec fn fee_value(s: Seq<u8>) -> u64 {
    let d = unsigned_digits(s);
    if d.len() > 0 && all_digits(d) && digits_value(d) <= u64::MAX {
        digits_value(d) as u64
    } else {
        0
    }
}

pub proof fn lemma_digits_value_grows(s: Seq<u8>, n: int)
    requires
        0 <= n <= s.len(),
        all_digits(s),
    ensures
        digits_value(s.subrange(0, n)) <= digits_value(s),
    decreases s.len() - n,
{
    if n < s.len() {
        lemma_digits_value_grows(s, n + 1);
        assert(s.subrange(0, n + 1).drop_last() == s.subrange(0, n));
    } else {
        assert(s.subrange(0, n) == s);
    }
}

/// The decimal digits of `n`, without leading zeros.
pub open spec fn decimal(n: nat) -> Seq<u8>
    decreases n,
{
    if n < 10 {
        seq![(ZERO_DIGIT + n) as u8]
    } else {
        decimal(n / 10).push((ZERO_DIGIT + n % 10) as u8)
    }
}

/// The digits of `n` are digits, at least one, and they write `n`.
pub proof fn lemma_decimal(n: nat)
    ensures
        decimal(n).len() > 0,
        all_digits(decimal(n)),
        digits_value(decimal(n)) == n,
    decreases n,
{
    let d = decimal(n);
    if n < 10 {
        assert(d.drop_last() =~= Seq::<u8>::empty());
        assert(digits_value(d.drop_last()) == 0);
    } else {
        lemma_decimal(n / 10);
        assert(d.drop_last() =~= decimal(n / 10));
        assert forall|i: int| 0 <= i < d.len() implies is_digit(#[trigger] d[i]) by {
            if i < d.len() - 1 {
                assert(d[i] == decimal(n / 10)[i]);
            }
        }
    }
}

/// A number written in decimal reads back as itself.
pub proof fn lemma_fee_value_decimal(n: u64)
    ensures
        fee_value(decimal(n as nat)) == n,
{
    lemma_decimal(n as nat);
    let d = decimal(n as nat);
    assert(is_digit(d[0]));
    assert(unsigned_digits(d) == d);
}

/// Reads the fee text of a descriptor as an unsigned number, 0 when it is not one.
pub fn parse_fees(s: &[u8]) -> (r: u64)
    ensures
        r == fee_value(s@),
{
    let n = s.len();
    let start: usize = if n > 0 && s[0] == PLUS {
        1
    } else {
        0
    };
    let ghost d = unsigned_digits(s@);
    assert(d == s@.subrange(start as int, n as int));
    if start == n {
        return 0;
    }
    let mut value: u64 = 0;
    let mut i: usize = start;
    while i < n
        invariant
            start <= i <= n,
            n == s@.len(),
            d == s@.subrange(start as int, n as int),
            d == unsigned_digits(s@),
            all_digits(d.subrange(0, i - start)),
            value as nat == digits_value(d.subrange(0, i - start)),
        decreases n - i,
    {
        let b = s[i];
        if b < ZERO_DIGIT || b > NINE_DIGIT {
            assert(!is_digit(d[i - start]));
            return 0;
        }
        let digit = (b - ZERO_DIGIT) as u64;
        let ghost next = d.subrange(0, i - start + 1);
        assert(next.drop_last() == d.subrange(0, i - start));
        assert(all_digits(next));
        if value > (u64::MAX - digit) / 10 {
            assert(digits_value(next) > u64::MAX) by (nonlinear_arith)
                requires
                    digits_value(next) == value * 10 + digit,
                    value > (u64::MAX - digit) / 10,
                    digit <= 9,
            ;
            proof {
                if all_digits(d) {
                    lemma_digits_value_grows(d, i - start + 1);
                }
            }
            return 0;
        }
        value = value * 10 + digit;
        i = i + 1;
    }
    assert(d.subrange(0, n - start) == d);
    value
}

/// The sum of the amounts of a list of (account, amount) pairs.
pub open spec fn sum_amounts(s: Seq<(AccountId, Balance)>) -> nat
    decreases s.len(),
{
    if s.len() == 0 {
        0
    } else {
        sum_amounts(s.drop_last()) + s.last().1 as nat
    }
}

/// The provider's part of a fee, rounded down.
pub open spec fn provider_part(fee: u64) -> u64 {
    (fee * PROVIDER_PERCENT / 100) as u64
}

/// What each staker receives out of `pool` when the stakes add up to `total`,
/// in the order of the stakes.  Nobody receives anything when `total` is 0.
pub open spec fn staker_payouts(stakes: Seq<(AccountId, Balance)>, pool: nat, total: nat) -> Seq<
    (AccountId, Balance),
> {
    if total == 0 {
        seq![]
    } else {
        stakes.map_values(|e: (AccountId, Balance)| (e.0, (pool * e.1 / total as int) as u64))
    }
}

pub proof fn lemma_amount_below_sum(s: Seq<(AccountId, Balance)>, i: int)
    requires
        0 <= i < s.len(),
    ensures
        s[i].1 <= sum_amounts(s),
    decreases s.len(),
{
    if i < s.len() - 1 {
        lemma_amount_below_sum(s.drop_last(), i);
    }
}

proof fn lemma_payouts_scaled(s: Seq<(AccountId, Balance)>, pool: u64, total: nat)
    requires
        total > 0,
        forall|i: int| 0 <= i < s.len() ==> #[trigger] s[i].1 <= total,
    ensures
        total * sum_amounts(staker_payouts(s, pool as nat, total)) <= pool * sum_amounts(s),
        staker_payouts(s, pool as nat, total).len() == s.len(),
    decreases s.len(),
{
    let p = staker_payouts(s, pool as nat, total);
    if s.len() > 0 {
        let q = s.drop_last();
        assert forall|i: int| 0 <= i < q.len() implies #[trigger] q[i].1 <= total by {
            assert(q[i] == s[i]);
        }
        lemma_payouts_scaled(q, pool, total);
        assert(p.drop_last() =~= staker_payouts(q, pool as nat, total));
        let x = s.last().1 as nat;
        let a = sum_amounts(staker_payouts(q, pool as nat, total));
        let share = pool * x / (total as int);
        assert(share <= pool) by (nonlinear_arith)
            requires
                share == pool * x / (total as int),
                x <= total,
                total > 0,
        ;
        assert(total * share <= pool * x) by (nonlinear_arith)
            requires
                share == pool * x / (total as int),
                total > 0,
        ;
        assert(p.last().1 == share);
        assert(sum_amounts(p) == a + share);
        assert(sum_amounts(s) == sum_amounts(q) + x);
        assert(total * sum_amounts(p) <= pool * sum_amounts(s)) by (nonlinear_arith)
            requires
                total * a <= pool * sum_amounts(q),
                total * share <= pool * x,
                sum_amounts(p) == a + share,
                sum_amounts(s) == sum_amounts(q) + x,
        ;
    } else {
        assert(p =~= seq![]);
        assert(sum_amounts(p) == 0);
        assert(total * sum_amounts(p) == 0);
    }
}

/// The stakers' shares together never exceed the pool that they split.
pub proof fn lemma_payouts_within_pool(stakes: Seq<(AccountId, Balance)>, pool: u64)
    ensures
        sum_amounts(staker_payouts(stakes, pool as nat, sum_amounts(stakes))) <= pool,
{
    let total = sum_amounts(stakes);
    if total > 0 {
        assert forall|i: int| 0 <= i < stakes.len() implies #[trigger] stakes[i].1 <= total by {
            lemma_amount_below_sum(stakes, i);
        }
        lemma_payouts_scaled(stakes, pool, total);
        let paid = sum_amounts(staker_payouts(stakes, pool as nat, total));
        assert(paid <= pool) by (nonlinear_arith)
            requires
                total * paid <= pool * total,
                total > 0,
        ;
    } else {
        assert(staker_payouts(stakes, pool as nat, total) =~= seq![]);
    }
}

/// The sum of the stakes.
pub fn total_stake(stakes: &[(AccountId, Balance)]) -> (r: u128)
    ensures
        r == sum_amounts(stakes@),
{
    let n = stakes.len();
    let mut total: u128 = 0;
    let mut i: usize = 0;
    while i < n
        invariant
            i <= n,
            n == stakes@.len(),
            total == sum_amounts(stakes@.subrange(0, i as int)),
            total <= i * (u64::MAX as int),
        decreases n - i,
    {
        let amount = stakes[i].1;
        assert(stakes@.subrange(0, i + 1).drop_last() == stakes@.subrange(0, i as int));
        assert(total + amount <= (i + 1) * (u64::MAX as int) <= u128::MAX) by (nonlinear_arith)
            requires
                total <= i * (u64::MAX as int),
                amount <= u64::MAX,
                i < n <= usize::MAX <= u64::MAX,
        ;
        total = total + amount as u128;
        i = i + 1;
    }
    assert(stakes@.subrange(0, n as int) == stakes@);
    total
}

/// The provider's part of `fee`: eighty percent, rounded down.
pub fn provider_share(fee: u64) -> (r: u64)
    ensures
        r == fee * PROVIDER_PERCENT / 100,
        r <= fee,
{
    assert(fee * PROVIDER_PERCENT <= u128::MAX) by (nonlinear_arith)
        requires
            fee <= u64::MAX,
            PROVIDER_PERCENT == 80,
    ;
    let share = (fee as u128) * (PROVIDER_PERCENT as u128) / 100;
    assert(share <= fee) by (nonlinear_arith)
        requires
            share == fee * 80 / 100,
    ;
    share as u64
}

/// A staker's part of `pool` for a stake of `stake` out of `total`, rounded down.
pub fn staker_share(pool: u64, stake: u64, total: u128) -> (r: u64)
    requires
        0 < total,
        stake <= total,
    ensures
        r == pool * stake / (total as int),
{
    assert((pool as int) * (stake as int) <= u128::MAX) by (nonlinear_arith)
        requires
            pool <= u64::MAX,
            stake <= u64::MAX,
    ;
    let product = (pool as u128) * (stake as u128);
    assert(product / total <= pool) by (nonlinear_arith)
        requires
            product == pool * stake,
            stake <= total,
            0 < total,
    ;
    (product / total) as u64
}

/// The split of `fee` among the provider and the stakers of an oracle: the
/// provider's part, then what each staker receives, in the order of `stakes`.
/// With no stake at all the stakers' pool is left undistributed.
pub fn settlement_plan(fee: u64, stakes: &[(AccountId, Balance)]) -> (r: (
    Balance,
    Vec<(AccountId, Balance)>,
))
    ensures
        r.0 == provider_part(fee),
        r.1@ == staker_payouts(stakes@, (fee - r.0) as nat, sum_amounts(stakes@)),
{
    let provider = provider_share(fee);
    let pool = fee - provider;
    let total = total_stake(stakes);
    let mut payouts: Vec<(AccountId, Balance)> = Vec::new();
    if total == 0 {
        assert(payouts@ =~= staker_payouts(stakes@, pool as nat, total as nat));
        return (provider, payouts);
    }
    let n = stakes.len();
    let mut i: usize = 0;
    while i < n
        invariant
            i <= n,
            n == stakes@.len(),
            total == sum_amounts(stakes@),
            total > 0,
            payouts@ =~= staker_payouts(stakes@, pool as nat, total as nat).subrange(0, i as int),
        decreases n - i,
    {
        let (who, stake) = stakes[i];
        proof {
            lemma_amount_below_sum(stakes@, i as int);
        }
        let share = staker_share(pool, stake, total);
        payouts.push((who, share));
        i = i + 1;
    }
    assert(staker_payouts(stakes@, pool as nat, total as nat).subrange(0, n as int) =~= staker_payouts(
        stakes@,
        pool as nat,
        total as nat,
    ));
    (provider, payouts)
}

} // verus!
