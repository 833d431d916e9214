//! The oracle registry: descriptors and answers keyed by (owner, oracle id),
//! stakes keyed by (oracle account, staker), and the operations that change
//! them.  Each operation is one transition that either succeeds or fails as a
//! whole; the caller is the account that signed the request.
use vstd::prelude::*;

use crate::double_map::DoubleMap;
use crate::json::{extract, json_check_validity, json_get_value, json_valid};
use crate::ledger::Currency;
use crate::settlement::{
    fee_value, parse_fees, provider_part, settlement_plan, staker_payouts, sum_amounts,
};
use crate::{AccountId, Balance, OracleId};

verus! {

/// Shortest descriptor accepted, in bytes.
pub const MIN_DESCRIPTOR_LEN: usize = 8;

/// Longest descriptor accepted, in bytes.
pub const MAX_DESCRIPTOR_LEN: usize = 8192;

/// Shortest short description accepted, in bytes.
pub const MIN_SHORT_DESCRIPTION_LEN: usize = 4;

/// Shortest description accepted, in bytes.
pub const MIN_DESCRIPTION_LEN: usize = 4;

/// Shortest API address accepted, in bytes.
pub const MIN_API_URL_LEN: usize = 8;

/// Why an operation was refused.
#[derive(Clone, Copy, Debug, PartialEq, Eq, Structural)]
pub enum Error {
    /// The descriptor is too short to be valid.
    TooShort,
    /// The descriptor is too long to be valid.
    TooLong,
    /// The oracle id is 0.
    InvalidValue,
    /// The descriptor is not structurally valid JSON.
    InvalidJson,
    /// The short description is missing or too short.
    InvalidShortDescription,
    /// The description is missing or too short.
    InvalidDescription,
    /// The API address is missing or too short.
    InvalidUrl,
    /// The fees are missing, not a number, or 0.
    InvalidFees,
    /// No such oracle under this account.
    OracleNotFound,
    /// The caller already has an oracle with this id.
    OracleDuplicated,
    /// The stake could not be reserved.
    NotEnoughFunds,
    /// The provider's part of the fee could not be paid.
    OracleSettlementError,
    /// A staker's part of the fee could not be paid.
    StakerSettlementError,
}

/// What a successful operation reports.
#[derive(Debug, PartialEq, Eq)]
pub enum Event {
    /// A new oracle was registered: oracle id, owner.
    NewOracle(OracleId, AccountId),
    /// An oracle was removed: oracle id, owner.
    RemovedOracle(OracleId, AccountId),
    /// An update of an oracle was requested and paid: oracle id, oracle
    /// account, request parameters.
    RequestOracleUpdate(OracleId, AccountId, Vec<u8>),
    /// An oracle wrote its answer: oracle id, owner.
    OracleUpdate(OracleId, AccountId),
    /// A stake was locked: staker, oracle account.
    OracleLockedStakes(AccountId, AccountId),
    /// A stake was released: staker, oracle account.
    OracleUnlockedStakes(AccountId, AccountId),
}

/// The bytes of `shortdescription`.
pub open spec fn short_description_key() -> Seq<u8> {
    seq![0x73, 0x68, 0x6f, 0x72, 0x74] + description_key()
}

/// The bytes of `description`.
pub open spec fn description_key() -> Seq<u8> {
    seq![0x64, 0x65, 0x73, 0x63, 0x72, 0x69, 0x70, 0x74, 0x69, 0x6f, 0x6e]
}

/// The bytes of `apiurl`.
pub open spec fn api_url_key() -> Seq<u8> {
    seq![0x61, 0x70, 0x69, 0x75, 0x72, 0x6c]
}

/// The bytes of `fees`.
pub open spec fn fees_key() -> Seq<u8> {
    seq![0x66, 0x65, 0x65, 0x73]
}

fn short_description_key_bytes() -> (r: Vec<u8>)
    ensures
        r@ == short_description_key(),
{
    let r = vec![0x73, 0x68, 0x6f, 0x72, 0x74, 0x64, 0x65, 0x73, 0x63, 0x72, 0x69, 0x70, 0x74, 0x69, 0x6f, 0x6e];
    assert(r@ =~= short_description_key());
    r
}

fn description_key_bytes() -> (r: Vec<u8>)
    ensures
        r@ == description_key(),
{
    let r = vec![0x64, 0x65, 0x73, 0x63, 0x72, 0x69, 0x70, 0x74, 0x69, 0x6f, 0x6e];
    assert(r@ =~= description_key());
    r
}

fn api_url_key_bytes() -> (r: Vec<u8>)
    ensures
        r@ == api_url_key(),
{
    let r = vec![0x61, 0x70, 0x69, 0x75, 0x72, 0x6c];
    assert(r@ =~= api_url_key());
    r
}

fn fees_key_bytes() -> (r: Vec<u8>)
    ensures
        r@ == fees_key(),
{
    let r = vec![0x66, 0x65, 0x65, 0x73];
    assert(r@ =~= fees_key());
    r
}

/// The fee that a descriptor asks for each request: its `fees` field read as
/// a number, 0 when it is not one.
pub open spec fn descriptor_fee(d: Seq<u8>) -> u64 {
    fee_value(extract(d, fees_key()))
}

/// The outcome of the checks on a new oracle, in the order in which they are
/// made; `taken` tells whether the caller already has an oracle with this id.
pub open spec fn registration_check(id: OracleId, d: Seq<u8>, taken: bool) -> Result<(), Error> {
    if d.len() < MIN_DESCRIPTOR_LEN {
        Err(Error::TooShort)
    } else if d.len() > MAX_DESCRIPTOR_LEN {
        Err(Error::TooLong)
    } else if id == 0 {
        Err(Error::InvalidValue)
    } else if taken {
        Err(Error::OracleDuplicated)
    } else if !json_valid(d) {
        Err(Error::InvalidJson)
    } else if extract(d, short_description_key()).len() < MIN_SHORT_DESCRIPTION_LEN {
        Err(Error::InvalidShortDescription)
    } else if extract(d, description_key()).len() < MIN_DESCRIPTION_LEN {
        Err(Error::InvalidDescription)
    } else if extract(d, api_url_key()).len() < MIN_API_URL_LEN {
        Err(Error::InvalidUrl)
    } else if descriptor_fee(d) == 0 {
        Err(Error::InvalidFees)
    } else {
        Ok(())
    }
}

/// The key of an oracle: its owner and its id.
pub open spec fn oracle_key(owner: AccountId, id: OracleId) -> (u64, u64) {
    (owner, id as u64)
}

/// The stakes on `oracle`, as (staker, amount) in the order of `entries`.
pub open spec fn stakes_for(entries: Seq<(u64, u64, Balance)>, oracle: AccountId) -> Seq<
    (AccountId, Balance),
>
    decreases entries.len(),
{
    if entries.len() == 0 {
        seq![]
    } else {
        let rest = stakes_for(entries.drop_last(), oracle);
        let e = entries.last();
        if e.0 == oracle {
            rest.push((e.1, e.2))
        } else {
            rest
        }
    }
}

/// What account `x` receives from a list of (receiver, amount) payments.
pub open spec fn received(payments: Seq<(AccountId, Balance)>, x: AccountId) -> nat
    decreases payments.len(),
{
    if payments.len() == 0 {
        0
    } else {
        received(payments.drop_last(), x) + if payments.last().0 == x {
            payments.last().1 as nat
        } else {
            0
        }
    }
}

/// `after` is `before` once `payer` has made each of `payments`.
pub open spec fn paid<C: Currency>(
    before: C,
    after: C,
    payer: AccountId,
    payments: Seq<(AccountId, Balance)>,
) -> bool {
    &&& forall|x: AccountId| #[trigger]
        after.free(x) == before.free(x) - (if x == payer {
            sum_amounts(payments) as int
        } else {
            0
        }) + received(payments, x)
    &&& forall|x: AccountId| #[trigger] after.reserved(x) == before.reserved(x)
}

/// The registry.
pub struct Module {
    oracles: DoubleMap<Vec<u8>>,
    answers: DoubleMap<Vec<u8>>,
    stakes: DoubleMap<Balance>,
}

impl Module {
    /// The descriptors of the registered oracles, by (owner, id).
    pub closed spec fn oracles(&self) -> Map<(u64, u64), Seq<u8>> {
        self.oracles@.map_values(|v: Vec<u8>| v@)
    }

    /// The latest answer of each oracle that has answered, by (owner, id).
    pub closed spec fn answers(&self) -> Map<(u64, u64), Seq<u8>> {
        self.answers@.map_values(|v: Vec<u8>| v@)
    }

    /// The locked stakes, by (oracle account, staker).
    pub closed spec fn stakes(&self) -> Map<(u64, u64), Balance> {
        self.stakes@
    }

    /// The locked stakes as (oracle account, staker, amount), in the order in
    /// which they were first locked.
    pub closed spec fn stake_entries(&self) -> Seq<(u64, u64, Balance)> {
        self.stakes.entries()
    }

    pub closed spec fn wf(&self) -> bool {
        &&& self.oracles.wf()
        &&& self.answers.wf()
        &&& self.stakes.wf()
    }

    /// The stake that `staker` holds on `oracle`, 0 when none.
    pub open spec fn stake_of(&self, oracle: AccountId, staker: AccountId) -> nat {
        if self.stakes().contains_key((oracle, staker)) {
            self.stakes()[(oracle, staker)] as nat
        } else {
            0
        }
    }

    /// An empty registry.
    pub fn new() -> (r: Self)
        ensures
            r.wf(),
            r.oracles() == Map::<(u64, u64), Seq<u8>>::empty(),
            r.answers() == Map::<(u64, u64), Seq<u8>>::empty(),
            r.stakes() == Map::<(u64, u64), Balance>::empty(),
    {
        let r = Module { oracles: DoubleMap::new(), answers: DoubleMap::new(), stakes: DoubleMap::new() };
        assert(r.oracles() =~= Map::<(u64, u64), Seq<u8>>::empty());
        assert(r.answers() =~= Map::<(u64, u64), Seq<u8>>::empty());
        r
    }

    /// The descriptor of the oracle `oracleid` of `owner`.
    pub fn get_oracle(&self, owner: AccountId, oracleid: OracleId) -> (r: Option<&Vec<u8>>)
        requires
            self.wf(),
        ensures
            match r {
                Some(d) => self.oracles().contains_key(oracle_key(owner, oracleid)) && d@ == self.oracles()[oracle_key(owner, oracleid)],
                None => !self.oracles().contains_key(oracle_key(owner, oracleid)),
            },
    {
        self.oracles.get(owner, oracleid as u64)
    }

    /// The latest answer of the oracle `oracleid` of `owner`.
    pub fn get_oracledata(&self, owner: AccountId, oracleid: OracleId) -> (r: Option<&Vec<u8>>)
        requires
            self.wf(),
        ensures
            match r {
                Some(d) => self.answers().contains_key(oracle_key(owner, oracleid)) && d@ == self.answers()[oracle_key(owner, oracleid)],
                None => !self.answers().contains_key(oracle_key(owner, oracleid)),
            },
    {
        self.answers.get(owner, oracleid as u64)
    }

    /// The stake of `staker` on `oracleaccount`, 0 when none.
    pub fn get_oracle_account_stakes(&self, oracleaccount: AccountId, staker: AccountId) -> (r: Balance)
        requires
            self.wf(),
        ensures
            r == self.stake_of(oracleaccount, staker),
    {
        match self.stakes.get(oracleaccount, staker) {
            Some(v) => *v,
            None => 0,
        }
    }

    /// Registers the oracle `oracleid` of `sender`, described by the JSON
    /// payload `oracledata`.  The payload must be 8 to 8192 bytes long and
    /// structurally valid, with a `shortdescription` and a `description` of at
    /// least 4 bytes, an `apiurl` of at least 8 and `fees` above 0; the id must
    /// be above 0 and not yet in use by `sender`.
    pub fn new_oracle(&mut self, sender: AccountId, oracleid: OracleId, oracledata: Vec<u8>) -> (r:
        Result<Event, Error>)
        requires
            old(self).wf(),
        ensures
            final(self).wf(),
            ({
                let check = registration_check(
                    oracleid,
                    oracledata@,
                    old(self).oracles().contains_key(oracle_key(sender, oracleid)),
                );
                match check {
                    Ok(()) => r == Ok::<Event, Error>(Event::NewOracle(oracleid, sender))
                        && final(self).oracles() == old(self).oracles().insert(
                        oracle_key(sender, oracleid),
                        oracledata@,
                    ),
                    Err(e) => r == Err::<Event, Error>(e) && final(self).oracles() == old(
                        self,
                    ).oracles(),
                }
            }),
            final(self).answers() == old(self).answers(),
            final(self).stakes() == old(self).stakes(),
            final(self).stake_entries() == old(self).stake_entries(),
    {
        if oracledata.len() < MIN_DESCRIPTOR_LEN {
            return Err(Error::TooShort);
        }
        if oracledata.len() > MAX_DESCRIPTOR_LEN {
            return Err(Error::TooLong);
        }
        if oracleid == 0 {
            return Err(Error::InvalidValue);
        }
        let taken = self.oracles.contains_key(sender, oracleid as u64);
        assert(taken == old(self).oracles().contains_key(oracle_key(sender, oracleid)));
        if taken {
            return Err(Error::OracleDuplicated);
        }
        if !json_check_validity(oracledata.as_slice()) {
            return Err(Error::InvalidJson);
        }
        let short_description = json_get_value(oracledata.as_slice(), short_description_key_bytes().as_slice());
        if short_description.len() < MIN_SHORT_DESCRIPTION_LEN {
            return Err(Error::InvalidShortDescription);
        }
        let description = json_get_value(oracledata.as_slice(), description_key_bytes().as_slice());
        if description.len() < MIN_DESCRIPTION_LEN {
            return Err(Error::InvalidDescription);
        }
        let api_url = json_get_value(oracledata.as_slice(), api_url_key_bytes().as_slice());
        if api_url.len() < MIN_API_URL_LEN {
            return Err(Error::InvalidUrl);
        }
        let fees = json_get_value(oracledata.as_slice(), fees_key_bytes().as_slice());
        if parse_fees(fees.as_slice()) == 0 {
            return Err(Error::InvalidFees);
        }
        let ghost d = oracledata@;
        self.oracles.insert(sender, oracleid as u64, oracledata);
        assert(self.oracles() =~= old(self).oracles().insert(oracle_key(sender, oracleid), d));
        Ok(Event::NewOracle(oracleid, sender))
    }

    /// Removes the oracle `oracleid` of `sender`.  Only the owner can address
    /// its oracle: any other caller finds none.
    pub fn remove_oracle(&mut self, sender: AccountId, oracleid: OracleId) -> (r: Result<Event, Error>)
        requires
            old(self).wf(),
        ensures
            final(self).wf(),
            old(self).oracles().contains_key(oracle_key(sender, oracleid)) ==> r == Ok::<
                Event,
                Error,
            >(Event::RemovedOracle(oracleid, sender)),
            !old(self).oracles().contains_key(oracle_key(sender, oracleid)) ==> r == Err::<
                Event,
                Error,
            >(Error::OracleNotFound),
            final(self).oracles() == old(self).oracles().remove(oracle_key(sender, oracleid)),
            final(self).answers() == old(self).answers(),
            final(self).stakes() == old(self).stakes(),
            final(self).stake_entries() == old(self).stake_entries(),
    {
        match self.oracles.remove(sender, oracleid as u64) {
            Some(_) => {
                assert(self.oracles() =~= old(self).oracles().remove(oracle_key(sender, oracleid)));
                Ok(Event::RemovedOracle(oracleid, sender))
            },
            None => {
                assert(self.oracles() =~= old(self).oracles().remove(oracle_key(sender, oracleid)));
                Err(Error::OracleNotFound)
            },
        }
    }

    /// Stores `oracledata` as the latest answer of the oracle `oracleid` of
    /// `sender`, which must be registered.  The answer is not checked.
    pub fn oracle_update(&mut self, sender: AccountId, oracleid: OracleId, oracledata: Vec<u8>) -> (r:
        Result<Event, Error>)
        requires
            old(self).wf(),
        ensures
            final(self).wf(),
            final(self).oracles() == old(self).oracles(),
            final(self).stakes() == old(self).stakes(),
            final(self).stake_entries() == old(self).stake_entries(),
            old(self).oracles().contains_key(oracle_key(sender, oracleid)) ==> r == Ok::<
                Event,
                Error,
            >(Event::OracleUpdate(oracleid, sender)) && final(self).answers() == old(
                self,
            ).answers().insert(oracle_key(sender, oracleid), oracledata@),
            !old(self).oracles().contains_key(oracle_key(sender, oracleid)) ==> r == Err::<
                Event,
                Error,
            >(Error::OracleNotFound) && final(self).answers() == old(self).answers(),
    {
        if !self.oracles.contains_key(sender, oracleid as u64) {
            return Err(Error::OracleNotFound);
        }
        let ghost d = oracledata@;
        self.answers.insert(sender, oracleid as u64, oracledata);
        assert(self.answers() =~= old(self).answers().insert(oracle_key(sender, oracleid), d));
        Ok(Event::OracleUpdate(oracleid, sender))
    }

    /// Locks `amount` of `sender`'s tokens as its stake on `oracleaccount`.  The
    /// new amount is reserved first; a previous stake of `sender` on the same
    /// oracle is then released, and the stake becomes `amount`: it replaces the
    /// previous one, it does not add to it.
    pub fn lock_oracle_stakes<C: Currency>(
        &mut self,
        ledger: &mut C,
        sender: AccountId,
        oracleaccount: AccountId,
        amount: Balance,
    ) -> (r: Result<Event, Error>)
        requires
            old(self).wf(),
            old(ledger).wf(),
        ensures
            final(self).wf(),
            final(ledger).wf(),
            final(self).oracles() == old(self).oracles(),
            final(self).answers() == old(self).answers(),
            r is Ok <==> old(ledger).can_reserve(sender, amount),
            r is Err ==> r == Err::<Event, Error>(Error::NotEnoughFunds) && *final(ledger) == *old(
                ledger,
            ) && final(self).stakes() == old(self).stakes() && final(self).stake_entries() == old(
                self,
            ).stake_entries(),
            r is Ok ==> r == Ok::<Event, Error>(Event::OracleLockedStakes(sender, oracleaccount))
                && final(self).stakes() == old(self).stakes().insert((oracleaccount, sender), amount)
                && amount <= old(ledger).free(sender) && locked(
                *old(ledger),
                *final(ledger),
                sender,
                amount as nat,
                old(self).stake_of(oracleaccount, sender),
            ),
    {
        match ledger.reserve(sender, amount) {
            Ok(()) => {},
            Err(_) => {
                return Err(Error::NotEnoughFunds);
            },
        }
        let previous = match self.stakes.remove(oracleaccount, sender) {
            Some(v) => v,
            None => 0,
        };
        ledger.unreserve(sender, previous);
        self.stakes.insert(oracleaccount, sender, amount);
        assert(self.stakes() =~= old(self).stakes().insert((oracleaccount, sender), amount));
        Ok(Event::OracleLockedStakes(sender, oracleaccount))
    }

    /// Releases the stake of `sender` on `oracleaccount`; with no stake there
    /// is nothing to release, which is no error.
    pub fn unlock_oracle_stakes<C: Currency>(
        &mut self,
        ledger: &mut C,
        sender: AccountId,
        oracleaccount: AccountId,
    ) -> (r: Event)
        requires
            old(self).wf(),
            old(ledger).wf(),
        ensures
            final(self).wf(),
            final(ledger).wf(),
            r == Event::OracleUnlockedStakes(sender, oracleaccount),
            final(self).oracles() == old(self).oracles(),
            final(self).answers() == old(self).answers(),
            final(self).stakes() == old(self).stakes().remove((oracleaccount, sender)),
            unlocked(*old(ledger), *final(ledger), sender, old(self).stake_of(oracleaccount, sender)),
    {
        let previous = match self.stakes.remove(oracleaccount, sender) {
            Some(v) => v,
            None => 0,
        };
        ledger.unreserve(sender, previous);
        Event::OracleUnlockedStakes(sender, oracleaccount)
    }

    /// The stakes on `oracle`, as (staker, amount), in the order in which they
    /// were first locked.
    pub fn stakes_of(&self, oracle: AccountId) -> (r: Vec<(AccountId, Balance)>)
        requires
            self.wf(),
        ensures
            r@ == stakes_for(self.stake_entries(), oracle),
    {
        let n = self.stakes.len();
        let mut r: Vec<(AccountId, Balance)> = Vec::new();
        let mut i: usize = 0;
        while i < n
            invariant
                i <= n,
                n == self.stake_entries().len(),
                r@ == stakes_for(self.stake_entries().subrange(0, i as int), oracle),
            decreases n - i,
        {
            let e = self.stakes.entry(i);
            assert(self.stake_entries().subrange(0, i + 1).drop_last() =~= self.stake_entries().subrange(
                0,
                i as int,
            ));
            if e.0 == oracle {
                r.push((e.1, e.2));
            }
            i = i + 1;
        }
        assert(self.stake_entries().subrange(0, n as int) =~= self.stake_entries());
        r
    }

    /// Requests an update of the oracle `oracleid` of `oracleaccount`, paid by
    /// `sender`: eighty percent of the oracle's fee goes to `oracleaccount`,
    /// the rest to the oracle's stakers in proportion to their stakes.  With
    /// no stake at all only the provider is paid.  Where a payment is refused
    /// the request fails; the payments already made are left to the caller's
    /// transaction to undo.
    pub fn request_oracle_update<C: Currency>(
        &self,
        ledger: &mut C,
        sender: AccountId,
        oracleaccount: AccountId,
        oracleid: OracleId,
        parameters: Vec<u8>,
    ) -> (r: Result<Event, Error>)
        requires
            self.wf(),
            old(ledger).wf(),
        ensures
            final(ledger).wf(),
            !self.oracles().contains_key(oracle_key(oracleaccount, oracleid)) ==> r == Err::<
                Event,
                Error,
            >(Error::OracleNotFound) && *final(ledger) == *old(ledger),
            self.oracles().contains_key(oracle_key(oracleaccount, oracleid)) ==> {
                let fee = descriptor_fee(self.oracles()[oracle_key(oracleaccount, oracleid)]);
                let stakes = stakes_for(self.stake_entries(), oracleaccount);
                let provider = provider_part(fee);
                let payouts = staker_payouts(stakes, (fee - provider) as nat, sum_amounts(stakes));
                let payments = seq![(oracleaccount, provider)] + payouts;
                &&& r is Ok ==> r == Ok::<Event, Error>(
                    Event::RequestOracleUpdate(oracleid, oracleaccount, parameters),
                ) && paid(*old(ledger), *final(ledger), sender, payments)
                &&& r is Err ==> r == Err::<Event, Error>(Error::OracleSettlementError) || r == Err::<
                    Event,
                    Error,
                >(Error::StakerSettlementError)
                &&& r == Err::<Event, Error>(Error::OracleSettlementError) <==> !old(
                    ledger,
                ).can_transfer(sender, oracleaccount, provider)
                &&& r == Err::<Event, Error>(Error::OracleSettlementError) ==> *final(ledger) == *old(
                    ledger,
                )
                &&& r == Err::<Event, Error>(Error::StakerSettlementError) ==> sum_amounts(stakes) > 0
                    && exists|i: int|
                    0 <= i < payouts.len() && #[trigger] refused_after(
                        *old(ledger),
                        sender,
                        payments,
                        i,
                    )
                &&& sum_amounts(stakes) == 0 && old(ledger).can_transfer(
                    sender,
                    oracleaccount,
                    provider,
                ) ==> r is Ok && paid(
                    *old(ledger),
                    *final(ledger),
                    sender,
                    seq![(oracleaccount, provider)],
                )
            },
    {
        let descriptor = match self.oracles.get(oracleaccount, oracleid as u64) {
            Some(d) => d,
            None => {
                return Err(Error::OracleNotFound);
            },
        };
        let ghost d = self.oracles()[oracle_key(oracleaccount, oracleid)];
        assert(descriptor@ == d);
        let fees = json_get_value(descriptor.as_slice(), fees_key_bytes().as_slice());
        let fee = parse_fees(fees.as_slice());
        let stakes = self.stakes_of(oracleaccount);
        let (provider, payouts) = settlement_plan(fee, stakes.as_slice());
        let ghost payments = seq![(oracleaccount, provider)] + payouts@;
        let ghost start = *old(ledger);
        match ledger.transfer(sender, oracleaccount, provider) {
            Ok(()) => {},
            Err(_) => {
                return Err(Error::OracleSettlementError);
            },
        }
        let ghost first = payments.subrange(0, 1);
        assert(first.drop_last() =~= Seq::<(AccountId, Balance)>::empty());
        assert(first.last() == (oracleaccount, provider));
        assert(sum_amounts(first.drop_last()) == 0);
        assert(sum_amounts(first) == provider);
        assert forall|x: AccountId| #[trigger] received(first, x) == (if x == oracleaccount {
            provider as nat
        } else {
            0
        }) by {
            assert(received(first.drop_last(), x) == 0);
        }
        let ghost stakes_spec = stakes_for(self.stake_entries(), oracleaccount);
        assert(payouts@.len() > 0 ==> sum_amounts(stakes_spec) > 0) by {
            if payouts@.len() > 0 && sum_amounts(stakes_spec) == 0 {
                assert(payouts@ == staker_payouts(stakes_spec, (fee - provider) as nat, 0));
            }
        }
        let n = payouts.len();
        let mut i: usize = 0;
        while i < n
            invariant
                i <= n,
                n == payouts@.len(),
                payments == seq![(oracleaccount, provider)] + payouts@,
                ledger.wf(),
                start == *old(ledger),
                start.can_transfer(sender, oracleaccount, provider),
                paid(start, *ledger, sender, payments.subrange(0, i + 1)),
                n > 0 ==> sum_amounts(stakes_spec) > 0,
                self.oracles().contains_key(oracle_key(oracleaccount, oracleid)),
                stakes_spec == stakes_for(self.stake_entries(), oracleaccount),
                fee == descriptor_fee(self.oracles()[oracle_key(oracleaccount, oracleid)]),
                provider == provider_part(fee),
                payouts@ == staker_payouts(stakes_spec, (fee - provider) as nat, sum_amounts(stakes_spec)),
            decreases n - i,
        {
            let (to, amount) = payouts[i];
            let ghost before = *ledger;
            match ledger.transfer(sender, to, amount) {
                Ok(()) => {},
                Err(_) => {
                    assert(payments[i + 1] == (to, amount));
                    assert(paid(start, before, sender, payments.subrange(0, i + 1))
                        && !before.can_transfer(sender, to, amount));
                    assert(refused_after(start, sender, payments, i as int));
                    return Err(Error::StakerSettlementError);
                },
            }
            let ghost done = payments.subrange(0, i + 2);
            assert(done.drop_last() =~= payments.subrange(0, i + 1));
            assert(done.last() == (to, amount));
            i = i + 1;
        }
        assert(payments.subrange(0, n + 1) =~= payments);
        Ok(Event::RequestOracleUpdate(oracleid, oracleaccount, parameters))
    }
}

/// After making the first `i + 1` of `payments` from `before`, the currency
/// may refuse the next one.
pub open spec fn refused_after<C: Currency>(
    before: C,
    payer: AccountId,
    payments: Seq<(AccountId, Balance)>,
    i: int,
) -> bool {
    exists|mid: C|
        #[trigger] paid(before, mid, payer, payments.subrange(0, i + 1)) && !mid.can_transfer(
            payer,
            payments[i + 1].0,
            payments[i + 1].1,
        )
}

/// `after` is `before` once `who` has locked `amount` in place of a stake of
/// `previous`: `amount` is reserved, then `previous` is released as far as it
/// is reserved.
pub open spec fn locked<C: Currency>(
    before: C,
    after: C,
    who: AccountId,
    amount: nat,
    previous: nat,
) -> bool {
    let reserved = before.reserved(who) + amount;
    let back = if previous <= reserved {
        previous
    } else {
        reserved
    };
    &&& forall|x: AccountId| #[trigger]
        after.free(x) == before.free(x) - (if x == who {
            amount - back
        } else {
            0
        })
    &&& forall|x: AccountId| #[trigger]
        after.reserved(x) == before.reserved(x) + (if x == who {
            amount - back
        } else {
            0
        })
}

/// `after` is `before` once a stake of `previous` of `who` is released, as far
/// as it is reserved.
pub open spec fn unlocked<C: Currency>(before: C, after: C, who: AccountId, previous: nat) -> bool {
    let back = if previous <= before.reserved(who) {
        previous
    } else {
        before.reserved(who)
    };
    &&& forall|x: AccountId| #[trigger]
        after.free(x) == before.free(x) + (if x == who {
            back as int
        } else {
            0
        })
    &&& forall|x: AccountId| #[trigger]
        after.reserved(x) == before.reserved(x) - (if x == who {
            back as int
        } else {
            0
        })
}

} // verus!
