//! The selective disclosure gate: for a party and a token it holds, decide
//! whether to open the class's aggregate to that party, gated on a quorum of
//! parties holding the token. A denial is a normal outcome and is the same
//! answer whether the token has no aggregate at all or its quorum is not met,
//! so a denied party learns nothing it did not already know.
//!
//! The quorum input is the number of parties attesting possession of the
//! token. A deployed system must gather that number by a real multi-party
//! attestation (each party contributing a participation bit, tallied before
//! any reveal); this gate takes the tally as given and fixes everything
//! downstream of it.
use crate::engine::AggregateEntry;
use crate::errors::AggError;
use vstd::prelude::*;

verus! {

/// The quorum predicate: an aggregate may be disclosed only when at least
/// `threshold` parties hold the token.
pub open spec fn quorum_met(holders: nat, threshold: nat) -> bool {
    holders >= threshold
}

/// Runtime form of the quorum predicate.
pub fn check_quorum(holders: usize, threshold: usize) -> (b: bool)
    ensures
        b == quorum_met(holders as nat, threshold as nat),
{
    holders >= threshold
}

/// Adding parties that hold a token never turns a granted disclosure into a
/// denial: the quorum predicate is monotone in the number of holders.
pub proof fn lemma_quorum_monotone(h1: nat, h2: nat, threshold: nat)
    requires
        h1 <= h2,
    ensures
        quorum_met(h1, threshold) ==> quorum_met(h2, threshold),
{
}

/// The first entry whose representative is `t`, if any.
pub open spec fn lookup(es: Seq<AggregateEntry>, t: u64) -> Option<AggregateEntry>
    decreases es.len(),
{
    if es.len() == 0 {
        Option::None
    } else if es[0].rep == t {
        Option::Some(es[0])
    } else {
        lookup(es.drop_first(), t)
    }
}

proof fn lemma_lookup_found(es: Seq<AggregateEntry>, t: u64, k: int)
    requires
        0 <= k < es.len(),
        forall|a: int| 0 <= a < k ==> (#[trigger] es[a]).rep != t,
        es[k].rep == t,
    ensures
        lookup(es, t) == Option::Some(es[k]),
    decreases k,
{
    if k > 0 {
        assert(es[0].rep != t);
        assert(forall|a: int|
            0 <= a < es.drop_first().len() ==> es.drop_first()[a] == es[a + 1]);
        lemma_lookup_found(es.drop_first(), t, k - 1);
    }
}

proof fn lemma_lookup_none(es: Seq<AggregateEntry>, t: u64)
    requires
        forall|a: int| 0 <= a < es.len() ==> (#[trigger] es[a]).rep != t,
    ensures
        lookup(es, t) == Option::None::<AggregateEntry>,
    decreases es.len(),
{
    if es.len() > 0 {
        assert(forall|a: int|
            0 <= a < es.drop_first().len() ==> es.drop_first()[a] == es[a + 1]);
        lemma_lookup_none(es.drop_first(), t);
    }
}

/// A granted disclosure: the opened aggregate and the derived statistic, the
/// arithmetic mean of the scores in tenths (rounded toward zero).
#[derive(Clone, Copy, Debug, PartialEq, Eq, Structural)]
pub struct Disclosure {
    pub sum: u64,
    pub count: usize,
    pub mean_tenths: u128,
}

/// The reveal decision for one (party, token) pair, for a party that holds
/// `token`. `Ok(None)` — not revealed — covers both "no aggregate for this
/// token" and "quorum not met", indistinguishably. When the quorum is met,
/// the entry is opened; a count of zero can then only mean the entry did not
/// come from a correct aggregation pass, and is signaled as
/// `DivisionUndefined` rather than propagated as an arithmetic fault.
pub fn disclose(
    entries: &Vec<AggregateEntry>,
    token: u64,
    holders: usize,
    threshold: usize,
) -> (r: Result<Option<Disclosure>, AggError>)
    ensures
        match lookup(entries@, token) {
            Option::None => r == Ok::<Option<Disclosure>, AggError>(Option::None),
            Option::Some(e) => {
                if !quorum_met(holders as nat, threshold as nat) {
                    r == Ok::<Option<Disclosure>, AggError>(Option::None)
                } else if e.count == 0 {
                    r == Err::<Option<Disclosure>, AggError>(AggError::DivisionUndefined)
                } else {
                    match r {
                        Ok(Some(d)) => {
                            &&& d.sum == e.sum
                            &&& d.count == e.count
                            &&& d.mean_tenths == (e.sum as int * 10) / (e.count as int)
                        },
                        _ => false,
                    }
                }
            },
        },
{
    let n = entries.len();
    let mut k: usize = 0;
    while k < n
        invariant
            n == entries@.len(),
            k <= n,
            forall|a: int| 0 <= a < k ==> (#[trigger] entries@[a]).rep != token,
        decreases n - k,
    {
        if entries[k].rep == token {
            proof {
                lemma_lookup_found(entries@, token, k as int);
            }
            if !check_quorum(holders, threshold) {
                return Ok(None);
            }
            let count = entries[k].count;
            if count == 0 {
                return Err(AggError::DivisionUndefined);
            }
            let sum = entries[k].sum;
            let mean_tenths: u128 = (sum as u128) * 10 / (count as u128);
            return Ok(Some(Disclosure { sum, count, mean_tenths }));
        }
        k = k + 1;
    }
    proof {
        lemma_lookup_none(entries@, token);
    }
    Ok(None)
}

} // verus!
