//! The plaintext side of one party: its store of (token, score) records,
//! owned by that party alone, and the tally of how many parties hold a given
//! token — the quorum's input.
use crate::model::has_token;
use crate::token::{hash_id, token_of};
use vstd::prelude::*;

verus! {

/// One party's records: each client the party knows, as the pair of the
/// client's pseudonymous token (derived from the entity id and this party's
/// id) and the party's score for that client. The pairs never leave the
/// party except sealed for the aggregation engine.
pub struct PartyStore {
    party: u8,
    records: Vec<(u64, u64)>,
}

impl PartyStore {
    pub closed spec fn party_id(self) -> u8 {
        self.party
    }

    pub closed spec fn recs(self) -> Seq<(u64, u64)> {
        self.records@
    }

    /// An empty store for one party.
    pub fn new(party: u8) -> (s: PartyStore)
        ensures
            s.party_id() == party,
            s.recs() == Seq::<(u64, u64)>::empty(),
    {
        PartyStore { party, records: Vec::new() }
    }

    /// Record one client: tokenize the entity id under this party's id and
    /// append the (token, score) pair.
    pub fn add_client(&mut self, person: u64, score: u64)
        ensures
            final(self).party_id() == old(self).party_id(),
            final(self).recs() == old(self).recs().push(
                (token_of(person, old(self).party_id()), score),
            ),
    {
        let t = hash_id(person, self.party);
        self.records.push((t, score));
    }

    /// Whether this party holds the token — its own attestation bit for the
    /// quorum tally.
    pub fn holds(&self, token: u64) -> (b: bool)
        ensures
            b == has_token(self.recs(), token),
    {
        let n = self.records.len();
        let mut k: usize = 0;
        while k < n
            invariant
                n == self.records@.len(),
                k <= n,
                forall|a: int| 0 <= a < k ==> (#[trigger] self.records@[a]).0 != token,
            decreases n - k,
        {
            if self.records[k].0 == token {
                return true;
            }
            k = k + 1;
        }
        false
    }

    /// The party's records, read-only, for sealing by the transport.
    pub fn records(&self) -> (r: &Vec<(u64, u64)>)
        ensures
            r@ == self.recs(),
    {
        &self.records
    }
}

/// Number of the given parties that hold token `t`.
pub open spec fn holders_count(ss: Seq<PartyStore>, t: u64) -> int
    decreases ss.len(),
{
    if ss.len() == 0 {
        0
    } else {
        (if has_token(ss[0].recs(), t) {
            1int
        } else {
            0int
        }) + holders_count(ss.drop_first(), t)
    }
}

proof fn lemma_holders_push(ss: Seq<PartyStore>, x: PartyStore, t: u64)
    ensures
        holders_count(ss.push(x), t) == holders_count(ss, t) + (if has_token(x.recs(), t) {
            1int
        } else {
            0int
        }),
    decreases ss.len(),
{
    if ss.len() == 0 {
        assert(ss.push(x).len() == 1);
        assert(ss.push(x)[0] == x);
        assert(ss.push(x).drop_first() =~= Seq::<PartyStore>::empty());
        assert(holders_count(ss.push(x).drop_first(), t) == 0);
        assert(holders_count(ss, t) == 0);
    } else {
        assert(ss.push(x)[0] == ss[0]);
        assert(ss.push(x).drop_first() =~= ss.drop_first().push(x));
        lemma_holders_push(ss.drop_first(), x, t);
        assert(holders_count(ss.push(x), t) == (if has_token(ss[0].recs(), t) {
            1int
        } else {
            0int
        }) + holders_count(ss.drop_first().push(x), t));
    }
}

/// All parties' records as one pool, in party order: what one aggregation
/// run consumes.
pub open spec fn pooled(ss: Seq<PartyStore>) -> Seq<(u64, u64)>
    decreases ss.len(),
{
    if ss.len() == 0 {
        Seq::<(u64, u64)>::empty()
    } else {
        ss[0].recs() + pooled(ss.drop_first())
    }
}

proof fn lemma_pooled_push(ss: Seq<PartyStore>, x: PartyStore)
    ensures
        pooled(ss.push(x)) == pooled(ss) + x.recs(),
    decreases ss.len(),
{
    if ss.len() == 0 {
        assert(ss.push(x).len() == 1);
        assert(ss.push(x)[0] == x);
        assert(ss.push(x).drop_first() =~= Seq::<PartyStore>::empty());
        assert(pooled(ss.push(x).drop_first()) =~= Seq::<(u64, u64)>::empty());
        assert(pooled(ss.push(x)) =~= x.recs());
        assert(pooled(ss) + x.recs() =~= x.recs());
    } else {
        assert(ss.push(x)[0] == ss[0]);
        assert(ss.push(x).drop_first() =~= ss.drop_first().push(x));
        lemma_pooled_push(ss.drop_first(), x);
        assert(pooled(ss.push(x)) == ss[0].recs() + (pooled(ss.drop_first()) + x.recs()));
        assert(ss[0].recs() + (pooled(ss.drop_first()) + x.recs()) =~= (ss[0].recs() + pooled(
            ss.drop_first(),
        )) + x.recs());
    }
}

/// Gather every party's records into the run's pool, party by party, in
/// order.
pub fn pool_records(stores: &Vec<PartyStore>) -> (out: Vec<(u64, u64)>)
    ensures
        out@ == pooled(stores@),
{
    let mut out: Vec<(u64, u64)> = Vec::new();
    let total = stores.len();
    let mut k: usize = 0;
    while k < total
        invariant
            total == stores@.len(),
            k <= total,
            out@ == pooled(stores@.subrange(0, k as int)),
        decreases total - k,
    {
        proof {
            assert(stores@.subrange(0, k + 1) =~= stores@.subrange(0, k as int).push(
                stores@[k as int],
            ));
            lemma_pooled_push(stores@.subrange(0, k as int), stores@[k as int]);
        }
        let recs = stores[k].records();
        let ghost before = pooled(stores@.subrange(0, k as int));
        proof {
            assert(before + recs@.subrange(0, 0) =~= before);
        }
        let m = recs.len();
        let mut j: usize = 0;
        while j < m
            invariant
                total == stores@.len(),
                k < total,
                m == recs@.len(),
                j <= m,
                recs@ == stores@[k as int].recs(),
                before == pooled(stores@.subrange(0, k as int)),
                out@ == before + recs@.subrange(0, j as int),
            decreases m - j,
        {
            out.push(recs[j]);
            proof {
                assert(recs@.subrange(0, j + 1) =~= recs@.subrange(0, j as int).push(
                    recs@[j as int],
                ));
                assert(before + recs@.subrange(0, j + 1) =~= (before + recs@.subrange(
                    0,
                    j as int,
                )).push(recs@[j as int]));
            }
            j = j + 1;
        }
        proof {
            assert(recs@.subrange(0, m as int) =~= recs@);
        }
        k = k + 1;
    }
    proof {
        assert(stores@.subrange(0, total as int) =~= stores@);
    }
    out
}

/// Tally the parties holding `token`: the quorum predicate's input.
pub fn parties_holding(stores: &Vec<PartyStore>, token: u64) -> (n: usize)
    ensures
        n == holders_count(stores@, token),
{
    let total = stores.len();
    let mut count: usize = 0;
    let mut k: usize = 0;
    while k < total
        invariant
            total == stores@.len(),
            k <= total,
            count <= k,
            count as int == holders_count(stores@.subrange(0, k as int), token),
        decreases total - k,
    {
        proof {
            assert(stores@.subrange(0, k + 1) =~= stores@.subrange(0, k as int).push(
                stores@[k as int],
            ));
            lemma_holders_push(stores@.subrange(0, k as int), stores@[k as int], token);
        }
        if stores[k].holds(token) {
            count = count + 1;
        }
        k = k + 1;
    }
    proof {
        assert(stores@.subrange(0, total as int) =~= stores@);
    }
    count
}

} // verus!
