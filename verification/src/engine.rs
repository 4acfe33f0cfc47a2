//! The aggregation engine's decision core: partition the pooled records into
//! equivalence classes of equal tokens by pairwise comparison alone — no
//! sorting, no bucketing, no assumption that equal tokens are adjacent — and
//! accumulate one (sum, count) aggregate per class.
//!
//! In a deployed run the engine is the compute party: each pairwise test is
//! an encrypted equality whose boolean the engine alone opens to steer its
//! control flow (a documented trust boundary — the engine's operator, not the
//! data-owning parties, sees tokens), and each accumulation is a homomorphic
//! addition performed by the surrounding transport in step with the decisions
//! made here. The comparison loop is kept deliberately quadratic: record
//! counts stay small at homomorphic-encryption scale, and a plaintext sort or
//! bucketing shortcut would leak token ordering.
use crate::errors::AggError;
use crate::store::{pool_records, pooled, PartyStore};
use crate::model::{
    count_for, has_token, lemma_class_absent, lemma_class_bounds, lemma_class_concat,
    lemma_class_present, lemma_class_push, lemma_order_independent, lemma_strip_class,
    match_count, match_score, strip_class, sum_for,
};
use vstd::prelude::*;

verus! {

/// The running aggregate of one equivalence class of tokens: its
/// representative token (the class's first-seen token, which the engine may
/// open for bucketing), the sum of the scores of its records, and the number
/// of its records.
#[derive(Clone, Copy, Debug)]
pub struct AggregateEntry {
    pub rep: u64,
    pub sum: u64,
    pub count: usize,
}

/// `e` is the correct aggregate of its class in the pool `s`: the sum is the
/// arithmetic sum of the scores of exactly the records carrying `e.rep`, the
/// count is the number of such records, counted once each, and the class is
/// inhabited.
pub open spec fn entry_ok(e: AggregateEntry, s: Seq<(u64, u64)>) -> bool {
    &&& e.sum == sum_for(s, e.rep)
    &&& e.count == count_for(s, e.rep)
    &&& e.count >= 1
}

pub open spec fn entries_ok(es: Seq<AggregateEntry>, s: Seq<(u64, u64)>) -> bool {
    forall|a: int| 0 <= a < es.len() ==> entry_ok(#[trigger] es[a], s)
}

/// No two entries stand for the same class.
pub open spec fn distinct_reps(es: Seq<AggregateEntry>) -> bool {
    forall|a: int, b: int|
        #![trigger es[a].rep, es[b].rep]
        0 <= a < b < es.len() ==> es[a].rep != es[b].rep
}

pub open spec fn has_rep(es: Seq<AggregateEntry>, t: u64) -> bool {
    exists|a: int| 0 <= a < es.len() && es[a].rep == t
}

/// Every entry stands for an inhabited class and every record's class has an
/// entry: no record is omitted, and none can be counted in two entries since
/// representatives are distinct.
pub open spec fn covers(es: Seq<AggregateEntry>, s: Seq<(u64, u64)>) -> bool {
    &&& forall|a: int| 0 <= a < es.len() ==> has_token(s, (#[trigger] es[a]).rep)
    &&& forall|i: int| 0 <= i < s.len() ==> has_rep(es, (#[trigger] s[i]).0)
}

/// Some class's score sum exceeds the accumulator width.
pub open spec fn overflow_risk(s: Seq<(u64, u64)>) -> bool {
    exists|i: int| 0 <= i < s.len() && sum_for(s, (#[trigger] s[i]).0) > u64::MAX
}

/// Number of records accounted for across all entries.
pub open spec fn total_count(es: Seq<AggregateEntry>) -> int
    decreases es.len(),
{
    if es.len() == 0 {
        0
    } else {
        es[0].count + total_count(es.drop_first())
    }
}

/// Grouping correctness, globally: a correct aggregation result — correct
/// per-class counts, one entry per class, every record's class present —
/// accounts for every pooled record exactly once: the entry counts add up to
/// the size of the pool. No record is counted twice and none is omitted.
pub proof fn lemma_counts_partition(es: Seq<AggregateEntry>, s: Seq<(u64, u64)>)
    requires
        entries_ok(es, s),
        distinct_reps(es),
        covers(es, s),
    ensures
        total_count(es) == s.len(),
    decreases es.len(),
{
    if es.len() == 0 {
        if s.len() > 0 {
            assert(has_rep(es, s[0].0));
            let a = choose|a: int| 0 <= a < es.len() && es[a].rep == s[0].0;
            assert(false);
        }
    } else {
        let e = es[0];
        assert(entry_ok(es[0], s));
        let s2 = strip_class(s, e.rep);
        lemma_strip_class(s, e.rep);
        let tail = es.drop_first();
        assert(forall|a: int| 0 <= a < tail.len() ==> tail[a] == es[a + 1]);
        assert forall|a: int| 0 <= a < tail.len() implies entry_ok(#[trigger] tail[a], s2)
            && has_token(s2, tail[a].rep) by {
            assert(tail[a] == es[a + 1]);
            assert(entry_ok(es[a + 1], s));
            assert(es[0].rep != es[a + 1].rep);
            assert(count_for(s2, tail[a].rep) == count_for(s, tail[a].rep));
            assert(sum_for(s2, tail[a].rep) == sum_for(s, tail[a].rep));
            if !has_token(s2, tail[a].rep) {
                lemma_class_absent(s2, tail[a].rep);
                assert(false);
            }
        }
        assert forall|a: int, b: int|
            #![trigger tail[a].rep, tail[b].rep]
            0 <= a < b < tail.len() implies tail[a].rep != tail[b].rep by {
            assert(es[a + 1].rep != es[b + 1].rep);
        }
        assert forall|i: int| 0 <= i < s2.len() implies has_rep(tail, (#[trigger] s2[i]).0) by {
            let t2 = s2[i].0;
            assert(has_token(s2, t2));
            lemma_class_present(s2, t2);
            if t2 == e.rep {
                assert(count_for(s2, e.rep) == 0);
                assert(false);
            }
            assert(count_for(s, t2) == count_for(s2, t2));
            if !has_token(s, t2) {
                lemma_class_absent(s, t2);
                assert(false);
            }
            let i0 = choose|i0: int| 0 <= i0 < s.len() && s[i0].0 == t2;
            assert(has_rep(es, s[i0].0));
            let w = choose|w: int| 0 <= w < es.len() && es[w].rep == t2;
            assert(es[0].rep != t2);
            assert(w != 0);
            assert(tail[w - 1].rep == t2);
        }
        lemma_counts_partition(tail, s2);
    }
}

/// `es` has an entry with the same representative, sum and count as `e`.
pub open spec fn same_entry_in(es: Seq<AggregateEntry>, e: AggregateEntry) -> bool {
    exists|b: int|
        0 <= b < es.len() && (#[trigger] es[b]).rep == e.rep && es[b].sum == e.sum && es[b].count
            == e.count
}

/// No double counting under reordering: two aggregation passes over the same
/// records pooled in different orders produce the same aggregates — every
/// entry of the one result has an entry of the other with the same
/// representative token, the same score sum and the same record count, and
/// the other way round. The hypotheses are exactly what `aggregate` ensures
/// of each pass's result.
pub proof fn lemma_same_aggregates_under_reordering(
    s1: Seq<(u64, u64)>,
    s2: Seq<(u64, u64)>,
    es1: Seq<AggregateEntry>,
    es2: Seq<AggregateEntry>,
)
    requires
        s1.to_multiset() == s2.to_multiset(),
        entries_ok(es1, s1),
        covers(es1, s1),
        entries_ok(es2, s2),
        covers(es2, s2),
    ensures
        forall|a: int| 0 <= a < es1.len() ==> same_entry_in(es2, #[trigger] es1[a]),
        forall|b: int| 0 <= b < es2.len() ==> same_entry_in(es1, #[trigger] es2[b]),
{
    assert forall|a: int| 0 <= a < es1.len() implies same_entry_in(es2, #[trigger] es1[a]) by {
        let rep = es1[a].rep;
        lemma_order_independent(s1, s2, rep);
        assert(has_token(s2, rep));
        let i = choose|i: int| 0 <= i < s2.len() && s2[i].0 == rep;
        assert(has_rep(es2, s2[i].0));
        let b = choose|b: int| 0 <= b < es2.len() && (#[trigger] es2[b]).rep == rep;
        assert(entry_ok(es2[b], s2));
        assert(entry_ok(es1[a], s1));
        assert(es2[b].sum == es1[a].sum && es2[b].count == es1[a].count);
    }
    assert forall|b: int| 0 <= b < es2.len() implies same_entry_in(es1, #[trigger] es2[b]) by {
        let rep = es2[b].rep;
        lemma_order_independent(s1, s2, rep);
        assert(has_token(s1, rep));
        let i = choose|i: int| 0 <= i < s1.len() && s1[i].0 == rep;
        assert(has_rep(es1, s1[i].0));
        let a = choose|a: int| 0 <= a < es1.len() && (#[trigger] es1[a]).rep == rep;
        assert(entry_ok(es1[a], s1));
        assert(entry_ok(es2[b], s2));
        assert(es1[a].sum == es2[b].sum && es1[a].count == es2[b].count);
    }
}

/// One aggregation pass over the pooled records of all parties, in arbitrary
/// order. Left to right: a record not yet matched opens a new entry seeded
/// with its own score and a count of one, then every later record is compared
/// with it; each match is folded into the entry's sum and count and marked
/// consumed, so it neither opens an entry of its own nor is rescanned. An
/// empty pool yields an empty mapping; a sum that would exceed the
/// accumulator width aborts the run with `OverflowRisk` instead of wrapping.
pub fn aggregate(records: &Vec<(u64, u64)>) -> (r: Result<Vec<AggregateEntry>, AggError>)
    ensures
        match r {
            Ok(es) => {
                &&& entries_ok(es@, records@)
                &&& distinct_reps(es@)
                &&& covers(es@, records@)
                &&& !overflow_risk(records@)
            },
            Err(e) => e == AggError::OverflowRisk && overflow_risk(records@),
        },
{
    let ghost s = records@;
    let n = records.len();
    let mut consumed: Vec<bool> = Vec::new();
    while consumed.len() < n
        invariant
            consumed@.len() <= n,
            forall|k: int| 0 <= k < consumed@.len() ==> !(#[trigger] consumed@[k]),
        decreases n - consumed.len(),
    {
        consumed.push(false);
    }

    let mut out: Vec<AggregateEntry> = Vec::new();
    let mut i: usize = 0;
    while i < n
        invariant
            s == records@,
            n == s.len(),
            i <= n,
            consumed@.len() == n,
            forall|m: int|
                0 <= m < n ==> ((#[trigger] consumed@[m]) <==> exists|k: int|
                    0 <= k < i && s[k].0 == s[m].0),
            entries_ok(out@, s),
            distinct_reps(out@),
            forall|a: int|
                0 <= a < out@.len() ==> exists|k: int|
                    0 <= k < i && s[k].0 == (#[trigger] out@[a]).rep,
            forall|k: int| 0 <= k < i ==> has_rep(out@, (#[trigger] s[k]).0),
        decreases n - i,
    {
        if !consumed[i] {
            // This record opens a new entry: nothing before it matched it, so
            // its token has no earlier occurrence and no existing entry.
            let rep = records[i].0;
            assert(forall|k: int| 0 <= k < i ==> s[k].0 != rep);
            let mut sum: u64 = records[i].1;
            let mut count: usize = 1;
            consumed[i] = true;
            proof {
                let seed = s.subrange(i as int, i + 1);
                assert(seed.len() == 1);
                assert(seed[0] == s[i as int]);
                assert(seed.drop_first() =~= Seq::<(u64, u64)>::empty());
                assert(sum_for(seed.drop_first(), rep) == 0);
                assert(count_for(seed.drop_first(), rep) == 0);
                assert(sum_for(seed, rep) == match_score(s[i as int], rep));
                assert(count_for(seed, rep) == match_count(s[i as int], rep));
            }
            let mut j: usize = i + 1;
            while j < n
                invariant
                    s == records@,
                    n == s.len(),
                    i < n,
                    i < j <= n,
                    consumed@.len() == n,
                    rep == s[i as int].0,
                    1 <= count,
                    sum as int == sum_for(s.subrange(i as int, j as int), rep),
                    count as int == count_for(s.subrange(i as int, j as int), rep),
                    forall|k: int| 0 <= k < i ==> s[k].0 != rep,
                    forall|m: int|
                        0 <= m < n ==> ((#[trigger] consumed@[m]) <==> (exists|k: int|
                            0 <= k < i && s[k].0 == s[m].0) || (i <= m < j && s[m].0
                            == rep)),
                decreases n - j,
            {
                let ghost sub = s.subrange(i as int, j as int);
                proof {
                    assert(s.subrange(i as int, j + 1) =~= sub.push(s[j as int]));
                    lemma_class_push(sub, s[j as int], rep);
                }
                if !consumed[j] {
                    // Stands for opening the encrypted equality of the two
                    // token ciphertexts: the engine sees the boolean only.
                    if records[j].0 == rep {
                        let sc = records[j].1;
                        if sc > u64::MAX - sum {
                            // The class sum of `rep` over the whole pool can
                            // only be larger still: surface the overflow.
                            proof {
                                let widened = s.subrange(i as int, j + 1);
                                let rest = s.subrange(j + 1, n as int);
                                assert(s.subrange(i as int, n as int) =~= widened + rest);
                                lemma_class_concat(widened, rest, rep);
                                lemma_class_bounds(rest, rep);
                                let prefix = s.subrange(0, i as int);
                                assert(forall|k: int|
                                    0 <= k < prefix.len() ==> prefix[k] == s[k]);
                                assert(!has_token(prefix, rep));
                                lemma_class_absent(prefix, rep);
                                assert(s =~= prefix + s.subrange(i as int, n as int));
                                lemma_class_concat(prefix, s.subrange(i as int, n as int), rep);
                                assert(sum_for(s, rep) > u64::MAX);
                                assert(s[i as int].0 == rep);
                                assert(overflow_risk(s));
                            }
                            return Err(AggError::OverflowRisk);
                        }
                        sum = sum + sc;
                        proof {
                            lemma_class_bounds(s.subrange(i as int, j + 1), rep);
                        }
                        count = count + 1;
                        consumed[j] = true;
                    } else {
                        proof {
                            assert(match_score(s[j as int], rep) == 0);
                        }
                    }
                } else {
                    // Already folded into an earlier entry, whose token this
                    // seed's token cannot equal: skip it.
                    proof {
                        assert(s[j as int].0 != rep);
                        assert(match_score(s[j as int], rep) == 0);
                    }
                }
                j = j + 1;
            }
            proof {
                let prefix = s.subrange(0, i as int);
                let tail = s.subrange(i as int, n as int);
                assert(forall|k: int| 0 <= k < prefix.len() ==> prefix[k] == s[k]);
                assert(!has_token(prefix, rep));
                lemma_class_absent(prefix, rep);
                assert(s =~= prefix + tail);
                lemma_class_concat(prefix, tail, rep);
            }
            let entry = AggregateEntry { rep, sum, count };
            assert(entry_ok(entry, s));
            let ghost old_out = out@;
            out.push(entry);
            proof {
                assert(forall|a: int| 0 <= a < old_out.len() ==> out@[a] == old_out[a]);
                assert(out@[old_out.len() as int] == entry);
                assert forall|k: int| 0 <= k < i + 1 implies has_rep(
                    out@,
                    (#[trigger] s[k]).0,
                ) by {
                    if k < i {
                        let a = choose|a: int|
                            0 <= a < old_out.len() && old_out[a].rep == s[k].0;
                        assert(out@[a].rep == s[k].0);
                    } else {
                        assert(out@[old_out.len() as int].rep == s[k].0);
                    }
                }
            }
        } else {
            proof {
                let k0 = choose|k: int| 0 <= k < i && s[k].0 == s[i as int].0;
                assert(has_rep(out@, s[k0].0));
                assert forall|m: int| 0 <= m < n implies ((#[trigger] consumed@[m])
                    <==> exists|k: int| 0 <= k < i + 1 && s[k].0 == s[m].0) by {
                    if !consumed@[m] {
                        assert(forall|k: int| 0 <= k < i ==> s[k].0 != s[m].0);
                        if s[i as int].0 == s[m].0 {
                            assert(s[k0].0 == s[m].0);
                            assert(false);
                        }
                    }
                }
            }
        }
        i = i + 1;
    }
    proof {
        assert forall|ii: int| 0 <= ii < s.len() implies sum_for(s, s[ii].0)
            <= u64::MAX by {
            let a = choose|a: int| 0 <= a < out@.len() && out@[a].rep == s[ii].0;
            assert(entry_ok(out@[a], s));
        }
    }
    Ok(out)
}

/// One full aggregation run: pool every party's records, in party order, and
/// aggregate the pool. What `aggregate` ensures of its result holds here of
/// the pooled records of all the given parties.
pub fn run_aggregation(stores: &Vec<PartyStore>) -> (r: Result<Vec<AggregateEntry>, AggError>)
    ensures
        match r {
            Ok(es) => {
                &&& entries_ok(es@, pooled(stores@))
                &&& distinct_reps(es@)
                &&& covers(es@, pooled(stores@))
                &&& !overflow_risk(pooled(stores@))
            },
            Err(e) => e == AggError::OverflowRisk && overflow_risk(pooled(stores@)),
        },
{
    let pool = pool_records(stores);
    aggregate(&pool)
}

} // verus!
