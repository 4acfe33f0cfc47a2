use fhe_linkage::engine::{aggregate, run_aggregation, AggregateEntry};
use fhe_linkage::errors::AggError;
use fhe_linkage::gate::{check_quorum, disclose};
use fhe_linkage::store::{parties_holding, pool_records, PartyStore};
use fhe_linkage::token::hash_id;

fn entry_set(entries: &[AggregateEntry]) -> Vec<(u64, u64, usize)> {
    let mut v: Vec<(u64, u64, usize)> = entries.iter().map(|e| (e.rep, e.sum, e.count)).collect();
    v.sort();
    v
}

#[test]
fn tokenizer_deterministic() {
    // Same inputs, same token; changed party or entity, different token.
    assert_eq!(hash_id(42, 1), hash_id(42, 1));
    assert_ne!(hash_id(42, 1), hash_id(42, 2));
    assert_ne!(hash_id(41, 1), hash_id(42, 1));
    // The token is a digest of the inputs, not the entity id itself.
    assert_ne!(hash_id(42, 1), 42);
    assert_ne!(hash_id(0, 0), 0);
}

#[test]
fn two_parties_same_token_reveals_mean() {
    // Party A holds token T with score 10, party B holds T with score 20,
    // threshold 2, both hold: aggregate (30, 2), revealed mean 15.0.
    let t: u64 = 7;
    let records = vec![(t, 10u64), (t, 20u64)];
    let entries = aggregate(&records).unwrap();
    assert_eq!(entry_set(&entries), vec![(t, 30, 2)]);
    let d = disclose(&entries, t, 2, 2).unwrap().unwrap();
    assert_eq!(d.sum, 30);
    assert_eq!(d.count, 2);
    assert_eq!(d.mean_tenths, 150);
}

#[test]
fn single_holder_below_threshold_not_revealed() {
    // One party holds token T with score 5, threshold 2: the aggregate is
    // (5, 1) and no party sees a reveal.
    let t: u64 = 99;
    let records = vec![(t, 5u64)];
    let entries = aggregate(&records).unwrap();
    assert_eq!(entry_set(&entries), vec![(t, 5, 1)]);
    for holders in 0..=1usize {
        assert_eq!(disclose(&entries, t, holders, 2).unwrap(), None);
    }
    // A denial for an absent token is the same answer.
    assert_eq!(disclose(&entries, t + 1, 5, 2).unwrap(), None);
}

#[test]
fn empty_pool_yields_empty_mapping() {
    let records: Vec<(u64, u64)> = vec![];
    let entries = aggregate(&records).unwrap();
    assert!(entries.is_empty());
}

#[test]
fn grouping_splits_classes_exactly() {
    let records = vec![(1u64, 5u64), (2, 7), (1, 3), (3, 2), (2, 1)];
    let entries = aggregate(&records).unwrap();
    assert_eq!(entry_set(&entries), vec![(1, 8, 2), (2, 8, 2), (3, 2, 1)]);
}

#[test]
fn reordering_input_gives_same_aggregates() {
    let a = vec![(1u64, 5u64), (2, 7), (1, 3), (3, 2), (2, 1)];
    let b = vec![(3u64, 2u64), (1, 3), (2, 1), (2, 7), (1, 5)];
    let ea = aggregate(&a).unwrap();
    let eb = aggregate(&b).unwrap();
    assert_eq!(entry_set(&ea), entry_set(&eb));
}

#[test]
fn overflowing_class_sum_is_surfaced() {
    let records = vec![(4u64, u64::MAX), (4, 1)];
    assert_eq!(aggregate(&records).unwrap_err(), AggError::OverflowRisk);
    // A sum at exactly the width's edge is still fine.
    let edge = vec![(4u64, u64::MAX - 1), (4, 1)];
    let entries = aggregate(&edge).unwrap();
    assert_eq!(entry_set(&entries), vec![(4, u64::MAX, 2)]);
}

#[test]
fn zero_count_entry_signals_division_undefined() {
    // The engine never produces a zero count; a hand-made entry with one must
    // be reported as an internal-consistency fault, not divided by.
    let entries = vec![AggregateEntry { rep: 3, sum: 10, count: 0 }];
    assert_eq!(disclose(&entries, 3, 5, 1).unwrap_err(), AggError::DivisionUndefined);
    // Below quorum the entry is never opened, so no fault is raised.
    assert_eq!(disclose(&entries, 3, 0, 1).unwrap(), None);
}

#[test]
fn mean_is_reported_in_tenths() {
    let records = vec![(8u64, 4u64), (8, 3), (8, 3)];
    let entries = aggregate(&records).unwrap();
    let d = disclose(&entries, 8, 3, 3).unwrap().unwrap();
    assert_eq!(d.sum, 10);
    assert_eq!(d.count, 3);
    assert_eq!(d.mean_tenths, 33);
}

#[test]
fn quorum_threshold_and_monotonicity() {
    assert!(!check_quorum(2, 3));
    assert!(check_quorum(3, 3));
    // More holders never revoke a reveal.
    assert!(check_quorum(4, 3));
    assert!(check_quorum(5, 3));
}

#[test]
fn stores_attest_and_are_tallied() {
    let mut a = PartyStore::new(0);
    let mut b = PartyStore::new(1);
    let mut c = PartyStore::new(2);
    a.add_client(100, 7);
    b.add_client(100, 9);
    c.add_client(200, 4);
    let ta = hash_id(100, 0);
    let tb = hash_id(100, 1);
    assert!(a.holds(ta));
    assert!(!a.holds(tb));
    assert!(b.holds(tb));
    let stores = vec![a, b, c];
    // Tokens are salted per party, so each is held by exactly its own party.
    assert_eq!(parties_holding(&stores, ta), 1);
    assert_eq!(parties_holding(&stores, tb), 1);
    assert_eq!(parties_holding(&stores, hash_id(999, 0)), 0);
}

#[test]
fn pooled_stores_aggregate_per_token() {
    let mut a = PartyStore::new(0);
    let mut b = PartyStore::new(1);
    a.add_client(100, 10);
    b.add_client(100, 20);
    let ta = hash_id(100, 0);
    let tb = hash_id(100, 1);
    let stores = vec![a, b];
    let pool = pool_records(&stores);
    assert_eq!(pool, vec![(ta, 10), (tb, 20)]);
    let entries = run_aggregation(&stores).unwrap();
    // Per-party salting keeps the two parties' tokens for one entity apart,
    // so the pool holds two classes of one record each.
    assert_eq!(entries.len(), 2);
    for e in &entries {
        assert_eq!(e.count, 1);
    }
}
