//! The mathematical model of an aggregation run: a pooled record is a
//! (token, score) pair, an equivalence class is the set of records with one
//! token, and each class is summarized by the sum and the count of its
//! records. The engine's contracts are stated over these functions.
use vstd::prelude::*;

verus! {

/// Score that record `r` contributes to the class of token `t`.
pub open spec fn match_score(r: (u64, u64), t: u64) -> int {
    if r.0 == t {
        r.1 as int
    } else {
        0
    }
}

/// 1 when record `r` belongs to the class of token `t`, else 0.
pub open spec fn match_count(r: (u64, u64), t: u64) -> int {
    if r.0 == t {
        1
    } else {
        0
    }
}

/// Arithmetic sum of the scores of the records of class `t`.
pub open spec fn sum_for(s: Seq<(u64, u64)>, t: u64) -> int
    decreases s.len(),
{
    if s.len() == 0 {
        0
    } else {
        match_score(s[0], t) + sum_for(s.drop_first(), t)
    }
}

/// Number of records of class `t`.
pub open spec fn count_for(s: Seq<(u64, u64)>, t: u64) -> int
    decreases s.len(),
{
    if s.len() == 0 {
        0
    } else {
        match_count(s[0], t) + count_for(s.drop_first(), t)
    }
}

/// Some record of the pool carries token `t`.
pub open spec fn has_token(s: Seq<(u64, u64)>, t: u64) -> bool {
    exists|i: int| 0 <= i < s.len() && s[i].0 == t
}

pub proof fn lemma_class_push(s: Seq<(u64, u64)>, x: (u64, u64), t: u64)
    ensures
        sum_for(s.push(x), t) == sum_for(s, t) + match_score(x, t),
        count_for(s.push(x), t) == count_for(s, t) + match_count(x, t),
    decreases s.len(),
{
    if s.len() == 0 {
        assert(s.push(x).len() == 1);
        assert(s.push(x)[0] == x);
        assert(s.push(x).drop_first() =~= Seq::<(u64, u64)>::empty());
        assert(sum_for(s.push(x).drop_first(), t) == 0);
        assert(count_for(s.push(x).drop_first(), t) == 0);
        assert(sum_for(s.push(x), t) == match_score(x, t));
        assert(count_for(s.push(x), t) == match_count(x, t));
        assert(sum_for(s, t) == 0);
        assert(count_for(s, t) == 0);
    } else {
        assert(s.push(x)[0] == s[0]);
        assert(s.push(x).drop_first() =~= s.drop_first().push(x));
        lemma_class_push(s.drop_first(), x, t);
        assert(sum_for(s.push(x), t) == match_score(s[0], t) + sum_for(
            s.drop_first().push(x),
            t,
        ));
        assert(sum_for(s, t) == match_score(s[0], t) + sum_for(s.drop_first(), t));
        assert(count_for(s, t) == match_count(s[0], t) + count_for(s.drop_first(), t));
    }
}

pub proof fn lemma_class_concat(s1: Seq<(u64, u64)>, s2: Seq<(u64, u64)>, t: u64)
    ensures
        sum_for(s1 + s2, t) == sum_for(s1, t) + sum_for(s2, t),
        count_for(s1 + s2, t) == count_for(s1, t) + count_for(s2, t),
    decreases s1.len(),
{
    if s1.len() == 0 {
        assert(s1 + s2 =~= s2);
    } else {
        assert((s1 + s2)[0] == s1[0]);
        assert((s1 + s2).drop_first() =~= s1.drop_first() + s2);
        lemma_class_concat(s1.drop_first(), s2, t);
    }
}

pub proof fn lemma_class_bounds(s: Seq<(u64, u64)>, t: u64)
    ensures
        0 <= count_for(s, t) <= s.len(),
        0 <= sum_for(s, t),
    decreases s.len(),
{
    if s.len() > 0 {
        lemma_class_bounds(s.drop_first(), t);
    }
}

/// A token no record carries has an empty class.
pub proof fn lemma_class_absent(s: Seq<(u64, u64)>, t: u64)
    requires
        !has_token(s, t),
    ensures
        sum_for(s, t) == 0,
        count_for(s, t) == 0,
    decreases s.len(),
{
    if s.len() > 0 {
        assert(s[0].0 != t);
        assert(forall|i: int|
            0 <= i < s.drop_first().len() ==> s.drop_first()[i] == s[i + 1]);
        lemma_class_absent(s.drop_first(), t);
    }
}

/// A token some record carries has at least one record in its class.
pub proof fn lemma_class_present(s: Seq<(u64, u64)>, t: u64)
    requires
        has_token(s, t),
    ensures
        count_for(s, t) >= 1,
    decreases s.len(),
{
    lemma_class_bounds(s.drop_first(), t);
    if s[0].0 != t {
        let i = choose|i: int| 0 <= i < s.len() && s[i].0 == t;
        assert(s.drop_first()[i - 1] == s[i]);
        lemma_class_present(s.drop_first(), t);
    }
}

proof fn lemma_class_singleton(x: (u64, u64), t: u64)
    ensures
        sum_for(seq![x], t) == match_score(x, t),
        count_for(seq![x], t) == match_count(x, t),
{
    assert(seq![x].len() == 1);
    assert(seq![x][0] == x);
    assert(seq![x].drop_first() =~= Seq::<(u64, u64)>::empty());
    assert(sum_for(seq![x].drop_first(), t) == 0);
    assert(count_for(seq![x].drop_first(), t) == 0);
}

pub proof fn lemma_class_remove(s: Seq<(u64, u64)>, i: int, t: u64)
    requires
        0 <= i < s.len(),
    ensures
        sum_for(s.remove(i), t) == sum_for(s, t) - match_score(s[i], t),
        count_for(s.remove(i), t) == count_for(s, t) - match_count(s[i], t),
{
    let a = s.subrange(0, i);
    let m = s.subrange(i, i + 1);
    let b = s.subrange(i + 1, s.len() as int);
    assert(m =~= seq![s[i]]);
    assert(s =~= a + (m + b));
    assert(s.remove(i) =~= a + b);
    lemma_class_singleton(s[i], t);
    lemma_class_concat(m, b, t);
    lemma_class_concat(a, m + b, t);
    lemma_class_concat(a, b, t);
}

/// The pool without the class of `t`: every record carrying another token,
/// in order.
pub open spec fn strip_class(s: Seq<(u64, u64)>, t: u64) -> Seq<(u64, u64)>
    decreases s.len(),
{
    if s.len() == 0 {
        Seq::<(u64, u64)>::empty()
    } else if s[0].0 == t {
        strip_class(s.drop_first(), t)
    } else {
        seq![s[0]] + strip_class(s.drop_first(), t)
    }
}

/// Removing one class removes exactly its records and leaves every other
/// class's sum and count untouched.
pub proof fn lemma_strip_class(s: Seq<(u64, u64)>, t: u64)
    ensures
        strip_class(s, t).len() == s.len() - count_for(s, t),
        count_for(strip_class(s, t), t) == 0,
        forall|t2: u64|
            t2 != t ==> #[trigger] count_for(strip_class(s, t), t2) == count_for(s, t2),
        forall|t2: u64| t2 != t ==> #[trigger] sum_for(strip_class(s, t), t2) == sum_for(s, t2),
    decreases s.len(),
{
    lemma_class_bounds(s, t);
    if s.len() == 0 {
    } else {
        lemma_strip_class(s.drop_first(), t);
        lemma_class_bounds(s.drop_first(), t);
        if s[0].0 == t {
            assert forall|t2: u64| t2 != t implies #[trigger] count_for(strip_class(s, t), t2)
                == count_for(s, t2) by {
                assert(match_count(s[0], t2) == 0);
                assert(count_for(strip_class(s.drop_first(), t), t2) == count_for(
                    s.drop_first(),
                    t2,
                ));
            }
            assert forall|t2: u64| t2 != t implies #[trigger] sum_for(strip_class(s, t), t2)
                == sum_for(s, t2) by {
                assert(match_score(s[0], t2) == 0);
                assert(sum_for(strip_class(s.drop_first(), t), t2) == sum_for(
                    s.drop_first(),
                    t2,
                ));
            }
        } else {
            let rest = strip_class(s.drop_first(), t);
            assert(strip_class(s, t) == seq![s[0]] + rest);
            assert((seq![s[0]] + rest).len() == 1 + rest.len());
            lemma_class_singleton(s[0], t);
            lemma_class_concat(seq![s[0]], rest, t);
            assert forall|t2: u64| t2 != t implies #[trigger] count_for(strip_class(s, t), t2)
                == count_for(s, t2) by {
                lemma_class_singleton(s[0], t2);
                lemma_class_concat(seq![s[0]], rest, t2);
                assert(count_for(strip_class(s.drop_first(), t), t2) == count_for(
                    s.drop_first(),
                    t2,
                ));
            }
            assert forall|t2: u64| t2 != t implies #[trigger] sum_for(strip_class(s, t), t2)
                == sum_for(s, t2) by {
                lemma_class_singleton(s[0], t2);
                lemma_class_concat(seq![s[0]], rest, t2);
                assert(sum_for(strip_class(s.drop_first(), t), t2) == sum_for(
                    s.drop_first(),
                    t2,
                ));
            }
        }
    }
}

proof fn lemma_permutation_classes(s1: Seq<(u64, u64)>, s2: Seq<(u64, u64)>, t: u64)
    requires
        s1.to_multiset() == s2.to_multiset(),
    ensures
        sum_for(s1, t) == sum_for(s2, t),
        count_for(s1, t) == count_for(s2, t),
    decreases s1.len(),
{
    broadcast use vstd::seq_lib::group_to_multiset_ensures;

    if s1.len() == 0 {
        assert(s1.to_multiset().len() == 0);
        assert(s2.to_multiset().len() == 0);
        assert(s2.len() == 0);
    } else {
        let x = s1[0];
        assert(s1.contains(x));
        assert(s2.to_multiset().count(x) > 0);
        assert(s2.contains(x));
        let j = choose|j: int| 0 <= j < s2.len() && s2[j] == x;
        assert(s1.drop_first() =~= s1.remove(0));
        assert(s1.remove(0).to_multiset() == s2.remove(j).to_multiset());
        lemma_permutation_classes(s1.drop_first(), s2.remove(j), t);
        lemma_class_remove(s2, j, t);
        lemma_class_remove(s1, 0, t);
    }
}

/// No double counting under reordering: two poolings of the same records, in
/// whatever orders, give every token's class the same score sum, the same
/// record count, and the same membership — so an aggregation pass over either
/// pool produces the same set of (representative token, sum, count) results.
pub proof fn lemma_order_independent(s1: Seq<(u64, u64)>, s2: Seq<(u64, u64)>, t: u64)
    requires
        s1.to_multiset() == s2.to_multiset(),
    ensures
        sum_for(s1, t) == sum_for(s2, t),
        count_for(s1, t) == count_for(s2, t),
        has_token(s1, t) == has_token(s2, t),
{
    lemma_permutation_classes(s1, s2, t);
    if has_token(s1, t) {
        lemma_class_present(s1, t);
    } else {
        lemma_class_absent(s1, t);
    }
    if has_token(s2, t) {
        lemma_class_present(s2, t);
    } else {
        lemma_class_absent(s2, t);
    }
}

} // verus!
