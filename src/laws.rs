use vstd::prelude::*;
use crate::algebra::{bounded, shift, Algebra, AGGREGATE_LIMIT};
use crate::lazy_seg_tree::add_range;

verus! {

/// The update that `apply` performs on the view is the naive one: each
/// element of `[l, r)` gets the update applied to it alone, the others stay;
/// and a query of one position returns the element there.
pub proof fn law_naive_model(alg: Algebra, s: Seq<int>, l: int, r: int, c: int)
    ensures
        add_range(s, l, r, c).len() == s.len(),
        forall|i: int| 0 <= i < s.len() ==> #[trigger] add_range(s, l, r, c)[i] == if l <= i < r {
            alg.apply_spec(s[i], c, 1)
        } else {
            s[i]
        },
        forall|i: int| 0 <= i < s.len() && s[i] <= i64::MAX ==> #[trigger] alg.fold(s.subrange(i, i + 1)) == s[i],
{
    assert(c * 1 == c);
    assert forall|i: int| 0 <= i < s.len() && s[i] <= i64::MAX implies #[trigger] alg.fold(s.subrange(i, i + 1)) == s[i] by {
        let t = s.subrange(i, i + 1);
        assert(t.drop_last() =~= Seq::<int>::empty());
        assert(alg.fold(t) == alg.join_spec(alg.fold(t.drop_last()), t.last()));
    }
}

/// Adding `d` to the range `[l, r)` raises its sum by exactly `d * (r - l)`,
/// and leaves the sum of every range outside `[l, r)` as it was.
pub proof fn law_range_add_sum(s: Seq<int>, l: int, r: int, d: int)
    requires
        0 <= l <= r <= s.len(),
    ensures
        Algebra::PlusSum.fold(add_range(s, l, r, d).subrange(l, r)) == Algebra::PlusSum.fold(s.subrange(l, r)) + d * (r - l),
        forall|a: int, b: int| 0 <= a <= b <= s.len() && (b <= l || r <= a) ==>
            #[trigger] Algebra::PlusSum.fold(add_range(s, l, r, d).subrange(a, b)) == Algebra::PlusSum.fold(s.subrange(a, b)),
{
    assert(add_range(s, l, r, d).subrange(l, r) =~= shift(s.subrange(l, r), d));
    if l < r {
        Algebra::PlusSum.lemma_fold_shift(s.subrange(l, r), d);
    } else {
        assert(d * 0 == 0);
    }
    assert forall|a: int, b: int| 0 <= a <= b <= s.len() && (b <= l || r <= a) implies
        #[trigger] Algebra::PlusSum.fold(add_range(s, l, r, d).subrange(a, b)) == Algebra::PlusSum.fold(s.subrange(a, b)) by {
        assert(add_range(s, l, r, d).subrange(a, b) =~= s.subrange(a, b));
    }
}

/// Adding `d` to a non-empty range `[l, r)` of elements that a tree can hold
/// raises its minimum by exactly `d`.
pub proof fn law_range_add_min(s: Seq<int>, l: int, r: int, d: int)
    requires
        0 <= l < r <= s.len(),
        bounded(s, Algebra::PlusMin.max_abs(s.len() as int)),
        bounded(add_range(s, l, r, d), Algebra::PlusMin.max_abs(s.len() as int)),
    ensures
        Algebra::PlusMin.fold(add_range(s, l, r, d).subrange(l, r)) == Algebra::PlusMin.fold(s.subrange(l, r)) + d,
{
    let t = s.subrange(l, r);
    let b = AGGREGATE_LIMIT as int * 2;
    assert(add_range(s, l, r, d).subrange(l, r) =~= shift(t, d));
    assert(bounded(t, b)) by {
        assert forall|i: int| 0 <= i < t.len() implies -b <= #[trigger] t[i] <= b by {
            assert(t[i] == s[i + l]);
        }
    }
    assert(bounded(shift(t, d), b)) by {
        assert forall|i: int| 0 <= i < t.len() implies -b <= #[trigger] shift(t, d)[i] <= b by {
            assert(shift(t, d)[i] == add_range(s, l, r, d)[i + l]);
        }
    }
    Algebra::PlusMin.lemma_fold_shift(t, d);
}

/// Applying the empty update changes no element, so no query result either.
pub proof fn law_no_push_is_noop(alg: Algebra, s: Seq<int>, l: int, r: int)
    ensures
        add_range(s, l, r, alg.no_push_spec()) == s,
{
    assert(add_range(s, l, r, alg.no_push_spec()) =~= s);
}

/// An empty range aggregates to the identity, and an update of an empty
/// range changes nothing.
pub proof fn law_degenerate_range(alg: Algebra, s: Seq<int>, x: int, c: int)
    requires
        0 <= x <= s.len(),
    ensures
        alg.fold(s.subrange(x, x)) == alg.id_spec(),
        add_range(s, x, x, c) == s,
{
    assert(s.subrange(x, x) =~= Seq::<int>::empty());
    assert(add_range(s, x, x, c) =~= s);
}

/// A one-element tree answers a query of its whole range with its value.
pub proof fn law_single_element(alg: Algebra, v: int)
    requires
        -alg.max_abs(1) <= v <= alg.max_abs(1),
    ensures
        alg.fold(seq![v].subrange(0, 1)) == v,
{
    let s = seq![v];
    assert(s.subrange(0, 1) =~= s);
    assert(s.drop_last() =~= Seq::<int>::empty());
    assert(AGGREGATE_LIMIT as int / 1 == AGGREGATE_LIMIT as int);
    assert(alg.fold(s) == alg.join_spec(alg.fold(s.drop_last()), s.last()));
    assert(alg.fold(s.drop_last()) == alg.id_spec());
}

/// Combining elements is associative.
pub proof fn law_join_associative(alg: Algebra, a: int, b: int, c: int)
    ensures
        alg.join_spec(alg.join_spec(a, b), c) == alg.join_spec(a, alg.join_spec(b, c)),
{
}

/// The identity element is neutral on both sides for every element an
/// `i64` can hold.
pub proof fn law_join_identity(alg: Algebra, x: int)
    requires
        x <= i64::MAX,
    ensures
        alg.join_spec(alg.id_spec(), x) == x,
        alg.join_spec(x, alg.id_spec()) == x,
{
}

/// Applying an update to a whole range equals applying it to each half and
/// combining the results.
pub proof fn law_apply_distributes(alg: Algebra, a: int, b: int, p: int, w1: int, w2: int)
    ensures
        alg.apply_spec(alg.join_spec(a, b), p, w1 + w2) == alg.join_spec(alg.apply_spec(a, p, w1), alg.apply_spec(b, p, w2)),
{
    if alg is PlusSum {
        assert(p * (w1 + w2) == p * w1 + p * w2) by (nonlinear_arith);
    }
}

/// Applying `p1` and then `p2` equals applying their composition once.
pub proof fn law_compose_then_apply(alg: Algebra, e: int, p1: int, p2: int, w: int)
    ensures
        alg.apply_spec(alg.apply_spec(e, p1, w), p2, w) == alg.apply_spec(e, alg.compose_spec(p1, p2), w),
        alg.apply_spec(e, alg.no_push_spec(), w) == e,
{
    if alg is PlusSum {
        assert(p1 * w + p2 * w == (p1 + p2) * w) by (nonlinear_arith);
        assert(0 * w == 0);
    }
}

} // verus!
