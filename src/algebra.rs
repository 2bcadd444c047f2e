use vstd::prelude::*;

verus! {

/// Bound on the magnitude of every aggregate the trees compute.
pub const AGGREGATE_LIMIT: i64 = 0x1000_0000_0000_0000;

/// Shifts every element of `s` by `p`.
pub open spec fn shift(s: Seq<int>, p: int) -> Seq<int> {
    s.map_values(|x: int| x + p)
}

/// Every element of `s` lies in `[-b, b]`.
pub open spec fn bounded(s: Seq<int>, b: int) -> bool {
    forall|i: int| 0 <= i < s.len() ==> -b <= #[trigger] s[i] <= b
}

/// The pluggable algebra of a lazy segment tree: an element monoid and an
/// additive pending update acting on it.
#[derive(Clone, Copy, Debug, PartialEq, Eq, Structural)]
pub enum Algebra {
    /// Range add, range sum.
    PlusSum,
    /// Range add, range minimum.
    PlusMin,
}

impl Algebra {
    /// The identity element of the combine operation.
    pub open spec fn id_spec(self) -> int {
        match self {
            Algebra::PlusSum => 0,
            Algebra::PlusMin => i64::MAX as int,
        }
    }

    /// Combines the aggregates of two adjacent ranges.
    pub open spec fn join_spec(self, a: int, b: int) -> int {
        match self {
            Algebra::PlusSum => a + b,
            Algebra::PlusMin => if a <= b { a } else { b },
        }
    }

    /// Composition of two pending updates: first `p1`, then `p2`.
    pub open spec fn compose_spec(self, p1: int, p2: int) -> int {
        p1 + p2
    }

    /// Applies update `p` to an aggregate covering `w` elements.
    pub open spec fn apply_spec(self, e: int, p: int, w: int) -> int {
        match self {
            Algebra::PlusSum => e + p * w,
            Algebra::PlusMin => e + p,
        }
    }

    /// The update that changes nothing.
    pub open spec fn no_push_spec(self) -> int {
        0
    }

    /// The aggregate of a whole sequence of elements.
    pub open spec fn fold(self, s: Seq<int>) -> int
        decreases s.len(),
    {
        if s.len() == 0 {
            self.id_spec()
        } else {
            self.join_spec(self.fold(s.drop_last()), s.last())
        }
    }

    /// Largest magnitude an element may reach in a tree over `n` elements,
    /// chosen so that every aggregate and pending update fits in an `i64`.
    pub open spec fn max_abs(self, n: int) -> int {
        match self {
            Algebra::PlusSum => if n <= 0 { 0 } else { AGGREGATE_LIMIT as int / n },
            Algebra::PlusMin => AGGREGATE_LIMIT as int,
        }
    }

    /// The magnitude that the aggregate of `len` elements within `[-b, b]` can reach.
    pub open spec fn agg_bound(self, len: int, b: int) -> int {
        match self {
            Algebra::PlusSum => len * b,
            Algebra::PlusMin => b,
        }
    }

    pub fn id(&self) -> (r: i64)
        ensures
            r as int == self.id_spec(),
    {
        match self {
            Algebra::PlusSum => 0,
            Algebra::PlusMin => i64::MAX,
        }
    }

    pub fn join_elems(&self, e1: &i64, e2: &i64) -> (r: i64)
        requires
            i64::MIN <= self.join_spec(*e1 as int, *e2 as int) <= i64::MAX,
        ensures
            r as int == self.join_spec(*e1 as int, *e2 as int),
    {
        match self {
            Algebra::PlusSum => *e1 + *e2,
            Algebra::PlusMin => if *e1 <= *e2 { *e1 } else { *e2 },
        }
    }

    /// Folds `p2` into `p1`, as if `p1` were applied first and `p2` after it.
    pub fn join_pushes(&self, p1: &mut i64, p2: &i64)
        requires
            i64::MIN <= self.compose_spec(*old(p1) as int, *p2 as int) <= i64::MAX,
        ensures
            *final(p1) as int == self.compose_spec(*old(p1) as int, *p2 as int),
    {
        *p1 = *p1 + *p2;
    }

    /// Applies update `p` to an aggregate of the index range `[l, r)`.
    pub fn apply_push(&self, e: &i64, p: &i64, l: usize, r: usize) -> (res: i64)
        requires
            l <= r,
            i64::MIN <= self.apply_spec(*e as int, *p as int, r - l) <= i64::MAX,
        ensures
            res as int == self.apply_spec(*e as int, *p as int, r - l),
    {
        match self {
            Algebra::PlusSum => {
                let w: i128 = (r - l) as i128;
                let pp: i128 = *p as i128;
                assert(-0x8000_0000_0000_0000_0000_0000_0000_0000 < pp * w
                    < 0x8000_0000_0000_0000_0000_0000_0000_0000) by (nonlinear_arith)
                    requires
                        -0x8000_0000_0000_0000 <= pp < 0x8000_0000_0000_0000,
                        0 <= w < 0x1_0000_0000_0000_0000,
                {}
                let x: i128 = pp * w;
                (*e as i128 + x) as i64
            },
            Algebra::PlusMin => *e + *p,
        }
    }

    pub fn no_push(&self) -> (r: i64)
        ensures
            r as int == self.no_push_spec(),
    {
        0
    }

    /// Aggregating two adjacent pieces gives the aggregate of their concatenation.
    pub proof fn lemma_fold_concat(self, s1: Seq<int>, s2: Seq<int>)
        ensures
            self.fold(s1 + s2) == self.join_spec(self.fold(s1), self.fold(s2)),
        decreases s2.len(),
    {
        if s2.len() == 0 {
            assert(s1 + s2 =~= s1);
            self.lemma_fold_le_id(s1);
        } else {
            let s2p = s2.drop_last();
            assert((s1 + s2).drop_last() =~= s1 + s2p);
            assert((s1 + s2).last() == s2.last());
            self.lemma_fold_concat(s1, s2p);
        }
    }

    /// A minimum never exceeds its identity.
    pub proof fn lemma_fold_le_id(self, s: Seq<int>)
        ensures
            self is PlusMin ==> self.fold(s) <= self.id_spec(),
        decreases s.len(),
    {
        if s.len() > 0 {
            self.lemma_fold_le_id(s.drop_last());
        }
    }

    /// Adding `p` to each of `s.len()` bounded elements changes their aggregate
    /// as `apply_spec` says.
    pub proof fn lemma_fold_shift(self, s: Seq<int>, p: int)
        requires
            s.len() > 0,
            self is PlusMin ==> bounded(s, AGGREGATE_LIMIT as int * 2),
            self is PlusMin ==> bounded(shift(s, p), AGGREGATE_LIMIT as int * 2),
        ensures
            self.fold(shift(s, p)) == self.apply_spec(self.fold(s), p, s.len() as int),
        decreases s.len(),
    {
        let t = shift(s, p);
        let sp = s.drop_last();
        assert(t.drop_last() =~= shift(sp, p));
        assert(t.last() == s.last() + p);
        if self is PlusMin {
            assert(-(AGGREGATE_LIMIT as int * 2) <= s[s.len() - 1] <= AGGREGATE_LIMIT as int * 2);
            assert(-(AGGREGATE_LIMIT as int * 2) <= t[t.len() - 1] <= AGGREGATE_LIMIT as int * 2);
        }
        if sp.len() == 0 {
            assert(self.fold(t.drop_last()) == self.id_spec());
            assert(self.fold(sp) == self.id_spec());
            assert(self.fold(t) == self.join_spec(self.id_spec(), t.last()));
            assert(self.fold(s) == self.join_spec(self.id_spec(), s.last()));
            assert(p * 1 == p);
            assert(self.fold(t) == self.apply_spec(self.fold(s), p, 1));
        } else {
            assert(self is PlusMin ==> bounded(sp, AGGREGATE_LIMIT as int * 2));
            assert(self is PlusMin ==> bounded(shift(sp, p), AGGREGATE_LIMIT as int * 2)) by {
                if self is PlusMin {
                    assert forall|i: int| 0 <= i < sp.len() implies -(AGGREGATE_LIMIT as int * 2) <= #[trigger] shift(sp, p)[i] <= AGGREGATE_LIMIT as int * 2 by {
                        assert(shift(sp, p)[i] == t[i]);
                    }
                }
            }
            self.lemma_fold_shift(sp, p);
            assert(self.fold(t) == self.join_spec(self.fold(shift(sp, p)), t.last()));
            assert(self.fold(s) == self.join_spec(self.fold(sp), s.last()));
            if self is PlusSum {
                let k = sp.len() as int;
                assert(p * (k + 1) == p * k + p) by (nonlinear_arith);
                assert(s.len() as int == k + 1);
                assert(self.fold(t) == self.apply_spec(self.fold(s), p, s.len() as int));
            } else {
                assert(self.fold(t) == self.apply_spec(self.fold(s), p, s.len() as int));
            }
        }
    }

    /// The aggregate of elements within `[-b, b]` stays within `agg_bound`.
    pub proof fn lemma_fold_bounded(self, s: Seq<int>, b: int)
        requires
            0 <= b <= i64::MAX,
            bounded(s, b),
        ensures
            s.len() > 0 ==> -self.agg_bound(s.len() as int, b) <= self.fold(s) <= self.agg_bound(s.len() as int, b),
            self is PlusSum ==> -self.agg_bound(s.len() as int, b) <= self.fold(s) <= self.agg_bound(s.len() as int, b),
        decreases s.len(),
    {
        if s.len() > 0 {
            let sp = s.drop_last();
            assert(bounded(sp, b)) by {
                assert forall|i: int| 0 <= i < sp.len() implies -b <= #[trigger] sp[i] <= b by {
                    assert(sp[i] == s[i]);
                }
            }
            self.lemma_fold_bounded(sp, b);
            assert(-b <= s[s.len() - 1] <= b);
            assert(self.fold(s) == self.join_spec(self.fold(sp), s.last()));
            if self is PlusSum {
                assert(sp.len() * b + b == s.len() * b) by (nonlinear_arith)
                    requires sp.len() + 1 == s.len();
            }
        }
    }
}

} // verus!
