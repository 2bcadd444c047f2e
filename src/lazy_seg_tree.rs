use vstd::prelude::*;
use crate::algebra::{bounded, shift, Algebra, AGGREGATE_LIMIT};
use vstd::arithmetic::div_mod::lemma_fundamental_div_mod;
use vstd::arithmetic::mul::lemma_mul_inequality;

verus! {

/// `u` lies in the subtree rooted at node `a` of the implicit tree in which
/// node `v` has children `2v + 1` and `2v + 2`.
pub open spec fn desc(a: int, u: int) -> bool
    decreases u,
{
    if u <= a || u <= 0 {
        u == a
    } else {
        desc(a, (u - 1) / 2)
    }
}

/// The midpoint at which the range `[l, r)` is split between two children.
pub open spec fn mid(l: int, r: int) -> int {
    (l + r) / 2
}

/// `s` with `c` added to the elements at positions `[lo, hi)`.
pub open spec fn add_range(s: Seq<int>, lo: int, hi: int, c: int) -> Seq<int> {
    Seq::new(s.len(), |i: int| if lo <= i < hi { s[i] + c } else { s[i] })
}

pub open spec fn clip(x: int, len: int) -> int {
    if x < 0 {
        0
    } else if x > len {
        len
    } else {
        x
    }
}

/// The part of `s` that lies at positions `[lo, hi)`.
pub open spec fn window(s: Seq<int>, lo: int, hi: int) -> Seq<int> {
    let a = clip(lo, s.len() as int);
    let b = clip(hi, s.len() as int);
    s.subrange(a, if b < a { a } else { b })
}

proof fn lemma_desc_child(v: int, c: int, u: int)
    requires
        v >= 0,
        c == 2 * v + 1 || c == 2 * v + 2,
        desc(c, u),
    ensures
        desc(v, u),
    decreases u,
{
    if u != c {
        lemma_desc_child(v, c, (u - 1) / 2);
    } else {
        assert((c - 1) / 2 == v);
        assert(desc(v, v));
    }
}

proof fn lemma_desc_self(v: int)
    ensures
        desc(v, v),
{
}

proof fn lemma_desc_chain(a: int, b: int, u: int)
    requires
        0 <= a <= b,
        desc(a, u),
        desc(b, u),
    ensures
        desc(a, b),
    decreases u,
{
    if u != b {
        lemma_desc_chain(a, b, (u - 1) / 2);
    }
}

/// `u` is an internal node (one covering at least two elements) of the
/// subtree rooted at node `v` over `[l, r)`.
pub open spec fn internal_in(v: int, l: int, r: int, u: int) -> bool
    decreases r - l,
{
    if r - l <= 1 {
        false
    } else {
        u == v || internal_in(2 * v + 1, l, mid(l, r), u) || internal_in(2 * v + 2, mid(l, r), r, u)
    }
}

/// Node `v` over `[l, r)` is node `a` over `[al, ar)` or lies below one of
/// its children, the ranges being split at their midpoints.
pub open spec fn in_subtree(a: int, al: int, ar: int, v: int, l: int, r: int) -> bool
    decreases ar - al,
{
    if ar - al <= 0 {
        false
    } else if a == v && al == l && ar == r {
        true
    } else if ar - al == 1 {
        false
    } else {
        in_subtree(2 * a + 1, al, mid(al, ar), v, l, r) || in_subtree(2 * a + 2, mid(al, ar), ar, v, l, r)
    }
}

proof fn lemma_desc_le(a: int, u: int)
    requires
        desc(a, u),
    ensures
        a <= u,
    decreases u,
{
    if u > a && u > 0 {
        lemma_desc_le(a, (u - 1) / 2);
    }
}

proof fn lemma_desc_trans(a: int, b: int, u: int)
    requires
        desc(a, b),
        desc(b, u),
    ensures
        desc(a, u),
    decreases u,
{
    lemma_desc_le(a, b);
    if u != b {
        lemma_desc_le(b, u);
        lemma_desc_trans(a, b, (u - 1) / 2);
    }
}

proof fn lemma_in_subtree_desc(a: int, al: int, ar: int, v: int, l: int, r: int)
    requires
        a >= 0,
        in_subtree(a, al, ar, v, l, r),
    ensures
        desc(a, v),
    decreases ar - al,
{
    if !(a == v && al == l && ar == r) {
        let m = mid(al, ar);
        if in_subtree(2 * a + 1, al, m, v, l, r) {
            lemma_in_subtree_desc(2 * a + 1, al, m, v, l, r);
            lemma_desc_child(a, 2 * a + 1, v);
        } else {
            lemma_in_subtree_desc(2 * a + 2, m, ar, v, l, r);
            lemma_desc_child(a, 2 * a + 2, v);
        }
    }
}

/// Nodes of the two subtrees under `v` are distinct, and neither holds `v`.
proof fn lemma_desc_siblings(v: int, u: int)
    requires
        v >= 0,
    ensures
        !(desc(2 * v + 1, u) && desc(2 * v + 2, u)),
        !desc(2 * v + 1, v),
        !desc(2 * v + 2, v),
{
    if desc(2 * v + 1, u) && desc(2 * v + 2, u) {
        lemma_desc_chain(2 * v + 1, 2 * v + 2, u);
        assert(desc(2 * v + 1, v));
    }
}

/// Within a tree over `n` elements, elements stay within `max_abs(n)` and
/// the aggregate of at most `n` of them within `AGGREGATE_LIMIT`.
proof fn lemma_limits(alg: Algebra, n: int, len: int)
    requires
        1 <= n,
        0 <= len <= n,
    ensures
        0 <= alg.max_abs(n) <= AGGREGATE_LIMIT,
        0 <= alg.agg_bound(len, alg.max_abs(n)) <= AGGREGATE_LIMIT,
{
    if alg is PlusSum {
        let k = AGGREGATE_LIMIT as int;
        lemma_fundamental_div_mod(k, n);
        let q = k / n;
        assert(0 <= q) by (nonlinear_arith)
            requires k >= 0, n >= 1, q == k / n;
        assert(q <= k) by (nonlinear_arith)
            requires k >= 0, n >= 1, q == k / n;
        assert(k % n >= 0) by (nonlinear_arith)
            requires n >= 1;
        lemma_mul_inequality(len, n, q);
        assert(0 <= len * q) by (nonlinear_arith)
            requires 0 <= len, 0 <= q;
    }
}

/// A query window over two adjacent pieces combines the windows over each.
proof fn lemma_window_split(alg: Algebra, e1: Seq<int>, e2: Seq<int>, lo: int, hi: int, b: int, n: int)
    requires
        lo <= hi,
        1 <= n,
        e1.len() + e2.len() <= n,
        b == alg.max_abs(n),
        bounded(e1 + e2, b),
    ensures
        alg.fold(window(e1 + e2, lo, hi)) == alg.join_spec(
            alg.fold(window(e1, lo, hi)),
            alg.fold(window(e2, lo - e1.len(), hi - e1.len())),
        ),
        i64::MIN <= alg.fold(window(e1 + e2, lo, hi)) <= i64::MAX,
        i64::MIN <= alg.fold(window(e1, lo, hi)) <= i64::MAX,
        i64::MIN <= alg.fold(window(e2, lo - e1.len(), hi - e1.len())) <= i64::MAX,
{
    let e = e1 + e2;
    let w = window(e, lo, hi);
    let w1 = window(e1, lo, hi);
    let w2 = window(e2, lo - e1.len(), hi - e1.len());
    assert(w1 + w2 =~= w);
    assert(bounded(w1, b)) by {
        assert forall|i: int| 0 <= i < w1.len() implies -b <= #[trigger] w1[i] <= b by {
            assert(w1[i] == w[i]);
        }
    }
    assert(bounded(w2, b)) by {
        assert forall|i: int| 0 <= i < w2.len() implies -b <= #[trigger] w2[i] <= b by {
            assert(w2[i] == w[i + w1.len()]);
        }
    }
    assert(bounded(w, b)) by {
        assert forall|i: int| 0 <= i < w.len() implies -b <= #[trigger] w[i] <= b by {
            assert(w[i] == e[i + clip(lo, e.len() as int)]);
        }
    }
    lemma_limits(alg, n, w1.len() as int);
    lemma_limits(alg, n, w2.len() as int);
    lemma_limits(alg, n, w.len() as int);
    alg.lemma_fold_bounded(w1, b);
    alg.lemma_fold_bounded(w2, b);
    alg.lemma_fold_bounded(w, b);
    alg.lemma_fold_le_id(w1);
    alg.lemma_fold_le_id(w2);
    alg.lemma_fold_le_id(w);
    alg.lemma_fold_concat(w1, w2);
}

/// A lazy-propagation segment tree over `n` integer elements, stored as an
/// implicit binary tree in two arrays of `4n` slots: one aggregate and one
/// pending update per node. Node `v` has children `2v + 1` and `2v + 2`; the
/// root is node `0` and covers `[0, n)`. A leaf's pending update is the sum
/// of every update it received, so it equals its value minus the initial one.
pub struct LazySegTree {
    alg: Algebra,
    values: Vec<i64>,
    to_push: Vec<i64>,
    n: usize,
    relaxations: u64,
    init: Ghost<int>,
}

impl View for LazySegTree {
    type V = Seq<int>;

    /// The `n` elements the tree stands for.
    closed spec fn view(&self) -> Seq<int> {
        self.elems(0, 0, self.n as int)
    }
}

impl LazySegTree {
    /// The algebra the tree aggregates with.
    pub closed spec fn algebra(&self) -> Algebra {
        self.alg
    }

    /// The number of elements, fixed at construction.
    pub closed spec fn len(&self) -> nat {
        self.n as nat
    }

    /// The value every element had at construction.
    pub closed spec fn base(&self) -> int {
        self.init@
    }

    /// How many times a node has been relaxed, wrapping around.
    pub closed spec fn relax_count(&self) -> u64 {
        self.relaxations
    }

    /// The aggregate slots, indexed by node.
    pub closed spec fn vals(&self) -> Seq<i64> {
        self.values@
    }

    /// The pending-update slots, indexed by node.
    pub closed spec fn pushes(&self) -> Seq<i64> {
        self.to_push@
    }

    /// The elements under node `v`, which covers `[l, r)`, as that node sees
    /// them: pending updates of its ancestors are not included.
    pub closed spec fn elems(&self, v: int, l: int, r: int) -> Seq<int>
        decreases r - l,
    {
        if r - l <= 1 {
            seq![self.values@[v] as int]
        } else {
            shift(
                self.elems(2 * v + 1, l, mid(l, r)) + self.elems(2 * v + 2, mid(l, r), r),
                self.to_push@[v] as int,
            )
        }
    }

    /// Node `v` over `[l, r)` and all its descendants hold up-to-date
    /// aggregates, keep their elements within bounds, and lie in storage.
    pub closed spec fn wf_node(&self, v: int, l: int, r: int) -> bool
        decreases r - l,
    {
        if r - l <= 0 {
            false
        } else {
            &&& 0 <= v < self.values.len()
            &&& self.values@[v] as int == self.alg.fold(self.elems(v, l, r))
            &&& bounded(self.elems(v, l, r), self.alg.max_abs(self.n as int))
            &&& if r - l == 1 {
                &&& self.to_push@[v] as int == self.values@[v] as int - self.init@
                &&& -self.alg.max_abs(self.n as int) <= self.init@ <= self.alg.max_abs(self.n as int)
            } else {
                self.wf_node(2 * v + 1, l, mid(l, r)) && self.wf_node(2 * v + 2, mid(l, r), r)
            }
        }
    }

    /// The whole tree is well formed.
    pub closed spec fn wf(&self) -> bool {
        &&& 1 <= self.n
        &&& self.n * 4 <= usize::MAX
        &&& self.values.len() == self.n * 4
        &&& self.to_push.len() == self.n * 4
        &&& self.wf_node(0, 0, self.n as int)
    }

    /// A well-formed tree holds `len()` elements, each within `max_abs`.
    pub proof fn lemma_view_facts(&self)
        requires
            self.wf(),
        ensures
            self@.len() == self.len(),
            bounded(self@, self.algebra().max_abs(self.len() as int)),
    {
        self.lemma_elems_len(0, 0, self.n as int);
    }

    /// A well-formed tree's root is a well-formed node and its storage has
    /// four slots per element.
    pub proof fn lemma_wf_root(&self)
        requires
            self.wf(),
        ensures
            self.wf_node(0, 0, self.len() as int),
            1 <= self.len(),
            self.len() * 4 <= usize::MAX,
            self.vals().len() == 4 * self.len(),
            self.pushes().len() == 4 * self.len(),
    {
    }

    /// Replacing the subtree at node `v` by one that sees the same elements
    /// and is well formed keeps every enclosing node well formed, with the
    /// same elements.
    proof fn lemma_replace_subtree(&self, other: &Self, a: int, al: int, ar: int, v: int, l: int, r: int)
        requires
            a >= 0,
            in_subtree(a, al, ar, v, l, r),
            self.wf_node(a, al, ar),
            other.alg == self.alg,
            other.n == self.n,
            other.init == self.init,
            other.values.len() == self.values.len(),
            forall|u: int| 0 <= u < self.values.len() && !desc(v, u) ==>
                other.values@[u] == self.values@[u] && other.to_push@[u] == self.to_push@[u],
            other.wf_node(v, l, r),
            other.elems(v, l, r) == self.elems(v, l, r),
        ensures
            other.wf_node(a, al, ar),
            other.elems(a, al, ar) == self.elems(a, al, ar),
        decreases ar - al,
    {
        if !(a == v && al == l && ar == r) {
            let m = mid(al, ar);
            let c1 = 2 * a + 1;
            let c2 = 2 * a + 2;
            lemma_in_subtree_desc(a, al, ar, v, l, r);
            lemma_desc_le(a, v);
            if in_subtree(c1, al, m, v, l, r) {
                lemma_in_subtree_desc(c1, al, m, v, l, r);
                lemma_desc_le(c1, v);
                self.lemma_replace_subtree(other, c1, al, m, v, l, r);
                assert forall|u: int| #![trigger desc(c2, u)] desc(c2, u) && 0 <= u < self.values.len() implies
                    other.values@[u] == self.values@[u] && other.to_push@[u] == self.to_push@[u] by {
                    if desc(v, u) {
                        lemma_desc_trans(c1, v, u);
                        lemma_desc_siblings(a, u);
                    }
                }
                self.lemma_frame(other, c2, m, ar);
            } else {
                lemma_in_subtree_desc(c2, m, ar, v, l, r);
                lemma_desc_le(c2, v);
                self.lemma_replace_subtree(other, c2, m, ar, v, l, r);
                assert forall|u: int| #![trigger desc(c1, u)] desc(c1, u) && 0 <= u < self.values.len() implies
                    other.values@[u] == self.values@[u] && other.to_push@[u] == self.to_push@[u] by {
                    if desc(v, u) {
                        lemma_desc_trans(c2, v, u);
                        lemma_desc_siblings(a, u);
                    }
                }
                self.lemma_frame(other, c1, al, m);
            }
            assert(!desc(v, a));
        }
    }

    proof fn lemma_elems_len(&self, v: int, l: int, r: int)
        requires
            l < r,
        ensures
            self.elems(v, l, r).len() == r - l,
        decreases r - l,
    {
        if r - l > 1 {
            self.lemma_elems_len(2 * v + 1, l, mid(l, r));
            self.lemma_elems_len(2 * v + 2, mid(l, r), r);
        }
    }

    /// Two trees that agree on the subtree at `v` see the same elements there.
    proof fn lemma_frame(&self, other: &Self, v: int, l: int, r: int)
        requires
            self.wf_node(v, l, r),
            other.alg == self.alg,
            other.n == self.n,
            other.init == self.init,
            other.values.len() == self.values.len(),
            forall|u: int| #![trigger desc(v, u)] desc(v, u) && 0 <= u < self.values.len() ==>
                other.values@[u] == self.values@[u] && other.to_push@[u] == self.to_push@[u],
        ensures
            other.elems(v, l, r) == self.elems(v, l, r),
            other.wf_node(v, l, r),
        decreases r - l,
    {
        lemma_desc_self(v);
        if r - l > 1 {
            let m = mid(l, r);
            assert forall|u: int| #![trigger desc(2 * v + 1, u)] desc(2 * v + 1, u) implies desc(v, u) by {
                lemma_desc_child(v, 2 * v + 1, u);
            }
            assert forall|u: int| #![trigger desc(2 * v + 2, u)] desc(2 * v + 2, u) implies desc(v, u) by {
                lemma_desc_child(v, 2 * v + 2, u);
            }
            self.lemma_frame(other, 2 * v + 1, l, m);
            self.lemma_frame(other, 2 * v + 2, m, r);
        }
    }

    pub fn get_node(&self, v: usize) -> (r: i64)
        requires
            v < self.vals().len(),
        ensures
            r == self.vals()[v as int],
    {
        self.values[v]
    }

    /// Composes `new_push` into the pending update of node `v`.
    pub fn join_push(&mut self, v: usize, new_push: &i64)
        requires
            v < old(self).pushes().len(),
            i64::MIN <= old(self).algebra().compose_spec(old(self).pushes()[v as int] as int, *new_push as int) <= i64::MAX,
        ensures
            final(self).pushes() == old(self).pushes().update(
                v as int,
                old(self).algebra().compose_spec(old(self).pushes()[v as int] as int, *new_push as int) as i64,
            ),
            final(self).vals() == old(self).vals(),
            final(self).algebra() == old(self).algebra(),
            final(self).len() == old(self).len(),
            final(self).base() == old(self).base(),
            final(self).relax_count() == old(self).relax_count(),
    {
        let mut p = self.to_push[v];
        self.alg.join_pushes(&mut p, new_push);
        self.to_push[v] = p;
    }

    /// Adds `change` to every element under node `v`, which covers `[l, r)`,
    /// by updating that node alone: its aggregate and its pending update.
    pub fn apply_node(&mut self, v: usize, l: usize, r: usize, change: &i64)
        requires
            old(self).wf_node(v as int, l as int, r as int),
            l < r <= old(self).len(),
            old(self).pushes().len() == old(self).vals().len(),
            bounded(shift(old(self).elems(v as int, l as int, r as int), *change as int), old(self).algebra().max_abs(old(self).len() as int)),
        ensures
            final(self).wf_node(v as int, l as int, r as int),
            final(self).elems(v as int, l as int, r as int) == shift(old(self).elems(v as int, l as int, r as int), *change as int),
            final(self).algebra() == old(self).algebra(),
            final(self).len() == old(self).len(),
            final(self).base() == old(self).base(),
            final(self).relax_count() == old(self).relax_count(),
            final(self).vals().len() == old(self).vals().len(),
            final(self).pushes().len() == old(self).pushes().len(),
            final(self).vals()[v as int] as int == old(self).algebra().apply_spec(old(self).vals()[v as int] as int, *change as int, r - l),
            final(self).pushes()[v as int] as int == old(self).algebra().compose_spec(old(self).pushes()[v as int] as int, *change as int),
            forall|u: int| 0 <= u < old(self).vals().len() && u != v ==> final(self).vals()[u] == old(self).vals()[u] && final(self).pushes()[u] == old(self).pushes()[u],
    {
        let ghost pre = *self;
        let ghost e = pre.elems(v as int, l as int, r as int);
        let ghost b = pre.alg.max_abs(pre.n as int);
        let ghost c = *change as int;
        proof {
            pre.lemma_elems_len(v as int, l as int, r as int);
            lemma_limits(pre.alg, pre.n as int, r - l);
            pre.alg.lemma_fold_bounded(e, b);
            pre.alg.lemma_fold_bounded(shift(e, c), b);
            pre.alg.lemma_fold_shift(e, c);
        }
        if r - l > 1 {
            let ghost m = mid(l as int, r as int);
            let ghost e1 = pre.elems(2 * v + 1, l as int, m);
            let ghost e2 = pre.elems(2 * v + 2, m, r as int);
            let ghost pv = pre.to_push@[v as int] as int;
            proof {
                pre.lemma_elems_len(2 * v + 1, l as int, m);
                assert(pre.wf_node(2 * v + 1, l as int, m));
                assert(bounded(e1, b));
                assert(e[0] == e1[0] + pv);
                assert(shift(e, c)[0] == e1[0] + pv + c);
                assert(-b <= e1[0] <= b);
            }
        } else {
            proof {
                assert(e =~= seq![pre.values@[v as int] as int]);
                assert(shift(e, c)[0] == pre.values@[v as int] + c);
            }
        }
        self.join_push(v, change);
        let val = self.values[v];
        let res = self.alg.apply_push(&val, change, l, r);
        self.values[v] = res;
        proof {
            if r - l > 1 {
                let m = mid(l as int, r as int);
                assert forall|u: int| #![trigger desc(2 * v + 1, u)] desc(2 * v + 1, u) && 0 <= u < pre.values.len() implies
                    self.values@[u] == pre.values@[u] && self.to_push@[u] == pre.to_push@[u] by {}
                assert forall|u: int| #![trigger desc(2 * v + 2, u)] desc(2 * v + 2, u) && 0 <= u < pre.values.len() implies
                    self.values@[u] == pre.values@[u] && self.to_push@[u] == pre.to_push@[u] by {}
                pre.lemma_frame(self, 2 * v + 1, l as int, m);
                pre.lemma_frame(self, 2 * v + 2, m, r as int);
                let inner = pre.elems(2 * v + 1, l as int, m) + pre.elems(2 * v + 2, m, r as int);
                assert(shift(inner, self.to_push@[v as int] as int) =~= shift(e, c));
            } else {
                assert(e =~= seq![pre.values@[v as int] as int]);
                assert(c * 1 == c);
                assert(shift(e, c)[0] == self.values@[v as int] as int);
                assert(seq![self.values@[v as int] as int] =~= shift(e, c));
            }
        }
    }

    /// Sets the aggregate of internal node `v` from those of its children.
    pub fn recompute_res(&mut self, v: usize)
        requires
            2 * v + 2 < old(self).vals().len(),
            i64::MIN <= old(self).algebra().join_spec(
                old(self).vals()[2 * v + 1] as int,
                old(self).vals()[2 * v + 2] as int,
            ) <= i64::MAX,
        ensures
            final(self).vals() == old(self).vals().update(
                v as int,
                old(self).algebra().join_spec(
                    old(self).vals()[2 * v + 1] as int,
                    old(self).vals()[2 * v + 2] as int,
                ) as i64,
            ),
            final(self).pushes() == old(self).pushes(),
            final(self).algebra() == old(self).algebra(),
            final(self).len() == old(self).len(),
            final(self).base() == old(self).base(),
            final(self).relax_count() == old(self).relax_count(),
    {
        assert(self.vals().len() == self.values.len());
        let a = self.get_node(v * 2 + 1);
        let b = self.get_node(v * 2 + 2);
        let res = self.alg.join_elems(&a, &b);
        self.values[v] = res;
    }

    /// Pushes the pending update of internal node `v`, which covers `[l, r)`,
    /// down into its two children and clears it at `v`.
    pub fn relax(&mut self, v: usize, l: usize, r: usize)
        requires
            old(self).wf_node(v as int, l as int, r as int),
            l + 2 <= r <= old(self).len(),
            old(self).len() * 4 <= usize::MAX,
            old(self).pushes().len() == old(self).vals().len(),
        ensures
            final(self).wf_node(v as int, l as int, r as int),
            final(self).elems(v as int, l as int, r as int) == old(self).elems(v as int, l as int, r as int),
            final(self).pushes()[v as int] == 0,
            final(self).vals()[v as int] == old(self).vals()[v as int],
            final(self).vals()[2 * v + 1] as int == old(self).algebra().apply_spec(
                old(self).vals()[2 * v + 1] as int,
                old(self).pushes()[v as int] as int,
                mid(l as int, r as int) - l,
            ),
            final(self).vals()[2 * v + 2] as int == old(self).algebra().apply_spec(
                old(self).vals()[2 * v + 2] as int,
                old(self).pushes()[v as int] as int,
                r - mid(l as int, r as int),
            ),
            final(self).pushes()[2 * v + 1] as int
                == old(self).algebra().compose_spec(old(self).pushes()[2 * v + 1] as int, old(self).pushes()[v as int] as int),
            final(self).pushes()[2 * v + 2] as int
                == old(self).algebra().compose_spec(old(self).pushes()[2 * v + 2] as int, old(self).pushes()[v as int] as int),
            final(self).relax_count() == if old(self).relax_count() == u64::MAX { 0 } else { (old(self).relax_count() + 1) as u64 },
            forall|u: int| 0 <= u < old(self).vals().len() && u != v && u != 2 * v + 1 && u != 2 * v + 2 ==>
                final(self).vals()[u] == old(self).vals()[u] && final(self).pushes()[u] == old(self).pushes()[u],
            final(self).algebra() == old(self).algebra(),
            final(self).len() == old(self).len(),
            final(self).base() == old(self).base(),
            final(self).vals().len() == old(self).vals().len(),
            final(self).pushes().len() == old(self).pushes().len(),
            forall|u: int| 0 <= u < old(self).vals().len() && !desc(v as int, u) ==>
                final(self).vals()[u] == old(self).vals()[u] && final(self).pushes()[u] == old(self).pushes()[u],
            old(self).wf() && in_subtree(0, 0, old(self).len() as int, v as int, l as int, r as int) ==>
                final(self).wf() && final(self)@ == old(self)@,
    {
        let ghost pre = *self;
        let ghost m = mid(l as int, r as int);
        let ghost c1 = 2 * v + 1;
        let ghost c2 = 2 * v + 2;
        let ghost e = pre.elems(v as int, l as int, r as int);
        let ghost e1 = pre.elems(c1, l as int, m);
        let ghost e2 = pre.elems(c2, m, r as int);
        let ghost b = pre.alg.max_abs(pre.n as int);
        proof {
            assert(pre.wf_node(c1, l as int, m));
            assert(pre.wf_node(c2, m, r as int));
        }
        self.relaxations = self.relaxations.wrapping_add(1);
        let push = self.to_push[v];
        self.to_push[v] = self.alg.no_push();
        let mid_index = (l + r) / 2;
        proof {
            pre.lemma_elems_len(c1, l as int, m);
            pre.lemma_elems_len(c2, m, r as int);
            assert(shift(e1, push as int) =~= e.subrange(0, m - l));
            assert(shift(e2, push as int) =~= e.subrange(m - l, r - l));
            pre.lemma_frame(self, c1, l as int, m);
            pre.lemma_frame(self, c2, m, r as int);
            lemma_desc_child(v as int, c1, c1);
            lemma_desc_child(v as int, c2, c2);
        }
        let ghost s1 = *self;
        self.apply_node(v * 2 + 1, l, mid_index, &push);
        let ghost s2 = *self;
        proof {
            lemma_desc_siblings(v as int, c1);
            s1.lemma_frame(self, c2, m, r as int);
        }
        self.apply_node(v * 2 + 2, mid_index, r, &push);
        proof {
            lemma_desc_siblings(v as int, c2);
            assert forall|u: int| #![trigger desc(c1, u)] desc(c1, u) && 0 <= u < s2.values.len() implies
                self.values@[u] == s2.values@[u] && self.to_push@[u] == s2.to_push@[u] by {
                lemma_desc_siblings(v as int, u);
            }
            s2.lemma_frame(self, c1, l as int, m);
            assert(shift(shift(e1, push as int) + shift(e2, push as int), 0) =~= e);
            if pre.wf() && in_subtree(0, 0, pre.n as int, v as int, l as int, r as int) {
                pre.lemma_replace_subtree(self, 0, 0, pre.n as int, v as int, l as int, r as int);
            }
        }
    }

    /// Adds `change` to the elements at positions `[need_l, need_r)` under
    /// node `v`, which covers `[vertex_l, vertex_r)`.
    pub fn apply_internal(&mut self, v: usize, need_l: usize, need_r: usize, vertex_l: usize, vertex_r: usize, change: &i64)
        requires
            old(self).wf_node(v as int, vertex_l as int, vertex_r as int),
            vertex_l < vertex_r <= old(self).len(),
            old(self).len() * 4 <= usize::MAX,
            old(self).pushes().len() == old(self).vals().len(),
            bounded(
                add_range(old(self).elems(v as int, vertex_l as int, vertex_r as int), need_l - vertex_l, need_r - vertex_l, *change as int),
                old(self).algebra().max_abs(old(self).len() as int),
            ),
        ensures
            final(self).wf_node(v as int, vertex_l as int, vertex_r as int),
            final(self).elems(v as int, vertex_l as int, vertex_r as int) == add_range(
                old(self).elems(v as int, vertex_l as int, vertex_r as int),
                need_l - vertex_l,
                need_r - vertex_l,
                *change as int,
            ),
            final(self).algebra() == old(self).algebra(),
            final(self).len() == old(self).len(),
            final(self).base() == old(self).base(),
            final(self).vals().len() == old(self).vals().len(),
            final(self).pushes().len() == old(self).pushes().len(),
            forall|u: int| 0 <= u < old(self).vals().len() && !desc(v as int, u) ==>
                final(self).vals()[u] == old(self).vals()[u] && final(self).pushes()[u] == old(self).pushes()[u],
            need_l >= vertex_r || need_r <= vertex_l ==>
                final(self).vals() == old(self).vals() && final(self).pushes() == old(self).pushes(),
            !(need_l >= vertex_r || need_r <= vertex_l) && need_l <= vertex_l && need_r >= vertex_r ==> {
                &&& final(self).vals()[v as int] as int == old(self).algebra().apply_spec(
                    old(self).vals()[v as int] as int,
                    *change as int,
                    vertex_r - vertex_l,
                )
                &&& final(self).pushes()[v as int] as int
                    == old(self).algebra().compose_spec(old(self).pushes()[v as int] as int, *change as int)
                &&& forall|u: int| 0 <= u < old(self).vals().len() && u != v ==>
                    final(self).vals()[u] == old(self).vals()[u] && final(self).pushes()[u] == old(self).pushes()[u]
            },
            !(need_l >= vertex_r || need_r <= vertex_l) && !(need_l <= vertex_l && need_r >= vertex_r) ==> {
                &&& vertex_r - vertex_l > 1
                &&& final(self).pushes()[v as int] == 0
                &&& final(self).vals()[v as int] as int == old(self).algebra().join_spec(
                    final(self).vals()[2 * v + 1] as int,
                    final(self).vals()[2 * v + 2] as int,
                )
            },
        decreases vertex_r - vertex_l,
    {
        let ghost pre = *self;
        let ghost e = pre.elems(v as int, vertex_l as int, vertex_r as int);
        let ghost lo = need_l - vertex_l;
        let ghost hi = need_r - vertex_l;
        let ghost c = *change as int;
        proof {
            pre.lemma_elems_len(v as int, vertex_l as int, vertex_r as int);
        }
        if need_l >= vertex_r || need_r <= vertex_l {
            assert(add_range(e, lo, hi, c) =~= e);
            return;
        }
        if need_l <= vertex_l && need_r >= vertex_r {
            assert(add_range(e, lo, hi, c) =~= shift(e, c));
            self.apply_node(v, vertex_l, vertex_r, change);
            return;
        }
        let ghost m = mid(vertex_l as int, vertex_r as int);
        let ghost c1 = 2 * v + 1;
        let ghost c2 = 2 * v + 2;
        self.relax(v, vertex_l, vertex_r);
        let ghost s1 = *self;
        let ghost e1 = s1.elems(c1, vertex_l as int, m);
        let ghost e2 = s1.elems(c2, m, vertex_r as int);
        let ghost b = pre.alg.max_abs(pre.n as int);
        let mid_index = (vertex_l + vertex_r) / 2;
        proof {
            assert(s1.wf_node(c1, vertex_l as int, m));
            assert(s1.wf_node(c2, m, vertex_r as int));
            s1.lemma_elems_len(c1, vertex_l as int, m);
            s1.lemma_elems_len(c2, m, vertex_r as int);
            assert(e =~= e1 + e2);
            let a = add_range(e, lo, hi, c);
            assert(add_range(e1, lo, hi, c) =~= a.subrange(0, m - vertex_l));
            assert(add_range(e2, need_l - m, need_r - m, c) =~= a.subrange(m - vertex_l, vertex_r - vertex_l));
        }
        self.apply_internal(v * 2 + 1, need_l, need_r, vertex_l, mid_index, change);
        let ghost s2 = *self;
        proof {
            assert forall|u: int| #![trigger desc(c2, u)] desc(c2, u) && 0 <= u < s1.values.len() implies
                self.values@[u] == s1.values@[u] && self.to_push@[u] == s1.to_push@[u] by {
                lemma_desc_siblings(v as int, u);
            }
            s1.lemma_frame(self, c2, m, vertex_r as int);
        }
        self.apply_internal(v * 2 + 2, need_l, need_r, mid_index, vertex_r, change);
        let ghost s3 = *self;
        let ghost a1 = add_range(e1, lo, hi, c);
        let ghost a2 = add_range(e2, need_l - m, need_r - m, c);
        proof {
            assert forall|u: int| #![trigger desc(c1, u)] desc(c1, u) && 0 <= u < s2.values.len() implies
                self.values@[u] == s2.values@[u] && self.to_push@[u] == s2.to_push@[u] by {
                lemma_desc_siblings(v as int, u);
            }
            s2.lemma_frame(self, c1, vertex_l as int, m);
            s3.lemma_elems_len(c1, vertex_l as int, m);
            s3.lemma_elems_len(c2, m, vertex_r as int);
            lemma_limits(pre.alg, pre.n as int, m - vertex_l);
            lemma_limits(pre.alg, pre.n as int, vertex_r - m);
            pre.alg.lemma_fold_bounded(a1, b);
            pre.alg.lemma_fold_bounded(a2, b);
            pre.alg.lemma_fold_concat(a1, a2);
            assert(a1 + a2 =~= add_range(e, lo, hi, c));
            lemma_limits(pre.alg, pre.n as int, vertex_r - vertex_l);
            pre.alg.lemma_fold_bounded(a1 + a2, b);
        }
        self.recompute_res(v);
        proof {
            assert forall|u: int| #![trigger desc(c1, u)] desc(c1, u) && 0 <= u < s3.values.len() implies
                self.values@[u] == s3.values@[u] && self.to_push@[u] == s3.to_push@[u] by {}
            assert forall|u: int| #![trigger desc(c2, u)] desc(c2, u) && 0 <= u < s3.values.len() implies
                self.values@[u] == s3.values@[u] && self.to_push@[u] == s3.to_push@[u] by {}
            s3.lemma_frame(self, c1, vertex_l as int, m);
            s3.lemma_frame(self, c2, m, vertex_r as int);
            assert(shift(a1 + a2, 0) =~= a1 + a2);
            assert(!desc(c1, v as int));
            assert(!desc(c2, v as int));
            assert(s2.to_push@[v as int] == 0);
            assert(s3.to_push@[v as int] == 0);
            assert(self.to_push@[v as int] == 0);
            assert(self.elems(c1, vertex_l as int, m) == a1);
            assert(self.elems(c2, m, vertex_r as int) == a2);
            assert(self.elems(v as int, vertex_l as int, vertex_r as int) == shift(a1 + a2, 0));
            assert(self.values@[v as int] as int == pre.alg.fold(a1 + a2));
            assert forall|u: int| 0 <= u < pre.values.len() && !desc(v as int, u) implies
                self.values@[u] == pre.values@[u] && self.to_push@[u] == pre.to_push@[u] by {
                if desc(c1, u) {
                    lemma_desc_child(v as int, c1, u);
                }
                if desc(c2, u) {
                    lemma_desc_child(v as int, c2, u);
                }
            }
        }
    }

    /// The aggregate of the elements at positions `[need_l, need_r)` under
    /// node `v`, which covers `[vertex_l, vertex_r)`.
    pub fn get_internal(&mut self, v: usize, need_l: usize, need_r: usize, vertex_l: usize, vertex_r: usize) -> (res: i64)
        requires
            old(self).wf_node(v as int, vertex_l as int, vertex_r as int),
            vertex_l < vertex_r <= old(self).len(),
            need_l <= need_r,
            old(self).len() * 4 <= usize::MAX,
            old(self).pushes().len() == old(self).vals().len(),
        ensures
            final(self).wf_node(v as int, vertex_l as int, vertex_r as int),
            final(self).elems(v as int, vertex_l as int, vertex_r as int) == old(self).elems(v as int, vertex_l as int, vertex_r as int),
            res as int == old(self).algebra().fold(window(
                old(self).elems(v as int, vertex_l as int, vertex_r as int),
                need_l - vertex_l,
                need_r - vertex_l,
            )),
            final(self).algebra() == old(self).algebra(),
            final(self).len() == old(self).len(),
            final(self).base() == old(self).base(),
            final(self).vals().len() == old(self).vals().len(),
            final(self).pushes().len() == old(self).pushes().len(),
            forall|u: int| 0 <= u < old(self).vals().len() && !desc(v as int, u) ==>
                final(self).vals()[u] == old(self).vals()[u] && final(self).pushes()[u] == old(self).pushes()[u],
            need_l >= vertex_r || need_r <= vertex_l ==> res as int == old(self).algebra().id_spec(),
            need_l >= vertex_r || need_r <= vertex_l || (need_l <= vertex_l && need_r >= vertex_r) ==>
                final(self).vals() == old(self).vals() && final(self).pushes() == old(self).pushes(),
            !(need_l >= vertex_r || need_r <= vertex_l) && need_l <= vertex_l && need_r >= vertex_r ==>
                res == old(self).vals()[v as int],
        decreases vertex_r - vertex_l,
    {
        let ghost pre = *self;
        let ghost e = pre.elems(v as int, vertex_l as int, vertex_r as int);
        let ghost lo = need_l - vertex_l;
        let ghost hi = need_r - vertex_l;
        let ghost b = pre.alg.max_abs(pre.n as int);
        proof {
            pre.lemma_elems_len(v as int, vertex_l as int, vertex_r as int);
        }
        if need_l >= vertex_r || need_r <= vertex_l {
            assert(window(e, lo, hi) =~= Seq::<int>::empty());
            return self.alg.id();
        }
        if need_l <= vertex_l && need_r >= vertex_r {
            assert(window(e, lo, hi) =~= e);
            return self.get_node(v);
        }
        let ghost m = mid(vertex_l as int, vertex_r as int);
        let ghost c1 = 2 * v + 1;
        let ghost c2 = 2 * v + 2;
        self.relax(v, vertex_l, vertex_r);
        let ghost s1 = *self;
        let ghost e1 = s1.elems(c1, vertex_l as int, m);
        let ghost e2 = s1.elems(c2, m, vertex_r as int);
        let mid_index = (vertex_l + vertex_r) / 2;
        proof {
            assert(s1.wf_node(c1, vertex_l as int, m));
            assert(s1.wf_node(c2, m, vertex_r as int));
            s1.lemma_elems_len(c1, vertex_l as int, m);
            s1.lemma_elems_len(c2, m, vertex_r as int);
            assert(e =~= e1 + e2);
        }
        let ans_l = self.get_internal(v * 2 + 1, need_l, need_r, vertex_l, mid_index);
        let ghost s2 = *self;
        proof {
            assert forall|u: int| #![trigger desc(c2, u)] desc(c2, u) && 0 <= u < s1.values.len() implies
                self.values@[u] == s1.values@[u] && self.to_push@[u] == s1.to_push@[u] by {
                lemma_desc_siblings(v as int, u);
            }
            s1.lemma_frame(self, c2, m, vertex_r as int);
        }
        let ans_r = self.get_internal(v * 2 + 2, need_l, need_r, mid_index, vertex_r);
        proof {
            assert forall|u: int| #![trigger desc(c1, u)] desc(c1, u) && 0 <= u < s2.values.len() implies
                self.values@[u] == s2.values@[u] && self.to_push@[u] == s2.to_push@[u] by {
                lemma_desc_siblings(v as int, u);
            }
            s2.lemma_frame(self, c1, vertex_l as int, m);
            lemma_window_split(pre.alg, e1, e2, lo, hi, b, pre.n as int);
            assert(!desc(c1, v as int));
            assert(!desc(c2, v as int));
            assert(self.to_push@[v as int] == 0);
            assert(self.values@[v as int] == s1.values@[v as int]);
            assert(self.elems(v as int, vertex_l as int, vertex_r as int) =~= shift(e1 + e2, 0));
            assert forall|u: int| 0 <= u < pre.values.len() && !desc(v as int, u) implies
                self.values@[u] == pre.values@[u] && self.to_push@[u] == pre.to_push@[u] by {
                if desc(c1, u) {
                    lemma_desc_child(v as int, c1, u);
                }
                if desc(c2, u) {
                    lemma_desc_child(v as int, c2, u);
                }
            }
        }
        self.alg.join_elems(&ans_l, &ans_r)
    }

    /// Builds the aggregates of node `v`, which covers `[l, r)`, and of its
    /// descendants, whose slots all hold `init_val` and no pending update.
    /// `depth_pow` is two to the depth of `v`.
    #[verifier::rlimit(50)]
    pub fn init(&mut self, v: usize, l: usize, r: usize, Ghost(depth_pow): Ghost<int>, Ghost(init_val): Ghost<i64>)
        requires
            l < r <= old(self).len(),
            old(self).len() * 4 <= usize::MAX,
            old(self).vals().len() == old(self).len() * 4,
            old(self).pushes().len() == old(self).len() * 4,
            v < old(self).vals().len(),
            init_val as int == old(self).base(),
            depth_pow >= 1,
            v + 2 <= 2 * depth_pow,
            (r - l - 1) * depth_pow < old(self).len(),
            -old(self).algebra().max_abs(old(self).len() as int) <= init_val <= old(self).algebra().max_abs(old(self).len() as int),
            forall|u: int| #![trigger desc(v as int, u)] desc(v as int, u) && 0 <= u < old(self).vals().len() ==>
                old(self).vals()[u] == init_val && old(self).pushes()[u] == 0,
        ensures
            final(self).wf_node(v as int, l as int, r as int),
            final(self).elems(v as int, l as int, r as int) == Seq::new((r - l) as nat, |i: int| init_val as int),
            final(self).algebra() == old(self).algebra(),
            final(self).len() == old(self).len(),
            final(self).base() == old(self).base(),
            final(self).relax_count() == old(self).relax_count(),
            final(self).vals().len() == old(self).vals().len(),
            final(self).pushes() == old(self).pushes(),
            forall|u: int| 0 <= u < old(self).vals().len() && !desc(v as int, u) ==>
                final(self).vals()[u] == old(self).vals()[u],
            final(self).vals()[v as int] as int == old(self).algebra().fold(Seq::new((r - l) as nat, |i: int| init_val as int)),
            r - l == 1 ==> final(self).vals() == old(self).vals(),
            forall|u: int| 0 <= u < old(self).vals().len() && !internal_in(v as int, l as int, r as int, u) ==>
                final(self).vals()[u] == old(self).vals()[u],
        decreases r - l,
    {
        let ghost pre = *self;
        let ghost b = pre.alg.max_abs(pre.n as int);
        proof {
            lemma_desc_self(v as int);
            lemma_limits(pre.alg, pre.n as int, 1);
        }
        if l + 1 == r {
            proof {
                let e = self.elems(v as int, l as int, r as int);
                assert(e =~= Seq::new((r - l) as nat, |i: int| init_val as int));
                assert(e.drop_last() =~= Seq::<int>::empty());
                assert(self.values@[v as int] == init_val);
                assert(self.to_push@[v as int] == 0);
                assert(self.init@ == init_val as int);
                assert(pre.alg.fold(e) == pre.alg.join_spec(pre.alg.fold(e.drop_last()), e.last()));
                assert(pre.alg.fold(e) == init_val as int);
                assert(bounded(e, b));
            }
            assert(self.vals() == pre.vals());
            return;
        }
        let ghost m = mid(l as int, r as int);
        let ghost c1 = 2 * v + 1;
        let ghost c2 = 2 * v + 2;
        let ghost n = pre.n as int;
        let ghost w = r - l;
        proof {
            assert(depth_pow < n) by (nonlinear_arith)
                requires (w - 1) * depth_pow < n, w >= 2, depth_pow >= 1;
            assert((m - l - 1) * (2 * depth_pow) < n) by (nonlinear_arith)
                requires (w - 1) * depth_pow < n, 2 * (m - l - 1) <= w - 1, depth_pow >= 1, m - l >= 1;
            assert((r - m - 1) * (2 * depth_pow) < n) by (nonlinear_arith)
                requires (w - 1) * depth_pow < n, 2 * (r - m - 1) <= w - 1, depth_pow >= 1, r - m >= 1;
            assert forall|u: int| #![trigger desc(c1, u)] desc(c1, u) implies desc(v as int, u) by {
                lemma_desc_child(v as int, c1, u);
            }
            assert forall|u: int| #![trigger desc(c2, u)] desc(c2, u) implies desc(v as int, u) by {
                lemma_desc_child(v as int, c2, u);
            }
        }
        let mid_index = (l + r) / 2;
        self.init(v * 2 + 1, l, mid_index, Ghost(2 * depth_pow), Ghost(init_val));
        let ghost s1 = *self;
        proof {
            assert forall|u: int| #![trigger desc(c2, u)] desc(c2, u) && 0 <= u < pre.values.len() implies
                self.values@[u] == init_val && self.to_push@[u] == 0 by {
                lemma_desc_siblings(v as int, u);
                lemma_desc_child(v as int, c2, u);
            }
        }
        self.init(v * 2 + 2, mid_index, r, Ghost(2 * depth_pow), Ghost(init_val));
        let ghost s2 = *self;
        let ghost e1 = Seq::new((m - l) as nat, |i: int| init_val as int);
        let ghost e2 = Seq::new((r - m) as nat, |i: int| init_val as int);
        proof {
            assert forall|u: int| #![trigger desc(c1, u)] desc(c1, u) && 0 <= u < s1.values.len() implies
                self.values@[u] == s1.values@[u] && self.to_push@[u] == s1.to_push@[u] by {
                lemma_desc_siblings(v as int, u);
            }
            s1.lemma_frame(self, c1, l as int, m);
            assert(bounded(e1 + e2, b));
            lemma_window_split(pre.alg, e1, e2, 0, w, b, n);
            assert(window(e1 + e2, 0, w) =~= e1 + e2);
            assert(window(e1, 0, w) =~= e1);
            assert(window(e2, 0 - e1.len(), w - e1.len()) =~= e2);
        }
        self.recompute_res(v);
        proof {
            assert forall|u: int| #![trigger desc(c1, u)] desc(c1, u) && 0 <= u < s2.values.len() implies
                self.values@[u] == s2.values@[u] && self.to_push@[u] == s2.to_push@[u] by {}
            assert forall|u: int| #![trigger desc(c2, u)] desc(c2, u) && 0 <= u < s2.values.len() implies
                self.values@[u] == s2.values@[u] && self.to_push@[u] == s2.to_push@[u] by {}
            s2.lemma_frame(self, c1, l as int, m);
            s2.lemma_frame(self, c2, m, r as int);
            assert(shift(e1 + e2, 0) =~= Seq::new((r - l) as nat, |i: int| init_val as int));
            assert(shift(e1 + e2, 0) =~= e1 + e2);
            assert(self.to_push@[v as int] == 0);
            assert(self.elems(v as int, l as int, r as int) == shift(e1 + e2, 0));
            assert(self.values@[v as int] as int == pre.alg.fold(e1 + e2));
            assert(bounded(shift(e1 + e2, 0), b));
            assert(self.wf_node(c1, l as int, m));
            assert(self.wf_node(c2, m, r as int));
            assert forall|u: int| 0 <= u < pre.values.len() && !desc(v as int, u) implies
                self.values@[u] == pre.values@[u] by {
                if desc(c1, u) {
                    lemma_desc_child(v as int, c1, u);
                }
                if desc(c2, u) {
                    lemma_desc_child(v as int, c2, u);
                }
            }
        }
    }

    /// How many times a node has been relaxed since construction.
    pub fn relaxations(&self) -> (r: u64)
        ensures
            r == self.relax_count(),
    {
        self.relaxations
    }

    /// A tree over `n` elements of algebra `alg`, each equal to `init_val`.
    pub fn new(alg: Algebra, init_val: i64, n: usize) -> (res: Self)
        requires
            1 <= n,
            n * 4 <= usize::MAX,
            -alg.max_abs(n as int) <= init_val <= alg.max_abs(n as int),
        ensures
            res.wf(),
            res.algebra() == alg,
            res.len() == n,
            res@ == Seq::new(n as nat, |i: int| init_val as int),
            res.vals().len() == 4 * n,
            res.pushes().len() == 4 * n,
            forall|i: int| 0 <= i < 4 * n ==> #[trigger] res.pushes()[i] == alg.no_push_spec(),
            res.relax_count() == 0,
            res.base() == init_val as int,
    {
        let values = vec![init_val; n * 4];
        let to_push = vec![alg.no_push(); n * 4];
        let mut res = LazySegTree { alg, values, to_push, n, relaxations: 0, init: Ghost(init_val as int) };
        res.init(0, 0, n, Ghost(1), Ghost(init_val));
        res
    }

    /// Adds `change` to every element at positions `[l, r)`.
    pub fn apply(&mut self, l: usize, r: usize, change: i64)
        requires
            old(self).wf(),
            l <= r <= old(self).len(),
            bounded(add_range(old(self)@, l as int, r as int, change as int), old(self).algebra().max_abs(old(self).len() as int)),
        ensures
            final(self).wf(),
            final(self).algebra() == old(self).algebra(),
            final(self).len() == old(self).len(),
            final(self).base() == old(self).base(),
            final(self)@ == add_range(old(self)@, l as int, r as int, change as int),
            final(self).vals().len() == old(self).vals().len(),
            final(self).pushes().len() == old(self).pushes().len(),
    {
        let n = self.n;
        self.apply_internal(0, l, r, 0, n, &change);
    }

    /// The aggregate of the elements at positions `[l, r)`; the identity when
    /// the range is empty. Pending updates met on the way are pushed down.
    pub fn get(&mut self, l: usize, r: usize) -> (res: i64)
        requires
            old(self).wf(),
            l <= r <= old(self).len(),
        ensures
            final(self).wf(),
            final(self).algebra() == old(self).algebra(),
            final(self).len() == old(self).len(),
            final(self).base() == old(self).base(),
            final(self)@ == old(self)@,
            res as int == old(self).algebra().fold(old(self)@.subrange(l as int, r as int)),
            final(self).vals().len() == old(self).vals().len(),
            final(self).pushes().len() == old(self).pushes().len(),
    {
        let n = self.n;
        let ghost e = self@;
        let res = self.get_internal(0, l, r, 0, n);
        proof {
            self.lemma_elems_len(0, 0, n as int);
            assert(window(e, l as int, r as int) =~= e.subrange(l as int, r as int));
        }
        res
    }
}

} // verus!
