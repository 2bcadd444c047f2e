use vstd::prelude::*;

verus! {

/// Start of the index range whose sum a Fenwick tree stores at slot `i`:
/// `i` with its trailing one bits cleared.
pub open spec fn low(i: usize) -> usize {
    i & ((i + 1) as usize)
}

proof fn lemma_low_le(x: usize)
    requires
        x < usize::MAX,
    ensures
        x & ((x + 1) as usize) <= x,
{
    assert(x & ((x + 1) as usize) <= x) by (bit_vector)
        requires ((x + 1) as usize) > x;
}

proof fn lemma_next_skips(x: usize, i: usize)
    requires
        x < usize::MAX,
        x < i < (x | ((x + 1) as usize)),
    ensures
        i & ((i + 1) as usize) > x,
{
    assert(i & ((i + 1) as usize) > x) by (bit_vector)
        requires ((x + 1) as usize) > x, x < i < (x | ((x + 1) as usize));
}

proof fn lemma_next_low(x: usize)
    requires
        x < usize::MAX,
    ensures
        (x | ((x + 1) as usize)) > x,
        (x | ((x + 1) as usize)) & ((x | ((x + 1) as usize)) + 1) as usize <= x & ((x + 1) as usize),
{
    assert((x | ((x + 1) as usize)) > x) by (bit_vector)
        requires ((x + 1) as usize) > x;
    assert((x | ((x + 1) as usize)) & ((x | ((x + 1) as usize)) + 1) as usize <= x & ((x + 1) as usize)) by (bit_vector)
        requires ((x + 1) as usize) > x;
}

/// The sum of `s[a..b]`.
pub open spec fn range_sum(s: Seq<int>, a: int, b: int) -> int
    decreases b - a,
{
    if b <= a {
        0
    } else {
        range_sum(s, a, b - 1) + s[b - 1]
    }
}

/// Every contiguous range of `s` sums to a value that fits in an `i64`.
pub open spec fn sums_fit(s: Seq<int>) -> bool {
    forall|a: int, b: int| 0 <= a <= b <= s.len() ==> i64::MIN <= #[trigger] range_sum(s, a, b) <= i64::MAX
}

proof fn lemma_range_sum_split(s: Seq<int>, a: int, b: int, c: int)
    requires
        a <= b <= c,
    ensures
        range_sum(s, a, c) == range_sum(s, a, b) + range_sum(s, b, c),
    decreases c - b,
{
    if b < c {
        lemma_range_sum_split(s, a, b, c - 1);
    }
}

proof fn lemma_range_sum_update(s: Seq<int>, p: int, c: int, a: int, b: int)
    requires
        0 <= p < s.len(),
        0 <= a,
        b <= s.len(),
    ensures
        range_sum(s.update(p, s[p] + c), a, b) == range_sum(s, a, b) + (if a <= p < b { c } else { 0 }),
    decreases b - a,
{
    if a < b {
        lemma_range_sum_update(s, p, c, a, b - 1);
    }
}

proof fn lemma_range_sum_zero(n: nat, a: int, b: int)
    requires
        0 <= a,
        b <= n,
    ensures
        range_sum(Seq::new(n, |i: int| 0int), a, b) == 0,
    decreases b - a,
{
    if a < b {
        lemma_range_sum_zero(n, a, b - 1);
    }
}

/// A Fenwick (binary indexed) tree over `i64` elements: point updates and
/// prefix sums. Slot `i` holds the sum of the elements at `[low(i), i]`.
pub struct Fenwick {
    values: Vec<i64>,
    elems: Ghost<Seq<int>>,
}

impl View for Fenwick {
    type V = Seq<int>;

    closed spec fn view(&self) -> Seq<int> {
        self.elems@
    }
}

impl Fenwick {
    pub closed spec fn wf(&self) -> bool {
        &&& self.values.len() == self.elems@.len()
        &&& sums_fit(self.elems@)
        &&& forall|i: int| 0 <= i < self.values.len() ==>
            #[trigger] self.values@[i] as int == range_sum(self.elems@, low(i as usize) as int, i + 1)
    }

    /// The sum of the elements at positions `[0, pos]`.
    pub fn get_sum(&self, pos: usize) -> (r: i64)
        requires
            self.wf(),
            pos < self@.len(),
        ensures
            r as int == range_sum(self@, 0, pos + 1),
    {
        let ghost s = self.elems@;
        let ghost top = pos + 1;
        let mut cur = pos;
        let mut res: i64 = 0;
        loop
            invariant
                self.wf(),
                s == self.elems@,
                cur < top <= s.len(),
                top == pos + 1,
                res as int == range_sum(s, cur + 1, top),
            decreases cur,
        {
            proof {
                lemma_low_le(cur);
                assert(self.values@[cur as int] as int == range_sum(s, low(cur) as int, cur + 1));
                lemma_range_sum_split(s, low(cur) as int, cur + 1, top);
                assert(i64::MIN <= range_sum(s, low(cur) as int, top) <= i64::MAX);
            }
            res += self.values[cur];
            let ghost prev = cur;
            cur = cur & (cur + 1);
            assert(cur == low(prev));
            if cur == 0 {
                assert(res as int == range_sum(s, 0, top));
                assert(self@ == s);
                assert(top == pos + 1);
                return res;
            }
            cur -= 1;
        }
    }

    /// Adds `change` to the element at `pos`; a position past the end changes
    /// nothing.
    pub fn add(&mut self, pos: usize, change: i64)
        requires
            old(self).wf(),
            pos < old(self)@.len() ==> sums_fit(old(self)@.update(pos as int, old(self)@[pos as int] + change)),
        ensures
            final(self).wf(),
            pos < old(self)@.len() ==> final(self)@ == old(self)@.update(pos as int, old(self)@[pos as int] + change),
            pos >= old(self)@.len() ==> *final(self) == *old(self),
    {
        if pos >= self.values.len() {
            return;
        }
        let ghost p = pos as int;
        let ghost olds = self.elems@;
        let ghost news = olds.update(p, olds[p] + change);
        self.elems = Ghost(news);
        let mut pos = pos;
        proof {
            lemma_low_le(pos);
        }
        while pos < self.values.len()
            invariant
                self.elems@ == news,
                news == olds.update(p, olds[p] + change),
                self.values.len() == news.len(),
                olds.len() == news.len(),
                0 <= p < news.len(),
                p <= pos,
                low(pos) <= p,
                sums_fit(news),
                forall|i: int| 0 <= i < self.values.len() ==>
                    #[trigger] self.values@[i] as int == range_sum(olds, low(i as usize) as int, i + 1)
                        + (if i < pos && low(i as usize) <= p <= i { change as int } else { 0 }),
            decreases usize::MAX - pos,
        {
            proof {
                lemma_low_le(pos);
                lemma_range_sum_update(olds, p, change as int, low(pos) as int, pos + 1);
                assert(i64::MIN <= range_sum(news, low(pos) as int, pos + 1) <= i64::MAX);
                assert(self.values@[pos as int] as int == range_sum(olds, low(pos) as int, pos + 1));
                assert(low(pos) <= p <= pos);
                assert(range_sum(news, low(pos) as int, pos + 1) == range_sum(olds, low(pos) as int, pos + 1) + change);
            }
            self.values[pos] = self.values[pos] + change;
            let next = pos | (pos + 1);
            assert(next == (pos | ((pos + 1) as usize)));
            proof {
                lemma_next_low(pos);
                assert forall|i: int| pos < i < next implies #[trigger] low(i as usize) > pos by {
                    lemma_next_skips(pos, i as usize);
                }
            }
            assert(next > pos);
            pos = next;
        }
        proof {
            assert forall|i: int| 0 <= i < self.values.len() implies
                #[trigger] self.values@[i] as int == range_sum(news, low(i as usize) as int, i + 1) by {
                lemma_low_le(i as usize);
                lemma_range_sum_update(olds, p, change as int, low(i as usize) as int, i + 1);
            }
        }
    }

    /// A tree over `n` elements, all zero.
    pub fn new(n: usize) -> (res: Self)
        ensures
            res.wf(),
            res@ == Seq::new(n as nat, |i: int| 0int),
    {
        let values = vec![0i64; n];
        let res = Fenwick { values, elems: Ghost(Seq::new(n as nat, |i: int| 0int)) };
        proof {
            assert forall|a: int, b: int| 0 <= a <= b <= n implies i64::MIN <= #[trigger] range_sum(res.elems@, a, b) <= i64::MAX by {
                lemma_range_sum_zero(n as nat, a, b);
            }
            assert forall|i: int| 0 <= i < n implies #[trigger] res.values@[i] as int == range_sum(res.elems@, low(i as usize) as int, i + 1) by {
                lemma_range_sum_zero(n as nat, low(i as usize) as int, i + 1);
            }
        }
        res
    }
}

} // verus!
