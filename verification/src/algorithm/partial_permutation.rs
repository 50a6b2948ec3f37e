//! Lexicographic permutation enumeration over a fixed-prefix window.
//!
//! A `PartialPermutation` holds a permutation of `0..n` together with a
//! `start` index: positions `[0, start)` are the fixed prefix naming a
//! sub-tree of the permutation tree, positions `[start, n)` are the search
//! window that `next` steps through in lexicographic order.

use vstd::prelude::*;

use super::lex_order::{
    advances_at, clamp, desc_range, enters_next_part, is_perm, lemma_desc_transitive,
    lemma_first_lex_diff, lemma_lex_asym, lemma_next_minimal, lemma_same_prefix_same_window,
    lex_lt, no_next_part,
    window_exhausted,
};
use super::util::fact;

verus! {

/// Lexicographic permutation state over a `[start, len)` window.
#[derive(Debug)]
pub struct PartialPermutation {
    data: Vec<usize>,
    start: usize,
}

impl Clone for PartialPermutation {
    /// An exact copy: same permutation, same window.
    fn clone(&self) -> (r: Self)
        ensures
            r@ == self@,
            r.start_spec() == self.start_spec(),
    {
        PartialPermutation { data: copy_data(&self.data), start: self.start }
    }
}

/// Element-wise copy of the permutation array.
fn copy_data(v: &Vec<usize>) -> (r: Vec<usize>)
    ensures
        r@ == v@,
{
    let mut r: Vec<usize> = Vec::new();
    let mut i: usize = 0;
    while i < v.len()
        invariant
            i <= v@.len(),
            r@ == v@.subrange(0, i as int),
        decreases v@.len() - i,
    {
        r.push(v[i]);
        i = i + 1;
    }
    proof {
        assert(r@ =~= v@);
    }
    r
}

/// Swap the values at positions `i` and `j`.
fn swap_in(data: &mut Vec<usize>, i: usize, j: usize)
    requires
        i < old(data)@.len(),
        j < old(data)@.len(),
    ensures
        final(data)@ == old(data)@.update(i as int, old(data)@[j as int]).update(
            j as int,
            old(data)@[i as int],
        ),
{
    let vi = data[i];
    let vj = data[j];
    data.set(i, vj);
    data.set(j, vi);
}

/// Swapping two positions keeps a permutation a permutation.
proof fn lemma_swap_is_perm(s: Seq<usize>, i: int, j: int)
    requires
        is_perm(s),
        0 <= i < s.len(),
        0 <= j < s.len(),
    ensures
        is_perm(s.update(i, s[j]).update(j, s[i])),
{
    let t = s.update(i, s[j]).update(j, s[i]);
    assert forall|v: usize| (v as int) < t.len() implies #[trigger] t.contains(v) by {
        assert(s.contains(v));
        let k = choose|k: int| 0 <= k < s.len() && s[k] == v;
        if k == i {
            assert(t[j] == v);
        } else if k == j {
            assert(t[i] == v);
        } else {
            assert(t[k] == v);
        }
    }
}

/// Reverse positions `[from, len)` in place.
fn reverse_from(data: &mut Vec<usize>, from: usize)
    requires
        is_perm(old(data)@),
        from <= old(data)@.len(),
    ensures
        is_perm(final(data)@),
        final(data)@.len() == old(data)@.len(),
        final(data)@.subrange(0, from as int) == old(data)@.subrange(0, from as int),
        forall|j: int|
            from <= j < final(data)@.len() ==> (#[trigger] final(data)@[j]) == old(data)@[from
                + old(data)@.len() - 1 - j],
{
    let len = data.len();
    if from >= len {
        return ;
    }
    let ghost m = data@;
    let mut lo: usize = from;
    let mut hi: usize = len - 1;
    while lo < hi
        invariant
            is_perm(data@),
            len == data@.len(),
            from as int <= lo as int,
            hi as int <= len - 1,
            lo as int <= hi as int + 1,
            lo + hi == from + len - 1,
            data@.subrange(0, from as int) == m.subrange(0, from as int),
            forall|j: int| from <= j < lo ==> (#[trigger] data@[j]) == m[from + len - 1 - j],
            forall|j: int| hi < j < len ==> (#[trigger] data@[j]) == m[from + len - 1 - j],
            forall|j: int| lo <= j <= hi ==> (#[trigger] data@[j]) == m[j],
        decreases hi + 1 - lo,
    {
        let ghost cur = data@;
        swap_in(data, lo, hi);
        proof {
            lemma_swap_is_perm(cur, lo as int, hi as int);
            assert(data@.subrange(0, from as int) =~= cur.subrange(0, from as int));
        }
        lo = lo + 1;
        hi = hi - 1;
    }
    proof {
        assert forall|j: int| from <= j < data@.len() implies (#[trigger] data@[j]) == m[from + len
            - 1 - j] by {
            if lo as int == hi as int && j == lo as int {
                assert(from + len - 1 - j == j);
            }
        }
    }
}

/// After swapping the pivot with the least larger tail value, the tail is
/// still descending and the pivot position strictly grew.
proof fn lemma_pivot_swap(pre: Seq<usize>, mid: Seq<usize>, pivot: int, second: int)
    requires
        is_perm(pre),
        0 <= pivot < second < pre.len(),
        mid == pre.update(pivot, pre[second]).update(second, pre[pivot]),
        desc_range(pre, pivot + 1, pre.len() as int),
        pre[pivot] < pre[second],
        forall|j: int| second < j < pre.len() ==> (#[trigger] pre[j]) < pre[pivot],
    ensures
        is_perm(mid),
        desc_range(mid, pivot + 1, mid.len() as int),
        mid.subrange(0, pivot) == pre.subrange(0, pivot),
        mid[pivot] > pre[pivot],
{
    let len = pre.len() as int;
    lemma_swap_is_perm(pre, pivot, second);
    assert forall|i: int| pivot + 1 <= i < len - 1 implies (#[trigger] mid[i]) > mid[i + 1] by {
        assert(mid[i] == if i == second { pre[pivot] } else { pre[i] });
        assert(mid[i + 1] == if i + 1 == second { pre[pivot] } else { pre[i + 1] });
    }
    assert(mid.subrange(0, pivot) =~= pre.subrange(0, pivot));
}

/// Reversing the descending tail of the swapped sequence yields the
/// lexicographic successor shape `advances_at`.
proof fn lemma_next_shape(
    pre: Seq<usize>,
    mid: Seq<usize>,
    post: Seq<usize>,
    pivot: int,
    start: int,
)
    requires
        0 <= start <= pivot < pre.len() - 1,
        pre.len() == mid.len(),
        mid.len() == post.len(),
        desc_range(mid, pivot + 1, mid.len() as int),
        mid.subrange(0, pivot) == pre.subrange(0, pivot),
        mid[pivot] > pre[pivot],
        pre[pivot] < pre[pivot + 1],
        post.subrange(0, pivot + 1) == mid.subrange(0, pivot + 1),
        forall|j: int|
            pivot + 1 <= j < post.len() ==> (#[trigger] post[j]) == mid[pivot + 1 + mid.len() - 1
                - j],
    ensures
        advances_at(pre, post, pivot),
        !window_exhausted(pre, start),
{
    let len = pre.len() as int;
    assert forall|i: int| pivot + 1 <= i < len - 1 implies (#[trigger] post[i]) < post[i + 1] by {
        assert(post[i] == mid[pivot + len - i]);
        assert(post[i + 1] == mid[pivot + len - i - 1]);
        assert(mid[pivot + len - i - 1] > mid[pivot + len - i]);
    }
    assert(post[pivot] == post.subrange(0, pivot + 1)[pivot]);
    assert(post[pivot] == mid[pivot]);
    assert forall|i: int| 0 <= i < pivot implies post[i] == pre[i] by {
        assert(post[i] == post.subrange(0, pivot + 1)[i]);
        assert(post[i] == mid[i]);
        assert(mid[i] == mid.subrange(0, pivot)[i]);
    }
    assert(post.subrange(0, pivot) =~= pre.subrange(0, pivot));
    assert(!window_exhausted(pre, start)) by {
        assert(pre[pivot] < pre[pivot + 1]);
    }
}

/// Advancing the last arrangement of a sub-tree with the prefix unlocked
/// pivots inside the prefix: the move opens the next sub-tree.
proof fn lemma_next_part_shape(orig: Seq<usize>, lv: Seq<usize>, post: Seq<usize>, start: int, p: int)
    requires
        orig.len() == lv.len(),
        0 <= start <= orig.len(),
        lv.subrange(0, start) == orig.subrange(0, start),
        desc_range(lv, start, lv.len() as int),
        advances_at(lv, post, p),
        0 <= p,
    ensures
        enters_next_part(orig, post, start, p),
{
    assert(p < start) by {
        if p >= start {
            assert(lv[p] > lv[p + 1]);
        }
    }
    assert forall|i: int| 0 <= i < p implies post[i] == orig[i] by {
        assert(post.subrange(0, p)[i] == post[i]);
        assert(lv.subrange(0, p)[i] == lv[i]);
        assert(lv.subrange(0, start)[i] == lv[i]);
        assert(orig.subrange(0, start)[i] == orig[i]);
    }
    assert(post.subrange(0, p) =~= orig.subrange(0, p));
    assert(lv.subrange(0, start)[p] == lv[p]);
    assert(orig.subrange(0, start)[p] == orig[p]);
    assert(post[p] > orig[p]);
}

/// When even the unlocked last arrangement has no successor, the whole
/// sequence is the final one of its window size.
proof fn lemma_next_part_none(orig: Seq<usize>, lv: Seq<usize>, start: int)
    requires
        is_perm(orig),
        is_perm(lv),
        orig.len() == lv.len(),
        0 <= start <= orig.len(),
        lv.subrange(0, start) == orig.subrange(0, start),
        window_exhausted(lv, 0),
    ensures
        no_next_part(orig, start),
{
    assert forall|i: int| 0 <= i < start implies lv[i] == orig[i] by {
        assert(lv.subrange(0, start)[i] == lv[i]);
        assert(orig.subrange(0, start)[i] == orig[i]);
    }
    assert(desc_range(lv, 0, lv.len() as int));
    assert(desc_range(orig, 0, start));
    lemma_same_prefix_same_window(orig, lv, start);
    let w = lv.subrange(start, lv.len() as int);
    assert forall|j: int| start <= j < orig.len() implies start == 0 || orig[start - 1] > (
    #[trigger] orig[j]) by {
        if start > 0 {
            assert(w.contains(orig[j]));
            let ki = choose|ki: int| 0 <= ki < w.len() && w[ki] == orig[j];
            assert(lv[start + ki] == orig[j]);
            lemma_desc_transitive(lv, 0, start - 1, start + ki);
        }
    }
}

/// Sort positions `[from, len)` in descending order (selection of maxima).
fn sort_desc_from(data: &mut Vec<usize>, from: usize)
    requires
        is_perm(old(data)@),
        from <= old(data)@.len(),
    ensures
        is_perm(final(data)@),
        final(data)@.len() == old(data)@.len(),
        final(data)@.subrange(0, from as int) == old(data)@.subrange(0, from as int),
        desc_range(final(data)@, from as int, final(data)@.len() as int),
{
    let len = data.len();
    let mut i = from;
    while i < len
        invariant
            from <= i <= len,
            len == data@.len(),
            is_perm(data@),
            data@.subrange(0, from as int) == old(data)@.subrange(0, from as int),
            desc_range(data@, from as int, i as int),
            forall|a: int, b: int|
                from <= a < i <= b < len ==> (#[trigger] data@[a]) > (#[trigger] data@[b]),
        decreases len - i,
    {
        let mut mx = i;
        let mut j = i + 1;
        while j < len
            invariant
                i <= mx < j <= len,
                len == data@.len(),
                forall|t: int| i <= t < j ==> (#[trigger] data@[t]) <= data@[mx as int],
            decreases len - j,
        {
            if data[j] > data[mx] {
                mx = j;
            }
            j = j + 1;
        }
        let ghost pre = data@;
        swap_in(data, i, mx);
        proof {
            lemma_swap_is_perm(pre, i as int, mx as int);
            assert(data@.subrange(0, from as int) =~= pre.subrange(0, from as int));
            // the new element at i is the strict maximum of [i, len)
            assert forall|b: int| i < b < len implies data@[i as int] > (#[trigger] data@[b]) by {
                assert(data@[b] == if b == mx { pre[i as int] } else { pre[b] });
                assert(data@[i as int] == pre[mx as int]);
            }
            assert forall|a: int, b: int| from <= a < i + 1 <= b < len implies (
            #[trigger] data@[a]) > (#[trigger] data@[b]) by {
                if a < i {
                    assert(data@[b] == if b == mx { pre[i as int] } else { pre[b] });
                }
            }
            assert(desc_range(data@, from as int, i + 1));
        }
        i = i + 1;
    }
}

impl PartialPermutation {
    /// The stored sequence.
    pub closed spec fn view(&self) -> Seq<usize> {
        self.data@
    }

    /// Start of the search window; `[0, start)` is the fixed prefix.
    pub closed spec fn start_spec(&self) -> int {
        self.start as int
    }

    /// Well-formed: the data is a permutation of `0..len` and the window
    /// start lies inside `[0, len]`.
    pub open spec fn wf(&self) -> bool {
        is_perm(self@) && 0 <= self.start_spec() <= self@.len()
    }

    /// First permutation of its sub-tree: the identity arrangement of
    /// `0..digit`, window starting at `start` (clamped to `digit`).
    pub fn new(digit: usize, start: usize) -> (r: Self)
        ensures
            r.wf(),
            r@.len() == digit,
            forall|i: int| 0 <= i < digit ==> (#[trigger] r@[i] as int) == i,
            r.start_spec() == clamp(start as int, digit as int),
    {
        let mut data: Vec<usize> = Vec::new();
        let mut i: usize = 0;
        while i < digit
            invariant
                i <= digit,
                data@.len() == i as int,
                forall|j: int| 0 <= j < i ==> (#[trigger] data@[j] as int) == j,
            decreases digit - i,
        {
            data.push(i);
            i = i + 1;
        }
        let clamped: usize = if start < digit {
            start
        } else {
            digit
        };
        proof {
            assert forall|v: usize| (v as int) < data@.len() implies #[trigger] data@.contains(
                v,
            ) by {
                assert(data@[v as int] == v);
            }
        }
        PartialPermutation { data, start: clamped }
    }

    /// Wrap an existing permutation array; the window starts at `start`
    /// (clamped to the length).
    pub(crate) fn from_parts(data: Vec<usize>, start: usize) -> (r: Self)
        requires
            is_perm(data@),
        ensures
            r.wf(),
            r@ == data@,
            r.start_spec() == clamp(start as int, data@.len() as int),
    {
        let clamped: usize = if start < data.len() {
            start
        } else {
            data.len()
        };
        PartialPermutation { data, start: clamped }
    }

    /// Read-only view of the current permutation.
    pub fn current(&self) -> (r: &[usize])
        ensures
            r@ == self@,
    {
        self.data.as_slice()
    }

    /// The window start, clamped at construction.
    pub fn start(&self) -> (r: usize)
        ensures
            r as int == self.start_spec(),
    {
        self.start
    }

    /// The last permutation of this sub-tree: the window rearranged in
    /// descending order.
    pub fn last(&self) -> (r: Self)
        requires
            self.wf(),
        ensures
            r.wf(),
            r.start_spec() == self.start_spec(),
            r@.len() == self@.len(),
            r@.subrange(0, self.start_spec()) == self@.subrange(0, self.start_spec()),
            desc_range(r@, self.start_spec(), r@.len() as int),
    {
        let mut data = copy_data(&self.data);
        sort_desc_from(&mut data, self.start);
        PartialPermutation { data, start: self.start }
    }

    /// The next permutation in lexicographic order that keeps `[0, start)`
    /// fixed, or `None` when the window is exhausted (in particular for
    /// windows shorter than two positions).
    #[verifier::rlimit(100)]
    pub fn next(&self) -> (r: Option<Self>)
        requires
            self.wf(),
        ensures
            match r {
                Some(np) => {
                    &&& np.wf()
                    &&& np.start_spec() == self.start_spec()
                    &&& np@.len() == self@.len()
                    &&& exists|p: int|
                        self.start_spec() <= p && #[trigger] advances_at(self@, np@, p)
                    &&& !window_exhausted(self@, self.start_spec())
                    &&& forall|q: Seq<usize>|
                        #![trigger lex_lt(self@, q)]
                        is_perm(q) && q.len() == self@.len() && q.subrange(0, self.start_spec())
                            == self@.subrange(0, self.start_spec()) && lex_lt(self@, q) ==> (q
                            == np@ || lex_lt(np@, q))
                },
                None => window_exhausted(self@, self.start_spec()),
            },
    {
        let len = self.data.len();
        if len < 2 {
            return None;
        }
        if self.start >= len - 1 {
            return None;
        }
        // find the pivot: the rightmost position of the window that is
        // followed by a larger value
        let mut pivot: usize = len - 2;
        while self.data[pivot] > self.data[pivot + 1]
            invariant
                self.wf(),
                len == self@.len(),
                2 <= len,
                self.start_spec() <= pivot as int <= len - 2,
                desc_range(self@, pivot + 1, len as int),
            decreases pivot,
        {
            if pivot <= self.start {
                proof {
                    assert forall|i: int| self.start_spec() <= i < len - 1 implies (
                    #[trigger] self@[i]) > self@[i + 1] by {
                        if i > pivot {
                        } else {
                            assert(i == pivot as int);
                        }
                    }
                }
                return None;
            }
            pivot = pivot - 1;
        }
        proof {
            // distinct values: the non-strict exit condition is strict
            assert(self@[pivot as int] != self@[pivot as int + 1]);
        }
        // find the smallest tail value that still exceeds the pivot value
        let mut second: usize = len - 1;
        while self.data[pivot] > self.data[second]
            invariant
                self.wf(),
                len == self@.len(),
                (pivot as int) < second as int <= len - 1,
                self@[pivot as int] < self@[pivot as int + 1],
                desc_range(self@, pivot + 1, len as int),
                forall|j: int| second < j < len ==> (#[trigger] self@[j]) < self@[pivot as int],
            decreases second,
        {
            proof {
                if second == pivot + 1 {
                    assert(false);
                }
            }
            second = second - 1;
        }
        proof {
            assert(self@[pivot as int] != self@[second as int]);
        }
        let mut data = copy_data(&self.data);
        let ghost pre = self@;
        swap_in(&mut data, pivot, second);
        let ghost mid = data@;
        proof {
            lemma_pivot_swap(pre, mid, pivot as int, second as int);
        }
        // reverse the (descending) tail to get the least continuation
        reverse_from(&mut data, pivot + 1);
        let np = PartialPermutation { data, start: self.start };
        proof {
            lemma_next_shape(pre, mid, np@, pivot as int, self.start_spec());
            assert(mid[pivot as int] == pre[second as int]);
            assert(np@[pivot as int] == mid[pivot as int]) by {
                assert(np@.subrange(0, pivot as int + 1)[pivot as int] == np@[pivot as int]);
                assert(mid.subrange(0, pivot as int + 1)[pivot as int] == mid[pivot as int]);
            }
            assert forall|q: Seq<usize>|
                is_perm(q) && q.len() == self@.len() && q.subrange(0, self.start_spec())
                    == self@.subrange(0, self.start_spec()) && #[trigger] lex_lt(
                    self@,
                    q,
                ) implies (q == np@ || lex_lt(np@, q)) by {
                lemma_next_minimal(
                    pre,
                    np@,
                    q,
                    pivot as int,
                    second as int,
                    self.start_spec(),
                );
            }
        }
        Some(np)
    }

    /// The first permutation of the next sub-tree at this window size:
    /// advance the last permutation of this sub-tree once with the prefix
    /// unlocked.  `None` when no later sub-tree exists.
    pub fn next_part(&self) -> (r: Option<Self>)
        requires
            self.wf(),
        ensures
            match r {
                Some(np) => {
                    &&& np.wf()
                    &&& np.start_spec() == self.start_spec()
                    &&& np@.len() == self@.len()
                    &&& exists|p: int|
                        #[trigger] enters_next_part(self@, np@, self.start_spec(), p)
                    &&& forall|q: Seq<usize>|
                        #![trigger lex_lt(self@, q)]
                        is_perm(q) && q.len() == self@.len() && q.subrange(0, self.start_spec())
                            != self@.subrange(0, self.start_spec()) && lex_lt(self@, q) ==> (q
                            == np@ || lex_lt(np@, q))
                },
                None => no_next_part(self@, self.start_spec()),
            },
    {
        let start = self.start;
        let mut l = self.last();
        let ghost lv = l@;
        l.start = 0;
        match l.next() {
            None => {
                proof {
                    lemma_next_part_none(self@, lv, start as int);
                }
                None
            },
            Some(np0) => {
                let mut np = np0;
                np.start = start;
                proof {
                    let p = choose|p: int| 0 <= p && #[trigger] advances_at(lv, np@, p);
                    lemma_next_part_shape(self@, lv, np@, start as int, p);
                    // a permutation past this whole sub-tree beats even its
                    // last arrangement, so the inner step's minimality
                    // carries over
                    assert forall|q: Seq<usize>|
                        is_perm(q) && q.len() == self@.len() && q.subrange(0, start as int)
                            != self@.subrange(0, start as int) && #[trigger] lex_lt(
                            self@,
                            q,
                        ) implies (q == np@ || lex_lt(np@, q)) by {
                        let k = lemma_first_lex_diff(self@, q);
                        // the leaving difference sits inside the prefix
                        assert(k < start as int) by {
                            if k >= start as int {
                                assert forall|i: int|
                                    0 <= i < start as int implies self@.subrange(0, start as int)[i]
                                    == q.subrange(0, start as int)[i] by {
                                    assert(self@[i] == q[i]);
                                }
                                assert(self@.subrange(0, start as int) =~= q.subrange(
                                    0,
                                    start as int,
                                ));
                            }
                        }
                        assert forall|i: int| 0 <= i < k implies lv[i] == q[i] by {
                            assert(lv.subrange(0, start as int)[i] == self@.subrange(
                                0,
                                start as int,
                            )[i]);
                            assert(self@.subrange(0, k)[i] == q.subrange(0, k)[i]);
                            assert(self@.subrange(0, k)[i] == self@[i]);
                            assert(q.subrange(0, k)[i] == q[i]);
                        }
                        assert(lv.subrange(0, k) =~= q.subrange(0, k));
                        assert(lv[k] == self@[k]) by {
                            assert(lv.subrange(0, start as int)[k] == self@.subrange(
                                0,
                                start as int,
                            )[k]);
                        }
                        assert(lex_lt(lv, q)) by {
                            assert(lv[k] < q[k]);
                        }
                        assert(q.subrange(0, 0) =~= lv.subrange(0, 0));
                    }
                }
                Some(np)
            },
        }
    }

    /// A copy whose positions `[index, len)` are rearranged in descending
    /// order, so the following `next` leaves the sub-tree rooted at the
    /// length-`index` prefix; `index` is clamped to `[0, len]`.
    pub fn skip(&self, index: usize) -> (r: Self)
        requires
            self.wf(),
        ensures
            r.wf(),
            r.start_spec() == self.start_spec(),
            r@.len() == self@.len(),
            r@.subrange(0, clamp(index as int, self@.len() as int)) == self@.subrange(
                0,
                clamp(index as int, self@.len() as int),
            ),
            desc_range(r@, clamp(index as int, self@.len() as int), r@.len() as int),
    {
        let len = self.data.len();
        let index = if index < len {
            index
        } else {
            len
        };
        let mut data = copy_data(&self.data);
        sort_desc_from(&mut data, index);
        PartialPermutation { data, start: self.start }
    }

    /// The lexicographically later of `self` and `other`, or `None` when
    /// the two hold the same permutation.
    pub fn later(&self, other: Self) -> (r: Option<Self>)
        requires
            self.wf(),
            other.wf(),
            self@.len() == other@.len(),
        ensures
            match r {
                Some(l) => {
                    &&& self@ != other@
                    &&& l.wf()
                    &&& (lex_lt(self@, other@) || lex_lt(other@, self@))
                    &&& (lex_lt(self@, other@) ==> l@ == other@ && l.start_spec()
                        == other.start_spec())
                    &&& (lex_lt(other@, self@) ==> l@ == self@ && l.start_spec()
                        == self.start_spec())
                },
                None => self@ == other@,
            },
    {
        let len = self.data.len();
        let mut k: usize = 0;
        while k < len
            invariant
                self.wf(),
                other.wf(),
                len == self@.len(),
                self@.len() == other@.len(),
                k <= len,
                forall|j: int| 0 <= j < k ==> (#[trigger] self@[j]) == other@[j],
            decreases len - k,
        {
            if self.data[k] < other.data[k] {
                proof {
                    assert(self@.subrange(0, k as int) =~= other@.subrange(0, k as int));
                    assert(lex_lt(self@, other@));
                    lemma_lex_asym(self@, other@);
                }
                return Some(other);
            }
            if self.data[k] > other.data[k] {
                proof {
                    assert(other@.subrange(0, k as int) =~= self@.subrange(0, k as int));
                    assert(lex_lt(other@, self@));
                    lemma_lex_asym(other@, self@);
                }
                return Some(self.clone());
            }
            k = k + 1;
        }
        proof {
            assert(self@ =~= other@);
        }
        None
    }

    /// How many permutations this window spans: `(len - start)!`.
    pub fn calculate_count(&self) -> (r: usize)
        requires
            self.wf(),
            fact((self@.len() - self.start_spec()) as nat) <= usize::MAX,
        ensures
            r as nat == fact((self@.len() - self.start_spec()) as nat),
    {
        let n = self.data.len() - self.start;
        super::util::factional(n)
    }
}

} // verus!
