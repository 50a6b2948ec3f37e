//! Carving the permutation tree into independent sub-trees.
//!
//! `PermutationTraverser::new(n, d)` partitions the `n!` permutations of
//! `0..n` into sub-trees of `d!` permutations each, every sub-tree rooted
//! at one fixed prefix of length `n - d`.  `allocate` hands the sub-trees
//! out in lexicographic prefix order; each `SubTree` enumerates its own
//! permutations with `next` and can jump past pruned regions with `skip`.

use vstd::prelude::*;

use super::lex_order::{
    advances_at, asc_range, clamp, desc_range, enters_next_part, is_perm, lemma_asc_not_later,
    lemma_enters_lex, lemma_lex_asym, lemma_lex_lt_trans, lemma_lex_trichotomy,
    lemma_no_next_part_last, lex_lt, no_next_part, window_exhausted,
};
use super::partial_permutation::PartialPermutation;

verus! {

/// Allocator of disjoint sub-trees of the permutation tree.
pub struct PermutationTraverser {
    partial_permutation: PartialPermutation,
    is_first: bool,
}

impl PermutationTraverser {
    /// The root permutation the next allocation starts from.
    pub closed spec fn view(&self) -> Seq<usize> {
        self.partial_permutation@
    }

    /// Length of the fixed prefix of every handed-out sub-tree.
    pub closed spec fn start_spec(&self) -> int {
        self.partial_permutation.start_spec()
    }

    /// No sub-tree has been handed out yet.
    pub closed spec fn fresh(&self) -> bool {
        self.is_first
    }

    /// Well-formed: the cursor is a permutation with a valid window.
    pub open spec fn wf(&self) -> bool {
        is_perm(self@) && 0 <= self.start_spec() <= self@.len()
    }

    /// An allocator over the permutations of `0..digit`, in sub-trees of
    /// `sub_tree_depth!` permutations each.
    pub fn new(digit: usize, sub_tree_depth: usize) -> (r: Self)
        requires
            sub_tree_depth <= digit,
        ensures
            r.wf(),
            r.fresh(),
            r@.len() == digit,
            forall|i: int| 0 <= i < digit ==> (#[trigger] r@[i] as int) == i,
            r.start_spec() == digit - sub_tree_depth,
    {
        PermutationTraverser {
            partial_permutation: PartialPermutation::new(digit, digit - sub_tree_depth),
            is_first: true,
        }
    }

    /// The next unexplored sub-tree, `None` once every prefix has been
    /// handed out.  The first call returns the initial sub-tree itself.
    pub fn allocate(&mut self) -> (r: Option<SubTree>)
        requires
            old(self).wf(),
        ensures
            final(self).wf(),
            final(self).start_spec() == old(self).start_spec(),
            final(self)@.len() == old(self)@.len(),
            !final(self).fresh(),
            match r {
                Some(st) => {
                    &&& st.wf()
                    &&& st.fresh()
                    &&& st@ == final(self)@
                    &&& st.start_spec() == old(self).start_spec()
                    &&& old(self).fresh() ==> final(self)@ == old(self)@
                    &&& !old(self).fresh() ==> exists|p: int|
                        #[trigger] enters_next_part(
                            old(self)@,
                            final(self)@,
                            old(self).start_spec(),
                            p,
                        )
                    &&& !old(self).fresh() ==> forall|q: Seq<usize>|
                        #![trigger lex_lt(old(self)@, q)]
                        is_perm(q) && q.len() == old(self)@.len() && q.subrange(
                            0,
                            old(self).start_spec(),
                        ) != old(self)@.subrange(0, old(self).start_spec()) && lex_lt(
                            old(self)@,
                            q,
                        ) ==> (q == final(self)@ || lex_lt(final(self)@, q))
                },
                None => {
                    &&& !old(self).fresh()
                    &&& final(self)@ == old(self)@
                    &&& no_next_part(old(self)@, old(self).start_spec())
                },
            },
    {
        if self.is_first {
            self.is_first = false;
            return Some(
                SubTree { partial_permutation: self.partial_permutation.clone(), is_first: true },
            );
        }
        match self.partial_permutation.next_part() {
            None => None,
            Some(np) => {
                self.partial_permutation = np.clone();
                Some(SubTree { partial_permutation: np, is_first: true })
            },
        }
    }
}

/// One sub-tree of the permutation tree: every permutation that carries
/// this root's fixed prefix, enumerated in lexicographic order.
pub struct SubTree {
    partial_permutation: PartialPermutation,
    is_first: bool,
}

impl SubTree {
    /// The permutation the enumeration currently stands on.
    pub closed spec fn view(&self) -> Seq<usize> {
        self.partial_permutation@
    }

    /// Length of the fixed prefix.
    pub closed spec fn start_spec(&self) -> int {
        self.partial_permutation.start_spec()
    }

    /// The root itself has not been delivered yet.
    pub closed spec fn fresh(&self) -> bool {
        self.is_first
    }

    /// Well-formed: the cursor is a permutation with a valid window.
    pub open spec fn wf(&self) -> bool {
        is_perm(self@) && 0 <= self.start_spec() <= self@.len()
    }

    /// The next permutation of this sub-tree: first the root itself, then
    /// each lexicographic successor with the prefix kept; `None` when the
    /// sub-tree is exhausted.
    pub fn next(&mut self) -> (r: Option<PartialPermutation>)
        requires
            old(self).wf(),
        ensures
            final(self).wf(),
            final(self).start_spec() == old(self).start_spec(),
            final(self)@.len() == old(self)@.len(),
            !final(self).fresh(),
            match r {
                Some(p) => {
                    &&& p.wf()
                    &&& p@ == final(self)@
                    &&& p.start_spec() == old(self).start_spec()
                    &&& old(self).fresh() ==> final(self)@ == old(self)@
                    &&& !old(self).fresh() ==> exists|pv: int|
                        old(self).start_spec() <= pv && #[trigger] advances_at(
                            old(self)@,
                            final(self)@,
                            pv,
                        )
                    &&& !old(self).fresh() ==> forall|q: Seq<usize>|
                        #![trigger lex_lt(old(self)@, q)]
                        is_perm(q) && q.len() == old(self)@.len() && q.subrange(
                            0,
                            old(self).start_spec(),
                        ) == old(self)@.subrange(0, old(self).start_spec()) && lex_lt(
                            old(self)@,
                            q,
                        ) ==> (q == final(self)@ || lex_lt(final(self)@, q))
                },
                None => {
                    &&& !old(self).fresh()
                    &&& final(self)@ == old(self)@
                    &&& window_exhausted(old(self)@, old(self).start_spec())
                },
            },
    {
        if self.is_first {
            self.is_first = false;
            return Some(self.partial_permutation.clone());
        }
        match self.partial_permutation.next() {
            None => None,
            Some(np) => {
                self.partial_permutation = np;
                Some(self.partial_permutation.clone())
            },
        }
    }

    /// Close the sub-sub-tree rooted at the length-`index` prefix: the
    /// positions `[index, len)` take their final (descending) arrangement.
    pub fn skip(&mut self, index: usize)
        requires
            old(self).wf(),
        ensures
            final(self).wf(),
            final(self).start_spec() == old(self).start_spec(),
            final(self)@.len() == old(self)@.len(),
            final(self).fresh() == old(self).fresh(),
            final(self)@.subrange(0, clamp(index as int, old(self)@.len() as int)) == old(
                self,
            )@.subrange(0, clamp(index as int, old(self)@.len() as int)),
            desc_range(
                final(self)@,
                clamp(index as int, old(self)@.len() as int),
                final(self)@.len() as int,
            ),
    {
        let new_permutation = self.partial_permutation.skip(index);
        self.partial_permutation = new_permutation;
    }
}


/// The roots an allocator hands out, read as a chain: the first is the
/// ascending arrangement, each later root opens the immediately next
/// prefix family (`allocate`'s jump shape and minimality), and after the
/// last no family is left.  `PermutationTraverser::new(n, n - start)`
/// followed by repeated `allocate` produces exactly such a chain.
pub open spec fn root_chain(roots: Seq<Seq<usize>>, start: int, n: int) -> bool {
    &&& roots.len() > 0
    &&& forall|t: int| 0 <= t < roots.len() ==> is_perm(#[trigger] roots[t]) && roots[t].len() == n
    &&& asc_range(roots[0], 0, n)
    &&& forall|t: int|
        #![trigger roots[t]]
        0 <= t < roots.len() - 1 ==> exists|p: int|
            #[trigger] enters_next_part(roots[t], roots[t + 1], start, p)
    &&& forall|t: int, q: Seq<usize>|
        #![trigger lex_lt(roots[t], q)]
        0 <= t < roots.len() - 1 && is_perm(q) && q.len() == n && q.subrange(0, start)
            != roots[t].subrange(0, start) && lex_lt(roots[t], q) ==> (q == roots[t + 1]
            || lex_lt(roots[t + 1], q))
    &&& no_next_part(roots.last(), start)
}

/// Anything lexicographically before a chain root belongs to an earlier
/// root's prefix family.
#[verifier::rlimit(100)]
proof fn lemma_chain_locates(roots: Seq<Seq<usize>>, start: int, n: int, q: Seq<usize>, t: int)
    requires
        root_chain(roots, start, n),
        0 <= start <= n,
        0 <= t < roots.len(),
        is_perm(q),
        q.len() == n,
        lex_lt(q, roots[t]),
    ensures
        exists|s: int|
            0 <= s < t && q.subrange(0, start) == (#[trigger] roots[s]).subrange(0, start),
    decreases t,
{
    if t == 0 {
        assert(q.subrange(0, 0int) =~= roots[0].subrange(0, 0int));
        lemma_asc_not_later(q, roots[0], 0);
        if roots[0] == q {
            let k = choose|k: int|
                0 <= k < q.len() && q.subrange(0, k) == roots[0].subrange(0, k) && (
                #[trigger] q[k]) < roots[0][k];
            assert(false);
        } else {
            lemma_lex_asym(roots[0], q);
            assert(false);
        }
    } else {
        if q == roots[t - 1] {
            assert(q.subrange(0, start) == roots[t - 1].subrange(0, start));
        } else {
            lemma_lex_trichotomy(roots[t - 1], q);
            if lex_lt(q, roots[t - 1]) {
                lemma_chain_locates(roots, start, n, q, t - 1);
                let s = choose|s: int|
                    0 <= s < t - 1 && q.subrange(0, start) == (#[trigger] roots[s]).subrange(
                        0,
                        start,
                    );
                assert(q.subrange(0, start) == roots[s].subrange(0, start));
            } else {
                assert(lex_lt(roots[t - 1], q));
                if q.subrange(0, start) == roots[t - 1].subrange(0, start) {
                } else {
                    assert(q == roots[t] || lex_lt(roots[t], q));
                    if q == roots[t] {
                        let k = choose|k: int|
                            0 <= k < q.len() && q.subrange(0, k) == roots[t].subrange(0, k) && (
                            #[trigger] q[k]) < roots[t][k];
                        assert(false);
                    } else {
                        lemma_lex_asym(roots[t], q);
                        assert(false);
                    }
                }
            }
        }
    }
}

/// Chain roots open strictly later prefixes as the chain goes on.
#[verifier::rlimit(100)]
proof fn lemma_chain_prefix_increases(
    roots: Seq<Seq<usize>>,
    start: int,
    n: int,
    t1: int,
    t2: int,
)
    requires
        root_chain(roots, start, n),
        0 <= start <= n,
        0 <= t1 < t2 < roots.len(),
    ensures
        lex_lt(roots[t1].subrange(0, start), roots[t2].subrange(0, start)),
    decreases t2 - t1,
{
    if t1 + 1 == t2 {
        let p = choose|p: int| #[trigger] enters_next_part(roots[t1], roots[t1 + 1], start, p);
        lemma_enters_lex(roots[t1], roots[t1 + 1], start, p);
    } else {
        lemma_chain_prefix_increases(roots, start, n, t1, t2 - 1);
        let p = choose|p: int|
            #[trigger] enters_next_part(roots[t2 - 1], roots[t2 - 1 + 1], start, p);
        lemma_enters_lex(roots[t2 - 1], roots[t2 - 1 + 1], start, p);
        lemma_lex_lt_trans(
            roots[t1].subrange(0, start),
            roots[t2 - 1].subrange(0, start),
            roots[t2].subrange(0, start),
        );
    }
}

/// The allocated families partition the permutations: every permutation
/// of `0..n` carries the fixed prefix of exactly one root of the chain.
#[verifier::rlimit(100)]
pub proof fn lemma_roots_partition(roots: Seq<Seq<usize>>, start: int, n: int, q: Seq<usize>)
    requires
        root_chain(roots, start, n),
        0 <= start <= n,
        is_perm(q),
        q.len() == n,
    ensures
        exists|t: int|
            0 <= t < roots.len() && q.subrange(0, start) == (#[trigger] roots[t]).subrange(
                0,
                start,
            ),
        forall|t1: int, t2: int|
            0 <= t1 < t2 < roots.len() ==> (#[trigger] roots[t1]).subrange(0, start) != (
            #[trigger] roots[t2]).subrange(0, start),
{
    let last: int = roots.len() - 1;
    lemma_no_next_part_last(roots[last], q, start);
    if q == roots[last] {
        assert(q.subrange(0, start) == roots[last].subrange(0, start));
    } else if q.subrange(0, start) == roots[last].subrange(0, start) {
    } else {
        assert(lex_lt(q, roots[last]));
        lemma_chain_locates(roots, start, n, q, last);
        let s = choose|s: int|
            0 <= s < last && q.subrange(0, start) == (#[trigger] roots[s]).subrange(0, start);
        assert(q.subrange(0, start) == roots[s].subrange(0, start));
    }
    assert forall|t1: int, t2: int|
        0 <= t1 < t2 < roots.len() implies (#[trigger] roots[t1]).subrange(0, start) != (
    #[trigger] roots[t2]).subrange(0, start) by {
        lemma_chain_prefix_increases(roots, start, n, t1, t2);
        if roots[t1].subrange(0, start) == roots[t2].subrange(0, start) {
            let k = choose|k: int|
                0 <= k < roots[t1].subrange(0, start).len() && roots[t1].subrange(0, start)
                    .subrange(0, k) == roots[t2].subrange(0, start).subrange(0, k) && (
                #[trigger] roots[t1].subrange(0, start)[k]) < roots[t2].subrange(0, start)[k];
            assert(false);
        }
    }
}

} // verus!
