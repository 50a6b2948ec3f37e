//! Orders on permutations: lexicographic comparison, the shapes that
//! `next`, `skip` and `next_part` produce, and a numeric weight that grows
//! along the lexicographic order (the termination measure of every
//! enumeration loop).

use vstd::prelude::*;

verus! {

/// `s` is a permutation of `0..s.len()`: bounded, injective and surjective.
pub open spec fn is_perm(s: Seq<usize>) -> bool {
    &&& forall|i: int| 0 <= i < s.len() ==> (#[trigger] s[i] as int) < s.len()
    &&& forall|i: int, j: int| 0 <= i < j < s.len() ==> s[i] != s[j]
    &&& forall|v: usize| (v as int) < s.len() ==> #[trigger] s.contains(v)
}

/// Positions `[lo, hi)` of `s` are strictly decreasing.
pub open spec fn desc_range(s: Seq<usize>, lo: int, hi: int) -> bool {
    forall|i: int| lo <= i < hi - 1 ==> (#[trigger] s[i]) > s[i + 1]
}

/// Positions `[lo, hi)` of `s` are strictly increasing.
pub open spec fn asc_range(s: Seq<usize>, lo: int, hi: int) -> bool {
    forall|i: int| lo <= i < hi - 1 ==> (#[trigger] s[i]) < s[i + 1]
}

/// `post` is a successor of `pre` pivoting at `p`: the prefix `[0, p)` is
/// kept, position `p` strictly grows, and the tail after `p` is the least
/// (ascending) arrangement.  `next` advances in exactly this shape.
pub open spec fn advances_at(pre: Seq<usize>, post: Seq<usize>, p: int) -> bool {
    &&& 0 <= p < pre.len() - 1
    &&& post.len() == pre.len()
    &&& post.subrange(0, p) == pre.subrange(0, p)
    &&& post[p] > pre[p]
    &&& pre[p] < pre[p + 1]
    &&& asc_range(post, p + 1, post.len() as int)
}

/// `post` opens the next sub-tree after `pre`: some prefix position below
/// `start` grew and the whole window restarted in ascending order.
pub open spec fn enters_next_part(pre: Seq<usize>, post: Seq<usize>, start: int, p: int) -> bool {
    &&& 0 <= p < start
    &&& post.len() == pre.len()
    &&& post.subrange(0, p) == pre.subrange(0, p)
    &&& post[p] > pre[p]
    &&& asc_range(post, p + 1, post.len() as int)
}

/// `a` comes strictly before `b` in lexicographic order (same length).
pub open spec fn lex_lt(a: Seq<usize>, b: Seq<usize>) -> bool {
    exists|k: int|
        0 <= k < a.len() && a.subrange(0, k) == b.subrange(0, k) && (#[trigger] a[k]) < b[k]
}

/// The window `[start, len)` holds its last (descending) arrangement, so
/// `next` has nothing left to produce.
pub open spec fn window_exhausted(s: Seq<usize>, start: int) -> bool {
    desc_range(s, start, s.len() as int)
}

/// No later sub-tree with the same window exists: the prefix is descending
/// and already greater than everything in the window.
pub open spec fn no_next_part(s: Seq<usize>, start: int) -> bool {
    &&& desc_range(s, 0, start)
    &&& forall|j: int| start <= j < s.len() ==> start == 0 || s[start - 1] > (#[trigger] s[j])
}

/// `i` clamped into `[0, n]`.
pub open spec fn clamp(i: int, n: int) -> int {
    if i < n {
        i
    } else {
        n
    }
}

/// `base` raised to the power `e`.
pub open spec fn pow_of(base: int, e: nat) -> int
    decreases e,
{
    if e == 0 {
        1
    } else {
        base * pow_of(base, (e - 1) as nat)
    }
}

/// Powers of a positive base are positive.
pub proof fn lemma_pow_of_positive(base: int, e: nat)
    requires
        base >= 1,
    ensures
        pow_of(base, e) >= 1,
    decreases e,
{
    if e > 0 {
        lemma_pow_of_positive(base, (e - 1) as nat);
        assert(base * pow_of(base, (e - 1) as nat) >= 1) by (nonlinear_arith)
            requires
                base >= 1,
                pow_of(base, (e - 1) as nat) >= 1,
        ;
    }
}

/// All entries of `s` lie below `base`.
pub open spec fn digits_below(s: Seq<usize>, base: int) -> bool {
    forall|i: int| 0 <= i < s.len() ==> (#[trigger] s[i] as int) < base
}

/// The tail `[i, len)` of `s`, read as a base-`base` numeral.
pub open spec fn weight_from(s: Seq<usize>, base: int, i: int) -> int
    decreases s.len() - i,
{
    if i < 0 || i >= s.len() {
        0
    } else {
        s[i] * pow_of(base, (s.len() - 1 - i) as nat) + weight_from(s, base, i + 1)
    }
}

/// `s` read as a base-`base` numeral; strictly grows along the
/// lexicographic order, so `pow_of(base, len) - weight(s, base)` is a loop
/// variant for enumeration loops.
pub open spec fn weight(s: Seq<usize>, base: int) -> int {
    weight_from(s, base, 0)
}

/// The numeral tail is non-negative and below `pow(base, len - i)`.
pub proof fn lemma_weight_from_bounds(s: Seq<usize>, base: int, i: int)
    requires
        digits_below(s, base),
        base >= 1,
        0 <= i <= s.len(),
    ensures
        0 <= weight_from(s, base, i) < pow_of(base, (s.len() - i) as nat),
    decreases s.len() - i,
{
    if i == s.len() {
    } else {
        lemma_weight_from_bounds(s, base, i + 1);
        let p = pow_of(base, (s.len() - 1 - i) as nat);
        lemma_pow_of_positive(base, (s.len() - 1 - i) as nat);
        assert(pow_of(base, (s.len() - i) as nat) == base * p);
        let d = s[i] as int;
        assert(0 <= d * p) by (nonlinear_arith)
            requires
                0 <= d,
                0 < p,
        ;
        assert(d * p + p <= base * p) by (nonlinear_arith)
            requires
                d < base,
                0 < p,
        ;
    }
}

/// Equal digits up to `k` mean the numerals differ only in their tails.
proof fn lemma_weight_eq_upto(a: Seq<usize>, b: Seq<usize>, base: int, i: int, k: int)
    requires
        a.len() == b.len(),
        0 <= i <= k <= a.len(),
        forall|j: int| 0 <= j < k ==> (#[trigger] a[j]) == b[j],
    ensures
        weight_from(a, base, i) - weight_from(b, base, i) == weight_from(a, base, k)
            - weight_from(b, base, k),
    decreases k - i,
{
    if i < k {
        lemma_weight_eq_upto(a, b, base, i + 1, k);
    }
}

/// Lexicographic order agrees with numeric order of the weights.
pub proof fn lemma_lex_lt_weight(a: Seq<usize>, b: Seq<usize>, base: int)
    requires
        a.len() == b.len(),
        digits_below(a, base),
        digits_below(b, base),
        base >= 1,
        lex_lt(a, b),
    ensures
        weight(a, base) < weight(b, base),
{
    let k = choose|k: int|
        0 <= k < a.len() && a.subrange(0, k) == b.subrange(0, k) && (#[trigger] a[k]) < b[k];
    assert forall|j: int| 0 <= j < k implies (#[trigger] a[j]) == b[j] by {
        assert(a.subrange(0, k)[j] == b.subrange(0, k)[j]);
    }
    lemma_weight_eq_upto(a, b, base, 0, k);
    let p = pow_of(base, (a.len() - 1 - k) as nat);
    lemma_pow_of_positive(base, (a.len() - 1 - k) as nat);
    lemma_weight_from_bounds(a, base, k + 1);
    lemma_weight_from_bounds(b, base, k + 1);
    assert((a[k] as int) * p + p <= (b[k] as int) * p) by (nonlinear_arith)
        requires
            (a[k] as int) < (b[k] as int),
            0 < p,
    ;
}

/// A successor in the `advances_at` shape is lexicographically later.
pub proof fn lemma_advances_lex(pre: Seq<usize>, post: Seq<usize>, p: int)
    requires
        advances_at(pre, post, p),
    ensures
        lex_lt(pre, post),
{
    assert(pre.subrange(0, p) == post.subrange(0, p));
}

/// Opening the next sub-tree is lexicographically later, and the fixed
/// prefixes themselves grow lexicographically.
pub proof fn lemma_enters_lex(pre: Seq<usize>, post: Seq<usize>, start: int, p: int)
    requires
        enters_next_part(pre, post, start, p),
        start <= pre.len(),
    ensures
        lex_lt(pre, post),
        lex_lt(pre.subrange(0, start), post.subrange(0, start)),
{
    assert(pre.subrange(0, p) == post.subrange(0, p));
    let pa = pre.subrange(0, start);
    let pb = post.subrange(0, start);
    assert(pa.subrange(0, p) =~= pre.subrange(0, p));
    assert(pb.subrange(0, p) =~= post.subrange(0, p));
    assert(pa[p] == pre[p] && pb[p] == post[p]);
}

/// An in-window advance keeps the fixed prefix: every permutation a
/// sub-tree yields still carries the sub-tree's root prefix.
pub proof fn lemma_advance_keeps_prefix(pre: Seq<usize>, post: Seq<usize>, p: int, start: int)
    requires
        advances_at(pre, post, p),
        0 <= start <= p,
    ensures
        post.subrange(0, start) == pre.subrange(0, start),
{
    assert forall|i: int| 0 <= i < start implies post[i] == pre[i] by {
        assert(post.subrange(0, p)[i] == pre.subrange(0, p)[i]);
        assert(post.subrange(0, p)[i] == post[i]);
        assert(pre.subrange(0, p)[i] == pre[i]);
    }
    assert(post.subrange(0, start) =~= pre.subrange(0, start));
}

/// Sub-trees with different root prefixes are disjoint: no permutation
/// carries both prefixes.
pub proof fn lemma_distinct_prefix_disjoint(
    x: Seq<usize>,
    a: Seq<usize>,
    b: Seq<usize>,
    start: int,
)
    requires
        a.subrange(0, start) != b.subrange(0, start),
    ensures
        !(x.subrange(0, start) == a.subrange(0, start) && x.subrange(0, start) == b.subrange(
            0,
            start,
        )),
{
}

/// A chain of lexicographically increasing rows never repeats: this is why
/// an enumeration driven by `next` yields pairwise distinct permutations.
pub proof fn lemma_chain_distinct(chain: Seq<Seq<usize>>, base: int)
    requires
        base >= 1,
        forall|t: int| 0 <= t < chain.len() ==> digits_below(#[trigger] chain[t], base),
        forall|t: int| 0 <= t < chain.len() - 1 ==> (#[trigger] chain[t]).len() == chain[t
            + 1].len(),
        forall|t: int| 0 <= t < chain.len() - 1 ==> lex_lt(#[trigger] chain[t], chain[t + 1]),
    ensures
        forall|i: int, j: int| 0 <= i < j < chain.len() ==> chain[i] != chain[j],
{
    assert forall|i: int, j: int| 0 <= i < j < chain.len() implies chain[i] != chain[j] by {
        lemma_chain_weight(chain, base, i, j);
    }
}

/// Weights strictly grow along a lexicographically increasing chain.
proof fn lemma_chain_weight(chain: Seq<Seq<usize>>, base: int, i: int, j: int)
    requires
        base >= 1,
        forall|t: int| 0 <= t < chain.len() ==> digits_below(#[trigger] chain[t], base),
        forall|t: int| 0 <= t < chain.len() - 1 ==> (#[trigger] chain[t]).len() == chain[t
            + 1].len(),
        forall|t: int| 0 <= t < chain.len() - 1 ==> lex_lt(#[trigger] chain[t], chain[t + 1]),
        0 <= i < j < chain.len(),
    ensures
        weight(chain[i], base) < weight(chain[j], base),
        chain[i].len() == chain[j].len(),
    decreases j - i,
{
    if i + 1 == j {
        lemma_lex_lt_weight(chain[i], chain[j], base);
    } else {
        lemma_chain_weight(chain, base, i, j - 1);
        lemma_lex_lt_weight(chain[j - 1], chain[j], base);
    }
}

/// The first position where two same-length rows differ.
pub proof fn first_diff(a: Seq<usize>, b: Seq<usize>, i: int) -> (k: int)
    requires
        a.len() == b.len(),
        0 <= i <= a.len(),
        forall|j: int| 0 <= j < i ==> (#[trigger] a[j]) == b[j],
        exists|j: int| i <= j < a.len() && (#[trigger] a[j]) != b[j],
    ensures
        i <= k < a.len(),
        a[k] != b[k],
        forall|j: int| 0 <= j < k ==> (#[trigger] a[j]) == b[j],
    decreases a.len() - i,
{
    if a[i] != b[i] {
        i
    } else {
        let w = choose|j: int| i <= j < a.len() && (#[trigger] a[j]) != b[j];
        assert(i + 1 <= w);
        first_diff(a, b, i + 1)
    }
}

/// `post` is the permutation right after `pre`: later, with nothing in
/// between.
pub open spec fn immediate_successor(pre: Seq<usize>, post: Seq<usize>) -> bool {
    &&& lex_lt(pre, post)
    &&& forall|q: Seq<usize>|
        #![trigger lex_lt(pre, q)]
        is_perm(q) && q.len() == pre.len() && lex_lt(pre, q) ==> q == post || lex_lt(post, q)
}

/// Two rows cannot precede one another both ways.
pub proof fn lemma_lex_asym(a: Seq<usize>, b: Seq<usize>)
    requires
        is_perm(a),
        is_perm(b),
        a.len() == b.len(),
        lex_lt(a, b),
    ensures
        !lex_lt(b, a),
{
    if lex_lt(b, a) {
        lemma_lex_lt_weight(a, b, a.len() as int);
        lemma_lex_lt_weight(b, a, a.len() as int);
    }
}

/// Step `i` of the chain moves to the immediate successor.
pub open spec fn chain_steps(chain: Seq<Seq<usize>>, n: int) -> bool {
    &&& forall|t: int|
        0 <= t < chain.len() ==> is_perm(#[trigger] chain[t]) && chain[t].len() == n
    &&& forall|t: int|
        0 <= t < chain.len() - 1 ==> #[trigger] immediate_successor(chain[t], chain[t + 1])
}

/// A chain of immediate successors that starts on the ascending
/// arrangement and ends on the descending one visits every permutation:
/// together with `lemma_chain_distinct`, the enumeration yields each of
/// the `n!` permutations exactly once.
pub proof fn lemma_enumeration_complete(chain: Seq<Seq<usize>>, q: Seq<usize>, n: int)
    requires
        chain.len() >= 1,
        chain_steps(chain, n),
        asc_range(chain[0], 0, n),
        desc_range(chain.last(), 0, n),
        is_perm(q),
        q.len() == n,
    ensures
        exists|i: int| 0 <= i < chain.len() && chain[i] == q,
{
    assert(q.subrange(0, 0) =~= chain[0].subrange(0, 0));
    lemma_asc_not_later(q, chain[0], 0);
    if chain[0] == q {
        assert(chain[0] == q);
    } else {
        let i = lemma_enumeration_find(chain, q, n, 0);
        assert(chain[i] == q);
    }
}

/// Walk the chain: the sought permutation is never overtaken, so it is
/// eventually met.
proof fn lemma_enumeration_find(chain: Seq<Seq<usize>>, q: Seq<usize>, n: int, i: int) -> (idx:
    int)
    requires
        chain_steps(chain, n),
        desc_range(chain.last(), 0, n),
        is_perm(q),
        q.len() == n,
        0 <= i < chain.len(),
        chain[i] == q || lex_lt(chain[i], q),
    ensures
        i <= idx < chain.len(),
        chain[idx] == q,
    decreases chain.len() - i,
{
    if chain[i] == q {
        i
    } else {
        assert(lex_lt(chain[i], q));
        if i == chain.len() - 1 {
            // the last arrangement is the greatest: nothing lies past it
            assert(chain[i] == chain.last());
            assert(q.subrange(0, 0) =~= chain.last().subrange(0, 0));
            lemma_skip_not_earlier(q, chain.last(), 0);
            assert(chain.last() == q || lex_lt(q, chain.last()));
            lemma_lex_asym(chain[i], q);
            assert(false);
            i
        } else {
            assert(immediate_successor(chain[i], chain[i + 1]));
            assert(q == chain[i + 1] || lex_lt(chain[i + 1], q));
            lemma_enumeration_find(chain, q, n, i + 1)
        }
    }
}

/// A full enumeration chain — immediate successors from the ascending
/// arrangement to the descending one — holds every permutation of
/// `0..n` exactly once; its length is therefore the number of
/// permutations of `0..n`.
pub proof fn lemma_chain_enumerates(chain: Seq<Seq<usize>>, q: Seq<usize>, n: int)
    requires
        chain.len() >= 1,
        chain_steps(chain, n),
        asc_range(chain[0], 0, n),
        desc_range(chain.last(), 0, n),
        is_perm(q),
        q.len() == n,
    ensures
        exists|i: int| 0 <= i < chain.len() && chain[i] == q,
        forall|i: int, j: int| 0 <= i < j < chain.len() ==> chain[i] != chain[j],
{
    lemma_enumeration_complete(chain, q, n);
    if n == 0 {
        if chain.len() >= 2 {
            let t0: int = 0;
            assert(immediate_successor(chain[t0], chain[t0 + 1]));
            assert(lex_lt(chain[0], chain[1]));
            let k = choose|k: int|
                0 <= k < chain[0].len() && chain[0].subrange(0, k) == chain[1].subrange(0, k)
                    && (#[trigger] chain[0][k]) < chain[1][k];
            assert(false);
        }
    } else {
        assert forall|t: int| 0 <= t < chain.len() implies digits_below(
            #[trigger] chain[t],
            n,
        ) by {
            assert(is_perm(chain[t]));
        }
        assert forall|t: int| 0 <= t < chain.len() - 1 implies lex_lt(
            #[trigger] chain[t],
            chain[t + 1],
        ) by {
            assert(immediate_successor(chain[t], chain[t + 1]));
        }
        lemma_chain_distinct(chain, n);
    }
}

/// Everything between a state and its skipped form shares the closed
/// prefix: `skip(i)` jumps to the greatest arrangement over the length-`i`
/// prefix, so nothing in between leaves that prefix.
pub proof fn lemma_between_shares_prefix(
    c: Seq<usize>,
    s: Seq<usize>,
    q: Seq<usize>,
    i: int,
)
    requires
        is_perm(s),
        is_perm(q),
        c.len() == s.len(),
        q.len() == c.len(),
        0 <= i <= c.len(),
        s.subrange(0, i) == c.subrange(0, i),
        lex_lt(c, q),
        q == s || lex_lt(q, s),
    ensures
        q.subrange(0, i) == c.subrange(0, i),
{
    if q == s {
        assert(q.subrange(0, i) == c.subrange(0, i));
    } else {
        let k = lemma_first_lex_diff(c, q);
        assert(k >= i) by {
            if k < i {
                // q would already beat the skipped state at the first
                // difference, against q coming before it
                assert forall|t: int| 0 <= t < k implies s[t] == q[t] by {
                    assert(s.subrange(0, i)[t] == s[t]);
                    assert(c.subrange(0, i)[t] == c[t]);
                    assert(c.subrange(0, k)[t] == c[t]);
                    assert(q.subrange(0, k)[t] == q[t]);
                }
                assert(s.subrange(0, k) =~= q.subrange(0, k));
                assert(s[k] == c[k]) by {
                    assert(s.subrange(0, i)[k] == s[k]);
                    assert(c.subrange(0, i)[k] == c[k]);
                }
                assert(lex_lt(s, q)) by {
                    assert(s[k] < q[k]);
                }
                if lex_lt(q, s) {
                    lemma_lex_asym(s, q);
                }
                assert(false);
            }
        }
        assert forall|t: int| 0 <= t < i implies q[t] == c[t] by {
            assert(c.subrange(0, k)[t] == q.subrange(0, k)[t]);
            assert(c.subrange(0, k)[t] == c[t]);
            assert(q.subrange(0, k)[t] == q[t]);
        }
        assert(q.subrange(0, i) =~= c.subrange(0, i));
    }
}

/// After the final sub-tree, nothing is left: every permutation either
/// precedes the final root or carries its prefix.
pub proof fn lemma_no_next_part_last(s: Seq<usize>, q: Seq<usize>, start: int)
    requires
        is_perm(s),
        is_perm(q),
        s.len() == q.len(),
        0 <= start <= s.len(),
        no_next_part(s, start),
    ensures
        q == s || lex_lt(q, s) || q.subrange(0, start) == s.subrange(0, start),
{
    if q != s && !lex_lt(q, s) {
        assert(exists|j: int| 0 <= j < s.len() && (#[trigger] s[j]) != q[j]) by {
            if forall|j: int| 0 <= j < s.len() ==> (#[trigger] s[j]) == q[j] {
                assert(s =~= q);
            }
        }
        let k = first_diff(s, q, 0);
        assert(s.subrange(0, k) =~= q.subrange(0, k));
        if k >= start {
            assert forall|t: int| 0 <= t < start implies q[t] == s[t] by {}
            assert(q.subrange(0, start) =~= s.subrange(0, start));
        } else {
            // the prefix is descending and dominates the window, so the
            // first difference can only fall: q would precede s
            assert(q[k] != s[k]);
            if q[k] < s[k] {
                assert(lex_lt(q, s)) by {
                    assert(q.subrange(0, k) =~= s.subrange(0, k));
                }
                assert(false);
            } else {
                lemma_same_prefix_same_window(q, s, k);
                let w = s.subrange(k, s.len() as int);
                assert(w.contains(q[k]));
                let mi = choose|mi: int| 0 <= mi < w.len() && w[mi] == q[k];
                let m = k + mi;
                assert(s[m] == q[k]);
                assert(m > k);
                // s[k] dominates everything past it: descending prefix,
                // then the window it exceeds
                assert(s[k] > s[m]) by {
                    if m < start {
                        lemma_desc_prefix_transitive(s, k, m, start);
                    } else {
                        assert(s[start - 1] > s[m]);
                        if k < start - 1 {
                            lemma_desc_prefix_transitive(s, k, start - 1, start);
                        }
                    }
                }
                assert(false);
            }
        }
    }
}

/// In a descending prefix, any later prefix position holds less.
proof fn lemma_desc_prefix_transitive(s: Seq<usize>, i: int, j: int, start: int)
    requires
        desc_range(s, 0, start),
        0 <= i < j < start,
        start <= s.len(),
    ensures
        s[i] > s[j],
    decreases j - i,
{
    if i + 1 < j {
        lemma_desc_prefix_transitive(s, i + 1, j, start);
    }
}

/// The order is transitive.
pub proof fn lemma_lex_lt_trans(a: Seq<usize>, b: Seq<usize>, c: Seq<usize>)
    requires
        a.len() == b.len(),
        b.len() == c.len(),
        lex_lt(a, b),
        lex_lt(b, c),
    ensures
        lex_lt(a, c),
{
    let k1 = choose|k1: int|
        0 <= k1 < a.len() && a.subrange(0, k1) == b.subrange(0, k1) && (#[trigger] a[k1]) < b[k1];
    let k2 = choose|k2: int|
        0 <= k2 < b.len() && b.subrange(0, k2) == c.subrange(0, k2) && (#[trigger] b[k2]) < c[k2];
    if k1 <= k2 {
        assert forall|t: int| 0 <= t < k1 implies a[t] == c[t] by {
            assert(a.subrange(0, k1)[t] == b.subrange(0, k1)[t]);
            assert(b.subrange(0, k2)[t] == c.subrange(0, k2)[t]);
        }
        assert(a.subrange(0, k1) =~= c.subrange(0, k1));
        if k1 < k2 {
            assert(b.subrange(0, k2)[k1] == c.subrange(0, k2)[k1]);
            assert(a[k1] < c[k1]);
        }
        assert(lex_lt(a, c)) by {
            assert(a[k1] < c[k1]);
        }
    } else {
        assert forall|t: int| 0 <= t < k2 implies a[t] == c[t] by {
            assert(a.subrange(0, k1)[t] == b.subrange(0, k1)[t]);
            assert(b.subrange(0, k2)[t] == c.subrange(0, k2)[t]);
        }
        assert(a.subrange(0, k2) =~= c.subrange(0, k2));
        assert(a.subrange(0, k1)[k2] == b.subrange(0, k1)[k2]);
        assert(lex_lt(a, c)) by {
            assert(a[k2] < c[k2]);
        }
    }
}

/// Two distinct same-length rows are ordered one way or the other.
pub proof fn lemma_lex_trichotomy(a: Seq<usize>, b: Seq<usize>)
    requires
        a.len() == b.len(),
        a != b,
    ensures
        lex_lt(a, b) || lex_lt(b, a),
{
    assert(exists|j: int| 0 <= j < a.len() && (#[trigger] a[j]) != b[j]) by {
        if forall|j: int| 0 <= j < a.len() ==> (#[trigger] a[j]) == b[j] {
            assert(a =~= b);
        }
    }
    let k = first_diff(a, b, 0);
    assert(a.subrange(0, k) =~= b.subrange(0, k));
    if a[k] < b[k] {
        assert(lex_lt(a, b));
    } else {
        assert(b.subrange(0, k) =~= a.subrange(0, k));
        assert(lex_lt(b, a)) by {
            assert(b[k] < a[k]);
        }
    }
}

/// The first position where a lexicographically smaller row falls short.
pub proof fn lemma_first_lex_diff(a: Seq<usize>, b: Seq<usize>) -> (k: int)
    requires
        a.len() == b.len(),
        lex_lt(a, b),
    ensures
        0 <= k < a.len(),
        a[k] < b[k],
        forall|j: int| 0 <= j < k ==> a[j] == b[j],
        a.subrange(0, k) == b.subrange(0, k),
{
    let k0 = choose|k0: int|
        0 <= k0 < a.len() && a.subrange(0, k0) == b.subrange(0, k0) && (#[trigger] a[k0]) < b[k0];
    assert(exists|j: int| 0 <= j < a.len() && (#[trigger] a[j]) != b[j]) by {
        assert(a[k0] != b[k0]);
    }
    let k = first_diff(a, b, 0);
    assert(k == k0) by {
        if k < k0 {
            assert(a.subrange(0, k0)[k] == b.subrange(0, k0)[k]);
            assert(a.subrange(0, k0)[k] == a[k]);
            assert(b.subrange(0, k0)[k] == b[k]);
        }
    }
    assert(a.subrange(0, k) =~= b.subrange(0, k));
    k
}

/// Two permutations with the same prefix hold the same values inside the
/// window behind it.
pub proof fn lemma_same_prefix_same_window(a: Seq<usize>, b: Seq<usize>, start: int)
    requires
        is_perm(a),
        is_perm(b),
        a.len() == b.len(),
        0 <= start <= a.len(),
        a.subrange(0, start) == b.subrange(0, start),
    ensures
        forall|j: int|
            start <= j < a.len() ==> #[trigger] b.subrange(start, b.len() as int).contains(a[j]),
{
    let w = b.subrange(start, b.len() as int);
    assert forall|j: int| start <= j < a.len() implies #[trigger] w.contains(a[j]) by {
        let v = a[j];
        assert(b.contains(v));
        let k = choose|k: int| 0 <= k < b.len() && b[k] == v;
        if k < start {
            assert(a.subrange(0, start)[k] == a[k]);
            assert(b.subrange(0, start)[k] == b[k]);
            assert(a[k] == v);
            assert(false);
        }
        assert(w[k - start] == v);
    }
}

/// A skipped state (same prefix, descending window) is never earlier than
/// the state it was derived from: descending is the greatest arrangement.
pub proof fn lemma_skip_not_earlier(x: Seq<usize>, r: Seq<usize>, c: int)
    requires
        is_perm(x),
        is_perm(r),
        x.len() == r.len(),
        0 <= c <= x.len(),
        x.subrange(0, c) == r.subrange(0, c),
        desc_range(r, c, r.len() as int),
    ensures
        r == x || lex_lt(x, r),
{
    if x != r {
        assert(exists|j: int| 0 <= j < x.len() && (#[trigger] x[j]) != r[j]) by {
            if forall|j: int| 0 <= j < x.len() ==> (#[trigger] x[j]) == r[j] {
                assert(x =~= r);
            }
        }
        let k = first_diff(x, r, 0);
        assert(x.subrange(0, k) =~= r.subrange(0, k));
        // the differing position lies inside the sorted window
        assert(c <= k) by {
            if k < c {
                assert(x.subrange(0, c)[k] == r.subrange(0, c)[k]);
                assert(x.subrange(0, c)[k] == x[k]);
                assert(r.subrange(0, c)[k] == r[k]);
                assert(false);
            }
        }
        // r[k] is the greatest remaining window value, and x[k] is one of
        // the remaining window values of x
        lemma_same_prefix_same_window(x, r, k);
        let w = r.subrange(k, r.len() as int);
        assert(w.contains(x[k]));
        let mi = choose|mi: int| 0 <= mi < w.len() && w[mi] == x[k];
        let m = k + mi;
        assert(r[m] == x[k]);
        assert(m != k);
        assert forall|j: int| k < j < r.len() implies (#[trigger] r[j]) < r[k] by {
            lemma_desc_transitive(r, c, k, j);
        }
        assert(x[k] < r[k]);
    }
}

/// An ascending window (same prefix) is the earliest arrangement: the
/// mirror of `lemma_skip_not_earlier`.
pub proof fn lemma_asc_not_later(x: Seq<usize>, r: Seq<usize>, c: int)
    requires
        is_perm(x),
        is_perm(r),
        x.len() == r.len(),
        0 <= c <= x.len(),
        x.subrange(0, c) == r.subrange(0, c),
        asc_range(r, c, r.len() as int),
    ensures
        r == x || lex_lt(r, x),
{
    if x != r {
        assert(exists|j: int| 0 <= j < x.len() && (#[trigger] x[j]) != r[j]) by {
            if forall|j: int| 0 <= j < x.len() ==> (#[trigger] x[j]) == r[j] {
                assert(x =~= r);
            }
        }
        let k = first_diff(r, x, 0);
        assert(r.subrange(0, k) =~= x.subrange(0, k));
        assert(c <= k) by {
            if k < c {
                assert(x.subrange(0, c)[k] == r.subrange(0, c)[k]);
                assert(x.subrange(0, c)[k] == x[k]);
                assert(r.subrange(0, c)[k] == r[k]);
                assert(false);
            }
        }
        // r[k] is the least remaining window value, and x[k] is one of
        // the remaining window values of r
        lemma_same_prefix_same_window(x, r, k);
        let w = r.subrange(k, r.len() as int);
        assert(w.contains(x[k]));
        let mi = choose|mi: int| 0 <= mi < w.len() && w[mi] == x[k];
        let m = k + mi;
        assert(r[m] == x[k]);
        assert(m != k);
        assert forall|j: int| k < j < r.len() implies (#[trigger] r[j]) > r[k] by {
            lemma_asc_transitive(r, c, k, j);
        }
        assert(r[k] < x[k]);
    }
}

/// In an ascending range, any later position holds a larger value.
pub proof fn lemma_asc_transitive(s: Seq<usize>, c: int, i: int, j: int)
    requires
        asc_range(s, c, s.len() as int),
        c <= i < j < s.len(),
    ensures
        s[i] < s[j],
    decreases j - i,
{
    if i + 1 < j {
        lemma_asc_transitive(s, c, i + 1, j);
    }
}

/// `next`'s move is the immediate successor: no permutation carrying the
/// same fixed prefix lies strictly between the state before and after.
pub proof fn lemma_next_minimal(
    pre: Seq<usize>,
    post: Seq<usize>,
    q: Seq<usize>,
    pivot: int,
    second: int,
    start: int,
)
    requires
        is_perm(pre),
        is_perm(post),
        is_perm(q),
        pre.len() == post.len(),
        pre.len() == q.len(),
        0 <= start <= pivot < second < pre.len(),
        desc_range(pre, pivot + 1, pre.len() as int),
        pre[pivot] < pre[pivot + 1],
        forall|j: int| second < j < pre.len() ==> (#[trigger] pre[j]) < pre[pivot],
        pre[pivot] < pre[second],
        post.subrange(0, pivot) == pre.subrange(0, pivot),
        post[pivot] == pre[second],
        asc_range(post, pivot + 1, post.len() as int),
        q.subrange(0, start) == pre.subrange(0, start),
        lex_lt(pre, q),
    ensures
        q == post || lex_lt(post, q),
{
    let len = pre.len() as int;
    let k0 = choose|k0: int|
        0 <= k0 < pre.len() && pre.subrange(0, k0) == q.subrange(0, k0) && (#[trigger] pre[k0])
            < q[k0];
    assert(exists|j: int| 0 <= j < pre.len() && (#[trigger] pre[j]) != q[j]) by {
        assert(pre[k0] != q[k0]);
    }
    let k = first_diff(pre, q, 0);
    assert(k == k0) by {
        if k < k0 {
            assert(pre.subrange(0, k0)[k] == q.subrange(0, k0)[k]);
            assert(pre.subrange(0, k0)[k] == pre[k]);
            assert(q.subrange(0, k0)[k] == q[k]);
        }
    }
    assert(pre[k] < q[k]);
    assert(pre.subrange(0, k) =~= q.subrange(0, k));
    // past the pivot the tail is already the greatest arrangement, so the
    // first difference cannot lie there
    assert(k <= pivot) by {
        if k > pivot {
            lemma_same_prefix_same_window(q, pre, k);
            let w = pre.subrange(k, len);
            assert(w.contains(q[k]));
            let mi = choose|mi: int| 0 <= mi < w.len() && w[mi] == q[k];
            let m = k + mi;
            assert(pre[m] == q[k]);
            if m > k {
                lemma_desc_transitive(pre, pivot + 1, k, m);
            }
            assert(false);
        }
    }
    if k < pivot {
        // the difference precedes the pivot: `post` still carries `pre`'s
        // value there, so `post` comes before `q`
        assert(post[k] == pre[k]) by {
            assert(post.subrange(0, pivot)[k] == post[k]);
            assert(pre.subrange(0, pivot)[k] == pre[k]);
        }
        assert forall|i: int| 0 <= i < k implies post[i] == q[i] by {
            assert(post.subrange(0, pivot)[i] == post[i]);
            assert(pre.subrange(0, pivot)[i] == pre[i]);
            assert(pre.subrange(0, k)[i] == pre[i]);
            assert(q.subrange(0, k)[i] == q[i]);
        }
        assert(post.subrange(0, k) =~= q.subrange(0, k));
        assert(lex_lt(post, q)) by {
            assert(post[k] < q[k]);
        }
    } else {
        // the difference is at the pivot: q picked some larger window
        // value there, none of which undercuts post's choice
        assert(k == pivot);
        lemma_same_prefix_same_window(q, pre, pivot);
        let w = pre.subrange(pivot, len);
        assert(w.contains(q[pivot]));
        let mi = choose|mi: int| 0 <= mi < w.len() && w[mi] == q[pivot];
        let m = pivot + mi;
        assert(pre[m] == q[pivot]);
        assert(m != pivot);
        // the chosen value sits at or before `second`, hence is at least
        // pre[second]
        assert(q[pivot] >= pre[second]) by {
            if m > second {
                assert(pre[m] < pre[pivot]);
            } else if m < second {
                lemma_desc_transitive(pre, pivot + 1, m, second);
            }
        }
        if q[pivot] > post[pivot] {
            assert forall|i: int| 0 <= i < pivot implies post[i] == q[i] by {
                assert(post.subrange(0, pivot)[i] == post[i]);
                assert(pre.subrange(0, pivot)[i] == pre[i]);
                assert(pre.subrange(0, pivot)[i] == pre.subrange(0, k)[i]);
                assert(q.subrange(0, k)[i] == q[i]);
            }
            assert(post.subrange(0, pivot) =~= q.subrange(0, pivot));
            assert(lex_lt(post, q));
        } else {
            assert(q[pivot] == post[pivot]);
            assert forall|i: int| 0 <= i < pivot + 1 implies post[i] == q[i] by {
                if i < pivot {
                    assert(post.subrange(0, pivot)[i] == post[i]);
                    assert(pre.subrange(0, pivot)[i] == pre[i]);
                    assert(pre.subrange(0, pivot)[i] == pre.subrange(0, k)[i]);
                    assert(q.subrange(0, k)[i] == q[i]);
                }
            }
            assert(q.subrange(0, pivot + 1) =~= post.subrange(0, pivot + 1));
            lemma_asc_not_later(q, post, pivot + 1);
        }
    }
}

/// In a descending range, any later position holds a smaller value.
pub proof fn lemma_desc_transitive(s: Seq<usize>, c: int, i: int, j: int)
    requires
        desc_range(s, c, s.len() as int),
        c <= i < j < s.len(),
    ensures
        s[i] > s[j],
    decreases j - i,
{
    if i + 1 < j {
        lemma_desc_transitive(s, c, i + 1, j);
    }
}

/// A row whose tail descends is not below any row sharing its prefix.
proof fn lemma_desc_tail_not_less(a: Seq<usize>, b: Seq<usize>, c: int)
    requires
        is_perm(a),
        is_perm(b),
        a.len() == b.len(),
        0 <= c <= a.len(),
        a.subrange(0, c) == b.subrange(0, c),
        desc_range(a, c, a.len() as int),
    ensures
        !lex_lt(a, b),
{
    if !lex_lt(a, b) {
        return ;
    }
    let k = lemma_first_lex_diff(a, b);
    assert(c <= k) by {
        if k < c {
            assert(a.subrange(0, c)[k] == a[k]);
            assert(b.subrange(0, c)[k] == b[k]);
        }
    }
    lemma_same_prefix_same_window(b, a, k);
    assert(a.subrange(k, a.len() as int).contains(b[k]));
    let w = choose|w: int|
        0 <= w < a.subrange(k, a.len() as int).len() && a.subrange(k, a.len() as int)[w] == b[k];
    assert(a[k + w] == b[k]);
    if w == 0 {
        assert(a[k] == b[k]);
    } else {
        lemma_desc_transitive(a, c, k, k + w);
    }
}

/// A fixed prefix and a descending tail pin the whole permutation: the
/// tail holds the leftover values, and they fit a strict descent only
/// one way.
pub proof fn lemma_desc_tail_unique(a: Seq<usize>, b: Seq<usize>, c: int)
    requires
        is_perm(a),
        is_perm(b),
        a.len() == b.len(),
        0 <= c <= a.len(),
        a.subrange(0, c) == b.subrange(0, c),
        desc_range(a, c, a.len() as int),
        desc_range(b, c, b.len() as int),
    ensures
        a == b,
{
    if a != b {
        lemma_lex_trichotomy(a, b);
        if lex_lt(a, b) {
            lemma_desc_tail_not_less(a, b, c);
        } else {
            assert(b.subrange(0, c) =~= a.subrange(0, c));
            lemma_desc_tail_not_less(b, a, c);
        }
    }
}

/// Skip monotonicity: once `skip(i)` has closed the sub-tree of the
/// length-`i` prefix, the following `next` leaves that prefix behind.
pub proof fn lemma_skip_then_next_prefix_changes(
    orig: Seq<usize>,
    skipped: Seq<usize>,
    after: Seq<usize>,
    i: int,
    p: int,
)
    requires
        1 <= i <= skipped.len(),
        skipped.len() == orig.len(),
        skipped.subrange(0, i) == orig.subrange(0, i),
        desc_range(skipped, i, skipped.len() as int),
        advances_at(skipped, after, p),
    ensures
        after.subrange(0, i) != orig.subrange(0, i),
{
    // the pivot cannot lie inside the descending region
    assert(p < i);
    assert(skipped[p] == skipped.subrange(0, i)[p]);
    assert(orig[p] == orig.subrange(0, i)[p]);
    assert(after.subrange(0, i)[p] == after[p]);
    assert(after[p] != orig[p]);
}

/// What is still ahead of `s` in its enumeration: the distance from `s`'s
/// numeral to the greatest one.  Strictly shrinks along the lexicographic
/// order, so it bounds every enumeration loop.
pub open spec fn remaining(s: Seq<usize>) -> int {
    pow_of(s.len() as int, s.len()) - weight(s, s.len() as int)
}

/// The distance ahead is never negative.
pub proof fn lemma_remaining_nonneg(s: Seq<usize>)
    requires
        is_perm(s),
    ensures
        0 <= remaining(s),
{
    if s.len() == 0 {
    } else {
        lemma_weight_from_bounds(s, s.len() as int, 0);
    }
}

/// Moving lexicographically forward strictly shrinks the distance ahead.
pub proof fn lemma_remaining_decreases(pre: Seq<usize>, post: Seq<usize>)
    requires
        is_perm(pre),
        is_perm(post),
        pre.len() == post.len(),
        lex_lt(pre, post),
    ensures
        0 <= remaining(post) < remaining(pre),
{
    let k = choose|k: int|
        0 <= k < pre.len() && pre.subrange(0, k) == post.subrange(0, k) && (#[trigger] pre[k])
            < post[k];
    assert(pre.len() >= 1);
    lemma_lex_lt_weight(pre, post, pre.len() as int);
    lemma_weight_from_bounds(pre, pre.len() as int, 0);
    lemma_weight_from_bounds(post, post.len() as int, 0);
}

} // verus!
