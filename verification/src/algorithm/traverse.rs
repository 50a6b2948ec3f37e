//! Stand-alone walk over the permutation tree with a pruning callback.
//!
//! The callback sees every permutation in lexicographic order.  Answering
//! `Skip(i)` closes the sub-tree rooted at the length-`i + 1` prefix, so
//! the walk resumes at the first permutation with a different such prefix.

use vstd::prelude::*;

use super::lex_order::{
    advances_at, clamp, desc_range, immediate_successor, is_perm, lemma_advances_lex,
    lemma_desc_tail_unique, lemma_lex_asym, lemma_remaining_decreases, lemma_remaining_nonneg,
    lemma_skip_not_earlier, lex_lt, remaining, window_exhausted,
};
use super::partial_permutation::PartialPermutation;

verus! {

/// What a tree callback asks the walk to do next.
#[derive(Clone, Copy, Debug, PartialEq, Eq, Structural)]
pub enum TraverseOperation {
    /// Go on to the next permutation.
    Next,
    /// Stop scanning this sub-tree.
    Pruning,
    /// Close the sub-tree rooted at the prefix of length `i + 1`.
    Skip(usize),
}

/// Observer of a permutation-tree walk; its verdict steers the pruning.
/// `calls` is the trace of walk steps it has been shown, with the verdict
/// it returned for each.
pub trait ITreeCallback {
    /// The arguments received so far, each with the verdict returned.  A
    /// verified observer must override this with its real trace — with
    /// the default (constantly empty) trace no implementation can satisfy
    /// the method contract below.  The default exists only so that
    /// unverified observers outside the proofs can implement the trait
    /// without a trace.
    open spec fn calls(&self) -> Seq<(Seq<i32>, TraverseOperation)> {
        Seq::empty()
    }

    fn invoke(&mut self, indicies: &[i32]) -> (r: TraverseOperation)
        ensures
            final(self).calls() == old(self).calls().push((indicies@, r)),
    ;
}

/// `s` is a permutation of `0..s.len()`, stored as `i32` entries (so the
/// length itself fits the entry type).
pub open spec fn is_perm_i32(s: Seq<i32>) -> bool {
    &&& s.len() <= i32::MAX + 1
    &&& forall|i: int| 0 <= i < s.len() ==> 0 <= (#[trigger] s[i] as int) < s.len()
    &&& forall|i: int, j: int| 0 <= i < j < s.len() ==> s[i] != s[j]
    &&& forall|v: i32| 0 <= v < s.len() ==> #[trigger] s.contains(v)
}

/// The `i32` rows and their unsigned counterparts describe one another.
proof fn lemma_perm_i32_to_usize(s: Seq<i32>, u: Seq<usize>)
    requires
        is_perm_i32(s),
        u.len() == s.len(),
        forall|i: int| 0 <= i < u.len() ==> (#[trigger] u[i] as int) == s[i] as int,
    ensures
        is_perm(u),
{
    assert forall|v: usize| (v as int) < u.len() implies #[trigger] u.contains(v) by {
        assert(s.contains(v as i32));
        let i = choose|i: int| 0 <= i < s.len() && s[i] == v as i32;
        assert(u[i] == v);
    }
}

/// The unsigned cursor and the `i32` row written from it describe one
/// another.
proof fn lemma_perm_usize_to_i32(u: Seq<usize>, s: Seq<i32>)
    requires
        is_perm(u),
        u.len() <= i32::MAX + 1,
        s.len() == u.len(),
        forall|i: int| 0 <= i < u.len() ==> (#[trigger] s[i] as int) == u[i] as int,
    ensures
        is_perm_i32(s),
{
    assert forall|v: i32| 0 <= v < s.len() implies #[trigger] s.contains(v) by {
        assert(u.contains(v as usize));
        let i = choose|i: int| 0 <= i < u.len() && u[i] == v as usize;
        assert(s[i] == v);
    }
}

/// The walk argument as unsigned indices.
pub open spec fn as_index_seq(s: Seq<i32>) -> Seq<usize> {
    Seq::new(s.len(), |i: int| s[i] as usize)
}

/// The cursor after honouring verdict `op` at `prev`: a `Skip(i)` sorts
/// everything beyond the length-`i + 1` prefix into its last (descending)
/// arrangement, which pins `mid` exactly; any other verdict leaves the
/// cursor alone.
pub open spec fn skip_closed(prev: Seq<usize>, op: TraverseOperation, mid: Seq<usize>) -> bool {
    match op {
        TraverseOperation::Skip(i) => {
            let b = clamp(i as int + 1, prev.len() as int);
            &&& is_perm(mid)
            &&& mid.len() == prev.len()
            &&& mid.subrange(0, b) == prev.subrange(0, b)
            &&& desc_range(mid, b, mid.len() as int)
        },
        _ => mid == prev,
    }
}

/// One walk step: the verdict's `Skip` bound is closed, then the cursor
/// moves to the immediate lexicographic successor of the closed state —
/// which pins `nxt` exactly.
pub open spec fn walk_step(prev: Seq<usize>, op: TraverseOperation, nxt: Seq<usize>) -> bool {
    exists|mid: Seq<usize>|
        #[trigger] skip_closed(prev, op, mid) && immediate_successor(mid, nxt) && is_perm(nxt)
            && nxt.len() == prev.len()
}

/// The walk's last step: after closing the verdict's bound the window is
/// exhausted; `fin` is the walk's final arrangement.
pub open spec fn walk_ends(prev: Seq<usize>, op: TraverseOperation, fin: Seq<usize>) -> bool {
    &&& skip_closed(prev, op, fin)
    &&& window_exhausted(fin, 0)
}

/// A verdict at a cursor pins the closed state: `skip_closed` is a
/// function of its first two arguments.
pub proof fn lemma_skip_closed_deterministic(
    prev: Seq<usize>,
    op: TraverseOperation,
    a: Seq<usize>,
    b: Seq<usize>,
)
    requires
        is_perm(prev),
        skip_closed(prev, op, a),
        skip_closed(prev, op, b),
    ensures
        a == b,
{
    if let TraverseOperation::Skip(i) = op {
        let c = clamp(i as int + 1, prev.len() as int);
        assert(a.subrange(0, c) =~= b.subrange(0, c));
        lemma_desc_tail_unique(a, b, c);
    }
}

/// A verdict at a cursor pins the next arrangement: `walk_step` is a
/// function of its first two arguments, so the verdicts alone determine
/// the whole trace `traverse_all` records.
pub proof fn lemma_walk_step_deterministic(
    prev: Seq<usize>,
    op: TraverseOperation,
    a: Seq<usize>,
    b: Seq<usize>,
)
    requires
        is_perm(prev),
        walk_step(prev, op, a),
        walk_step(prev, op, b),
    ensures
        a == b,
{
    let ma = choose|m: Seq<usize>|
        #[trigger] skip_closed(prev, op, m) && immediate_successor(m, a) && is_perm(a) && a.len()
            == prev.len();
    let mb = choose|m: Seq<usize>|
        #[trigger] skip_closed(prev, op, m) && immediate_successor(m, b) && is_perm(b) && b.len()
            == prev.len();
    lemma_skip_closed_deterministic(prev, op, ma, mb);
    if a != b {
        assert(lex_lt(ma, a));
        assert(lex_lt(ma, b));
        assert(a == b || lex_lt(b, a));
        assert(b == a || lex_lt(a, b));
        lemma_lex_asym(a, b);
        assert(false);
    }
}

/// Likewise the walk's final arrangement: `walk_ends` relates a cursor
/// and verdict to exactly one final state.
pub proof fn lemma_walk_ends_deterministic(
    prev: Seq<usize>,
    op: TraverseOperation,
    a: Seq<usize>,
    b: Seq<usize>,
)
    requires
        is_perm(prev),
        walk_ends(prev, op, a),
        walk_ends(prev, op, b),
    ensures
        a == b,
{
    lemma_skip_closed_deterministic(prev, op, a, b);
}

/// The entries of `calls` past `ocl` record one walk: the first argument
/// is `first`, each later argument follows from the previous entry by
/// `walk_step`, and the last entry's verdict leads to `cursor`.
#[verifier::opaque]
pub open spec fn walk_trace(
    calls: Seq<(Seq<i32>, TraverseOperation)>,
    ocl: int,
    first: Seq<i32>,
    cursor: Seq<usize>,
    n: int,
) -> bool {
    &&& 0 <= ocl <= calls.len()
    &&& (calls.len() == ocl ==> cursor == as_index_seq(first))
    &&& (calls.len() > ocl ==> calls[ocl].0 == first)
    &&& forall|t: int|
        ocl <= t < calls.len() ==> is_perm_i32((#[trigger] calls[t]).0) && calls[t].0.len() == n
    &&& forall|t: int|
        ocl <= t < calls.len() - 1 ==> walk_step(
            as_index_seq((#[trigger] calls[t]).0),
            calls[t].1,
            as_index_seq(calls[t + 1].0),
        )
    &&& (calls.len() > ocl ==> walk_step(
        as_index_seq(calls[calls.len() - 1].0),
        calls[calls.len() - 1].1,
        cursor,
    ))
}

/// An empty trace region is a walk standing at its first arrangement.
proof fn lemma_trace_start(
    calls: Seq<(Seq<i32>, TraverseOperation)>,
    ocl: int,
    first: Seq<i32>,
    n: int,
)
    requires
        0 <= ocl,
        ocl == calls.len(),
    ensures
        walk_trace(calls, ocl, first, as_index_seq(first), n),
{
    reveal(walk_trace);
}

/// Recording the cursor's arrangement and stepping on extends the walk.
proof fn lemma_trace_step(
    pre: Seq<(Seq<i32>, TraverseOperation)>,
    calls: Seq<(Seq<i32>, TraverseOperation)>,
    ocl: int,
    first: Seq<i32>,
    c1: Seq<usize>,
    arg: Seq<i32>,
    op: TraverseOperation,
    n: int,
)
    requires
        walk_trace(pre, ocl, first, as_index_seq(arg), n),
        calls == pre.push((arg, op)),
        is_perm_i32(arg),
        arg.len() == n,
        pre.len() == ocl ==> arg == first,
        walk_step(as_index_seq(arg), op, c1),
    ensures
        walk_trace(calls, ocl, first, c1, n),
{
    reveal(walk_trace);
    assert forall|t: int|
        ocl <= t < calls.len() implies is_perm_i32((#[trigger] calls[t]).0) && calls[t].0.len()
        == n by {
        if t < pre.len() {
            assert(calls[t] == pre[t]);
        } else {
            assert(calls[t].0 == arg);
        }
    }
    assert forall|t: int|
        ocl <= t < calls.len() - 1 implies walk_step(
        as_index_seq((#[trigger] calls[t]).0),
        calls[t].1,
        as_index_seq(calls[t + 1].0),
    ) by {
        if t + 1 < pre.len() {
            assert(calls[t] == pre[t]);
            assert(calls[t + 1] == pre[t + 1]);
        } else {
            assert(t == pre.len() - 1);
            assert(calls[t] == pre[t]);
            assert(calls[t + 1].0 == arg);
            assert(pre[pre.len() - 1] == calls[t]);
        }
    }
    if pre.len() == ocl {
        assert(calls[ocl].0 == arg);
    } else {
        assert(calls[ocl] == pre[ocl]);
    }
}

/// Open the finished walk: the raw facts about its recorded entries.
proof fn lemma_trace_finish(
    pre: Seq<(Seq<i32>, TraverseOperation)>,
    calls: Seq<(Seq<i32>, TraverseOperation)>,
    ocl: int,
    first: Seq<i32>,
    arg: Seq<i32>,
    op: TraverseOperation,
    n: int,
)
    requires
        walk_trace(pre, ocl, first, as_index_seq(arg), n),
        calls == pre.push((arg, op)),
        is_perm_i32(arg),
        arg.len() == n,
        pre.len() == ocl ==> arg == first,
    ensures
        calls.len() > ocl,
        calls[ocl].0 == first,
        calls[calls.len() - 1] == (arg, op),
        forall|t: int|
            ocl <= t < calls.len() ==> is_perm_i32((#[trigger] calls[t]).0) && calls[t].0.len()
                == n,
        forall|t: int|
            ocl <= t < calls.len() - 1 ==> walk_step(
                as_index_seq((#[trigger] calls[t]).0),
                calls[t].1,
                as_index_seq(calls[t + 1].0),
            ),
{
    reveal(walk_trace);
    assert forall|t: int|
        ocl <= t < calls.len() implies is_perm_i32((#[trigger] calls[t]).0) && calls[t].0.len()
        == n by {
        if t < pre.len() {
            assert(calls[t] == pre[t]);
        } else {
            assert(calls[t].0 == arg);
        }
    }
    assert forall|t: int|
        ocl <= t < calls.len() - 1 implies walk_step(
        as_index_seq((#[trigger] calls[t]).0),
        calls[t].1,
        as_index_seq(calls[t + 1].0),
    ) by {
        if t + 1 < pre.len() {
            assert(calls[t] == pre[t]);
            assert(calls[t + 1] == pre[t + 1]);
        } else {
            assert(t == pre.len() - 1);
            assert(calls[t] == pre[t]);
            assert(calls[t + 1].0 == arg);
            assert(pre[pre.len() - 1] == calls[t]);
        }
    }
    if pre.len() == ocl {
        assert(calls[ocl].0 == arg);
    } else {
        assert(calls[ocl] == pre[ocl]);
    }
}

/// A walk ends on the final arrangement: descending, still a permutation.
proof fn lemma_final_state(u: Seq<usize>, s: Seq<i32>)
    requires
        is_perm(u),
        window_exhausted(u, 0),
        s.len() == u.len(),
        s.len() <= i32::MAX + 1,
        forall|i: int| 0 <= i < u.len() ==> (#[trigger] s[i] as int) == u[i] as int,
    ensures
        is_perm_i32(s),
        sorted_desc_i32(s),
{
    assert forall|v: i32| 0 <= v < s.len() implies #[trigger] s.contains(v) by {
        assert(u.contains(v as usize));
        let i = choose|i: int| 0 <= i < u.len() && u[i] == v as usize;
        assert(s[i] == v);
    }
    assert forall|i: int| 0 <= i < s.len() - 1 implies (#[trigger] s[i]) > s[i + 1] by {
        assert(u[i] > u[i + 1]);
    }
}

/// Entries of `s` are strictly decreasing: the final permutation.
pub open spec fn sorted_desc_i32(s: Seq<i32>) -> bool {
    forall|i: int| 0 <= i < s.len() - 1 ==> (#[trigger] s[i]) > s[i + 1]
}

/// The permutation as unsigned indices.
fn to_index_vec(v: &Vec<i32>) -> (r: Vec<usize>)
    requires
        forall|i: int| 0 <= i < v@.len() ==> 0 <= (#[trigger] v@[i] as int) < v@.len(),
    ensures
        r@.len() == v@.len(),
        forall|i: int| 0 <= i < v@.len() ==> (#[trigger] r@[i] as int) == v@[i] as int,
{
    let mut r: Vec<usize> = Vec::new();
    let mut i: usize = 0;
    while i < v.len()
        invariant
            i <= v@.len(),
            r@.len() == i as int,
            forall|j: int| 0 <= j < v@.len() ==> 0 <= (#[trigger] v@[j] as int) < v@.len(),
            forall|j: int| 0 <= j < i ==> (#[trigger] r@[j] as int) == v@[j] as int,
        decreases v@.len() - i,
    {
        r.push(v[i] as usize);
        i = i + 1;
    }
    r
}

/// Write the walker's permutation back into the caller's array.
fn write_back(data: &mut Vec<i32>, cur: &[usize])
    requires
        old(data)@.len() == cur@.len(),
        forall|i: int| 0 <= i < cur@.len() ==> (#[trigger] cur@[i] as int) <= i32::MAX,
    ensures
        final(data)@.len() == old(data)@.len(),
        forall|i: int| 0 <= i < cur@.len() ==> (#[trigger] final(data)@[i] as int) == cur@[i] as int,
{
    let mut i: usize = 0;
    while i < cur.len()
        invariant
            i <= cur@.len(),
            data@.len() == cur@.len(),
            forall|j: int| 0 <= j < cur@.len() ==> (#[trigger] cur@[j] as int) <= i32::MAX,
            forall|j: int| 0 <= j < i ==> (#[trigger] data@[j] as int) == cur@[j] as int,
        decreases cur@.len() - i,
    {
        data.set(i, cur[i] as i32);
        i = i + 1;
    }
}

/// Walk every permutation reachable from `data`, letting a closure watch;
/// the closure never prunes.  `data` is left on the final (descending)
/// arrangement.  A closure leaves no observable trace, so nothing can be
/// stated here about the sequence of calls it receives; `traverse_all`
/// with an `ITreeCallback` carries the full walk contract.
pub fn traverse_all_with_callback<TFunc: FnMut(&[i32])>(data: &mut Vec<i32>, callback: TFunc)
    requires
        is_perm_i32(old(data)@),
        old(data)@.len() != 1,
        forall|x: &[i32]| call_requires(callback, (x,)),
    ensures
        final(data)@.len() == old(data)@.len(),
        is_perm_i32(final(data)@),
        sorted_desc_i32(final(data)@),
{
    let mut f = callback;
    let n = data.len();
    if n == 0 {
        f(data.as_slice());
        return ;
    }
    let u = to_index_vec(data);
    proof {
        lemma_perm_i32_to_usize(data@, u@);
    }
    let mut pp = PartialPermutation::from_parts(u, 0);
    loop
        invariant
            n >= 2,
            n <= i32::MAX + 1,
            old(data)@.len() == n,
            data@.len() == n,
            pp.wf(),
            pp@.len() == n,
            pp.start_spec() == 0,
            forall|i: int| 0 <= i < n ==> (#[trigger] data@[i] as int) == pp@[i] as int,
            forall|x: &[i32]| call_requires(f, (x,)),
        decreases remaining(pp@),
    {
        f(data.as_slice());
        match pp.next() {
            None => {
                proof {
                    lemma_final_state(pp@, data@);
                }
                return ;
            },
            Some(np) => {
                proof {
                    let p = choose|p: int| 0 <= p && #[trigger] advances_at(pp@, np@, p);
                    lemma_advances_lex(pp@, np@, p);
                    lemma_remaining_decreases(pp@, np@);
                }
                pp = np;
                write_back(data, pp.current());
            },
        }
    }
}

/// The arrangement a `Skip(i)` verdict leaves behind closes that bound.
proof fn lemma_skip_closes(prev: Seq<usize>, mid: Seq<usize>, i: usize)
    requires
        is_perm(mid),
        mid.len() == prev.len(),
        mid.subrange(0, clamp(i as int + 1, prev.len() as int)) == prev.subrange(
            0,
            clamp(i as int + 1, prev.len() as int),
        ),
        desc_range(mid, clamp(i as int + 1, prev.len() as int), mid.len() as int),
    ensures
        skip_closed(prev, TraverseOperation::Skip(i), mid),
{
}

/// Closing the bound and taking the minimal strict successor is one walk
/// step.
proof fn lemma_successor_step(
    prev: Seq<usize>,
    mid: Seq<usize>,
    nxt: Seq<usize>,
    op: TraverseOperation,
)
    requires
        skip_closed(prev, op, mid),
        is_perm(nxt),
        nxt.len() == mid.len(),
        mid.len() == prev.len(),
        lex_lt(mid, nxt),
        forall|q: Seq<usize>|
            #![trigger lex_lt(mid, q)]
            is_perm(q) && q.len() == mid.len() && q.subrange(0, 0) == mid.subrange(0, 0)
                && lex_lt(mid, q) ==> (q == nxt || lex_lt(nxt, q)),
    ensures
        walk_step(prev, op, nxt),
{
    assert forall|q: Seq<usize>|
        is_perm(q) && q.len() == mid.len() && lex_lt(mid, q) implies (q == nxt || lex_lt(
        nxt,
        q,
    )) by {
        assert(q.subrange(0, 0int) =~= mid.subrange(0, 0int));
    }
    assert(immediate_successor(mid, nxt));
}

/// Apply one verdict to the cursor: honour a `Skip` bound, then step to
/// the next arrangement.  Returns the new cursor and whether the walk
/// goes on.
#[verifier::rlimit(100)]
fn advance_cursor(pp: PartialPermutation, op: TraverseOperation, n: usize) -> (r: (
    PartialPermutation,
    bool,
))
    requires
        pp.wf(),
        pp@.len() == n,
        pp.start_spec() == 0,
        n >= 2,
    ensures
        r.0.wf(),
        r.0@.len() == n,
        r.0.start_spec() == 0,
        r.1 ==> remaining(r.0@) < remaining(pp@),
        r.1 ==> walk_step(pp@, op, r.0@),
        !r.1 ==> window_exhausted(r.0@, 0),
        !r.1 ==> remaining(r.0@) <= remaining(pp@),
        !r.1 ==> walk_ends(pp@, op, r.0@),
{
    let mut cur = pp;
    if let TraverseOperation::Skip(index) = op {
        let bound: usize = if index >= n {
            n
        } else {
            index + 1
        };
        let skipped = cur.skip(bound);
        proof {
            lemma_skip_not_earlier(cur@, skipped@, bound as int);
            if cur@ != skipped@ {
                lemma_remaining_decreases(cur@, skipped@);
            }
            lemma_remaining_nonneg(cur@);
            assert(bound as int == clamp(index as int + 1, pp@.len() as int));
            lemma_skip_closes(pp@, skipped@, index);
        }
        cur = skipped;
    }
    proof {
        assert(skip_closed(pp@, op, cur@));
    }
    match cur.next() {
        None => {
            proof {
                assert(walk_ends(pp@, op, cur@));
            }
            (cur, false)
        },
        Some(np) => {
            proof {
                let p = choose|p: int| 0 <= p && #[trigger] advances_at(cur@, np@, p);
                lemma_advances_lex(cur@, np@, p);
                lemma_remaining_decreases(cur@, np@);
                lemma_successor_step(pp@, cur@, np@, op);
            }
            (np, true)
        },
    }
}

/// Walk every permutation reachable from `data` under the callback's
/// pruning verdicts.  `data` is left on the final (descending)
/// arrangement.  An array of length one is refused: it has no successor
/// arrangement to step to.  The callback's trace records the walk
/// exactly: the first argument is the array itself, each later argument
/// follows from the previous entry by `walk_step` — the returned
/// verdict's `Skip` bound is closed, then the cursor moves to the
/// immediate lexicographic successor — and the walk ends exactly when
/// closing the last verdict's bound exhausts the window, on the final
/// arrangement.
#[verifier::rlimit(100)]
pub fn traverse_all<T: ITreeCallback>(data: &mut Vec<i32>, callback: &mut T)
    requires
        is_perm_i32(old(data)@),
        old(data)@.len() != 1,
    ensures
        final(data)@.len() == old(data)@.len(),
        is_perm_i32(final(data)@),
        sorted_desc_i32(final(data)@),
        final(callback).calls().len() > old(callback).calls().len(),
        final(callback).calls().subrange(0, old(callback).calls().len() as int) == old(
            callback,
        ).calls(),
        final(callback).calls()[old(callback).calls().len() as int].0 == old(data)@,
        forall|t: int|
            old(callback).calls().len() <= t < final(callback).calls().len() ==> is_perm_i32(
                (#[trigger] final(callback).calls()[t]).0,
            ) && final(callback).calls()[t].0.len() == old(data)@.len(),
        forall|t: int|
            old(callback).calls().len() <= t < final(callback).calls().len() - 1 ==> walk_step(
                as_index_seq((#[trigger] final(callback).calls()[t]).0),
                final(callback).calls()[t].1,
                as_index_seq(final(callback).calls()[t + 1].0),
            ),
        walk_ends(
            as_index_seq(final(callback).calls()[final(callback).calls().len() - 1].0),
            final(callback).calls()[final(callback).calls().len() - 1].1,
            as_index_seq(final(data)@),
        ),
{
    let ghost ocl = old(callback).calls().len() as int;
    let ghost old_calls = old(callback).calls();
    let n = data.len();
    if n == 0 {
        let op0 = callback.invoke(data.as_slice());
        proof {
            assert(callback.calls().subrange(0, ocl) =~= old_calls);
            let fin = as_index_seq(data@);
            assert(fin =~= Seq::<usize>::empty());
            assert(skip_closed(fin, op0, fin)) by {
                if let TraverseOperation::Skip(i) = op0 {
                    let b = clamp(i as int + 1, 0int);
                    assert(fin.subrange(0, b) =~= fin.subrange(0, b));
                }
            }
            assert(walk_ends(fin, op0, fin));
        }
        return ;
    }
    let u = to_index_vec(data);
    proof {
        lemma_perm_i32_to_usize(data@, u@);
    }
    let mut pp = PartialPermutation::from_parts(u, 0);
    let ghost mut g_pre: Seq<(Seq<i32>, TraverseOperation)> = old_calls;
    let ghost mut g_arg: Seq<i32> = Seq::empty();
    let ghost mut g_op: TraverseOperation = TraverseOperation::Next;
    proof {
        assert(as_index_seq(old(data)@) =~= pp@);
        lemma_trace_start(callback.calls(), ocl, old(data)@, n as int);
    }
    loop
        invariant_except_break
            walk_trace(callback.calls(), ocl, old(data)@, pp@, n as int),
        invariant
            n >= 2,
            n <= i32::MAX + 1,
            old(data)@.len() == n,
            data@.len() == n,
            pp.wf(),
            pp@.len() == n,
            pp.start_spec() == 0,
            forall|i: int| 0 <= i < n ==> (#[trigger] data@[i] as int) == pp@[i] as int,
            ocl == old_calls.len(),
            ocl <= callback.calls().len(),
            callback.calls().subrange(0, ocl) == old_calls,
            callback.calls().len() == ocl ==> data@ == old(data)@,
        ensures
            data@.len() == n,
            pp.wf(),
            pp@.len() == n,
            window_exhausted(pp@, 0),
            forall|i: int| 0 <= i < n ==> (#[trigger] data@[i] as int) == pp@[i] as int,
            callback.calls() == g_pre.push((g_arg, g_op)),
            walk_trace(g_pre, ocl, old(data)@, as_index_seq(g_arg), n as int),
            is_perm_i32(g_arg),
            g_arg.len() == n,
            g_pre.len() == ocl ==> g_arg == old(data)@,
            walk_ends(as_index_seq(g_arg), g_op, pp@),
            callback.calls().subrange(0, ocl) == old_calls,
            ocl <= g_pre.len(),
        decreases remaining(pp@),
    {
        let ghost c0 = pp@;
        proof {
            g_pre = callback.calls();
            g_arg = data@;
        }
        let op = callback.invoke(data.as_slice());
        proof {
            g_op = op;
            assert(callback.calls().subrange(0, ocl) =~= g_pre.subrange(0, ocl));
            assert(as_index_seq(g_arg) =~= c0);
            lemma_perm_usize_to_i32(c0, g_arg);
            lemma_remaining_nonneg(c0);
        }
        let stepped = advance_cursor(pp, op, n);
        pp = stepped.0;
        write_back(data, pp.current());
        proof {
            lemma_remaining_nonneg(pp@);
        }
        if !stepped.1 {
            break ;
        }
        proof {
            lemma_trace_step(
                g_pre,
                callback.calls(),
                ocl,
                old(data)@,
                pp@,
                g_arg,
                op,
                n as int,
            );
        }
    }
    proof {
        lemma_final_state(pp@, data@);
        lemma_trace_finish(
            g_pre,
            callback.calls(),
            ocl,
            old(data)@,
            g_arg,
            g_op,
            n as int,
        );
        assert(as_index_seq(data@) =~= pp@);
        assert(callback.calls()[callback.calls().len() - 1] == (g_arg, g_op));
    }
}

} // verus!
