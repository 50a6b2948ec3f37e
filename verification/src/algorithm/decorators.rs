//! The pruning decorator chain.
//!
//! A decorator inspects a permutation (bands laid over the span-major
//! block list) and answers `Next` (emit and go on), `Skip(i)` (the
//! sub-tree rooted at the length-`i` prefix cannot satisfy the rule) or
//! `Pruning` (nothing later in this sub-tree can).  Decorators compose
//! outer-over-inner: any verdict of the inner chain other than `Next`
//! passes through unchanged.

use vstd::prelude::*;

use super::definition::RoomMatrix;
use super::live_info::LiveInfo;
use super::traverse::TraverseOperation;
use crate::BlockId;

verus! {

/// Position `k` of the permutation holds no band (spare capacity).
pub open spec fn empty_slot(live: LiveInfo, perm: Seq<usize>, k: int) -> bool {
    perm[k] as int >= live.band_count()
}

/// The band laid on block `k` is available in that block's span (an
/// empty slot always passes).
pub open spec fn schedule_pass(perm: Seq<usize>, m: RoomMatrix, live: LiveInfo, k: int) -> bool {
    empty_slot(live, perm, k) || live.band_avail(perm[k] as int, m.block_span(k))
}

/// The availability rule, scanned from block `k` on: the first failing
/// block yields `Skip` past it (or `Pruning` on the final block).
pub open spec fn schedule_verdict_from(
    perm: Seq<usize>,
    m: RoomMatrix,
    live: LiveInfo,
    k: int,
) -> TraverseOperation
    decreases m.num_blocks() - k,
{
    if k < 0 || k >= m.num_blocks() {
        TraverseOperation::Next
    } else if !schedule_pass(perm, m, live, k) {
        if k == m.num_blocks() - 1 {
            TraverseOperation::Pruning
        } else {
            TraverseOperation::Skip((k + 1) as usize)
        }
    } else {
        schedule_verdict_from(perm, m, live, k + 1)
    }
}

/// The availability rule over the whole block list.
pub open spec fn schedule_verdict(perm: Seq<usize>, m: RoomMatrix, live: LiveInfo)
    -> TraverseOperation {
    schedule_verdict_from(perm, m, live, 0)
}

/// The conflict mask carried from block `k` to block `k + 1`: reset when
/// the span changes.
pub open spec fn carry_mask(m: RoomMatrix, k: int, mask: u64) -> u64 {
    if k + 1 < m.num_blocks() && m.block_span(k + 1) != m.block_span(k) {
        0u64
    } else {
        mask
    }
}

/// The member-conflict rule, scanned from block `k` with `mask` holding
/// the members already on stage in `k`'s span: the first band sharing a
/// member yields `Skip` past it (or `Pruning` on the final block).
pub open spec fn conflict_verdict_from(
    perm: Seq<usize>,
    m: RoomMatrix,
    live: LiveInfo,
    k: int,
    mask: u64,
) -> TraverseOperation
    decreases m.num_blocks() - k,
{
    if k < 0 || k >= m.num_blocks() {
        TraverseOperation::Next
    } else if empty_slot(live, perm, k) {
        conflict_verdict_from(perm, m, live, k + 1, carry_mask(m, k, mask))
    } else if mask & live.band_hash_spec(perm[k] as int) != 0 {
        if k == m.num_blocks() - 1 {
            TraverseOperation::Pruning
        } else {
            TraverseOperation::Skip((k + 1) as usize)
        }
    } else {
        conflict_verdict_from(
            perm,
            m,
            live,
            k + 1,
            carry_mask(m, k, mask | live.band_hash_spec(perm[k] as int)),
        )
    }
}

/// The member-conflict rule over the whole block list.
pub open spec fn conflict_verdict(perm: Seq<usize>, m: RoomMatrix, live: LiveInfo)
    -> TraverseOperation {
    conflict_verdict_from(perm, m, live, 0, 0u64)
}

/// A pruning rule over permutations laid on a room matrix.  `verdict`
/// is the rule itself; `invoke_with_room_matrix` computes it.
pub trait ITraverseDecorator {
    spec fn verdict(&self, perm: Seq<usize>, m: RoomMatrix, live: LiveInfo) -> TraverseOperation;

    fn invoke_with_room_matrix(
        &self,
        indicies: &[usize],
        room_matrix: &RoomMatrix,
        live_info: &LiveInfo,
    ) -> (r: TraverseOperation)
        requires
            room_matrix.wf(),
            live_info.wf(),
            live_info.matches_matrix(room_matrix),
            indicies@.len() >= room_matrix.num_blocks(),
        ensures
            r == self.verdict(indicies@, *room_matrix, *live_info),
    ;
}

/// The innermost rule: no pruning at all.
#[derive(Clone, Copy)]
pub struct TreeTraverser;

impl Default for TreeTraverser {
    fn default() -> (r: Self) {
        TreeTraverser
    }
}

impl ITraverseDecorator for TreeTraverser {
    open spec fn verdict(&self, perm: Seq<usize>, m: RoomMatrix, live: LiveInfo)
        -> TraverseOperation {
        TraverseOperation::Next
    }

    fn invoke_with_room_matrix(
        &self,
        indicies: &[usize],
        room_matrix: &RoomMatrix,
        live_info: &LiveInfo,
    ) -> (r: TraverseOperation) {
        TraverseOperation::Next
    }
}

/// Prune where a band's availability refuses its block's span.
#[derive(Clone)]
pub struct BandScheduleTraverseDecorator<T: ITraverseDecorator + Clone> {
    /// The wrapped inner rule.
    pub decorator: T,
}

impl<T: ITraverseDecorator + Clone> BandScheduleTraverseDecorator<T> {
    /// Wrap an inner rule; its verdicts other than `Next` pass through.
    pub fn new(decorator: T) -> (r: Self)
        ensures
            r.inner() == decorator,
    {
        BandScheduleTraverseDecorator { decorator }
    }

    /// The wrapped rule.
    pub open spec fn inner(&self) -> T {
        self.decorator
    }

    /// The availability scan itself.
    fn invoke_impl_with_room_matrix(
        &self,
        indicies: &[usize],
        room_matrix: &RoomMatrix,
        live_info: &LiveInfo,
    ) -> (r: TraverseOperation)
        requires
            room_matrix.wf(),
            live_info.wf(),
            live_info.matches_matrix(room_matrix),
            indicies@.len() >= room_matrix.num_blocks(),
        ensures
            r == schedule_verdict(indicies@, *room_matrix, *live_info),
    {
        let nb = room_matrix.blocks.len();
        let band_count = live_info.band_ids.len();
        let mut k: usize = 0;
        while k < nb
            invariant
                k <= nb,
                nb as int == room_matrix.num_blocks(),
                band_count as int == live_info.band_count(),
                room_matrix.wf(),
                live_info.wf(),
                live_info.matches_matrix(room_matrix),
                indicies@.len() >= nb as int,
                schedule_verdict(indicies@, *room_matrix, *live_info) == schedule_verdict_from(
                    indicies@,
                    *room_matrix,
                    *live_info,
                    k as int,
                ),
            decreases nb - k,
        {
            let idx = indicies[k];
            let ok: bool = if idx >= band_count {
                true
            } else {
                live_info.confirm_assignable(BlockId(k), crate::BandId(idx))
            };
            if !ok {
                if k == nb - 1 {
                    return TraverseOperation::Pruning;
                }
                return TraverseOperation::Skip(k + 1);
            }
            proof {
                assert(schedule_pass(indicies@, *room_matrix, *live_info, k as int));
            }
            k = k + 1;
        }
        TraverseOperation::Next
    }
}

impl<T: ITraverseDecorator + Clone> ITraverseDecorator for BandScheduleTraverseDecorator<T> {
    open spec fn verdict(&self, perm: Seq<usize>, m: RoomMatrix, live: LiveInfo)
        -> TraverseOperation {
        if self.decorator.verdict(perm, m, live) == TraverseOperation::Next {
            schedule_verdict(perm, m, live)
        } else {
            self.decorator.verdict(perm, m, live)
        }
    }

    fn invoke_with_room_matrix(
        &self,
        indicies: &[usize],
        room_matrix: &RoomMatrix,
        live_info: &LiveInfo,
    ) -> (r: TraverseOperation) {
        match self.decorator.invoke_with_room_matrix(indicies, room_matrix, live_info) {
            TraverseOperation::Pruning => TraverseOperation::Pruning,
            TraverseOperation::Skip(index) => TraverseOperation::Skip(index),
            TraverseOperation::Next => self.invoke_impl_with_room_matrix(
                indicies,
                room_matrix,
                live_info,
            ),
        }
    }
}

/// Prune where two bands in one span share a musician.
#[derive(Clone)]
pub struct MemberConflictTraverseDecorator<T: ITraverseDecorator + Clone> {
    /// The wrapped inner rule.
    pub decorator: T,
}

impl<T: ITraverseDecorator + Clone> MemberConflictTraverseDecorator<T> {
    /// Wrap an inner rule; its verdicts other than `Next` pass through.
    pub fn new(decorator: T) -> (r: Self)
        ensures
            r.inner() == decorator,
    {
        MemberConflictTraverseDecorator { decorator }
    }

    /// The wrapped rule.
    pub open spec fn inner(&self) -> T {
        self.decorator
    }

    /// The conflict scan itself: walk the blocks span by span, OR-ing the
    /// member masks; a repeated bit is a musician in two bands at once.
    fn invoke_impl_with_room_matrix(
        &self,
        indicies: &[usize],
        room_matrix: &RoomMatrix,
        live_info: &LiveInfo,
    ) -> (r: TraverseOperation)
        requires
            room_matrix.wf(),
            live_info.wf(),
            live_info.matches_matrix(room_matrix),
            indicies@.len() >= room_matrix.num_blocks(),
        ensures
            r == conflict_verdict(indicies@, *room_matrix, *live_info),
    {
        let nb = room_matrix.blocks.len();
        let band_count = live_info.band_ids.len();
        let mut mask: u64 = 0;
        let mut k: usize = 0;
        while k < nb
            invariant
                k <= nb,
                nb as int == room_matrix.num_blocks(),
                band_count as int == live_info.band_count(),
                room_matrix.wf(),
                live_info.wf(),
                live_info.matches_matrix(room_matrix),
                indicies@.len() >= nb as int,
                conflict_verdict(indicies@, *room_matrix, *live_info) == conflict_verdict_from(
                    indicies@,
                    *room_matrix,
                    *live_info,
                    k as int,
                    mask,
                ),
            decreases nb - k,
        {
            let idx = indicies[k];
            let mut next_mask = mask;
            if idx < band_count {
                let h = live_info.band_hashes[idx];
                if mask & h != 0 {
                    if k == nb - 1 {
                        return TraverseOperation::Pruning;
                    }
                    return TraverseOperation::Skip(k + 1);
                }
                next_mask = mask | h;
            }
            // a new span starts with an empty stage
            if k + 1 < nb && room_matrix.block_spans[k + 1] != room_matrix.block_spans[k] {
                next_mask = 0;
            }
            proof {
                assert(conflict_verdict_from(indicies@, *room_matrix, *live_info, k as int, mask)
                    == conflict_verdict_from(
                    indicies@,
                    *room_matrix,
                    *live_info,
                    k as int + 1,
                    next_mask,
                ));
            }
            mask = next_mask;
            k = k + 1;
        }
        TraverseOperation::Next
    }
}

impl<T: ITraverseDecorator + Clone> ITraverseDecorator for MemberConflictTraverseDecorator<T> {
    open spec fn verdict(&self, perm: Seq<usize>, m: RoomMatrix, live: LiveInfo)
        -> TraverseOperation {
        if self.decorator.verdict(perm, m, live) == TraverseOperation::Next {
            conflict_verdict(perm, m, live)
        } else {
            self.decorator.verdict(perm, m, live)
        }
    }

    fn invoke_with_room_matrix(
        &self,
        indicies: &[usize],
        room_matrix: &RoomMatrix,
        live_info: &LiveInfo,
    ) -> (r: TraverseOperation) {
        match self.decorator.invoke_with_room_matrix(indicies, room_matrix, live_info) {
            TraverseOperation::Pruning => TraverseOperation::Pruning,
            TraverseOperation::Skip(index) => TraverseOperation::Skip(index),
            TraverseOperation::Next => self.invoke_impl_with_room_matrix(
                indicies,
                room_matrix,
                live_info,
            ),
        }
    }
}

/// An availability `Next` admits every block.
pub proof fn lemma_schedule_next(perm: Seq<usize>, m: RoomMatrix, live: LiveInfo, k: int)
    requires
        schedule_verdict_from(perm, m, live, k) == TraverseOperation::Next,
        0 <= k,
    ensures
        forall|j: int| k <= j < m.num_blocks() ==> schedule_pass(perm, m, live, j),
    decreases m.num_blocks() - k,
{
    if k < m.num_blocks() {
        lemma_schedule_next(perm, m, live, k + 1);
    }
}

/// A conflict `Next` from `(k, mask)` keeps `mask` clear of every later
/// band in `k`'s span, and every later same-span pair of bands disjoint.
proof fn lemma_conflict_next_from(perm: Seq<usize>, m: RoomMatrix, live: LiveInfo, k: int, mask: u64)
    requires
        m.wf(),
        0 <= k,
        conflict_verdict_from(perm, m, live, k, mask) == TraverseOperation::Next,
    ensures
        forall|j: int|
            k <= j < m.num_blocks() && m.block_span(j) == m.block_span(k) && !empty_slot(
                live,
                perm,
                j,
            ) ==> live.band_hash_spec((#[trigger] perm[j]) as int) & mask == 0,
        forall|i: int, j: int|
            k <= i < j < m.num_blocks() && m.block_span(i) == m.block_span(j) && !empty_slot(
                live,
                perm,
                i,
            ) && !empty_slot(live, perm, j) ==> live.band_hash_spec((#[trigger] perm[i]) as int)
                & live.band_hash_spec((#[trigger] perm[j]) as int) == 0,
    decreases m.num_blocks() - k,
{
    if k >= m.num_blocks() {
    } else {
        let here = if empty_slot(live, perm, k) {
            mask
        } else {
            mask | live.band_hash_spec(perm[k] as int)
        };
        let next_mask = carry_mask(m, k, here);
        lemma_conflict_next_from(perm, m, live, k + 1, next_mask);
        let span_change = k + 1 < m.num_blocks() && m.block_span(k + 1) != m.block_span(k);
        if span_change {
            // spans never return: nothing past k shares k's span
            assert forall|j: int|
                k + 1 <= j < m.num_blocks() implies m.block_span(j) != m.block_span(k) by {
                assert(m.block_spans@[k] <= m.block_spans@[k + 1]);
                if j > k + 1 {
                    assert(m.block_spans@[k + 1] <= m.block_spans@[j]);
                }
            }
        }
        assert forall|j: int|
            k <= j < m.num_blocks() && m.block_span(j) == m.block_span(k) && !empty_slot(
                live,
                perm,
                j,
            ) implies live.band_hash_spec((#[trigger] perm[j]) as int) & mask == 0 by {
            if j == k {
                let hk = live.band_hash_spec(perm[k] as int);
                assert(mask & hk == 0);
                assert(hk & mask == 0) by (bit_vector)
                    requires
                        mask & hk == 0,
                ;
            } else {
                assert(m.block_spans@[k] <= m.block_spans@[k + 1]);
                if j > k + 1 {
                    assert(m.block_spans@[k + 1] <= m.block_spans@[j]);
                }
                assert(!span_change);
                assert(next_mask == here);
                let hj = live.band_hash_spec(perm[j] as int);
                assert(hj & here == 0);
                if empty_slot(live, perm, k) {
                } else {
                    let hk = live.band_hash_spec(perm[k] as int);
                    assert(hj & mask == 0) by (bit_vector)
                        requires
                            hj & (mask | hk) == 0,
                    ;
                }
            }
        }
        assert forall|i: int, j: int|
            k <= i < j < m.num_blocks() && m.block_span(i) == m.block_span(j) && !empty_slot(
                live,
                perm,
                i,
            ) && !empty_slot(live, perm, j) implies live.band_hash_spec((#[trigger] perm[i]) as int)
            & live.band_hash_spec((#[trigger] perm[j]) as int) == 0 by {
            if i == k {
                // j shares k's span, so the span did not change at k + 1
                assert(m.block_spans@[k] <= m.block_spans@[k + 1]);
                if j > k + 1 {
                    assert(m.block_spans@[k + 1] <= m.block_spans@[j]);
                }
                assert(m.block_span(k + 1) == m.block_span(k));
                assert(!span_change);
                let hk = live.band_hash_spec(perm[k] as int);
                let hj = live.band_hash_spec(perm[j] as int);
                assert(hj & here == 0);
                assert(hk & hj == 0) by (bit_vector)
                    requires
                        hj & (mask | hk) == 0,
                ;
            }
        }
    }
}

/// A conflict `Next` means no two bands of one span share a musician:
/// their masks are pairwise disjoint.
pub proof fn lemma_conflict_next(perm: Seq<usize>, m: RoomMatrix, live: LiveInfo)
    requires
        m.wf(),
        conflict_verdict(perm, m, live) == TraverseOperation::Next,
    ensures
        forall|i: int, j: int|
            0 <= i < j < m.num_blocks() && m.block_span(i) == m.block_span(j) && !empty_slot(
                live,
                perm,
                i,
            ) && !empty_slot(live, perm, j) ==> live.band_hash_spec((#[trigger] perm[i]) as int)
                & live.band_hash_spec((#[trigger] perm[j]) as int) == 0,
{
    lemma_conflict_next_from(perm, m, live, 0, 0u64);
}

/// A `Skip` of the availability scan pins a failing block just before
/// the skipped prefix.
pub proof fn lemma_schedule_skip_fails(
    perm: Seq<usize>,
    m: RoomMatrix,
    live: LiveInfo,
    j: int,
    iu: usize,
)
    requires
        0 <= j,
        m.num_blocks() <= usize::MAX,
        schedule_verdict_from(perm, m, live, j) == TraverseOperation::Skip(iu),
    ensures
        j < iu,
        (iu as int) <= m.num_blocks(),
        !schedule_pass(perm, m, live, iu - 1),
    decreases m.num_blocks() - j,
{
    if j >= m.num_blocks() {
    } else if !schedule_pass(perm, m, live, j) {
    } else {
        lemma_schedule_skip_fails(perm, m, live, j + 1, iu);
    }
}

/// The member-conflict scan answers alike on rows that agree up to the
/// skipped prefix: the verdict reads nothing past its failing block.
pub proof fn lemma_conflict_skip_agrees(
    p: Seq<usize>,
    q: Seq<usize>,
    m: RoomMatrix,
    live: LiveInfo,
    j: int,
    mask: u64,
    iu: usize,
)
    requires
        0 <= j,
        m.num_blocks() <= usize::MAX,
        conflict_verdict_from(p, m, live, j, mask) == TraverseOperation::Skip(iu),
        forall|t: int| j <= t < iu ==> p[t] == q[t],
    ensures
        j < iu,
        (iu as int) <= m.num_blocks(),
        conflict_verdict_from(q, m, live, j, mask) == TraverseOperation::Skip(iu),
    decreases m.num_blocks() - j,
{
    if j >= m.num_blocks() {
    } else if empty_slot(live, p, j) {
        lemma_conflict_skip_agrees(p, q, m, live, j + 1, carry_mask(m, j, mask), iu);
        assert(p[j] == q[j]);
    } else if mask & live.band_hash_spec(p[j] as int) != 0 {
        assert(iu == j + 1);
        assert(p[j] == q[j]);
    } else {
        lemma_conflict_skip_agrees(
            p,
            q,
            m,
            live,
            j + 1,
            carry_mask(m, j, mask | live.band_hash_spec(p[j] as int)),
            iu,
        );
        assert(p[j] == q[j]);
    }
}

/// A row sharing the prefix a `Skip` closed cannot pass both rules: the
/// same block fails for it too.
pub proof fn lemma_skip_region_not_passing(
    p: Seq<usize>,
    q: Seq<usize>,
    m: RoomMatrix,
    live: LiveInfo,
    iu: usize,
)
    requires
        m.num_blocks() <= usize::MAX,
        forall|t: int| 0 <= t < iu ==> p[t] == q[t],
        schedule_verdict(p, m, live) == TraverseOperation::Skip(iu) || (schedule_verdict(p, m, live)
            == TraverseOperation::Next && conflict_verdict(p, m, live) == TraverseOperation::Skip(
            iu,
        )),
    ensures
        !(schedule_verdict(q, m, live) == TraverseOperation::Next && conflict_verdict(q, m, live)
            == TraverseOperation::Next),
{
    if schedule_verdict(p, m, live) == TraverseOperation::Skip(iu) {
        lemma_schedule_skip_fails(p, m, live, 0, iu);
        if schedule_verdict(q, m, live) == TraverseOperation::Next {
            lemma_schedule_next(q, m, live, 0);
            assert(p[iu - 1] == q[iu - 1]);
            assert(schedule_pass(q, m, live, iu - 1));
            assert(!schedule_pass(p, m, live, iu - 1));
            assert(false);
        }
    } else {
        lemma_conflict_skip_agrees(p, q, m, live, 0, 0u64, iu);
    }
}

/// Decorator composition: a verdict of the inner chain other than `Next`
/// passes through the availability rule unchanged.
pub proof fn lemma_schedule_composition<T: ITraverseDecorator + Clone>(
    d: BandScheduleTraverseDecorator<T>,
    perm: Seq<usize>,
    m: RoomMatrix,
    live: LiveInfo,
)
    requires
        d.inner().verdict(perm, m, live) != TraverseOperation::Next,
    ensures
        d.verdict(perm, m, live) == d.inner().verdict(perm, m, live),
{
}

/// Decorator composition: a verdict of the inner chain other than `Next`
/// passes through the member-conflict rule unchanged.
pub proof fn lemma_conflict_composition<T: ITraverseDecorator + Clone>(
    d: MemberConflictTraverseDecorator<T>,
    perm: Seq<usize>,
    m: RoomMatrix,
    live: LiveInfo,
)
    requires
        d.inner().verdict(perm, m, live) != TraverseOperation::Next,
    ensures
        d.verdict(perm, m, live) == d.inner().verdict(perm, m, live),
{
}

} // verus!
