//! The scheduler: drive the permutation enumeration under the pruning
//! chain and stream every valid assignment to a callback.
//!
//! A run is bracketed: `on_started` once, then one `on_assigned` per
//! valid assignment, then exactly one `on_completed`.  When the blocks
//! cannot seat the bands, only `on_completed` fires and the run reports
//! `InsufficientCapacity`.

use vstd::prelude::*;

use super::decorators::{
    conflict_verdict, empty_slot, lemma_conflict_next, lemma_conflict_skip_agrees,
    lemma_schedule_next, lemma_schedule_skip_fails, lemma_skip_region_not_passing, schedule_pass,
    schedule_verdict, BandScheduleTraverseDecorator, ITraverseDecorator,
    MemberConflictTraverseDecorator, TreeTraverser,
};
use super::definition::RoomMatrix;
use super::lex_order::{
    advances_at, asc_range, clamp, desc_range, enters_next_part, is_perm, lemma_advances_lex,
    lemma_asc_not_later, lemma_between_shares_prefix, lemma_enters_lex, lemma_lex_asym,
    lemma_lex_lt_trans, lemma_lex_trichotomy, lemma_no_next_part_last, lemma_remaining_decreases,
    lemma_remaining_nonneg, lemma_skip_not_earlier, lex_lt, remaining, window_exhausted,
};
use super::live_info::LiveInfo;
use super::traverse::TraverseOperation;
use super::partial_permutation::PartialPermutation;
use super::traverser::{PermutationTraverser, SubTree};
use super::util::{fact, factional};
use crate::{BandId, BlockId};

verus! {

/// Totals the callback learns when a run starts.
pub struct SchedulerInfo {
    /// Nominal search-space size: the factorial of the block count.
    pub count: usize,
}

/// Identity of one unit of parallel work.
#[derive(Hash, PartialEq, Eq, Structural, Clone, Copy, Debug)]
pub struct TaskId(pub u64);

impl TaskId {
    pub fn new(value: u64) -> (r: Self)
        ensures
            r.0 == value,
    {
        TaskId(value)
    }
}

/// Per-task progress payload.
pub struct TaskInfo {}

/// Why a run refused to search.
#[derive(Clone, Copy, Debug, PartialEq, Eq, Structural)]
pub enum SchedulerError {
    /// Fewer blocks than bands: nothing can be assigned.
    InsufficientCapacity,
}

/// One event of a run, as the callback sees it.
pub enum SchedulerEvent {
    /// The enumeration begins; `count` is the nominal search-space size.
    Started { count: nat },
    /// A task reported progress.
    Progress,
    /// A valid assignment was found.
    Assigned { table: Seq<(BlockId, BandId)> },
    /// The run is over.
    Completed,
}

/// The assignment satisfies both hard constraints: every band sits in a
/// block whose span its availability admits, and no two bands of one
/// span share a musician (their masks are pairwise disjoint — see
/// `lemma_no_overlap_popcount` for the counting consequence).  Every
/// block hosts at most one band.
pub open spec fn table_valid(t: Seq<(BlockId, BandId)>, m: RoomMatrix, live: LiveInfo) -> bool {
    &&& forall|i: int|
        0 <= i < t.len() ==> ((#[trigger] t[i]).0.0 as int) < m.num_blocks() && ((t[i]).1.0 as int)
            < live.band_count()
    &&& forall|i: int|
        0 <= i < t.len() ==> live.band_avail(
            (#[trigger] t[i]).1.0 as int,
            m.block_span(t[i].0.0 as int),
        )
    &&& forall|i: int, j: int|
        0 <= i < j < t.len() && m.block_span((#[trigger] t[i]).0.0 as int) == m.block_span(
            (#[trigger] t[j]).0.0 as int,
        ) ==> live.band_hash_spec(t[i].1.0 as int) & live.band_hash_spec(t[j].1.0 as int) == 0
    &&& forall|i: int, j: int| 0 <= i < j < t.len() ==> (#[trigger] t[i]).0 != (#[trigger] t[j]).0
}

/// The events one full run appends: `Started` with the nominal count,
/// then only valid assignments, then a single final `Completed`.
pub open spec fn run_events(
    h: Seq<SchedulerEvent>,
    count: nat,
    m: RoomMatrix,
    live: LiveInfo,
) -> bool {
    &&& h.len() >= 2
    &&& h[0] == (SchedulerEvent::Started { count })
    &&& h.last() == (SchedulerEvent::Completed {})
    &&& forall|i: int|
        0 < i < h.len() - 1 ==> (#[trigger] h[i]) is Assigned && table_valid(
            h[i]->Assigned_table,
            m,
            live,
        ) && table_of_passing(h[i]->Assigned_table, m, live)
}

/// Both rules wave the permutation through: it will be delivered.
pub open spec fn passing(q: Seq<usize>, m: RoomMatrix, live: LiveInfo) -> bool {
    &&& schedule_verdict(q, m, live) == TraverseOperation::Next
    &&& conflict_verdict(q, m, live) == TraverseOperation::Next
}

/// Neither rule ever answers `Pruning` on this instance.  Where one
/// does, the drivers stop a sub-tree early (as spec'd), which may cut
/// later valid permutations: completeness below is promised only here.
pub open spec fn prune_free(m: RoomMatrix, live: LiveInfo) -> bool {
    forall|q: Seq<usize>|
        is_perm(q) && q.len() == m.num_blocks() ==> #[trigger] schedule_verdict(q, m, live)
            != TraverseOperation::Pruning && conflict_verdict(q, m, live)
            != TraverseOperation::Pruning
}

/// `t` is the assignment of some permutation both rules wave through.
pub open spec fn table_of_passing(t: Seq<(BlockId, BandId)>, m: RoomMatrix, live: LiveInfo) -> bool {
    exists|q: Seq<usize>|
        is_perm(q) && q.len() == m.num_blocks() && #[trigger] convert_spec(
            q,
            live,
            m.num_blocks(),
        ) == t && passing(q, m, live)
}

/// Every passing permutation's assignment stands in `ts`: nothing valid
/// was dropped.
pub open spec fn tables_complete(
    ts: Seq<Seq<(BlockId, BandId)>>,
    m: RoomMatrix,
    live: LiveInfo,
) -> bool {
    forall|q: Seq<usize>|
        is_perm(q) && q.len() == m.num_blocks() && #[trigger] passing(q, m, live) ==> ts.contains(
            convert_spec(q, live, m.num_blocks()),
        )
}

/// No assignment is delivered twice.
pub open spec fn tables_distinct(ts: Seq<Seq<(BlockId, BandId)>>) -> bool {
    forall|i: int, j: int| 0 <= i < j < ts.len() ==> #[trigger] ts[i] != #[trigger] ts[j]
}

/// The conversions of a row of permutations, in order.
pub open spec fn converted_all(
    rs: Seq<Seq<usize>>,
    live: LiveInfo,
    nb: int,
) -> Seq<Seq<(BlockId, BandId)>> {
    rs.map_values(|q: Seq<usize>| convert_spec(q, live, nb))
}

/// Observer of a scheduler run.  `history` is the trace of calls it has
/// received so far; each method appends its event.
pub trait IScheduleCallback {
    /// The trace of calls received so far.  A verified observer must
    /// override this with its real trace — with the default (constantly
    /// empty) history no implementation can satisfy the method contracts
    /// below.  The default exists only so that unverified observers
    /// outside the proofs can implement the trait without a trace.
    open spec fn history(&self) -> Seq<SchedulerEvent> {
        Seq::empty()
    }

    fn on_started(&mut self, scheduler_info: &SchedulerInfo)
        ensures
            final(self).history() == old(self).history().push(
                SchedulerEvent::Started { count: scheduler_info.count as nat },
            ),
    ;

    fn on_progress(&mut self, task_id: TaskId, task_info: &TaskInfo)
        ensures
            final(self).history() == old(self).history().push(SchedulerEvent::Progress {}),
    ;

    fn on_assigned(
        &mut self,
        table: &Vec<(BlockId, BandId)>,
        room_matrix: &RoomMatrix,
        live_info: &LiveInfo,
    )
        requires
            table_valid(table@, *room_matrix, *live_info),
        ensures
            final(self).history() == old(self).history().push(
                SchedulerEvent::Assigned { table: table@ },
            ),
    ;

    fn on_completed(&mut self)
        ensures
            final(self).history() == old(self).history().push(SchedulerEvent::Completed {}),
    ;
}

/// The assignment a permutation stands for, scanned from block `k`:
/// block `k` gets the band at position `k`, empty slots are omitted.
pub open spec fn convert_from(perm: Seq<usize>, live: LiveInfo, k: int, nb: int) -> Seq<
    (BlockId, BandId),
>
    decreases nb - k,
{
    if k < 0 || k >= nb {
        Seq::empty()
    } else if perm[k] as int >= live.band_count() {
        convert_from(perm, live, k + 1, nb)
    } else {
        seq![(BlockId(k as usize), BandId(perm[k]))] + convert_from(perm, live, k + 1, nb)
    }
}

/// The assignment a permutation stands for.
pub open spec fn convert_spec(perm: Seq<usize>, live: LiveInfo, nb: int) -> Seq<
    (BlockId, BandId),
> {
    convert_from(perm, live, 0, nb)
}

/// Each converted entry remembers its block position, the entries keep
/// the block order, and every entry names a real band.
proof fn lemma_convert_from_props(perm: Seq<usize>, live: LiveInfo, k: int, nb: int)
    requires
        0 <= k,
        nb <= perm.len(),
        nb <= usize::MAX,
    ensures
        forall|i: int|
            0 <= i < convert_from(perm, live, k, nb).len() ==> {
                let e = #[trigger] convert_from(perm, live, k, nb)[i];
                &&& k <= (e.0.0 as int) < nb
                &&& (e.1.0 as int) == perm[e.0.0 as int] as int
                &&& (perm[e.0.0 as int] as int) < live.band_count()
            },
        forall|i: int, j: int|
            0 <= i < j < convert_from(perm, live, k, nb).len() ==> (#[trigger] convert_from(
                perm,
                live,
                k,
                nb,
            )[i]).0.0 < (#[trigger] convert_from(perm, live, k, nb)[j]).0.0,
    decreases nb - k,
{
    if k < nb {
        lemma_convert_from_props(perm, live, k + 1, nb);
        let rest = convert_from(perm, live, k + 1, nb);
        if perm[k] as int >= live.band_count() {
        } else {
            let whole = convert_from(perm, live, k, nb);
            assert(whole =~= seq![(BlockId(k as usize), BandId(perm[k]))] + rest);
            assert forall|i: int| 0 <= i < whole.len() implies {
                let e = #[trigger] whole[i];
                &&& k <= (e.0.0 as int) < nb
                &&& (e.1.0 as int) == perm[e.0.0 as int] as int
                &&& (perm[e.0.0 as int] as int) < live.band_count()
            } by {
                if i > 0 {
                    assert(whole[i] == rest[i - 1]);
                }
            }
            assert forall|i: int, j: int| 0 <= i < j < whole.len() implies (#[trigger] whole[i]).0.0
                < (#[trigger] whole[j]).0.0 by {
                assert(whole[j] == rest[j - 1]);
                if i > 0 {
                    assert(whole[i] == rest[i - 1]);
                }
            }
        }
    }
}

/// A permutation both rules wave through converts to a valid assignment.
pub proof fn lemma_convert_valid(perm: Seq<usize>, m: RoomMatrix, live: LiveInfo)
    requires
        m.wf(),
        live.wf(),
        m.num_blocks() <= perm.len(),
        m.num_blocks() <= usize::MAX,
        schedule_verdict(perm, m, live) == TraverseOperation::Next,
        conflict_verdict(perm, m, live) == TraverseOperation::Next,
    ensures
        table_valid(convert_spec(perm, live, m.num_blocks()), m, live),
{
    let nb = m.num_blocks();
    let t = convert_spec(perm, live, nb);
    lemma_convert_from_props(perm, live, 0, nb);
    lemma_schedule_next(perm, m, live, 0);
    lemma_conflict_next(perm, m, live);
    assert forall|i: int| 0 <= i < t.len() implies live.band_avail(
        (#[trigger] t[i]).1.0 as int,
        m.block_span(t[i].0.0 as int),
    ) by {
        let kb = t[i].0.0 as int;
        assert(schedule_pass(perm, m, live, kb));
        assert(!empty_slot(live, perm, kb));
    }
    assert forall|i: int, j: int|
        0 <= i < j < t.len() && m.block_span((#[trigger] t[i]).0.0 as int) == m.block_span(
            (#[trigger] t[j]).0.0 as int,
        ) implies live.band_hash_spec(t[i].1.0 as int) & live.band_hash_spec(t[j].1.0 as int)
        == 0 by {
        let ki = t[i].0.0 as int;
        let kj = t[j].0.0 as int;
        assert(ki < kj);
        assert(!empty_slot(live, perm, ki) && !empty_slot(live, perm, kj));
    }
}

/// With as many bands as blocks a permutation fills every block: the
/// conversion lists block `k` with band `perm[k]`, in order.
proof fn lemma_convert_full(perm: Seq<usize>, live: LiveInfo, k: int, nb: int)
    requires
        0 <= k,
        nb <= perm.len(),
        nb <= usize::MAX,
        forall|t: int| 0 <= t < perm.len() ==> (#[trigger] perm[t] as int) < live.band_count(),
    ensures
        convert_from(perm, live, k, nb).len() == (if k < nb {
            nb - k
        } else {
            0int
        }),
        forall|i: int|
            0 <= i < convert_from(perm, live, k, nb).len() ==> (#[trigger] convert_from(
                perm,
                live,
                k,
                nb,
            )[i]) == (BlockId((k + i) as usize), BandId(perm[k + i])),
    decreases nb - k,
{
    if k < nb {
        lemma_convert_full(perm, live, k + 1, nb);
        let rest = convert_from(perm, live, k + 1, nb);
        let whole = convert_from(perm, live, k, nb);
        assert(whole =~= seq![(BlockId(k as usize), BandId(perm[k]))] + rest);
        assert forall|i: int| 0 <= i < whole.len() implies (#[trigger] whole[i]) == (
            BlockId((k + i) as usize),
            BandId(perm[k + i]),
        ) by {
            if i > 0 {
                assert(whole[i] == rest[i - 1]);
            }
        }
    }
}

/// With as many bands as blocks, distinct permutations yield distinct
/// assignments: the conversion can be read back.
pub proof fn lemma_convert_injective(p: Seq<usize>, q: Seq<usize>, live: LiveInfo, nb: int)
    requires
        is_perm(p),
        is_perm(q),
        p.len() == nb,
        q.len() == nb,
        nb <= usize::MAX,
        nb == live.band_count(),
        convert_spec(p, live, nb) == convert_spec(q, live, nb),
    ensures
        p == q,
{
    lemma_convert_full(p, live, 0, nb);
    lemma_convert_full(q, live, 0, nb);
    assert forall|i: int| 0 <= i < nb implies p[i] == q[i] by {
        assert(convert_spec(p, live, nb)[i] == (BlockId(i as usize), BandId(p[i])));
        assert(convert_spec(q, live, nb)[i] == (BlockId(i as usize), BandId(q[i])));
    }
    assert(p =~= q);
}

/// Lay the bands over the blocks: block `k` hosts the band at position
/// `k` of the permutation; positions past the band count are spare
/// capacity and are omitted.
pub fn convert(indicies: &[usize], room_matrix: &RoomMatrix, live_info: &LiveInfo) -> (t: Vec<
    (BlockId, BandId),
>)
    requires
        indicies@.len() >= room_matrix.num_blocks(),
    ensures
        t@ == convert_spec(indicies@, *live_info, room_matrix.num_blocks()),
{
    let nb = room_matrix.blocks.len();
    let band_count = live_info.band_ids.len();
    let mut t: Vec<(BlockId, BandId)> = Vec::new();
    let mut k: usize = 0;
    while k < nb
        invariant
            k <= nb,
            nb as int == room_matrix.num_blocks(),
            band_count as int == live_info.band_count(),
            indicies@.len() >= nb as int,
            convert_spec(indicies@, *live_info, nb as int) == t@ + convert_from(
                indicies@,
                *live_info,
                k as int,
                nb as int,
            ),
        decreases nb - k,
    {
        let idx = indicies[k];
        if idx < band_count {
            t.push((BlockId(k), BandId(idx)));
            proof {
                assert(convert_from(indicies@, *live_info, k as int, nb as int) == seq![
                    (BlockId(k as usize), BandId(indicies@[k as int]))
                ] + convert_from(indicies@, *live_info, k as int + 1, nb as int));
                assert(t@ + convert_from(indicies@, *live_info, k as int + 1, nb as int) =~= t@
                    .drop_last() + convert_from(indicies@, *live_info, k as int, nb as int));
            }
        }
        k = k + 1;
    }
    proof {
        assert(convert_spec(indicies@, *live_info, nb as int) =~= t@);
    }
    t
}

/// The standard pruning chain: member conflicts over availability.
pub type StandardDecoratorChain = MemberConflictTraverseDecorator<
    BandScheduleTraverseDecorator<TreeTraverser>,
>;

/// The standard chain answers `Next` exactly when both rules do.
pub proof fn lemma_standard_chain_verdict(
    d: StandardDecoratorChain,
    perm: Seq<usize>,
    m: RoomMatrix,
    live: LiveInfo,
)
    ensures
        d.verdict(perm, m, live) == TraverseOperation::Next <==> (schedule_verdict(perm, m, live)
            == TraverseOperation::Next && conflict_verdict(perm, m, live)
            == TraverseOperation::Next),
{
}

/// The enumeration driver: a pruning chain and the callback the results
/// stream to.
pub struct SchedulerImpl<TDecorator: ITraverseDecorator + Clone, TCallback: IScheduleCallback> {
    /// The pruning chain.
    pub decorator: TDecorator,
    /// Receiver of the run's events.
    pub callback: TCallback,
}

impl<TDecorator: ITraverseDecorator + Clone, TCallback: IScheduleCallback> SchedulerImpl<
    TDecorator,
    TCallback,
> {
    /// A driver over the given chain and callback.
    pub fn new(decorator: TDecorator, callback: TCallback) -> (r: Self)
        ensures
            r.decorator == decorator,
            r.callback == callback,
    {
        SchedulerImpl { decorator, callback }
    }
}

/// The permutations a collection of states holds.
pub open spec fn perm_views(rs: Seq<PartialPermutation>) -> Seq<Seq<usize>> {
    rs.map_values(|p: PartialPermutation| p@)
}

/// `cursor` is the immediate successor of `entry` inside the window:
/// nothing with the same fixed prefix lies between (the shape of
/// `SubTree::next`'s contract).
#[verifier::opaque]
pub open spec fn window_successor(entry: Seq<usize>, cursor: Seq<usize>, start: int) -> bool {
    forall|q: Seq<usize>|
        #![trigger lex_lt(entry, q)]
        is_perm(q) && q.len() == entry.len() && q.subrange(0, start) == entry.subrange(0, start)
            && lex_lt(entry, q) ==> q == cursor || lex_lt(cursor, q)
}

/// Every passing permutation of the sub-tree up to `bound` (inclusive
/// when `include_bound`) stands in `vs`.
#[verifier::opaque]
pub open spec fn covers(
    vs: Seq<Seq<usize>>,
    bound: Seq<usize>,
    include_bound: bool,
    root: Seq<usize>,
    start: int,
    n: int,
    m: RoomMatrix,
    live: LiveInfo,
) -> bool {
    forall|q: Seq<usize>|
        is_perm(q) && q.len() == n && q.subrange(0, start) == root.subrange(0, start)
            && #[trigger] passing(q, m, live) && (lex_lt(q, bound) || (include_bound && q
            == bound)) ==> vs.contains(q)
}

/// Nothing of the sub-tree precedes its ascending root.
proof fn lemma_root_covers(root: Seq<usize>, start: int, n: int, m: RoomMatrix, live: LiveInfo)
    requires
        is_perm(root),
        root.len() == n,
        0 <= start <= n,
        asc_range(root, start, n),
    ensures
        covers(Seq::empty(), root, false, root, start, n, m, live),
{
    reveal(covers);
    assert forall|q: Seq<usize>|
        is_perm(q) && q.len() == n && q.subrange(0, start) == root.subrange(0, start)
            && #[trigger] passing(q, m, live) && (lex_lt(q, root) || (false && q
            == root)) implies Seq::<Seq<usize>>::empty().contains(q) by {
        lemma_asc_not_later(q, root, start);
        if q == root {
            lemma_lex_asym(root, root);
        } else {
            lemma_lex_asym(root, q);
        }
    }
}

/// Emitting the cursor extends the coverage to include it.
proof fn lemma_emit_covers(
    vs: Seq<Seq<usize>>,
    entry: Seq<usize>,
    cursor: Seq<usize>,
    root: Seq<usize>,
    start: int,
    n: int,
    m: RoomMatrix,
    live: LiveInfo,
    entry_fresh: bool,
)
    requires
        is_perm(entry),
        is_perm(cursor),
        entry.len() == n,
        cursor.len() == n,
        0 <= start <= n,
        entry.subrange(0, start) == root.subrange(0, start),
        entry_fresh ==> cursor == entry && vs.len() == 0 && entry == root && is_perm(root)
            && root.len() == n && asc_range(root, start, n),
        !entry_fresh ==> lex_lt(entry, cursor) && window_successor(entry, cursor, start),
        covers(vs, entry, !entry_fresh, root, start, n, m, live),
    ensures
        covers(vs.push(cursor), cursor, true, root, start, n, m, live),
{
    reveal(covers);
    reveal(window_successor);
    assert forall|q: Seq<usize>|
        is_perm(q) && q.len() == n && q.subrange(0, start) == root.subrange(0, start)
            && #[trigger] passing(q, m, live) && (lex_lt(q, cursor) || q == cursor) implies vs.push(
        cursor,
    ).contains(q) by {
        if q == cursor {
            assert(vs.push(cursor)[vs.len() as int] == q);
        } else {
            assert(lex_lt(q, cursor));
            if entry_fresh {
                lemma_asc_not_later(q, root, start);
                if q == root {
                    lemma_lex_asym(root, root);
                } else {
                    lemma_lex_asym(root, q);
                }
                assert(false);
            } else {
                assert(q.subrange(0, start) == entry.subrange(0, start));
                if lex_lt(entry, q) {
                    assert(q == cursor || lex_lt(cursor, q));
                    lemma_lex_asym(q, cursor);
                    assert(false);
                } else if q == entry {
                    assert(vs.contains(q));
                    let i = choose|i: int| 0 <= i < vs.len() && vs[i] == q;
                    assert(vs.push(cursor)[i] == q);
                } else {
                    lemma_lex_trichotomy(entry, q);
                    assert(lex_lt(q, entry));
                    assert(vs.contains(q));
                    let i = choose|i: int| 0 <= i < vs.len() && vs[i] == q;
                    assert(vs.push(cursor)[i] == q);
                }
            }
        }
    }
}

/// A skipped region holds no passing permutation: the coverage carries
/// over the jump.
proof fn lemma_skip_covers(
    vs: Seq<Seq<usize>>,
    cursor: Seq<usize>,
    skipped: Seq<usize>,
    root: Seq<usize>,
    start: int,
    n: int,
    m: RoomMatrix,
    live: LiveInfo,
    iu: usize,
)
    requires
        is_perm(cursor),
        is_perm(skipped),
        cursor.len() == n,
        skipped.len() == n,
        0 <= start <= n,
        m.num_blocks() <= usize::MAX,
        iu as int <= n,
        cursor.subrange(0, iu as int) == skipped.subrange(0, iu as int),
        cursor == skipped || lex_lt(cursor, skipped),
        schedule_verdict(cursor, m, live) == TraverseOperation::Skip(iu) || (schedule_verdict(
            cursor,
            m,
            live,
        ) == TraverseOperation::Next && conflict_verdict(cursor, m, live)
            == TraverseOperation::Skip(iu)),
        covers(vs, cursor, true, root, start, n, m, live),
    ensures
        covers(vs, skipped, true, root, start, n, m, live),
{
    reveal(covers);
    assert forall|q: Seq<usize>|
        is_perm(q) && q.len() == n && q.subrange(0, start) == root.subrange(0, start)
            && #[trigger] passing(q, m, live) && (lex_lt(q, skipped) || q == skipped) implies
        vs.contains(q) by {
        if q == cursor || lex_lt(q, cursor) {
            assert(vs.contains(q));
        } else {
            // q lies in the region the skip closed and cannot pass
            lemma_lex_trichotomy(q, cursor);
            assert(lex_lt(cursor, q));
            lemma_between_shares_prefix(cursor, skipped, q, iu as int);
            assert forall|t: int| 0 <= t < iu implies cursor[t] == q[t] by {
                assert(cursor.subrange(0, iu as int)[t] == cursor[t]);
                assert(q.subrange(0, iu as int)[t] == q[t]);
            }
            lemma_skip_region_not_passing(cursor, q, m, live, iu);
            assert(false);
        }
    }
}

/// One `Skip` step keeps the coverage: the cursor the chain refused and
/// the whole region the skip closed hold nothing that passes.
proof fn lemma_skip_step_covers(
    vs: Seq<Seq<usize>>,
    entry: Seq<usize>,
    cursor: Seq<usize>,
    skipped: Seq<usize>,
    root: Seq<usize>,
    start: int,
    n: int,
    m: RoomMatrix,
    live: LiveInfo,
    entry_fresh: bool,
    iu: usize,
)
    requires
        is_perm(entry),
        is_perm(cursor),
        is_perm(skipped),
        entry.len() == n,
        cursor.len() == n,
        skipped.len() == n,
        0 <= start <= n,
        m.num_blocks() == n,
        m.num_blocks() <= usize::MAX,
        entry.subrange(0, start) == root.subrange(0, start),
        entry_fresh ==> cursor == entry && vs.len() == 0 && entry == root && is_perm(root)
            && root.len() == n && asc_range(root, start, n),
        !entry_fresh ==> lex_lt(entry, cursor) && window_successor(entry, cursor, start),
        covers(vs, entry, !entry_fresh, root, start, n, m, live),
        schedule_verdict(cursor, m, live) == TraverseOperation::Skip(iu) || (schedule_verdict(
            cursor,
            m,
            live,
        ) == TraverseOperation::Next && conflict_verdict(cursor, m, live)
            == TraverseOperation::Skip(iu)),
        cursor.subrange(0, clamp(iu as int, n)) == skipped.subrange(0, clamp(iu as int, n)),
        cursor == skipped || lex_lt(cursor, skipped),
    ensures
        covers(vs, skipped, true, root, start, n, m, live),
{
    reveal(covers);
    lemma_emit_covers(vs, entry, cursor, root, start, n, m, live, entry_fresh);
    // the chain's skip index stays inside the row
    assert(iu as int <= n) by {
        if schedule_verdict(cursor, m, live) == TraverseOperation::Skip(iu) {
            lemma_schedule_skip_fails(cursor, m, live, 0, iu);
        } else {
            lemma_conflict_skip_agrees(cursor, cursor, m, live, 0, 0u64, iu);
        }
    }
    assert(clamp(iu as int, n) == iu as int);
    // the refused cursor adds nothing: strip it from the coverage
    assert(covers(vs, cursor, true, root, start, n, m, live)) by {
        assert forall|q: Seq<usize>|
            is_perm(q) && q.len() == n && q.subrange(0, start) == root.subrange(0, start)
                && #[trigger] passing(q, m, live) && (lex_lt(q, cursor) || q == cursor) implies
            vs.contains(q) by {
            assert(vs.push(cursor).contains(q));
            let w = choose|w: int|
                0 <= w < vs.push(cursor).len() && vs.push(cursor)[w] == q;
            if w < vs.len() {
                assert(vs[w] == q);
            } else {
                assert(q == cursor);
                assert(!passing(cursor, m, live));
            }
        }
    }
    lemma_skip_covers(vs, cursor, skipped, root, start, n, m, live, iu);
}

/// A skip landing inside the fixed prefix kills the whole sub-tree: the
/// window is left descending and the coverage is already total.
proof fn lemma_dead_skip_covers(
    vs: Seq<Seq<usize>>,
    cursor: Seq<usize>,
    skipped: Seq<usize>,
    root: Seq<usize>,
    start: int,
    n: int,
    m: RoomMatrix,
    live: LiveInfo,
    iu: usize,
)
    requires
        is_perm(cursor),
        is_perm(skipped),
        cursor.len() == n,
        skipped.len() == n,
        root.len() == n,
        0 <= iu as int <= start <= n,
        cursor.subrange(0, start) == root.subrange(0, start),
        cursor.subrange(0, iu as int) == skipped.subrange(0, iu as int),
        desc_range(skipped, iu as int, n),
        covers(vs, skipped, true, root, start, n, m, live),
    ensures
        window_exhausted(skipped, start),
        forall|q: Seq<usize>|
            is_perm(q) && q.len() == n && q.subrange(0, start) == root.subrange(0, start)
                && #[trigger] passing(q, m, live) ==> vs.contains(q),
{
    reveal(covers);
    assert forall|q: Seq<usize>|
        is_perm(q) && q.len() == n && q.subrange(0, start) == root.subrange(0, start)
            && #[trigger] passing(q, m, live) implies vs.contains(q) by {
        assert forall|t: int| 0 <= t < iu implies q[t] == skipped[t] by {
            assert(q.subrange(0, start)[t] == q[t]);
            assert(root.subrange(0, start)[t] == root[t]);
            assert(cursor.subrange(0, start)[t] == cursor[t]);
            assert(cursor.subrange(0, iu as int)[t] == cursor[t]);
            assert(skipped.subrange(0, iu as int)[t] == skipped[t]);
        }
        assert(q.subrange(0, iu as int) =~= skipped.subrange(0, iu as int));
        lemma_skip_not_earlier(q, skipped, iu as int);
    }
}

/// At a descending cursor the whole sub-tree is covered.
proof fn lemma_exhausted_covers(
    vs: Seq<Seq<usize>>,
    cursor: Seq<usize>,
    root: Seq<usize>,
    start: int,
    n: int,
    m: RoomMatrix,
    live: LiveInfo,
)
    requires
        is_perm(cursor),
        cursor.len() == n,
        0 <= start <= n,
        cursor.subrange(0, start) == root.subrange(0, start),
        window_exhausted(cursor, start),
        covers(vs, cursor, true, root, start, n, m, live),
    ensures
        forall|q: Seq<usize>|
            is_perm(q) && q.len() == n && q.subrange(0, start) == root.subrange(0, start)
                && #[trigger] passing(q, m, live) ==> vs.contains(q),
{
    reveal(covers);
    assert forall|q: Seq<usize>|
        is_perm(q) && q.len() == n && q.subrange(0, start) == root.subrange(0, start)
            && #[trigger] passing(q, m, live) implies vs.contains(q) by {
        assert(q.subrange(0, start) == cursor.subrange(0, start));
        lemma_skip_not_earlier(q, cursor, start);
    }
}

/// Appending the cursor keeps the collection strictly ordered.
proof fn lemma_emit_order(
    pre: Seq<PartialPermutation>,
    post: Seq<PartialPermutation>,
    entry: Seq<usize>,
    cursor: Seq<usize>,
    entry_fresh: bool,
)
    requires
        post.len() == pre.len() + 1,
        cursor.len() == entry.len(),
        forall|i: int| 0 <= i < pre.len() ==> (#[trigger] pre[i])@.len() == entry.len(),
        forall|i: int| 0 <= i < pre.len() ==> post[i] == pre[i],
        post[pre.len() as int]@ == cursor,
        forall|i: int, j: int| 0 <= i < j < pre.len() ==> lex_lt((#[trigger] pre[i])@, (#[trigger] pre[j])@),
        forall|i: int| 0 <= i < pre.len() ==> (#[trigger] pre[i])@ == entry || lex_lt(pre[i]@, entry),
        entry_fresh ==> pre.len() == 0,
        !entry_fresh ==> lex_lt(entry, cursor),
    ensures
        forall|i: int, j: int|
            0 <= i < j < post.len() ==> lex_lt((#[trigger] post[i])@, (#[trigger] post[j])@),
        forall|i: int| 0 <= i < post.len() ==> (#[trigger] post[i])@ == cursor || lex_lt(post[i]@, cursor),
{
    assert forall|i: int, j: int| 0 <= i < j < post.len() implies lex_lt(
        (#[trigger] post[i])@,
        (#[trigger] post[j])@,
    ) by {
        if j == post.len() - 1 {
            assert(post[i] == pre[i]);
            if pre[i]@ == entry {
            } else {
                lemma_lex_lt_trans(pre[i]@, entry, cursor);
            }
        } else {
            assert(post[i] == pre[i]);
            assert(post[j] == pre[j]);
        }
    }
    assert forall|i: int| 0 <= i < post.len() implies (#[trigger] post[i])@ == cursor || lex_lt(
        post[i]@,
        cursor,
    ) by {
        if i < pre.len() {
            assert(post[i] == pre[i]);
            if pre[i]@ == entry {
            } else {
                lemma_lex_lt_trans(pre[i]@, entry, cursor);
            }
        }
    }
}

/// Enumerate one freshly allocated sub-tree under the standard pruning
/// chain, honouring `Skip` and `Pruning`, and collect every permutation
/// the chain waves through, in lexicographic order.  On a `prune_free`
/// instance nothing valid is dropped: the collection holds exactly the
/// passing permutations of the sub-tree.
#[verifier::rlimit(100)]
pub fn run_sub_tree(
    sub_tree: &mut SubTree,
    decorator: &StandardDecoratorChain,
    room_matrix: &RoomMatrix,
    live_info: &LiveInfo,
) -> (r: Vec<PartialPermutation>)
    requires
        old(sub_tree).wf(),
        old(sub_tree).fresh(),
        asc_range(old(sub_tree)@, old(sub_tree).start_spec(), old(sub_tree)@.len() as int),
        old(sub_tree)@.len() == room_matrix.num_blocks(),
        room_matrix.wf(),
        live_info.wf(),
        live_info.matches_matrix(room_matrix),
    ensures
        final(sub_tree).wf(),
        final(sub_tree)@.len() == old(sub_tree)@.len(),
        final(sub_tree).start_spec() == old(sub_tree).start_spec(),
        forall|i: int|
            0 <= i < r@.len() ==> {
                let p = #[trigger] r@[i];
                &&& p.wf()
                &&& p@.len() == old(sub_tree)@.len()
                &&& passing(p@, *room_matrix, *live_info)
                &&& p@.subrange(0, old(sub_tree).start_spec()) == old(sub_tree)@.subrange(
                    0,
                    old(sub_tree).start_spec(),
                )
            },
        forall|i: int, j: int|
            0 <= i < j < r@.len() ==> lex_lt((#[trigger] r@[i])@, (#[trigger] r@[j])@),
        prune_free(*room_matrix, *live_info) ==> covers(
            perm_views(r@),
            final(sub_tree)@,
            true,
            old(sub_tree)@,
            old(sub_tree).start_spec(),
            old(sub_tree)@.len() as int,
            *room_matrix,
            *live_info,
        ) && window_exhausted(final(sub_tree)@, old(sub_tree).start_spec()),
        prune_free(*room_matrix, *live_info) ==> forall|q: Seq<usize>|
            is_perm(q) && q.len() == old(sub_tree)@.len() && q.subrange(
                0,
                old(sub_tree).start_spec(),
            ) == old(sub_tree)@.subrange(0, old(sub_tree).start_spec()) && #[trigger] passing(
                q,
                *room_matrix,
                *live_info,
            ) ==> perm_views(r@).contains(q),
{
    let nb = room_matrix.blocks.len();
    let mut results: Vec<PartialPermutation> = Vec::new();
    let ghost n = old(sub_tree)@.len() as int;
    let ghost start = old(sub_tree).start_spec();
    let ghost root = old(sub_tree)@;
    proof {
        lemma_root_covers(root, start, n, *room_matrix, *live_info);
        assert(perm_views(results@) =~= Seq::<Seq<usize>>::empty());
    }
    loop
        invariant
            n == old(sub_tree)@.len(),
            start == old(sub_tree).start_spec(),
            root == old(sub_tree)@,
            is_perm(root),
            nb as int == room_matrix.num_blocks(),
            n == nb as int,
            asc_range(root, start, n),
            sub_tree.wf(),
            sub_tree@.len() == n,
            sub_tree.start_spec() == start,
            sub_tree@.subrange(0, start) == root.subrange(0, start) || (window_exhausted(
                sub_tree@,
                start,
            ) && forall|q: Seq<usize>|
                is_perm(q) && q.len() == n && q.subrange(0, start) == root.subrange(0, start)
                    && #[trigger] passing(q, *room_matrix, *live_info) ==> perm_views(
                    results@,
                ).contains(q)),
            sub_tree.fresh() ==> sub_tree@ == root && results@.len() == 0,
            room_matrix.wf(),
            live_info.wf(),
            live_info.matches_matrix(room_matrix),
            forall|i: int|
                0 <= i < results@.len() ==> {
                    let p = #[trigger] results@[i];
                    &&& p.wf()
                    &&& p@.len() == n
                    &&& passing(p@, *room_matrix, *live_info)
                    &&& p@.subrange(0, start) == root.subrange(0, start)
                },
            forall|i: int, j: int|
                0 <= i < j < results@.len() ==> lex_lt(
                    (#[trigger] results@[i])@,
                    (#[trigger] results@[j])@,
                ),
            forall|i: int|
                0 <= i < results@.len() ==> (#[trigger] results@[i])@ == sub_tree@ || lex_lt(
                    results@[i]@,
                    sub_tree@,
                ),
            covers(
                perm_views(results@),
                sub_tree@,
                !sub_tree.fresh(),
                root,
                start,
                n,
                *room_matrix,
                *live_info,
            ),
        decreases 2 * remaining(sub_tree@) + (if sub_tree.fresh() {
            1int
        } else {
            0int
        }),
    {
        let ghost entry = sub_tree@;
        let ghost entry_fresh = sub_tree.fresh();
        let ghost pre_results = results@;
        proof {
            lemma_remaining_nonneg(entry);
        }
        match sub_tree.next() {
            None => {
                proof {
                    if sub_tree@.subrange(0, start) == root.subrange(0, start) {
                        lemma_exhausted_covers(
                            perm_views(results@),
                            sub_tree@,
                            root,
                            start,
                            n,
                            *room_matrix,
                            *live_info,
                        );
                    }
                }
                return results;
            },
            Some(pp) => {
                proof {
                    assert(entry.subrange(0, start) == root.subrange(0, start)) by {
                        if entry_fresh {
                            assert(entry =~= root);
                        }
                    }
                    if !entry_fresh {
                        let pv = choose|pv: int|
                            start <= pv && #[trigger] advances_at(entry, sub_tree@, pv);
                        lemma_advances_lex(entry, sub_tree@, pv);
                        lemma_remaining_decreases(entry, sub_tree@);
                        assert(window_successor(entry, sub_tree@, start)) by {
                            reveal(window_successor);
                        }
                    }
                    assert(sub_tree@.subrange(0, start) == entry.subrange(0, start)) by {
                        if !entry_fresh {
                            let pv = choose|pv: int|
                                start <= pv && #[trigger] advances_at(entry, sub_tree@, pv);
                            assert forall|t: int| 0 <= t < start implies sub_tree@[t] == entry[t] by {
                                assert(sub_tree@.subrange(0, pv)[t] == sub_tree@[t]);
                                assert(entry.subrange(0, pv)[t] == entry[t]);
                            }
                            assert(sub_tree@.subrange(0, start) =~= entry.subrange(0, start));
                        }
                    }
                }
                let op = decorator.invoke_with_room_matrix(pp.current(), room_matrix, live_info);
                let ghost cursor = sub_tree@;
                match op {
                    TraverseOperation::Next => {
                        proof {
                            lemma_standard_chain_verdict(
                                *decorator,
                                cursor,
                                *room_matrix,
                                *live_info,
                            );
                            lemma_emit_covers(
                                perm_views(pre_results),
                                entry,
                                cursor,
                                root,
                                start,
                                n,
                                *room_matrix,
                                *live_info,
                                entry_fresh,
                            );
                        }
                        results.push(pp);
                        proof {
                            assert(perm_views(results@) =~= perm_views(pre_results).push(cursor));
                            lemma_emit_order(pre_results, results@, entry, cursor, entry_fresh);
                        }
                    },
                    TraverseOperation::Pruning => {
                        proof {
                            if prune_free(*room_matrix, *live_info) {
                                assert(schedule_verdict(cursor, *room_matrix, *live_info)
                                    != TraverseOperation::Pruning);
                                assert(false);
                            }
                        }
                        return results;
                    },
                    TraverseOperation::Skip(index) => {
                        let ghost before_skip = sub_tree@;
                        sub_tree.skip(index);
                        proof {
                            let i0 = clamp(index as int, before_skip.len() as int);
                            lemma_skip_not_earlier(before_skip, sub_tree@, i0);
                            if before_skip != sub_tree@ {
                                lemma_remaining_decreases(before_skip, sub_tree@);
                            }
                            lemma_skip_step_covers(
                                perm_views(pre_results),
                                entry,
                                cursor,
                                sub_tree@,
                                root,
                                start,
                                n,
                                *room_matrix,
                                *live_info,
                                entry_fresh,
                                index,
                            );
                            if i0 >= start {
                                assert forall|t: int| 0 <= t < start implies sub_tree@[t]
                                    == root[t] by {
                                    assert(cursor.subrange(0, i0)[t] == cursor[t]);
                                    assert(sub_tree@.subrange(0, i0)[t] == sub_tree@[t]);
                                    assert(cursor.subrange(0, start)[t] == cursor[t]);
                                    assert(root.subrange(0, start)[t] == root[t]);
                                }
                                assert(sub_tree@.subrange(0, start) =~= root.subrange(0, start));
                            } else {
                                lemma_dead_skip_covers(
                                    perm_views(results@),
                                    cursor,
                                    sub_tree@,
                                    root,
                                    start,
                                    n,
                                    *room_matrix,
                                    *live_info,
                                    index,
                                );
                            }
                            assert forall|i: int|
                                0 <= i < results@.len() implies (#[trigger] results@[i])@
                                == sub_tree@ || lex_lt(results@[i]@, sub_tree@) by {
                                assert(results@[i]@ == entry || lex_lt(results@[i]@, entry));
                                if !entry_fresh {
                                    if results@[i]@ == entry {
                                    } else {
                                        lemma_lex_lt_trans(results@[i]@, entry, cursor);
                                    }
                                }
                                if cursor == sub_tree@ {
                                } else if results@[i]@ == cursor {
                                } else {
                                    lemma_lex_lt_trans(results@[i]@, cursor, sub_tree@);
                                }
                            }
                        }
                    },
                }
            },
        }
    }
}

impl<TCallback: IScheduleCallback> SchedulerImpl<StandardDecoratorChain, TCallback> {
    /// Stream one sub-tree's passing permutations to the callback as
    /// assignment tables, in order.
    fn deliver(
        &mut self,
        results: &Vec<PartialPermutation>,
        room_matrix: &RoomMatrix,
        live_info: &LiveInfo,
    )
        requires
            room_matrix.wf(),
            live_info.wf(),
            live_info.matches_matrix(room_matrix),
            forall|i: int|
                0 <= i < results@.len() ==> {
                    let p = #[trigger] results@[i];
                    &&& p.wf()
                    &&& p@.len() == room_matrix.num_blocks()
                    &&& passing(p@, *room_matrix, *live_info)
                },
        ensures
            final(self).decorator == old(self).decorator,
            final(self).callback.history().len() == old(self).callback.history().len()
                + results@.len(),
            final(self).callback.history().subrange(
                0,
                old(self).callback.history().len() as int,
            ) == old(self).callback.history(),
            forall|k: int|
                0 <= k < results@.len() ==> final(self).callback.history()[old(
                    self,
                ).callback.history().len() + k] == (SchedulerEvent::Assigned {
                    table: convert_spec(
                        (#[trigger] results@[k])@,
                        *live_info,
                        room_matrix.num_blocks(),
                    ),
                }),
    {
        let ghost base = old(self).callback.history();
        let nb = room_matrix.blocks.len();
        let mut i: usize = 0;
        while i < results.len()
            invariant
                i <= results@.len(),
                nb as int == room_matrix.num_blocks(),
                room_matrix.wf(),
                live_info.wf(),
                live_info.matches_matrix(room_matrix),
                forall|t: int|
                    0 <= t < results@.len() ==> {
                        let p = #[trigger] results@[t];
                        &&& p.wf()
                        &&& p@.len() == room_matrix.num_blocks()
                        &&& passing(p@, *room_matrix, *live_info)
                    },
                self.decorator == old(self).decorator,
                self.callback.history().len() == base.len() + i as int,
                self.callback.history().subrange(0, base.len() as int) == base,
                forall|k: int|
                    0 <= k < i as int ==> self.callback.history()[base.len() + k] == (
                    SchedulerEvent::Assigned {
                        table: convert_spec(
                            (#[trigger] results@[k])@,
                            *live_info,
                            room_matrix.num_blocks(),
                        ),
                    }),
            decreases results@.len() - i,
        {
            proof {
                lemma_convert_valid(results@[i as int]@, *room_matrix, *live_info);
            }
            let table = convert(results[i].current(), room_matrix, live_info);
            let ghost before = self.callback.history();
            self.callback.on_assigned(&table, room_matrix, live_info);
            proof {
                assert(self.callback.history().subrange(0, base.len() as int) =~= (
                before.subrange(0, base.len() as int)));
                assert forall|k: int|
                    0 <= k < i as int + 1 implies self.callback.history()[base.len() + k] == (
                SchedulerEvent::Assigned {
                    table: convert_spec(
                        (#[trigger] results@[k])@,
                        *live_info,
                        room_matrix.num_blocks(),
                    ),
                }) by {
                    if k < i as int {
                        assert(self.callback.history()[base.len() + k] == before[base.len() + k]);
                    }
                }
            }
            i = i + 1;
        }
    }

    /// Search the whole permutation space in one sub-tree, streaming each
    /// valid assignment to the callback between `on_started` and one
    /// final `on_completed`.  Refused (with only `on_completed`) when the
    /// blocks cannot seat the bands.  On a `prune_free` instance the run
    /// delivers every passing assignment; with as many bands as blocks no
    /// assignment is delivered twice.
    pub fn assign(&mut self, room_matrix: &RoomMatrix, live_info: &LiveInfo) -> (r: Result<
        (),
        SchedulerError,
    >)
        requires
            room_matrix.wf(),
            live_info.wf(),
            live_info.matches_matrix(room_matrix),
            fact(room_matrix.num_blocks() as nat) <= usize::MAX,
        ensures
            final(self).decorator == old(self).decorator,
            match r {
                Err(e) => {
                    &&& e == SchedulerError::InsufficientCapacity
                    &&& room_matrix.num_blocks() < live_info.band_count()
                    &&& final(self).callback.history() == old(self).callback.history().push(
                        SchedulerEvent::Completed {},
                    )
                },
                Ok(()) => {
                    let tail = final(self).callback.history().skip(
                        old(self).callback.history().len() as int,
                    );
                    &&& room_matrix.num_blocks() >= live_info.band_count()
                    &&& final(self).callback.history().len() > old(self).callback.history().len()
                    &&& final(self).callback.history().subrange(
                        0,
                        old(self).callback.history().len() as int,
                    ) == old(self).callback.history()
                    &&& run_events(
                        tail,
                        fact(room_matrix.num_blocks() as nat),
                        *room_matrix,
                        *live_info,
                    )
                    &&& prune_free(*room_matrix, *live_info) ==> tables_complete(
                        assigned_tables_of(tail),
                        *room_matrix,
                        *live_info,
                    )
                    &&& room_matrix.num_blocks() == live_info.band_count() ==> tables_distinct(
                        assigned_tables_of(tail),
                    )
                },
            },
    {
        let nb = room_matrix.blocks.len();
        if nb < live_info.band_ids.len() {
            self.callback.on_completed();
            return Err(SchedulerError::InsufficientCapacity);
        }
        let mut traverser = PermutationTraverser::new(nb, nb);
        let mut sub_tree = match traverser.allocate() {
            Some(st) => st,
            None => {
                proof {
                    assert(false);
                }
                unreached()
            },
        };
        self.callback.on_started(&SchedulerInfo { count: factional(nb) });
        let ghost old_h = old(self).callback.history();
        let ghost base = self.callback.history();
        let ghost root = sub_tree@;
        proof {
            assert(base == old_h.push(
                SchedulerEvent::Started { count: fact(nb as nat) },
            ));
            assert(asc_range(root, sub_tree.start_spec(), root.len() as int)) by {
                assert(forall|i: int|
                    0 <= i < nb ==> (#[trigger] root[i] as int) == i);
            }
        }
        let results = run_sub_tree(&mut sub_tree, &self.decorator, room_matrix, live_info);
        self.deliver(&results, room_matrix, live_info);
        let ghost pre_done = self.callback.history();
        let ghost ts = converted_all(perm_views(results@), *live_info, nb as int);
        proof {
            let seg = pre_done.skip(base.len() as int);
            assert(seg.len() == results@.len());
            assert forall|k: int| 0 <= k < seg.len() implies #[trigger] seg[k] == (
            SchedulerEvent::Assigned { table: ts[k] }) by {
                assert(seg[k] == pre_done[base.len() + k]);
                assert(perm_views(results@)[k] == results@[k]@);
            }
            lemma_tables_of_assigned_run(seg, ts);
            assert forall|i: int|
                base.len() <= i < pre_done.len() implies (#[trigger] pre_done[i]) is Assigned
                && table_valid(pre_done[i]->Assigned_table, *room_matrix, *live_info)
                && table_of_passing(pre_done[i]->Assigned_table, *room_matrix, *live_info) by {
                let k = i - base.len();
                assert(pre_done[i] == seg[k]);
                assert(perm_views(results@)[k] == results@[k]@);
                lemma_convert_valid(results@[k]@, *room_matrix, *live_info);
                assert(is_perm(results@[k]@) && results@[k]@.len() == room_matrix.num_blocks()
                    && convert_spec(results@[k]@, *live_info, room_matrix.num_blocks())
                    == pre_done[i]->Assigned_table && passing(
                    results@[k]@,
                    *room_matrix,
                    *live_info,
                ));
            }
        }
        self.callback.on_completed();
        proof {
            lemma_finish_run(
                old_h,
                base,
                pre_done,
                self.callback.history(),
                fact(nb as nat),
                *room_matrix,
                *live_info,
            );
            let tail = self.callback.history().skip(old_h.len() as int);
            assert(assigned_tables_of(tail) == ts);
            if prune_free(*room_matrix, *live_info) {
                assert forall|q: Seq<usize>|
                    is_perm(q) && q.len() == room_matrix.num_blocks() && #[trigger] passing(
                        q,
                        *room_matrix,
                        *live_info,
                    ) implies assigned_tables_of(tail).contains(
                    convert_spec(q, *live_info, room_matrix.num_blocks()),
                ) by {
                    assert(q.subrange(0, 0int) =~= root.subrange(0, 0int));
                    assert(perm_views(results@).contains(q));
                    let w = choose|w: int|
                        0 <= w < perm_views(results@).len() && perm_views(results@)[w] == q;
                    assert(results@[w]@ == q);
                    assert(ts[w] == convert_spec(q, *live_info, nb as int));
                }
            }
            if room_matrix.num_blocks() == live_info.band_count() {
                assert forall|i: int, j: int|
                    0 <= i < j < ts.len() implies #[trigger] ts[i] != #[trigger] ts[j] by {
                    assert(perm_views(results@)[i] == results@[i]@);
                    assert(perm_views(results@)[j] == results@[j]@);
                    if ts[i] == ts[j] {
                        lemma_convert_injective(
                            results@[i]@,
                            results@[j]@,
                            *live_info,
                            nb as int,
                        );
                        assert(lex_lt(results@[i]@, results@[j]@));
                        let k = choose|k: int|
                            0 <= k < results@[i]@.len() && results@[i]@.subrange(0, k)
                                == results@[j]@.subrange(0, k) && (#[trigger] results@[i]@[k])
                                < results@[j]@[k];
                        assert(false);
                    }
                }
            }
        }
        Ok(())
    }

    /// Search the space carved into sub-trees of `sub_tree_depth!`
    /// permutations each, processing them in allocation order: the
    /// sequential core of the parallel driver, emitting the same shape
    /// of events as `assign`, with the same completeness and
    /// distinctness guarantees.
    #[verifier::rlimit(100)]
    pub fn assign_partitioned(
        &mut self,
        room_matrix: &RoomMatrix,
        live_info: &LiveInfo,
        sub_tree_depth: usize,
    ) -> (r: Result<(), SchedulerError>)
        requires
            room_matrix.wf(),
            live_info.wf(),
            live_info.matches_matrix(room_matrix),
            fact(room_matrix.num_blocks() as nat) <= usize::MAX,
        ensures
            final(self).decorator == old(self).decorator,
            match r {
                Err(e) => {
                    &&& e == SchedulerError::InsufficientCapacity
                    &&& room_matrix.num_blocks() < live_info.band_count()
                    &&& final(self).callback.history() == old(self).callback.history().push(
                        SchedulerEvent::Completed {},
                    )
                },
                Ok(()) => {
                    let tail = final(self).callback.history().skip(
                        old(self).callback.history().len() as int,
                    );
                    &&& room_matrix.num_blocks() >= live_info.band_count()
                    &&& final(self).callback.history().len() > old(self).callback.history().len()
                    &&& final(self).callback.history().subrange(
                        0,
                        old(self).callback.history().len() as int,
                    ) == old(self).callback.history()
                    &&& run_events(
                        tail,
                        fact(room_matrix.num_blocks() as nat),
                        *room_matrix,
                        *live_info,
                    )
                    &&& prune_free(*room_matrix, *live_info) ==> tables_complete(
                        assigned_tables_of(tail),
                        *room_matrix,
                        *live_info,
                    )
                    &&& room_matrix.num_blocks() == live_info.band_count() ==> tables_distinct(
                        assigned_tables_of(tail),
                    )
                },
            },
    {
        let nb = room_matrix.blocks.len();
        if nb < live_info.band_ids.len() {
            self.callback.on_completed();
            return Err(SchedulerError::InsufficientCapacity);
        }
        let depth: usize = if sub_tree_depth < nb {
            sub_tree_depth
        } else {
            nb
        };
        let mut traverser = PermutationTraverser::new(nb, depth);
        self.callback.on_started(&SchedulerInfo { count: factional(nb) });
        let ghost old_h = old(self).callback.history();
        let ghost base = self.callback.history();
        let ghost start = traverser.start_spec();
        let ghost mut emitted: Seq<Seq<usize>> = Seq::empty();
        proof {
            assert(base == old_h.push(
                SchedulerEvent::Started { count: fact(nb as nat) },
            ));
            assert(self.callback.history().subrange(0, base.len() as int) =~= base);
        }
        loop
            invariant
                traverser.wf(),
                traverser@.len() == nb as int,
                traverser.start_spec() == start,
                0 <= start <= nb as int,
                nb as int == room_matrix.num_blocks(),
                room_matrix.wf(),
                live_info.wf(),
                live_info.matches_matrix(room_matrix),
                self.decorator == old(self).decorator,
                self.callback.history().len() == base.len() + emitted.len(),
                self.callback.history().subrange(0, base.len() as int) == base,
                forall|k: int|
                    0 <= k < emitted.len() ==> self.callback.history()[base.len() + k] == (
                    SchedulerEvent::Assigned {
                        table: convert_spec(#[trigger] emitted[k], *live_info, nb as int),
                    }),
                forall|k: int|
                    0 <= k < emitted.len() ==> is_perm(#[trigger] emitted[k]) && emitted[k].len()
                        == nb as int && passing(emitted[k], *room_matrix, *live_info),
                forall|i: int, j: int|
                    0 <= i < j < emitted.len() ==> lex_lt(
                        #[trigger] emitted[i],
                        #[trigger] emitted[j],
                    ),
                traverser.fresh() ==> emitted.len() == 0,
                traverser.fresh() ==> forall|i: int|
                    0 <= i < nb as int ==> (#[trigger] traverser@[i] as int) == i,
                !traverser.fresh() ==> forall|k: int|
                    0 <= k < emitted.len() ==> (#[trigger] emitted[k]).subrange(0, start)
                        == traverser@.subrange(0, start) || lex_lt(emitted[k], traverser@),
                prune_free(*room_matrix, *live_info) && !traverser.fresh() ==> forall|
                    q: Seq<usize>,
                |
                    is_perm(q) && q.len() == nb as int && #[trigger] passing(
                        q,
                        *room_matrix,
                        *live_info,
                    ) && (lex_lt(q, traverser@) || q.subrange(0, start) == traverser@.subrange(
                        0,
                        start,
                    )) ==> emitted.contains(q),
            ensures
                self.decorator == old(self).decorator,
                self.callback.history().len() == base.len() + emitted.len(),
                self.callback.history().subrange(0, base.len() as int) == base,
                forall|k: int|
                    0 <= k < emitted.len() ==> self.callback.history()[base.len() + k] == (
                    SchedulerEvent::Assigned {
                        table: convert_spec(#[trigger] emitted[k], *live_info, nb as int),
                    }),
                forall|k: int|
                    0 <= k < emitted.len() ==> is_perm(#[trigger] emitted[k]) && emitted[k].len()
                        == nb as int && passing(emitted[k], *room_matrix, *live_info),
                forall|i: int, j: int|
                    0 <= i < j < emitted.len() ==> lex_lt(
                        #[trigger] emitted[i],
                        #[trigger] emitted[j],
                    ),
                prune_free(*room_matrix, *live_info) ==> forall|q: Seq<usize>|
                    is_perm(q) && q.len() == nb as int && #[trigger] passing(
                        q,
                        *room_matrix,
                        *live_info,
                    ) ==> emitted.contains(q),
            decreases 2 * remaining(traverser@) + (if traverser.fresh() {
                1int
            } else {
                0int
            }),
        {
            let ghost entry = traverser@;
            let ghost entry_fresh = traverser.fresh();
            let ghost pre_emit = emitted;
            proof {
                lemma_remaining_nonneg(entry);
            }
            match traverser.allocate() {
                None => {
                    proof {
                        if prune_free(*room_matrix, *live_info) {
                            assert forall|q: Seq<usize>|
                                is_perm(q) && q.len() == nb as int && #[trigger] passing(
                                    q,
                                    *room_matrix,
                                    *live_info,
                                ) implies emitted.contains(q) by {
                                lemma_no_next_part_last(entry, q, start);
                                if q == entry {
                                    assert(q.subrange(0, start) == entry.subrange(0, start));
                                }
                            }
                        }
                    }
                    break ;
                },
                Some(mut sub_tree) => {
                    let ghost r = sub_tree@;
                    proof {
                        if !entry_fresh {
                            let p = choose|p: int|
                                #[trigger] enters_next_part(entry, r, start, p);
                            lemma_enters_lex(entry, r, start, p);
                            lemma_remaining_decreases(entry, r);
                        }
                        assert(asc_range(r, start, nb as int)) by {
                            if entry_fresh {
                                assert(forall|i: int|
                                    0 <= i < nb as int ==> (#[trigger] r[i] as int) == i);
                            } else {
                                let p = choose|p: int|
                                    #[trigger] enters_next_part(entry, r, start, p);
                            }
                        }
                    }
                    let results = run_sub_tree(
                        &mut sub_tree,
                        &self.decorator,
                        room_matrix,
                        live_info,
                    );
                    let ghost pre_hist = self.callback.history();
                    self.deliver(&results, room_matrix, live_info);
                    proof {
                        emitted = emitted + perm_views(results@);
                        // the events delivered so far, old and new
                        assert forall|k: int|
                            0 <= k < emitted.len() implies self.callback.history()[base.len() + k]
                            == (SchedulerEvent::Assigned {
                            table: convert_spec(#[trigger] emitted[k], *live_info, nb as int),
                        }) by {
                            if k < pre_emit.len() {
                                assert(emitted[k] == pre_emit[k]);
                                assert(self.callback.history().subrange(
                                    0,
                                    pre_hist.len() as int,
                                )[base.len() + k] == self.callback.history()[base.len() + k]);
                            } else {
                                let t = k - pre_emit.len();
                                assert(emitted[k] == perm_views(results@)[t]);
                                assert(perm_views(results@)[t] == results@[t]@);
                                assert(base.len() + k == pre_hist.len() + t);
                            }
                        }
                        assert forall|k: int|
                            0 <= k < emitted.len() implies is_perm(#[trigger] emitted[k])
                            && emitted[k].len() == nb as int && passing(
                            emitted[k],
                            *room_matrix,
                            *live_info,
                        ) by {
                            if k >= pre_emit.len() {
                                let t = k - pre_emit.len();
                                assert(emitted[k] == perm_views(results@)[t]);
                                assert(perm_views(results@)[t] == results@[t]@);
                            }
                        }
                        // ordering: old items come before the new root, new
                        // items do not precede it
                        if !entry_fresh {
                            let p = choose|p: int|
                                #[trigger] enters_next_part(entry, r, start, p);
                            assert forall|k: int|
                                0 <= k < pre_emit.len() implies lex_lt(
                                (#[trigger] pre_emit[k]),
                                r,
                            ) by {
                                lemma_prev_before_next_root(
                                    pre_emit[k],
                                    entry,
                                    r,
                                    start,
                                    p,
                                    nb as int,
                                );
                            }
                        }
                        assert forall|t: int|
                            0 <= t < results@.len() implies (r == (#[trigger] results@[t])@
                            || lex_lt(r, results@[t]@)) by {
                            lemma_asc_not_later(results@[t]@, r, start);
                        }
                        assert forall|i: int, j: int|
                            0 <= i < j < emitted.len() implies lex_lt(
                            #[trigger] emitted[i],
                            #[trigger] emitted[j],
                        ) by {
                            if j < pre_emit.len() {
                                assert(emitted[i] == pre_emit[i]);
                                assert(emitted[j] == pre_emit[j]);
                            } else if i >= pre_emit.len() {
                                let ti = i - pre_emit.len();
                                let tj = j - pre_emit.len();
                                assert(emitted[i] == perm_views(results@)[ti]);
                                assert(emitted[j] == perm_views(results@)[tj]);
                                assert(perm_views(results@)[ti] == results@[ti]@);
                                assert(perm_views(results@)[tj] == results@[tj]@);
                                assert(lex_lt((results@[ti])@, (results@[tj])@));
                            } else {
                                let tj = j - pre_emit.len();
                                assert(emitted[i] == pre_emit[i]);
                                assert(emitted[j] == perm_views(results@)[tj]);
                                assert(perm_views(results@)[tj] == results@[tj]@);
                                assert(lex_lt(pre_emit[i], r));
                                if r == results@[tj]@ {
                                } else {
                                    lemma_lex_lt_trans(pre_emit[i], r, results@[tj]@);
                                }
                            }
                        }
                        // frontier against the root just processed
                        assert forall|k: int|
                            0 <= k < emitted.len() implies (#[trigger] emitted[k]).subrange(
                            0,
                            start,
                        ) == r.subrange(0, start) || lex_lt(emitted[k], r) by {
                            if k >= pre_emit.len() {
                                let t = k - pre_emit.len();
                                assert(emitted[k] == perm_views(results@)[t]);
                                assert(perm_views(results@)[t] == results@[t]@);
                            } else {
                                assert(emitted[k] == pre_emit[k]);
                            }
                        }
                        // everything at or before this sub-tree is delivered
                        if prune_free(*room_matrix, *live_info) {
                            assert forall|q: Seq<usize>|
                                is_perm(q) && q.len() == nb as int && #[trigger] passing(
                                    q,
                                    *room_matrix,
                                    *live_info,
                                ) && (lex_lt(q, r) || q.subrange(0, start) == r.subrange(
                                    0,
                                    start,
                                )) implies emitted.contains(q) by {
                                if q.subrange(0, start) == r.subrange(0, start) {
                                    assert(perm_views(results@).contains(q));
                                    let w = choose|w: int|
                                        0 <= w < perm_views(results@).len() && perm_views(
                                            results@,
                                        )[w] == q;
                                    assert(emitted[pre_emit.len() + w] == q);
                                } else {
                                    assert(lex_lt(q, r));
                                    if entry_fresh {
                                        assert(q.subrange(0, 0int) =~= r.subrange(0, 0int));
                                        assert(asc_range(r, 0, nb as int)) by {
                                            assert(forall|i: int|
                                                0 <= i < nb as int ==> (#[trigger] r[i] as int)
                                                    == i);
                                        }
                                        lemma_asc_not_later(q, r, 0);
                                        if r == q {
                                            let k = choose|k: int|
                                                0 <= k < q.len() && q.subrange(0, k) == r.subrange(
                                                    0,
                                                    k,
                                                ) && (#[trigger] q[k]) < r[k];
                                            assert(false);
                                        } else {
                                            lemma_lex_asym(q, r);
                                            assert(false);
                                        }
                                    } else {
                                        let held: bool = pre_emit.contains(q);
                                        if q == entry {
                                            assert(q.subrange(0, start) == entry.subrange(
                                                0,
                                                start,
                                            ));
                                            assert(pre_emit.contains(q));
                                        } else {
                                            lemma_lex_trichotomy(entry, q);
                                            if lex_lt(entry, q) {
                                                if q.subrange(0, start) == entry.subrange(
                                                    0,
                                                    start,
                                                ) {
                                                    assert(pre_emit.contains(q));
                                                } else {
                                                    assert(q == r || lex_lt(r, q));
                                                    if q == r {
                                                        let k = choose|k: int|
                                                            0 <= k < q.len() && q.subrange(0, k)
                                                                == r.subrange(0, k) && (
                                                            #[trigger] q[k]) < r[k];
                                                        assert(false);
                                                    } else {
                                                        lemma_lex_asym(q, r);
                                                        assert(false);
                                                    }
                                                }
                                            } else {
                                                assert(lex_lt(q, entry));
                                                assert(pre_emit.contains(q));
                                            }
                                        }
                                        let w = choose|w: int|
                                            0 <= w < pre_emit.len() && pre_emit[w] == q;
                                        assert(emitted[w] == q);
                                    }
                                }
                            }
                        }
                    }
                },
            }
        }
        let ghost pre_done = self.callback.history();
        let ghost ts = converted_all(emitted, *live_info, nb as int);
        proof {
            let seg = pre_done.skip(base.len() as int);
            assert(seg.len() == emitted.len());
            assert forall|k: int| 0 <= k < seg.len() implies #[trigger] seg[k] == (
            SchedulerEvent::Assigned { table: ts[k] }) by {
                assert(seg[k] == pre_done[base.len() + k]);
            }
            lemma_tables_of_assigned_run(seg, ts);
            assert forall|i: int|
                base.len() <= i < pre_done.len() implies (#[trigger] pre_done[i]) is Assigned
                && table_valid(pre_done[i]->Assigned_table, *room_matrix, *live_info)
                && table_of_passing(pre_done[i]->Assigned_table, *room_matrix, *live_info) by {
                let k = i - base.len();
                assert(pre_done[i] == seg[k]);
                lemma_convert_valid(emitted[k], *room_matrix, *live_info);
                assert(is_perm(emitted[k]) && emitted[k].len() == room_matrix.num_blocks()
                    && convert_spec(emitted[k], *live_info, room_matrix.num_blocks())
                    == pre_done[i]->Assigned_table && passing(
                    emitted[k],
                    *room_matrix,
                    *live_info,
                ));
            }
        }
        self.callback.on_completed();
        proof {
            lemma_finish_run(
                old_h,
                base,
                pre_done,
                self.callback.history(),
                fact(nb as nat),
                *room_matrix,
                *live_info,
            );
            let tail = self.callback.history().skip(old_h.len() as int);
            assert(assigned_tables_of(tail) == ts);
            if prune_free(*room_matrix, *live_info) {
                assert forall|q: Seq<usize>|
                    is_perm(q) && q.len() == room_matrix.num_blocks() && #[trigger] passing(
                        q,
                        *room_matrix,
                        *live_info,
                    ) implies assigned_tables_of(tail).contains(
                    convert_spec(q, *live_info, room_matrix.num_blocks()),
                ) by {
                    assert(emitted.contains(q));
                    let w = choose|w: int| 0 <= w < emitted.len() && emitted[w] == q;
                    assert(ts[w] == convert_spec(q, *live_info, nb as int));
                }
            }
            if room_matrix.num_blocks() == live_info.band_count() {
                assert forall|i: int, j: int|
                    0 <= i < j < ts.len() implies #[trigger] ts[i] != #[trigger] ts[j] by {
                    if ts[i] == ts[j] {
                        lemma_convert_injective(emitted[i], emitted[j], *live_info, nb as int);
                        assert(lex_lt(emitted[i], emitted[j]));
                        let k = choose|k: int|
                            0 <= k < emitted[i].len() && emitted[i].subrange(0, k)
                                == emitted[j].subrange(0, k) && (#[trigger] emitted[i][k])
                                < emitted[j][k];
                        assert(false);
                    }
                }
            }
        }
        Ok(())
    }
}

/// Everything delivered before a jump to the next sub-tree root comes
/// strictly before that root: it either shares the old root's prefix,
/// which the jump strictly raises, or was already behind the old root.
proof fn lemma_prev_before_next_root(
    v: Seq<usize>,
    entry: Seq<usize>,
    r: Seq<usize>,
    start: int,
    p: int,
    n: int,
)
    requires
        v.len() == n,
        entry.len() == n,
        r.len() == n,
        0 <= start <= n,
        enters_next_part(entry, r, start, p),
        v.subrange(0, start) == entry.subrange(0, start) || lex_lt(v, entry),
    ensures
        lex_lt(v, r),
{
    lemma_enters_lex(entry, r, start, p);
    if v.subrange(0, start) == entry.subrange(0, start) {
        assert forall|t: int| 0 <= t < p implies v[t] == r[t] by {
            assert(v.subrange(0, start)[t] == v[t]);
            assert(entry.subrange(0, start)[t] == entry[t]);
            assert(entry.subrange(0, p)[t] == entry[t]);
            assert(r.subrange(0, p)[t] == r[t]);
        }
        assert(v.subrange(0, p) =~= r.subrange(0, p));
        assert(v.subrange(0, start)[p] == v[p]);
        assert(entry.subrange(0, start)[p] == entry[p]);
        assert(v[p] < r[p]);
    } else {
        lemma_lex_lt_trans(v, entry, r);
    }
}

/// Appending the final `Completed` to a started run with only valid
/// assignments in between yields the bracketed run shape.
proof fn lemma_finish_run(
    old_h: Seq<SchedulerEvent>,
    base: Seq<SchedulerEvent>,
    pre_done: Seq<SchedulerEvent>,
    h: Seq<SchedulerEvent>,
    count: nat,
    m: RoomMatrix,
    live: LiveInfo,
)
    requires
        base == old_h.push((SchedulerEvent::Started { count })),
        base.len() <= pre_done.len(),
        pre_done.subrange(0, base.len() as int) == base,
        forall|i: int|
            base.len() <= i < pre_done.len() ==> (#[trigger] pre_done[i]) is Assigned
                && table_valid(pre_done[i]->Assigned_table, m, live) && table_of_passing(
                pre_done[i]->Assigned_table,
                m,
                live,
            ),
        h == pre_done.push((SchedulerEvent::Completed {})),
    ensures
        h.len() > old_h.len(),
        h.subrange(0, old_h.len() as int) == old_h,
        run_events(h.skip(old_h.len() as int), count, m, live),
        assigned_tables_of(h.skip(old_h.len() as int)) == assigned_tables_of(
            pre_done.skip(base.len() as int),
        ),
{
    let tail = h.skip(old_h.len() as int);
    assert forall|i: int| 0 <= i < base.len() implies h[i] == base[i] by {
        assert(pre_done.subrange(0, base.len() as int)[i] == pre_done[i]);
    }
    assert forall|i: int| 0 <= i < old_h.len() implies h[i] == old_h[i] by {
        assert(base[i] == old_h[i]);
    }
    assert(h.subrange(0, old_h.len() as int) =~= old_h);
    assert(tail[0] == h[old_h.len() as int]);
    assert(h[old_h.len() as int] == base[old_h.len() as int]);
    assert(base[old_h.len() as int] == (SchedulerEvent::Started { count }));
    assert(tail.last() == h.last());
    assert forall|i: int| 0 < i < tail.len() - 1 implies (#[trigger] tail[i]) is Assigned
        && table_valid(tail[i]->Assigned_table, m, live) && table_of_passing(
        tail[i]->Assigned_table,
        m,
        live,
    ) by {
        assert(tail[i] == h[old_h.len() + i]);
        assert(base.len() <= old_h.len() + i < pre_done.len());
        assert(h[old_h.len() + i] == pre_done[old_h.len() + i]);
    }
    let mid = pre_done.skip(base.len() as int);
    assert(tail =~= seq![(SchedulerEvent::Started { count })] + mid.push(
        SchedulerEvent::Completed {},
    ));
    lemma_tables_push_other(mid, SchedulerEvent::Completed {});
    lemma_tables_prepend(
        SchedulerEvent::Started { count },
        mid.push(SchedulerEvent::Completed {}),
    );
}

/// The tables of the `Assigned` events of a trace, in delivery order.
pub open spec fn assigned_tables_of(h: Seq<SchedulerEvent>) -> Seq<Seq<(BlockId, BandId)>>
    decreases h.len(),
{
    if h.len() == 0 {
        Seq::empty()
    } else if h.last() is Assigned {
        assigned_tables_of(h.drop_last()).push(h.last()->Assigned_table)
    } else {
        assigned_tables_of(h.drop_last())
    }
}

/// Appending an `Assigned` event appends its table.
proof fn lemma_tables_push_assigned(h: Seq<SchedulerEvent>, t: Seq<(BlockId, BandId)>)
    ensures
        assigned_tables_of(h.push(SchedulerEvent::Assigned { table: t })) == assigned_tables_of(
            h,
        ).push(t),
{
    assert(h.push(SchedulerEvent::Assigned { table: t }).drop_last() =~= h);
}

/// Appending any other event leaves the tables alone.
proof fn lemma_tables_push_other(h: Seq<SchedulerEvent>, e: SchedulerEvent)
    requires
        !(e is Assigned),
    ensures
        assigned_tables_of(h.push(e)) == assigned_tables_of(h),
{
    assert(h.push(e).drop_last() =~= h);
}

/// Prepending a non-`Assigned` event leaves the tables alone.
proof fn lemma_tables_prepend(e: SchedulerEvent, h: Seq<SchedulerEvent>)
    requires
        !(e is Assigned),
    ensures
        assigned_tables_of(seq![e] + h) == assigned_tables_of(h),
    decreases h.len(),
{
    if h.len() == 0 {
        assert(seq![e] + h =~= seq![e]);
        assert(seq![e].drop_last() =~= Seq::<SchedulerEvent>::empty());
        assert(assigned_tables_of(Seq::<SchedulerEvent>::empty()) =~= Seq::<
            Seq<(BlockId, BandId)>,
        >::empty());
    } else {
        lemma_tables_prepend(e, h.drop_last());
        assert((seq![e] + h).drop_last() =~= seq![e] + h.drop_last());
        assert((seq![e] + h).last() == h.last());
    }
}

/// The tables of a segment made only of `Assigned` events, in order.
proof fn lemma_tables_of_assigned_run(h: Seq<SchedulerEvent>, ts: Seq<Seq<(BlockId, BandId)>>)
    requires
        h.len() == ts.len(),
        forall|k: int|
            0 <= k < h.len() ==> #[trigger] h[k] == (SchedulerEvent::Assigned { table: ts[k] }),
    ensures
        assigned_tables_of(h) == ts,
    decreases h.len(),
{
    if h.len() == 0 {
        assert(assigned_tables_of(h) =~= ts);
    } else {
        lemma_tables_of_assigned_run(h.drop_last(), ts.drop_last());
        assert(h.last() == (SchedulerEvent::Assigned { table: ts.last() }));
        assert(assigned_tables_of(h) == assigned_tables_of(h.drop_last()).push(
            h.last()->Assigned_table,
        ));
        assert(ts.drop_last().push(ts.last()) =~= ts);
    }
}

/// Every table of a trace whose `Assigned` events are all valid is
/// itself valid.
pub proof fn lemma_assigned_tables_valid(h: Seq<SchedulerEvent>, m: RoomMatrix, live: LiveInfo)
    requires
        forall|i: int|
            0 <= i < h.len() && (#[trigger] h[i]) is Assigned ==> table_valid(
                h[i]->Assigned_table,
                m,
                live,
            ),
    ensures
        forall|j: int|
            0 <= j < assigned_tables_of(h).len() ==> table_valid(
                #[trigger] assigned_tables_of(h)[j],
                m,
                live,
            ),
    decreases h.len(),
{
    if h.len() > 0 {
        assert forall|i: int|
            0 <= i < h.drop_last().len() && (#[trigger] h.drop_last()[i]) is Assigned implies
            table_valid(h.drop_last()[i]->Assigned_table, m, live) by {
            assert(h[i] == h.drop_last()[i]);
        }
        lemma_assigned_tables_valid(h.drop_last(), m, live);
        let rest = assigned_tables_of(h.drop_last());
        assert forall|j: int| 0 <= j < assigned_tables_of(h).len() implies table_valid(
            #[trigger] assigned_tables_of(h)[j],
            m,
            live,
        ) by {
            if h.last() is Assigned {
                assert(assigned_tables_of(h) == rest.push(h.last()->Assigned_table));
                if j < rest.len() {
                    assert(assigned_tables_of(h)[j] == rest[j]);
                } else {
                    assert(assigned_tables_of(h)[j] == h.last()->Assigned_table);
                    assert(h[h.len() - 1] == h.last());
                }
            } else {
                assert(assigned_tables_of(h) == rest);
            }
        }
    }
}

/// Every table of a trace whose `Assigned` events all carry a passing
/// permutation's assignment is itself such an assignment.
pub proof fn lemma_assigned_tables_passing(h: Seq<SchedulerEvent>, m: RoomMatrix, live: LiveInfo)
    requires
        forall|i: int|
            0 <= i < h.len() && (#[trigger] h[i]) is Assigned ==> table_of_passing(
                h[i]->Assigned_table,
                m,
                live,
            ),
    ensures
        forall|j: int|
            0 <= j < assigned_tables_of(h).len() ==> table_of_passing(
                #[trigger] assigned_tables_of(h)[j],
                m,
                live,
            ),
    decreases h.len(),
{
    if h.len() > 0 {
        assert forall|i: int|
            0 <= i < h.drop_last().len() && (#[trigger] h.drop_last()[i]) is Assigned implies
            table_of_passing(h.drop_last()[i]->Assigned_table, m, live) by {
            assert(h[i] == h.drop_last()[i]);
        }
        lemma_assigned_tables_passing(h.drop_last(), m, live);
        let rest = assigned_tables_of(h.drop_last());
        assert forall|j: int| 0 <= j < assigned_tables_of(h).len() implies table_of_passing(
            #[trigger] assigned_tables_of(h)[j],
            m,
            live,
        ) by {
            if h.last() is Assigned {
                assert(assigned_tables_of(h) == rest.push(h.last()->Assigned_table));
                if j < rest.len() {
                    assert(assigned_tables_of(h)[j] == rest[j]);
                } else {
                    assert(assigned_tables_of(h)[j] == h.last()->Assigned_table);
                    assert(h[h.len() - 1] == h.last());
                }
            } else {
                assert(assigned_tables_of(h) == rest);
            }
        }
    }
}

/// One recorded callback call.
pub enum RunRecord {
    /// `on_started`, with the nominal search-space size.
    Started(usize),
    /// `on_progress`.
    Progress,
    /// `on_assigned`, with the delivered table.
    Assigned(Vec<(BlockId, BandId)>),
    /// `on_completed`.
    Completed,
}

impl View for RunRecord {
    type V = SchedulerEvent;

    open spec fn view(&self) -> SchedulerEvent {
        match self {
            RunRecord::Started(c) => SchedulerEvent::Started { count: *c as nat },
            RunRecord::Progress => SchedulerEvent::Progress {},
            RunRecord::Assigned(t) => SchedulerEvent::Assigned { table: t@ },
            RunRecord::Completed => SchedulerEvent::Completed {},
        }
    }
}

/// A callback that records the run; the plain facade uses it to hand
/// the assignments back as a vector.
pub struct ScheduleCallbackMock {
    /// Every call received, in order.
    pub events: Vec<RunRecord>,
}

impl ScheduleCallbackMock {
    /// A recorder with an empty trace.
    pub fn new() -> (r: Self)
        ensures
            r.history() == Seq::<SchedulerEvent>::empty(),
    {
        let r = ScheduleCallbackMock { events: Vec::new() };
        proof {
            assert(r.events@.map_values(|e: RunRecord| e@) =~= Seq::<SchedulerEvent>::empty());
        }
        r
    }

    /// The recorded tables, in delivery order: exactly the `Assigned`
    /// events of the trace.
    pub fn into_assigned(self) -> (r: Vec<Vec<(BlockId, BandId)>>)
        ensures
            r@.map_values(|v: Vec<(BlockId, BandId)>| v@) == assigned_tables_of(self.history()),
    {
        let mut out: Vec<Vec<(BlockId, BandId)>> = Vec::new();
        let n = self.events.len();
        let mut i: usize = 0;
        while i < n
            invariant
                i <= n,
                n == self.events@.len(),
                out@.map_values(|v: Vec<(BlockId, BandId)>| v@) == assigned_tables_of(
                    self.events@.subrange(0, i as int).map_values(|e: RunRecord| e@),
                ),
            decreases n - i,
        {
            let ghost pre = self.events@.subrange(0, i as int).map_values(|e: RunRecord| e@);
            let ghost cur = self.events@.subrange(0, i + 1).map_values(|e: RunRecord| e@);
            proof {
                assert(cur =~= pre.push(self.events@[i as int]@));
                assert(cur.drop_last() =~= pre);
            }
            let rec = &self.events[i];
            match rec {
                RunRecord::Assigned(t) => {
                    let ghost pre_out = out@;
                    out.push(super::util::copy_vec(t));
                    proof {
                        assert(out@.map_values(|v: Vec<(BlockId, BandId)>| v@) =~= pre_out
                            .map_values(|v: Vec<(BlockId, BandId)>| v@).push(t@));
                    }
                },
                _ => {},
            }
            i = i + 1;
        }
        proof {
            assert(self.events@.subrange(0, n as int) =~= self.events@);
        }
        out
    }
}

impl IScheduleCallback for ScheduleCallbackMock {
    open spec fn history(&self) -> Seq<SchedulerEvent> {
        self.events@.map_values(|e: RunRecord| e@)
    }

    fn on_started(&mut self, scheduler_info: &SchedulerInfo) {
        let ghost pre = self.events@;
        self.events.push(RunRecord::Started(scheduler_info.count));
        proof {
            assert(self.events@.map_values(|e: RunRecord| e@) =~= pre.map_values(
                |e: RunRecord| e@,
            ).push((SchedulerEvent::Started { count: scheduler_info.count as nat })));
        }
    }

    fn on_progress(&mut self, task_id: TaskId, task_info: &TaskInfo) {
        let ghost pre = self.events@;
        self.events.push(RunRecord::Progress);
        proof {
            assert(self.events@.map_values(|e: RunRecord| e@) =~= pre.map_values(
                |e: RunRecord| e@,
            ).push((SchedulerEvent::Progress {})));
        }
    }

    fn on_assigned(
        &mut self,
        table: &Vec<(BlockId, BandId)>,
        room_matrix: &RoomMatrix,
        live_info: &LiveInfo,
    ) {
        let ghost pre = self.events@;
        self.events.push(RunRecord::Assigned(super::util::copy_vec(table)));
        proof {
            assert(self.events@.map_values(|e: RunRecord| e@) =~= pre.map_values(
                |e: RunRecord| e@,
            ).push((SchedulerEvent::Assigned { table: table@ })));
        }
    }

    fn on_completed(&mut self) {
        let ghost pre = self.events@;
        self.events.push(RunRecord::Completed);
        proof {
            assert(self.events@.map_values(|e: RunRecord| e@) =~= pre.map_values(
                |e: RunRecord| e@,
            ).push((SchedulerEvent::Completed {})));
        }
    }
}

/// The span-parallel fan-out.  Sub-trees come from `PermutationTraverser`
/// and each runtime task drives `run_sub_tree` over its own; the runtime
/// glue itself lives with the application shell, which also reconciles
/// task results against the allocation cursor with
/// `PartialPermutation::later`.
pub struct ParallelScheduler;

/// Type-erased convenience over `SchedulerImpl`.
pub struct Scheduler<T> {
    /// The driver, or nothing for the plain recording facade.
    pub callback: T,
}

impl Scheduler<()> {
    /// A scheduler that records the assignments and returns them.
    pub fn new() -> (r: Self) {
        Scheduler { callback: () }
    }

    /// Enumerate every valid assignment of bands to blocks and return
    /// the stream as a vector; empty when the blocks cannot seat the
    /// bands (and also when no permutation satisfies the constraints).
    pub fn assign(&self, room_matrix: &RoomMatrix, live_info: &LiveInfo) -> (r: Vec<
        Vec<(BlockId, BandId)>,
    >)
        requires
            room_matrix.wf(),
            live_info.wf(),
            live_info.matches_matrix(room_matrix),
            fact(room_matrix.num_blocks() as nat) <= usize::MAX,
        ensures
            forall|i: int|
                0 <= i < r@.len() ==> table_valid((#[trigger] r@[i])@, *room_matrix, *live_info),
            forall|i: int|
                0 <= i < r@.len() ==> table_of_passing(
                    (#[trigger] r@[i])@,
                    *room_matrix,
                    *live_info,
                ),
            room_matrix.num_blocks() < live_info.band_count() ==> r@.len() == 0,
            prune_free(*room_matrix, *live_info) && room_matrix.num_blocks()
                >= live_info.band_count() ==> tables_complete(
                r@.map_values(|v: Vec<(BlockId, BandId)>| v@),
                *room_matrix,
                *live_info,
            ),
            room_matrix.num_blocks() == live_info.band_count() ==> tables_distinct(
                r@.map_values(|v: Vec<(BlockId, BandId)>| v@),
            ),
    {
        let decorator = TreeTraverser::default();
        let decorator = BandScheduleTraverseDecorator::new(decorator);
        let decorator = MemberConflictTraverseDecorator::new(decorator);
        let mock = ScheduleCallbackMock::new();
        let mut scheduler_impl = SchedulerImpl::new(decorator, mock);
        let result = scheduler_impl.assign(room_matrix, live_info);
        let mock = scheduler_impl.callback;
        let ghost h = mock.history();
        let assigned = mock.into_assigned();
        proof {
            assert forall|i: int|
                0 <= i < h.len() && (#[trigger] h[i]) is Assigned implies table_valid(
                h[i]->Assigned_table,
                *room_matrix,
                *live_info,
            ) by {
                if result is Ok {
                    let tail = h.skip(0);
                    assert(tail =~= h);
                    assert(h[i] == tail[i]);
                    if i == 0 || i == h.len() - 1 {
                        assert(!(h[i] is Assigned));
                    }
                } else {
                    assert(h == Seq::<SchedulerEvent>::empty().push(
                        SchedulerEvent::Completed {},
                    ));
                }
            }
            lemma_assigned_tables_valid(h, *room_matrix, *live_info);
            assert forall|i: int|
                0 <= i < assigned@.len() implies table_valid(
                (#[trigger] assigned@[i])@,
                *room_matrix,
                *live_info,
            ) by {
                assert(assigned@.map_values(|v: Vec<(BlockId, BandId)>| v@)[i] == assigned@[i]@);
            }
            let rv = assigned@.map_values(|v: Vec<(BlockId, BandId)>| v@);
            assert forall|i: int|
                0 <= i < h.len() && (#[trigger] h[i]) is Assigned implies table_of_passing(
                h[i]->Assigned_table,
                *room_matrix,
                *live_info,
            ) by {
                if result is Ok {
                    let tail = h.skip(0);
                    assert(tail =~= h);
                    assert(h[i] == tail[i]);
                    if i == 0 || i == h.len() - 1 {
                        assert(!(h[i] is Assigned));
                    }
                } else {
                    assert(h == Seq::<SchedulerEvent>::empty().push(
                        SchedulerEvent::Completed {},
                    ));
                }
            }
            lemma_assigned_tables_passing(h, *room_matrix, *live_info);
            assert forall|i: int|
                0 <= i < assigned@.len() implies table_of_passing(
                (#[trigger] assigned@[i])@,
                *room_matrix,
                *live_info,
            ) by {
                assert(rv[i] == assigned@[i]@);
            }
            if room_matrix.num_blocks() < live_info.band_count() {
                assert(result is Err);
                assert(h == Seq::<SchedulerEvent>::empty().push((SchedulerEvent::Completed {})));
                assert(h.len() == 1);
                assert(!(h.last() is Assigned));
                assert(assigned_tables_of(h) == assigned_tables_of(h.drop_last()));
                assert(h.drop_last() =~= Seq::<SchedulerEvent>::empty());
                assert(assigned_tables_of(h).len() == 0);
                assert(assigned@.map_values(|v: Vec<(BlockId, BandId)>| v@).len() == 0);
            } else {
                assert(result is Ok);
                let tail = h.skip(0);
                assert(tail =~= h);
                assert(rv == assigned_tables_of(tail));
            }
        }
        assigned
    }
}

impl<T: IScheduleCallback> Scheduler<SchedulerImpl<StandardDecoratorChain, T>> {
    /// A scheduler that forwards every event to the given callback.
    pub fn new_with_callback(callback: T) -> (r: Self)
        ensures
            r.callback.callback == callback,
    {
        let decorator = TreeTraverser::default();
        let decorator = BandScheduleTraverseDecorator::new(decorator);
        let decorator = MemberConflictTraverseDecorator::new(decorator);
        let scheduler_impl = SchedulerImpl::new(decorator, callback);
        Scheduler { callback: scheduler_impl }
    }

    /// Enumerate every valid assignment, streaming to the callback.
    pub fn assign(&mut self, room_matrix: &RoomMatrix, live_info: &LiveInfo)
        requires
            room_matrix.wf(),
            live_info.wf(),
            live_info.matches_matrix(room_matrix),
            fact(room_matrix.num_blocks() as nat) <= usize::MAX,
        ensures
            room_matrix.num_blocks() < live_info.band_count()
                ==> final(self).callback.callback.history()
                == old(self).callback.callback.history().push((SchedulerEvent::Completed {})),
            room_matrix.num_blocks() >= live_info.band_count() ==> {
                let tail = final(self).callback.callback.history().skip(
                    old(self).callback.callback.history().len() as int,
                );
                &&& final(self).callback.callback.history().len()
                    > old(self).callback.callback.history().len()
                &&& final(self).callback.callback.history().subrange(
                    0,
                    old(self).callback.callback.history().len() as int,
                ) == old(self).callback.callback.history()
                &&& run_events(
                    tail,
                    fact(room_matrix.num_blocks() as nat),
                    *room_matrix,
                    *live_info,
                )
                &&& prune_free(*room_matrix, *live_info) ==> tables_complete(
                    assigned_tables_of(tail),
                    *room_matrix,
                    *live_info,
                )
                &&& room_matrix.num_blocks() == live_info.band_count() ==> tables_distinct(
                    assigned_tables_of(tail),
                )
            },
    {
        let _ = self.callback.assign(room_matrix, live_info);
    }
}

} // verus!
