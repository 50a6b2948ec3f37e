//! The room matrix: the ragged (room x span) grid of schedulable blocks.
//!
//! Rooms are pushed with a block count; room `r` occupies spans
//! `0..n_r` with no holes.  Blocks are numbered span-major (all blocks of
//! span 0, then span 1, ...), which is also the order the scheduler maps
//! permutation positions to blocks.

use vstd::prelude::*;

use super::util::copy_vec;
use crate::{BandId, BlockId, RoomId, SpanId};

verus! {

/// The largest room size: how many time spans the matrix needs.
pub open spec fn max_size(sizes: Seq<u8>) -> int
    decreases sizes.len(),
{
    if sizes.len() == 0 {
        0
    } else {
        let rest = max_size(sizes.drop_last());
        if sizes.last() as int > rest {
            sizes.last() as int
        } else {
            rest
        }
    }
}

/// How many rooms still have a block at span `s`.
pub open spec fn count_covering(sizes: Seq<u8>, s: int) -> int
    decreases sizes.len(),
{
    if sizes.len() == 0 {
        0
    } else {
        count_covering(sizes.drop_last(), s) + if sizes.last() as int > s {
            1int
        } else {
            0int
        }
    }
}

/// Total number of blocks the pushed rooms ask for.
pub open spec fn sum_sizes(sizes: Seq<u8>) -> int
    decreases sizes.len(),
{
    if sizes.len() == 0 {
        0
    } else {
        sum_sizes(sizes.drop_last()) + sizes.last() as int
    }
}

/// Blocks laid down by the spans before `upto`.
pub open spec fn covered_sum(sizes: Seq<u8>, upto: int) -> int
    decreases upto,
{
    if upto <= 0 {
        0
    } else {
        covered_sum(sizes, upto - 1) + count_covering(sizes, upto - 1)
    }
}

/// With no rooms no span lays down a block.
proof fn lemma_covered_sum_empty(sizes: Seq<u8>, upto: int)
    requires
        sizes.len() == 0,
    ensures
        covered_sum(sizes, upto) == 0,
    decreases upto,
{
    if upto > 0 {
        lemma_covered_sum_empty(sizes, upto - 1);
    }
}

/// The last room contributes one block to each span below its size.
proof fn lemma_covered_sum_drop(sizes: Seq<u8>, upto: int)
    requires
        sizes.len() > 0,
        upto >= 0,
    ensures
        covered_sum(sizes, upto) == covered_sum(sizes.drop_last(), upto) + (
        if sizes.last() as int <= upto {
            sizes.last() as int
        } else {
            upto
        }),
    decreases upto,
{
    if upto > 0 {
        lemma_covered_sum_drop(sizes, upto - 1);
    }
}

/// Once every room is exhausted the spans have laid down exactly the
/// pushed total: each room `r` contributes to the `sizes[r]` spans below
/// its size, and to no other.
proof fn lemma_covered_sum_total(sizes: Seq<u8>, upto: int)
    requires
        upto >= max_size(sizes),
        upto >= 0,
    ensures
        covered_sum(sizes, upto) == sum_sizes(sizes),
    decreases sizes.len(),
{
    if sizes.len() == 0 {
        lemma_covered_sum_empty(sizes, upto);
    } else {
        lemma_covered_sum_drop(sizes, upto);
        lemma_covered_sum_total(sizes.drop_last(), upto);
    }
}

/// Every size is bounded by the maximum.
proof fn lemma_max_size_ge(sizes: Seq<u8>, r: int)
    requires
        0 <= r < sizes.len(),
    ensures
        sizes[r] as int <= max_size(sizes),
    decreases sizes.len(),
{
    if r < sizes.len() - 1 {
        lemma_max_size_ge(sizes.drop_last(), r);
    }
}

/// Block `k` sits in its room's block list at the position given by
/// its span.
pub open spec fn room_attributed(
    blocks: Seq<BlockId>,
    spans: Seq<usize>,
    rooms: Seq<usize>,
    table: Seq<Vec<BlockId>>,
    k: int,
) -> bool {
    &&& (spans[k] as int) < table[rooms[k] as int]@.len()
    &&& table[rooms[k] as int]@[spans[k] as int] == blocks[k]
}

/// Collects the rooms (as block counts) that a `RoomMatrix` is built of.
pub struct RoomMatrixBuilder {
    pub blocks: Vec<u8>,
}

impl Default for RoomMatrixBuilder {
    /// A builder with no rooms yet.
    fn default() -> (r: Self)
        ensures
            r.blocks@.len() == 0,
    {
        RoomMatrixBuilder { blocks: Vec::new() }
    }
}

impl RoomMatrixBuilder {
    /// Append a room with `block_count` consecutive blocks from span 0.
    pub fn push_room(self, block_count: u8) -> (r: Self)
        ensures
            r.blocks@ == self.blocks@.push(block_count),
    {
        let mut b = self.blocks;
        b.push(block_count);
        RoomMatrixBuilder { blocks: b }
    }

    /// Assemble the matrix: mint dense room, span and block identifiers
    /// and cache the per-span and per-room block lists.
    pub fn build(self) -> (m: RoomMatrix)
        ensures
            m.wf(),
            m.num_rooms() == self.blocks@.len(),
            m.num_spans() == max_size(self.blocks@),
            m.num_blocks() == sum_sizes(self.blocks@),
            forall|r: int|
                0 <= r < self.blocks@.len() ==> #[trigger] m.room_size(r) == self.blocks@[r] as int,
            forall|s: int|
                0 <= s < m.num_spans() ==> #[trigger] m.span_width(s) == count_covering(
                    self.blocks@,
                    s,
                ),
    {
        let sizes = self.blocks;
        let room_count = sizes.len();

        // the tallest room decides the span count
        let mut span_count: usize = 0;
        let mut i: usize = 0;
        while i < room_count
            invariant
                i <= room_count,
                room_count == sizes@.len(),
                span_count as int == max_size(sizes@.subrange(0, i as int)),
            decreases room_count - i,
        {
            proof {
                assert(sizes@.subrange(0, i + 1).drop_last() =~= sizes@.subrange(0, i as int));
                assert(sizes@.subrange(0, i + 1).last() == sizes@[i as int]);
            }
            if (sizes[i] as usize) > span_count {
                span_count = sizes[i] as usize;
            }
            i = i + 1;
        }
        proof {
            assert(sizes@.subrange(0, room_count as int) =~= sizes@);
        }
        let mut rooms: Vec<RoomId> = Vec::new();
        let mut i: usize = 0;
        while i < room_count
            invariant
                i <= room_count,
                rooms@.len() == i as int,
                forall|j: int| 0 <= j < i ==> (#[trigger] rooms@[j]).0 == j,
            decreases room_count - i,
        {
            rooms.push(RoomId(i));
            i = i + 1;
        }
        let mut spans: Vec<SpanId> = Vec::new();
        let mut i: usize = 0;
        while i < span_count
            invariant
                i <= span_count,
                spans@.len() == i as int,
                forall|j: int| 0 <= j < i ==> (#[trigger] spans@[j]).0 == j,
            decreases span_count - i,
        {
            spans.push(SpanId(i));
            i = i + 1;
        }
        let mut room_block_table: Vec<Vec<BlockId>> = Vec::new();
        let mut i: usize = 0;
        while i < room_count
            invariant
                i <= room_count,
                room_block_table@.len() == i as int,
                forall|j: int| 0 <= j < i ==> (#[trigger] room_block_table@[j])@.len() == 0,
            decreases room_count - i,
        {
            room_block_table.push(Vec::new());
            i = i + 1;
        }

        let mut blocks: Vec<BlockId> = Vec::new();
        let mut block_spans: Vec<usize> = Vec::new();
        let mut block_rooms: Vec<usize> = Vec::new();
        let mut block_span_positions: Vec<usize> = Vec::new();
        let mut span_block_table: Vec<Vec<BlockId>> = Vec::new();
        let mut s: usize = 0;
        while s < span_count
            invariant
                s <= span_count,
                room_count == sizes@.len(),
                blocks@.len() == block_spans@.len(),
                forall|k: int| 0 <= k < blocks@.len() ==> (#[trigger] blocks@[k]).0 == k,
                forall|k: int|
                    0 <= k < block_spans@.len() ==> (#[trigger] block_spans@[k] as int) < s as int,
                forall|k1: int, k2: int|
                    0 <= k1 < k2 < block_spans@.len() ==> (#[trigger] block_spans@[k1]) <= (
                    #[trigger] block_spans@[k2]),
                span_block_table@.len() == s as int,
                forall|t: int, j: int|
                    0 <= t < s as int && 0 <= j < (#[trigger] span_block_table@[t])@.len() ==> (
                    #[trigger] span_block_table@[t]@[j]).0 < blocks@.len()
                        && block_spans@[span_block_table@[t]@[j].0 as int] as int == t,
                forall|t: int|
                    0 <= t < s as int ==> (#[trigger] span_block_table@[t])@.len()
                        == count_covering(sizes@, t),
                room_block_table@.len() == room_count,
                forall|r: int|
                    0 <= r < room_count ==> (#[trigger] room_block_table@[r])@.len() == (if (
                    s as int) < sizes@[r] as int {
                        s as int
                    } else {
                        sizes@[r] as int
                    }),
                forall|r: int, j: int|
                    0 <= r < room_count && 0 <= j < (#[trigger] room_block_table@[r])@.len() ==> (
                    #[trigger] room_block_table@[r]@[j]).0 < blocks@.len()
                        && block_spans@[room_block_table@[r]@[j].0 as int] as int == j
                        && block_rooms@[room_block_table@[r]@[j].0 as int] as int == r,
                block_rooms@.len() == blocks@.len(),
                block_span_positions@.len() == blocks@.len(),
                blocks@.len() == covered_sum(sizes@, s as int),
                forall|k: int|
                    0 <= k < blocks@.len() ==> (#[trigger] block_rooms@[k] as int) < room_count,
                forall|k: int|
                    0 <= k < blocks@.len() ==> #[trigger] room_attributed(
                        blocks@,
                        block_spans@,
                        block_rooms@,
                        room_block_table@,
                        k,
                    ),
                forall|k: int|
                    0 <= k < blocks@.len() ==> (#[trigger] block_span_positions@[k] as int)
                        < span_block_table@[block_spans@[k] as int]@.len() && span_block_table@[
                    block_spans@[k] as int]@[block_span_positions@[k] as int] == blocks@[k],
                forall|t: int, j1: int, j2: int|
                    #![trigger span_block_table@[t]@[j1], span_block_table@[t]@[j2]]
                    0 <= t < s as int && 0 <= j1 < j2 < span_block_table@[t]@.len()
                        ==> span_block_table@[t]@[j1].0 < span_block_table@[t]@[j2].0,
            decreases span_count - s,
        {
            let mut row: Vec<BlockId> = Vec::new();
            let mut r: usize = 0;
            while r < room_count
                invariant
                    r <= room_count,
                    s < span_count,
                    room_count == sizes@.len(),
                    blocks@.len() == block_spans@.len(),
                    forall|k: int| 0 <= k < blocks@.len() ==> (#[trigger] blocks@[k]).0 == k,
                    forall|k: int|
                        0 <= k < block_spans@.len() ==> (#[trigger] block_spans@[k] as int)
                            <= s as int,
                    forall|k1: int, k2: int|
                        0 <= k1 < k2 < block_spans@.len() ==> (#[trigger] block_spans@[k1]) <= (
                        #[trigger] block_spans@[k2]),
                    span_block_table@.len() == s as int,
                    forall|t: int, j: int|
                        0 <= t < s as int && 0 <= j < (#[trigger] span_block_table@[t])@.len()
                            ==> (#[trigger] span_block_table@[t]@[j]).0 < blocks@.len()
                            && block_spans@[span_block_table@[t]@[j].0 as int] as int == t,
                    forall|t: int|
                        0 <= t < s as int ==> (#[trigger] span_block_table@[t])@.len()
                            == count_covering(sizes@, t),
                    row@.len() == count_covering(sizes@.subrange(0, r as int), s as int),
                    forall|j: int|
                        0 <= j < row@.len() ==> (#[trigger] row@[j]).0 < blocks@.len()
                            && block_spans@[row@[j].0 as int] as int == s as int,
                    room_block_table@.len() == room_count,
                    forall|rr: int|
                        0 <= rr < room_count ==> (#[trigger] room_block_table@[rr])@.len() == (if (
                        if rr < r as int {
                            s + 1
                        } else {
                            s as int
                        }) < sizes@[rr] as int {
                            (if rr < r as int {
                                s + 1
                            } else {
                                s as int
                            })
                        } else {
                            sizes@[rr] as int
                        }),
                    forall|rr: int, j: int|
                        0 <= rr < room_count && 0 <= j < (#[trigger] room_block_table@[rr])@.len()
                            ==> (#[trigger] room_block_table@[rr]@[j]).0 < blocks@.len()
                            && block_spans@[room_block_table@[rr]@[j].0 as int] as int == j
                            && block_rooms@[room_block_table@[rr]@[j].0 as int] as int == rr,
                    block_rooms@.len() == blocks@.len(),
                    block_span_positions@.len() == blocks@.len(),
                    blocks@.len() == covered_sum(sizes@, s as int) + count_covering(
                        sizes@.subrange(0, r as int),
                        s as int,
                    ),
                    forall|k: int|
                        0 <= k < blocks@.len() ==> (#[trigger] block_rooms@[k] as int)
                            < room_count,
                    forall|k: int|
                    0 <= k < blocks@.len() ==> #[trigger] room_attributed(
                        blocks@,
                        block_spans@,
                        block_rooms@,
                        room_block_table@,
                        k,
                    ),
                    forall|k: int|
                        0 <= k < blocks@.len() && (block_spans@[k] as int) < s as int ==> (
                        #[trigger] block_span_positions@[k] as int) < span_block_table@[
                        block_spans@[k] as int]@.len() && span_block_table@[
                        block_spans@[k] as int]@[block_span_positions@[k] as int] == blocks@[k],
                    forall|k: int|
                        0 <= k < blocks@.len() && block_spans@[k] as int == s as int ==> (
                        #[trigger] block_span_positions@[k] as int) < row@.len()
                            && row@[block_span_positions@[k] as int] == blocks@[k],
                    forall|t: int, j1: int, j2: int|
                        #![trigger span_block_table@[t]@[j1], span_block_table@[t]@[j2]]
                        0 <= t < s as int && 0 <= j1 < j2 < span_block_table@[t]@.len()
                            ==> span_block_table@[t]@[j1].0 < span_block_table@[t]@[j2].0,
                    forall|j1: int, j2: int|
                        #![trigger row@[j1], row@[j2]]
                        0 <= j1 < j2 < row@.len() ==> row@[j1].0 < row@[j2].0,
                decreases room_count - r,
            {
                proof {
                    assert(sizes@.subrange(0, r + 1).drop_last() =~= sizes@.subrange(0, r as int));
                    assert(sizes@.subrange(0, r + 1).last() == sizes@[r as int]);
                }
                if (sizes[r] as usize) > s {
                    let ghost pre_blocks = blocks@;
                    let ghost pre_spans = block_spans@;
                    let ghost pre_rooms = block_rooms@;
                    let ghost pre_table = room_block_table@;
                    let k = blocks.len();
                    blocks.push(BlockId(k));
                    block_spans.push(s);
                    block_rooms.push(r);
                    block_span_positions.push(row.len());
                    row.push(BlockId(k));
                    let mut room_row = copy_vec(&room_block_table[r]);
                    room_row.push(BlockId(k));
                    room_block_table.set(r, room_row);
                    proof {
                        assert forall|t: int|
                            0 <= t < blocks@.len() implies #[trigger] room_attributed(
                            blocks@,
                            block_spans@,
                            block_rooms@,
                            room_block_table@,
                            t,
                        ) by {
                            if t < pre_blocks.len() {
                                assert(room_attributed(
                                    pre_blocks,
                                    pre_spans,
                                    pre_rooms,
                                    pre_table,
                                    t,
                                ));
                                assert(blocks@[t] == pre_blocks[t]);
                                assert(block_spans@[t] == pre_spans[t]);
                                assert(block_rooms@[t] == pre_rooms[t]);
                                if pre_rooms[t] as int == r as int {
                                    assert(room_block_table@[r as int]@[pre_spans[t] as int]
                                        == pre_table[r as int]@[pre_spans[t] as int]);
                                } else {
                                    assert(room_block_table@[pre_rooms[t] as int]
                                        == pre_table[pre_rooms[t] as int]);
                                }
                            } else {
                                assert(blocks@[t] == BlockId(k));
                                assert(block_rooms@[t] == r);
                                assert(block_spans@[t] == s);
                                assert(pre_table[r as int]@.len() == s as int);
                                assert(room_block_table@[r as int]@[s as int] == BlockId(k));
                            }
                        }
                    }
                }
                r = r + 1;
            }
            proof {
                assert(sizes@.subrange(0, room_count as int) =~= sizes@);
            }
            span_block_table.push(row);
            s = s + 1;
        }
        let m = RoomMatrix {
            rooms,
            spans,
            blocks,
            room_block_table,
            span_block_table,
            block_spans,
            block_rooms,
            block_span_positions,
        };
        proof {
            assert forall|r: int| 0 <= r < room_count implies #[trigger] m.room_size(r)
                == sizes@[r] as int by {
                lemma_max_size_ge(sizes@, r);
            }
            lemma_covered_sum_total(sizes@, span_count as int);
            assert forall|k: int|
                #![trigger m.block_rooms@[k]]
                0 <= k < m.blocks@.len() implies (m.block_spans@[k] as int)
                < m.room_block_table@[m.block_rooms@[k] as int]@.len()
                && m.room_block_table@[m.block_rooms@[k] as int]@[m.block_spans@[k] as int]
                == m.blocks@[k] by {
                assert(room_attributed(
                    m.blocks@,
                    m.block_spans@,
                    m.block_rooms@,
                    m.room_block_table@,
                    k,
                ));
            }
        }
        m
    }
}

/// The ragged grid of schedulable blocks, with cached per-room and
/// per-span views.  Built once by `RoomMatrixBuilder`; read-only after.
pub struct RoomMatrix {
    /// One identifier per room, in insertion order.
    pub rooms: Vec<RoomId>,
    /// One identifier per time span.
    pub spans: Vec<SpanId>,
    /// Every block exactly once, span-major.
    pub blocks: Vec<BlockId>,
    /// The blocks of each room, ordered by span.
    pub room_block_table: Vec<Vec<BlockId>>,
    /// The blocks of each span, ordered by room.
    pub span_block_table: Vec<Vec<BlockId>>,
    /// The span each block belongs to.
    pub block_spans: Vec<usize>,
    /// The room each block belongs to.
    pub block_rooms: Vec<usize>,
    /// Where each block sits in its span's block list.
    pub block_span_positions: Vec<usize>,
}

impl RoomMatrix {
    pub open spec fn num_rooms(&self) -> int {
        self.rooms@.len() as int
    }

    pub open spec fn num_spans(&self) -> int {
        self.spans@.len() as int
    }

    pub open spec fn num_blocks(&self) -> int {
        self.blocks@.len() as int
    }

    /// The span that block `k` of the span-major order belongs to.
    pub open spec fn block_span(&self, k: int) -> int {
        self.block_spans@[k] as int
    }

    /// How many blocks room `r` has.
    pub open spec fn room_size(&self, r: int) -> int {
        self.room_block_table@[r]@.len() as int
    }

    /// How many blocks span `s` holds.
    pub open spec fn span_width(&self, s: int) -> int {
        self.span_block_table@[s]@.len() as int
    }

    /// Identifiers are dense, the span map is total and non-decreasing in
    /// the block order, and the cached per-room and per-span views agree
    /// with it.
    pub open spec fn wf(&self) -> bool {
        &&& forall|i: int| 0 <= i < self.rooms@.len() ==> (#[trigger] self.rooms@[i]).0 == i
        &&& forall|i: int| 0 <= i < self.spans@.len() ==> (#[trigger] self.spans@[i]).0 == i
        &&& forall|k: int| 0 <= k < self.blocks@.len() ==> (#[trigger] self.blocks@[k]).0 == k
        &&& self.block_spans@.len() == self.blocks@.len()
        &&& forall|k: int|
            0 <= k < self.block_spans@.len() ==> (#[trigger] self.block_spans@[k] as int)
                < self.spans@.len()
        &&& forall|k1: int, k2: int|
            0 <= k1 < k2 < self.block_spans@.len() ==> (#[trigger] self.block_spans@[k1]) <= (
            #[trigger] self.block_spans@[k2])
        &&& self.room_block_table@.len() == self.rooms@.len()
        &&& self.span_block_table@.len() == self.spans@.len()
        &&& forall|s: int, j: int|
            0 <= s < self.span_block_table@.len() && 0 <= j < (
            #[trigger] self.span_block_table@[s])@.len() ==> (
            #[trigger] self.span_block_table@[s]@[j]).0 < self.blocks@.len()
                && self.block_spans@[self.span_block_table@[s]@[j].0 as int] as int == s
        &&& forall|r: int, j: int|
            0 <= r < self.room_block_table@.len() && 0 <= j < (
            #[trigger] self.room_block_table@[r])@.len() ==> (
            #[trigger] self.room_block_table@[r]@[j]).0 < self.blocks@.len()
                && self.block_spans@[self.room_block_table@[r]@[j].0 as int] as int == j
                && self.block_rooms@[self.room_block_table@[r]@[j].0 as int] as int == r
        &&& self.block_rooms@.len() == self.blocks@.len()
        &&& self.block_span_positions@.len() == self.blocks@.len()
        &&& forall|k: int|
            0 <= k < self.blocks@.len() ==> (#[trigger] self.block_rooms@[k] as int)
                < self.rooms@.len()
        &&& forall|k: int|
            #![trigger self.block_rooms@[k]]
            0 <= k < self.blocks@.len() ==> (self.block_spans@[k] as int)
                < self.room_block_table@[self.block_rooms@[k] as int]@.len()
                && self.room_block_table@[self.block_rooms@[k] as int]@[self.block_spans@[k] as int]
                == self.blocks@[k]
        &&& forall|k: int|
            0 <= k < self.blocks@.len() ==> (#[trigger] self.block_span_positions@[k] as int)
                < self.span_block_table@[self.block_spans@[k] as int]@.len()
                && self.span_block_table@[self.block_spans@[k] as int]@[self.block_span_positions@[k] as int]
                == self.blocks@[k]
        &&& forall|s: int, j1: int, j2: int|
            #![trigger self.span_block_table@[s]@[j1], self.span_block_table@[s]@[j2]]
            0 <= s < self.span_block_table@.len() && 0 <= j1 < j2 < self.span_block_table@[s]@.len()
                ==> self.span_block_table@[s]@[j1].0 < self.span_block_table@[s]@[j2].0
    }

    /// A fresh builder.
    pub fn builder() -> (r: RoomMatrixBuilder)
        ensures
            r.blocks@.len() == 0,
    {
        RoomMatrixBuilder::default()
    }

    /// The rooms, in insertion order.
    pub fn rooms(&self) -> (r: &[RoomId])
        ensures
            r@ == self.rooms@,
    {
        self.rooms.as_slice()
    }

    /// The time spans.
    pub fn spans(&self) -> (r: &[SpanId])
        ensures
            r@ == self.spans@,
    {
        self.spans.as_slice()
    }

    /// Every schedulable block, span-major, each exactly once.
    pub fn blocks(&self) -> (r: &[BlockId])
        ensures
            r@ == self.blocks@,
    {
        self.blocks.as_slice()
    }

    /// The blocks of one room, ordered by span.
    pub fn iter_room_blocks(&self, room_id: RoomId) -> (r: &[BlockId])
        requires
            self.wf(),
            room_id.0 < self.num_rooms(),
        ensures
            r@ == self.room_block_table@[room_id.0 as int]@,
    {
        self.room_block_table[room_id.0].as_slice()
    }

    /// The blocks of one span, ordered by room.
    pub fn iter_span_blocks(&self, span_id: SpanId) -> (r: &[BlockId])
        requires
            self.wf(),
            span_id.0 < self.num_spans(),
        ensures
            r@ == self.span_block_table@[span_id.0 as int]@,
    {
        self.span_block_table[span_id.0].as_slice()
    }
}

/// A block occupies exactly one cell of the per-room view: the room it
/// is attributed to, at the position given by its span.  Two distinct
/// rooms therefore share no block.
pub proof fn lemma_room_cells_unique(m: RoomMatrix, r1: int, j1: int, r2: int, j2: int)
    requires
        m.wf(),
        0 <= r1 < m.num_rooms(),
        0 <= j1 < m.room_size(r1),
        0 <= r2 < m.num_rooms(),
        0 <= j2 < m.room_size(r2),
        m.room_block_table@[r1]@[j1] == m.room_block_table@[r2]@[j2],
    ensures
        r1 == r2,
        j1 == j2,
{
    let k = m.room_block_table@[r1]@[j1].0 as int;
    assert(m.block_rooms@[k] as int == r1);
    assert(m.block_rooms@[k] as int == r2);
    assert(m.block_spans@[k] as int == j1);
    assert(m.block_spans@[k] as int == j2);
}

/// A block occupies exactly one cell of the per-span view: the row of
/// its span, at its recorded position.  Two distinct spans therefore
/// share no block, and no row repeats one.
pub proof fn lemma_span_cells_unique(m: RoomMatrix, s1: int, j1: int, s2: int, j2: int)
    requires
        m.wf(),
        0 <= s1 < m.num_spans(),
        0 <= j1 < m.span_width(s1),
        0 <= s2 < m.num_spans(),
        0 <= j2 < m.span_width(s2),
        m.span_block_table@[s1]@[j1] == m.span_block_table@[s2]@[j2],
    ensures
        s1 == s2,
        j1 == j2,
{
    let k = m.span_block_table@[s1]@[j1].0 as int;
    assert(m.block_spans@[k] as int == s1);
    assert(m.block_spans@[k] as int == s2);
    if j1 < j2 {
        assert(m.span_block_table@[s1]@[j1].0 < m.span_block_table@[s1]@[j2].0);
    }
    if j2 < j1 {
        assert(m.span_block_table@[s1]@[j2].0 < m.span_block_table@[s1]@[j1].0);
    }
}

/// A finished mapping of bands to rooms.
pub struct Schedule {
    /// Which room each band was placed in.
    pub assign_table: Vec<(BandId, RoomId)>,
}

} // verus!
