//! Scoring hooks over finished assignments.  Scores never steer the
//! enumeration; they only rank its results.

use vstd::prelude::*;

use super::live_info::LiveInfo;
use super::masks::pop_count;
use crate::{BandId, RoomId};

verus! {

/// `pop_count` never exceeds its argument.
proof fn lemma_pop_count_le(x: u64)
    ensures
        pop_count(x) <= x,
    decreases x,
{
    if x != 0 {
        lemma_pop_count_le(x / 2);
        assert(x % 2 + x / 2 <= x) by (nonlinear_arith)
            requires
                x >= 1,
        ;
    }
}

/// How many bits `a` and `b` share.
pub open spec fn overlap(a: u64, b: u64) -> nat {
    pop_count(a & b)
}

/// The shared members of each consecutive pair of bands in one room.
pub open spec fn room_coherency(bands: Seq<BandId>, hashes: Seq<u64>) -> nat
    decreases bands.len(),
{
    if bands.len() < 2 {
        0
    } else {
        room_coherency(bands.drop_last(), hashes) + overlap(
            hashes[bands[bands.len() - 2].0 as int],
            hashes[bands[bands.len() - 1].0 as int],
        )
    }
}

/// The coherency of every room, added up.
pub open spec fn total_coherency(assign: Seq<(RoomId, Vec<BandId>)>, hashes: Seq<u64>) -> nat
    decreases assign.len(),
{
    if assign.len() == 0 {
        0
    } else {
        total_coherency(assign.drop_last(), hashes) + room_coherency(
            assign.last().1@,
            hashes,
        )
    }
}

/// Every band of the assignment is one the hash table knows.
pub open spec fn assign_in_table(assign: Seq<(RoomId, Vec<BandId>)>, hashes: Seq<u64>) -> bool {
    forall|i: int, j: int|
        0 <= i < assign.len() && 0 <= j < assign[i].1@.len() ==> ((
        #[trigger] assign[i].1@[j]).0 as int) < hashes.len()
}

/// How many bits of `x` are set.
fn pop_count_u64(x: u64) -> (c: u64)
    ensures
        c == pop_count(x),
{
    proof {
        lemma_pop_count_le(x);
    }
    let mut c: u64 = 0;
    let mut v: u64 = x;
    while v != 0
        invariant
            c + pop_count(v) == pop_count(x),
            pop_count(v) <= v,
            pop_count(x) <= x,
        decreases v,
    {
        proof {
            lemma_pop_count_le(v / 2);
        }
        c = c + v % 2;
        v = v / 2;
    }
    c
}

/// The block index where room-major counting reaches the end of slice
/// `i` of the legacy flat layout (the sizes of slices `0..=i` added up).
pub open spec fn offset_of(rooms: Seq<u32>, i: int) -> int
    decreases i + 1,
{
    if i < 0 || i >= rooms.len() {
        0
    } else {
        offset_of(rooms, i - 1) + rooms[i]
    }
}

/// The largest slice size.
pub open spec fn max_room(rooms: Seq<u32>) -> int
    decreases rooms.len(),
{
    if rooms.len() == 0 {
        0
    } else {
        let rest = max_room(rooms.drop_last());
        if rooms.last() as int > rest {
            rooms.last() as int
        } else {
            rest
        }
    }
}

/// What position `r` of slices `t` and `t + 1` contribute: the shared
/// members of the two bands laid there, nothing when either side runs
/// past the permutation or names no band.
pub open spec fn cross_score(
    rooms: Seq<u32>,
    idx: Seq<usize>,
    live: LiveInfo,
    t: int,
    r: int,
) -> nat {
    let ka = offset_of(rooms, t) + r;
    let kb = offset_of(rooms, t + 1) + r;
    if 0 <= ka < idx.len() && 0 <= kb < idx.len() && (idx[ka] as int) < live.band_count() && (idx[
        kb] as int) < live.band_count() {
        overlap(live.band_hash_spec(idx[ka] as int), live.band_hash_spec(idx[kb] as int))
    } else {
        0
    }
}

/// The contributions of positions `0..r` of one slice pair.
pub open spec fn row_score(rooms: Seq<u32>, idx: Seq<usize>, live: LiveInfo, t: int, r: int) -> nat
    decreases r,
{
    if r <= 0 {
        0
    } else {
        row_score(rooms, idx, live, t, r - 1) + cross_score(rooms, idx, live, t, r - 1)
    }
}

/// The contributions of slice pairs `0..t`.
pub open spec fn eval_score(rooms: Seq<u32>, idx: Seq<usize>, live: LiveInfo, t: int) -> nat
    decreases t,
{
    if t <= 0 {
        0
    } else {
        eval_score(rooms, idx, live, t - 1) + row_score(
            rooms,
            idx,
            live,
            t - 1,
            max_room(rooms),
        )
    }
}

/// A prefix's largest slice never exceeds the whole list's.
proof fn lemma_max_room_prefix(rooms: Seq<u32>, i: int)
    requires
        0 <= i <= rooms.len(),
    ensures
        max_room(rooms.subrange(0, i)) <= max_room(rooms),
    decreases rooms.len() - i,
{
    if i < rooms.len() {
        lemma_max_room_prefix(rooms, i + 1);
        assert(rooms.subrange(0, i + 1).drop_last() =~= rooms.subrange(0, i));
    } else {
        assert(rooms.subrange(0, i) =~= rooms);
    }
}

/// Offsets never shrink along the slices.
proof fn lemma_offset_monotone(rooms: Seq<u32>, i: int, j: int)
    requires
        i <= j < rooms.len(),
    ensures
        offset_of(rooms, i) <= offset_of(rooms, j),
    decreases j - i,
{
    if i < j {
        lemma_offset_monotone(rooms, i, j - 1);
    }
}

/// Offsets are never negative.
proof fn lemma_offset_nonneg(rooms: Seq<u32>, i: int)
    ensures
        offset_of(rooms, i) >= 0,
    decreases i + 1,
{
    if 0 <= i < rooms.len() {
        lemma_offset_nonneg(rooms, i - 1);
    }
}

/// Rows already counted never exceed the slice pair's total.
proof fn lemma_row_prefix(rooms: Seq<u32>, idx: Seq<usize>, live: LiveInfo, t: int, r: int, m: int)
    requires
        0 <= r <= m,
    ensures
        row_score(rooms, idx, live, t, r) <= row_score(rooms, idx, live, t, m),
    decreases m - r,
{
    if r < m {
        lemma_row_prefix(rooms, idx, live, t, r + 1, m);
    }
}

/// Slice pairs already counted never exceed the whole score.
proof fn lemma_eval_prefix(rooms: Seq<u32>, idx: Seq<usize>, live: LiveInfo, t: int, m: int)
    requires
        0 <= t <= m,
    ensures
        eval_score(rooms, idx, live, t) <= eval_score(rooms, idx, live, m),
    decreases m - t,
{
    if t < m {
        lemma_eval_prefix(rooms, idx, live, t + 1, m);
    }
}

/// Ranks finished assignments.
pub struct Evaluator;

impl Evaluator {
    /// Shared members of the bands laid at the same position of adjacent
    /// slices of the legacy flat layout, added up over every slice pair.
    pub fn evaluate(rooms: &[u32], indicies: &[usize], live_info: &LiveInfo) -> (r: u32)
        requires
            rooms@.len() >= 1,
            live_info.wf(),
            offset_of(rooms@, rooms@.len() - 1) + max_room(rooms@) <= usize::MAX,
            eval_score(rooms@, indicies@, *live_info, rooms@.len() - 1) <= u32::MAX,
        ensures
            r == eval_score(rooms@, indicies@, *live_info, rooms@.len() - 1),
    {
        let band_count = live_info.band_ids.len();
        let nt = rooms.len() - 1;
        let mut mx: usize = 0;
        let mut i: usize = 0;
        while i < rooms.len()
            invariant
                i <= rooms@.len(),
                mx as int == max_room(rooms@.subrange(0, i as int)),
                mx as int <= max_room(rooms@),
            decreases rooms@.len() - i,
        {
            proof {
                assert(rooms@.subrange(0, i + 1).drop_last() =~= rooms@.subrange(0, i as int));
                assert(rooms@.subrange(0, i + 1).last() == rooms@[i as int]);
                lemma_max_room_prefix(rooms@, i + 1);
            }
            if (rooms[i] as usize) > mx {
                mx = rooms[i] as usize;
            }
            i = i + 1;
        }
        proof {
            assert(rooms@.subrange(0, rooms@.len() as int) =~= rooms@);
        }
        let mut offsets: Vec<usize> = Vec::new();
        let mut acc: usize = 0;
        let mut i: usize = 0;
        while i < rooms.len()
            invariant
                i <= rooms@.len(),
                offsets@.len() == i as int,
                acc as int == offset_of(rooms@, i as int - 1),
                forall|j: int| 0 <= j < i ==> (#[trigger] offsets@[j] as int) == offset_of(
                    rooms@,
                    j,
                ),
                offset_of(rooms@, rooms@.len() - 1) <= usize::MAX,
            decreases rooms@.len() - i,
        {
            proof {
                lemma_offset_monotone(rooms@, i as int, rooms@.len() - 1);
            }
            acc = acc + rooms[i] as usize;
            offsets.push(acc);
            i = i + 1;
        }
        let mut score: u64 = 0;
        let mut t: usize = 0;
        while t < nt
            invariant
                t <= nt,
                nt == rooms@.len() - 1,
                rooms@.len() >= 1,
                band_count as int == live_info.band_count(),
                live_info.wf(),
                mx as int == max_room(rooms@),
                offsets@.len() == rooms@.len(),
                forall|j: int| 0 <= j < rooms@.len() ==> (#[trigger] offsets@[j] as int)
                    == offset_of(rooms@, j),
                offset_of(rooms@, rooms@.len() - 1) + max_room(rooms@) <= usize::MAX,
                eval_score(rooms@, indicies@, *live_info, nt as int) <= u32::MAX,
                score == eval_score(rooms@, indicies@, *live_info, t as int),
                score <= u32::MAX,
            decreases nt - t,
        {
            proof {
                assert(eval_score(rooms@, indicies@, *live_info, t as int + 1) == eval_score(
                    rooms@,
                    indicies@,
                    *live_info,
                    t as int,
                ) + row_score(rooms@, indicies@, *live_info, t as int, max_room(rooms@)));
                lemma_eval_prefix(rooms@, indicies@, *live_info, t as int + 1, nt as int);
            }
            let mut row: u64 = 0;
            let mut r: usize = 0;
            while r < mx
                invariant
                    r <= mx,
                    t < nt,
                    nt == rooms@.len() - 1,
                    band_count as int == live_info.band_count(),
                    live_info.wf(),
                    mx as int == max_room(rooms@),
                    offsets@.len() == rooms@.len(),
                    forall|j: int| 0 <= j < rooms@.len() ==> (#[trigger] offsets@[j] as int)
                        == offset_of(rooms@, j),
                    offset_of(rooms@, rooms@.len() - 1) + max_room(rooms@) <= usize::MAX,
                    eval_score(rooms@, indicies@, *live_info, nt as int) <= u32::MAX,
                    eval_score(rooms@, indicies@, *live_info, t as int) + row_score(
                        rooms@,
                        indicies@,
                        *live_info,
                        t as int,
                        mx as int,
                    ) <= u32::MAX,
                    row == row_score(rooms@, indicies@, *live_info, t as int, r as int),
                decreases mx - r,
            {
                proof {
                    lemma_offset_monotone(rooms@, t as int, rooms@.len() - 1);
                    lemma_offset_monotone(rooms@, t as int + 1, rooms@.len() - 1);
                    lemma_offset_nonneg(rooms@, t as int);
                    lemma_offset_nonneg(rooms@, t as int + 1);
                    lemma_row_prefix(rooms@, indicies@, *live_info, t as int, r + 1, mx as int);
                }
                let ka = offsets[t] + r;
                let kb = offsets[t + 1] + r;
                let mut add: u64 = 0;
                if ka < indicies.len() && kb < indicies.len() {
                    let a = indicies[ka];
                    let b = indicies[kb];
                    if a < band_count && b < band_count {
                        add = pop_count_u64(live_info.band_hashes[a] & live_info.band_hashes[b]);
                    }
                }
                proof {
                    assert(add == cross_score(rooms@, indicies@, *live_info, t as int, r as int));
                }
                row = row + add;
                r = r + 1;
            }
            proof {
                lemma_eval_prefix(rooms@, indicies@, *live_info, t as int + 1, nt as int);
            }
            score = score + row;
            t = t + 1;
        }
        score as u32
    }
    /// How tightly the rooms are packed.  Not scored yet: every
    /// assignment ranks alike.
    pub fn evaluate_room_density(room_assign: &Vec<(RoomId, Vec<BandId>)>) -> (r: i32)
        ensures
            r == 0,
    {
        0
    }

    /// How little the musicians have to move: the shared members of
    /// every pair of back-to-back bands, counted over all rooms.
    pub fn evaluate_user_coherency(
        room_assign: &Vec<(RoomId, Vec<BandId>)>,
        band_hash_table: &Vec<u64>,
    ) -> (r: u32)
        requires
            assign_in_table(room_assign@, band_hash_table@),
            total_coherency(room_assign@, band_hash_table@) <= u32::MAX,
        ensures
            r == total_coherency(room_assign@, band_hash_table@),
    {
        let mut score: u64 = 0;
        let mut i: usize = 0;
        while i < room_assign.len()
            invariant
                i <= room_assign@.len(),
                assign_in_table(room_assign@, band_hash_table@),
                total_coherency(room_assign@, band_hash_table@) <= u32::MAX,
                score == total_coherency(room_assign@.subrange(0, i as int), band_hash_table@),
                score <= u32::MAX,
            decreases room_assign@.len() - i,
        {
            let bands = &room_assign[i].1;
            proof {
                lemma_room_le_total(room_assign@, band_hash_table@, i as int);
            }
            let mut j: usize = 1;
            let mut room_score: u64 = 0;
            while j < bands.len()
                invariant
                    1 <= j,
                    j <= bands@.len() || j == 1,
                    bands@ == room_assign@[i as int].1@,
                    i < room_assign@.len(),
                    assign_in_table(room_assign@, band_hash_table@),
                    room_coherency(bands@, band_hash_table@) <= u32::MAX,
                    bands@.len() >= 1 ==> room_score == room_coherency(
                        bands@.subrange(0, j as int),
                        band_hash_table@,
                    ),
                    bands@.len() < 1 ==> room_score == 0,
                decreases bands@.len() - j,
            {
                proof {
                    assert(((room_assign@[i as int].1@[j as int]).0 as int)
                        < band_hash_table@.len());
                    assert(((room_assign@[i as int].1@[j - 1]).0 as int)
                        < band_hash_table@.len());
                }
                let a = band_hash_table[bands[j - 1].0];
                let b = band_hash_table[bands[j].0];
                let o = pop_count_u64(a & b);
                proof {
                    lemma_room_coherency_step(bands@, band_hash_table@, j as int);
                    lemma_room_prefix_le(bands@, band_hash_table@, j + 1);
                }
                room_score = room_score + o;
                j = j + 1;
            }
            proof {
                if bands@.len() >= 1 {
                    assert(bands@.subrange(0, bands@.len() as int) =~= bands@);
                } else {
                    assert(room_coherency(bands@, band_hash_table@) == 0);
                }
                assert(room_score == room_coherency(bands@, band_hash_table@));
                assert(room_assign@.subrange(0, i + 1).drop_last() =~= room_assign@.subrange(
                    0,
                    i as int,
                ));
                assert(room_assign@.subrange(0, i + 1).last() == room_assign@[i as int]);
                lemma_total_prefix_le(room_assign@, band_hash_table@, i + 1);
            }
            score = score + room_score;
            i = i + 1;
        }
        proof {
            assert(room_assign@.subrange(0, room_assign@.len() as int) =~= room_assign@);
        }
        score as u32
    }
}

/// A prefix of a room's pairs never scores more than all of them.
proof fn lemma_room_prefix_le(bands: Seq<BandId>, hashes: Seq<u64>, j: int)
    requires
        0 <= j <= bands.len(),
    ensures
        room_coherency(bands.subrange(0, j), hashes) <= room_coherency(bands, hashes),
    decreases bands.len() - j,
{
    if j < bands.len() {
        lemma_room_prefix_le(bands, hashes, j + 1);
        if j >= 1 {
            lemma_room_coherency_step(bands, hashes, j);
        } else {
            assert(room_coherency(bands.subrange(0, 0), hashes) == 0);
        }
    } else {
        assert(bands.subrange(0, j) =~= bands);
    }
}

/// One room scores no more than the whole assignment.
proof fn lemma_room_le_total(assign: Seq<(RoomId, Vec<BandId>)>, hashes: Seq<u64>, i: int)
    requires
        0 <= i < assign.len(),
    ensures
        room_coherency(assign[i].1@, hashes) <= total_coherency(assign, hashes),
    decreases assign.len(),
{
    if i == assign.len() - 1 {
        assert(assign.last() == assign[i]);
    } else {
        assert forall|t: int| 0 <= t < assign.drop_last().len() implies assign.drop_last()[t]
            == assign[t] by {}
        lemma_room_le_total(assign.drop_last(), hashes, i);
    }
}

/// Splitting a room's coherency at pair `j`.
proof fn lemma_room_coherency_step(bands: Seq<BandId>, hashes: Seq<u64>, j: int)
    requires
        1 <= j < bands.len(),
    ensures
        room_coherency(bands.subrange(0, j + 1), hashes) == room_coherency(
            bands.subrange(0, j),
            hashes,
        ) + overlap(hashes[bands[j - 1].0 as int], hashes[bands[j].0 as int]),
{
    let pre = bands.subrange(0, j + 1);
    assert(pre.drop_last() =~= bands.subrange(0, j));
    assert(pre[pre.len() - 2] == bands[j - 1]);
    assert(pre[pre.len() - 1] == bands[j]);
}

/// A prefix of the rooms never scores more than all of them.
proof fn lemma_total_prefix_le(assign: Seq<(RoomId, Vec<BandId>)>, hashes: Seq<u64>, i: int)
    requires
        0 <= i <= assign.len(),
    ensures
        total_coherency(assign.subrange(0, i), hashes) <= total_coherency(assign, hashes),
    decreases assign.len() - i,
{
    if i < assign.len() {
        lemma_total_prefix_le(assign, hashes, i + 1);
        assert(assign.subrange(0, i + 1).drop_last() =~= assign.subrange(0, i));
    } else {
        assert(assign.subrange(0, i) =~= assign);
    }
}

} // verus!
