//! The interned, denormalised view of bands, musicians and schedules that
//! the scheduler searches over.
//!
//! Band and musician names are interned to dense identifiers (sorted by
//! name), each musician gets one bit of a 64-bit mask, each band the OR of
//! its members' bits — so "two bands share a musician" is one AND — and
//! each block of the room matrix gets the precomputed set of bands whose
//! availability admits the block's span.

use vstd::prelude::*;
use vstd::seq_lib::group_seq_properties;

use super::definition::RoomMatrix;
use crate::text_order::{
    chars_lt, contains_name, insert_name, name_position, strictly_sorted_names,
};
use crate::{BandId, BlockId, UserId};

verus! {

/// Why `create_live_info` refused its inputs.
#[derive(Clone, Copy, Debug, PartialEq, Eq, Structural)]
pub enum LiveInfoError {
    /// More distinct musicians than bits in the conflict mask.
    CapacityOverflow,
    /// The band and schedule tables do not describe the same bands, repeat
    /// a name, or a schedule is shorter than the span count.
    InputInconsistency,
}

/// Notification target of the span-parallel enumeration driver.
/// `notified` is the trace of rows it has received.
pub trait IParallelTreeCallback {
    /// The rows received so far.  A verified observer must override
    /// this with its real trace — with the default (constantly empty)
    /// trace no implementation can satisfy the method contract below.
    /// The default exists only so that unverified observers outside the
    /// proofs can implement the trait without a trace.
    open spec fn notified(&self) -> Seq<Seq<usize>> {
        Seq::empty()
    }

    fn notify(&mut self, indicies: &[usize])
        ensures
            final(self).notified() == old(self).notified().push(indicies@),
    ;
}

/// A band as parsed from an ingestion source.
pub struct BandSchedule {
    /// Band name.
    pub name: String,
    /// Availability, one flag per span.
    pub is_available: Vec<bool>,
    /// Member names.
    pub members: Vec<String>,
}

/// No two entries carry the same name.
pub open spec fn entry_names_distinct<T>(table: Seq<(String, T)>) -> bool {
    forall|i: int, j: int|
        0 <= i < j < table.len() ==> (#[trigger] table[i]).0@ != (#[trigger] table[j]).0@
}

/// Some entry carries exactly this name.
pub open spec fn has_entry<T>(table: Seq<(String, T)>, x: Seq<char>) -> bool {
    exists|i: int| 0 <= i < table.len() && (#[trigger] table[i]).0@ == x
}

/// `x` is the name of a member of some band.
pub open spec fn is_member_name(bands: Seq<(String, Vec<String>)>, x: Seq<char>) -> bool {
    exists|i: int, j: int|
        0 <= i < bands.len() && 0 <= j < bands[i].1@.len() && (#[trigger] bands[i].1@[j])@ == x
}

/// All distinct member names across the bands.
pub open spec fn member_name_set(bands: Seq<(String, Vec<String>)>) -> Set<Seq<char>>
    decreases bands.len(),
{
    if bands.len() == 0 {
        Set::empty()
    } else {
        member_name_set(bands.drop_last()).union(names_set_of(bands.last().1@))
    }
}

/// The names of one member list, as a set.
pub open spec fn names_set_of(ms: Seq<String>) -> Set<Seq<char>> {
    ms.map_values(|s: String| s@).to_set()
}

/// Membership in `member_name_set` is exactly `is_member_name`.
pub proof fn lemma_member_name_set(bands: Seq<(String, Vec<String>)>, x: Seq<char>)
    ensures
        member_name_set(bands).contains(x) == is_member_name(bands, x),
    decreases bands.len(),
{
    broadcast use group_seq_properties;

    if bands.len() > 0 {
        lemma_member_name_set(bands.drop_last(), x);
        let last = bands.last();
        let mapped = last.1@.map_values(|s: String| s@);
        assert(names_set_of(last.1@).contains(x) == mapped.contains(x));
        if mapped.contains(x) {
            let j = choose|j: int| 0 <= j < mapped.len() && mapped[j] == x;
            assert(bands[bands.len() - 1].1@[j]@ == x);
            assert(is_member_name(bands, x));
        }
        if is_member_name(bands.drop_last(), x) {
            let (i, j) = choose|i: int, j: int|
                0 <= i < bands.drop_last().len() && 0 <= j < bands.drop_last()[i].1@.len() && (
                #[trigger] bands.drop_last()[i].1@[j])@ == x;
            assert(bands[i].1@[j]@ == x);
            assert(is_member_name(bands, x));
        }
        if is_member_name(bands, x) {
            let (i, j) = choose|i: int, j: int|
                0 <= i < bands.len() && 0 <= j < bands[i].1@.len() && (
                #[trigger] bands[i].1@[j])@ == x;
            if i < bands.len() - 1 {
                assert(bands.drop_last()[i].1@[j]@ == x);
                assert(is_member_name(bands.drop_last(), x));
            } else {
                assert(mapped[j] == x);
                assert(mapped.contains(x));
            }
        }
    }
}

/// The bit a musician occupies in every band mask.
pub open spec fn user_bit(u: UserId) -> u64 {
    if u.0 < 64 {
        (1u64 << u.0)
    } else {
        0u64
    }
}

/// The conflict mask of a member list: the OR of the members' bits.
pub open spec fn mask_of(members: Seq<UserId>) -> u64
    decreases members.len(),
{
    if members.len() == 0 {
        0u64
    } else {
        mask_of(members.drop_last()) | user_bit(members.last())
    }
}

/// The band and schedule tables name the same bands, once each, and every
/// schedule covers every span.
pub open spec fn tables_consistent(
    bands: Seq<(String, Vec<String>)>,
    scheds: Seq<(String, Vec<bool>)>,
    span_count: int,
) -> bool {
    &&& entry_names_distinct(bands)
    &&& entry_names_distinct(scheds)
    &&& forall|i: int| 0 <= i < bands.len() ==> has_entry(scheds, (#[trigger] bands[i]).0@)
    &&& forall|i: int| 0 <= i < scheds.len() ==> has_entry(bands, (#[trigger] scheds[i]).0@)
    &&& forall|i: int| 0 <= i < scheds.len() ==> (#[trigger] scheds[i]).1@.len() >= span_count
}

/// A pushed entry extends the names a table carries by exactly its own.
proof fn lemma_has_entry_push<T>(t: Seq<(String, T)>, e: (String, T), x: Seq<char>)
    ensures
        has_entry(t.push(e), x) == (has_entry(t, x) || e.0@ == x),
{
    if has_entry(t, x) {
        let j = choose|j: int| 0 <= j < t.len() && (#[trigger] t[j]).0@ == x;
        assert(t.push(e)[j].0@ == x);
    }
    if e.0@ == x {
        assert(t.push(e)[t.len() as int].0@ == x);
    }
    if has_entry(t.push(e), x) {
        let j = choose|j: int| 0 <= j < t.push(e).len() && (#[trigger] t.push(e)[j]).0@ == x;
        if j < t.len() {
            assert(t[j].0@ == x);
        }
    }
}

/// A pushed band adds exactly its own members' names.
proof fn lemma_member_push(
    t: Seq<(String, Vec<String>)>,
    e: (String, Vec<String>),
    x: Seq<char>,
)
    ensures
        is_member_name(t.push(e), x) == (is_member_name(t, x) || contains_name(e.1@, x)),
{
    if is_member_name(t, x) {
        let (i, j) = choose|i: int, j: int|
            0 <= i < t.len() && 0 <= j < t[i].1@.len() && (#[trigger] t[i].1@[j])@ == x;
        assert(t.push(e)[i].1@[j]@ == x);
    }
    if contains_name(e.1@, x) {
        let j = choose|j: int| 0 <= j < e.1@.len() && (#[trigger] e.1@[j])@ == x;
        assert(t.push(e)[t.len() as int].1@[j]@ == x);
    }
    if is_member_name(t.push(e), x) {
        let (i, j) = choose|i: int, j: int|
            0 <= i < t.push(e).len() && 0 <= j < t.push(e)[i].1@.len() && (
            #[trigger] t.push(e)[i].1@[j])@ == x;
        if i < t.len() {
            assert(t[i].1@[j]@ == x);
        } else {
            assert(e.1@[j]@ == x);
        }
    }
}

/// Intern the band names, sorted; a repeated name is refused.
fn collect_band_names(band_table: &Vec<(String, Vec<String>)>) -> (r: Result<
    Vec<String>,
    LiveInfoError,
>)
    ensures
        match r {
            Ok(names) => {
                &&& entry_names_distinct(band_table@)
                &&& strictly_sorted_names(names@)
                &&& names@.len() == band_table@.len()
                &&& forall|x: Seq<char>|
                    #![trigger contains_name(names@, x)]
                    contains_name(names@, x) <==> has_entry(band_table@, x)
            },
            Err(e) => e == LiveInfoError::InputInconsistency && !entry_names_distinct(band_table@),
        },
{
    let mut names: Vec<String> = Vec::new();
    let mut i: usize = 0;
    while i < band_table.len()
        invariant
            i <= band_table@.len(),
            strictly_sorted_names(names@),
            names@.len() == i as int,
            entry_names_distinct(band_table@.subrange(0, i as int)),
            forall|x: Seq<char>|
                #![trigger contains_name(names@, x)]
                contains_name(names@, x) <==> has_entry(band_table@.subrange(0, i as int), x),
        decreases band_table@.len() - i,
    {
        let ghost prefix = band_table@.subrange(0, i as int);
        let existed = insert_name(&mut names, &band_table[i].0);
        proof {
            assert(band_table@.subrange(0, i + 1) =~= prefix.push(band_table@[i as int]));
            lemma_has_entry_push(prefix, band_table@[i as int], band_table@[i as int].0@);
        }
        if existed {
            proof {
                let j = choose|j: int|
                    0 <= j < prefix.len() && (#[trigger] prefix[j]).0@ == band_table@[i as int].0@;
                assert(band_table@[j].0@ == band_table@[i as int].0@);
            }
            return Err(LiveInfoError::InputInconsistency);
        }
        proof {
            assert forall|a: int, b: int|
                0 <= a < b < band_table@.subrange(0, i + 1).len() implies (
            #[trigger] band_table@.subrange(0, i + 1)[a]).0@ != (#[trigger] band_table@.subrange(
                0,
                i + 1,
            )[b]).0@ by {
                if b < i as int {
                    assert(prefix[a].0@ != prefix[b].0@);
                } else {
                    assert(band_table@.subrange(0, i + 1)[a] == prefix[a]);
                    assert(!contains_name(names@, band_table@[i as int].0@)
                        || contains_name(names@, band_table@[i as int].0@));
                    if prefix[a].0@ == band_table@[i as int].0@ {
                        assert(has_entry(prefix, band_table@[i as int].0@));
                    }
                }
            }
            assert forall|x: Seq<char>|
                #![trigger contains_name(names@, x)]
                contains_name(names@, x) <==> has_entry(
                band_table@.subrange(0, i + 1),
                x,
            ) by {
                lemma_has_entry_push(prefix, band_table@[i as int], x);
            }
        }
        i = i + 1;
    }
    proof {
        assert(band_table@.subrange(0, band_table@.len() as int) =~= band_table@);
    }
    Ok(names)
}

/// Intern every member name, sorted and without repetition.
fn collect_user_names(band_table: &Vec<(String, Vec<String>)>) -> (names: Vec<String>)
    ensures
        strictly_sorted_names(names@),
        forall|x: Seq<char>|
            #![trigger contains_name(names@, x)]
            contains_name(names@, x) <==> is_member_name(band_table@, x),
{
    let mut names: Vec<String> = Vec::new();
    let mut i: usize = 0;
    while i < band_table.len()
        invariant
            i <= band_table@.len(),
            strictly_sorted_names(names@),
            forall|x: Seq<char>|
                #![trigger contains_name(names@, x)]
                contains_name(names@, x) <==> is_member_name(band_table@.subrange(0, i as int), x),
        decreases band_table@.len() - i,
    {
        let ghost prefix = band_table@.subrange(0, i as int);
        let members = &band_table[i].1;
        let mut j: usize = 0;
        while j < members.len()
            invariant
                j <= members@.len(),
                members@ == band_table@[i as int].1@,
                i < band_table@.len(),
                strictly_sorted_names(names@),
                forall|x: Seq<char>|
                    #![trigger contains_name(names@, x)]
                    contains_name(names@, x) <==> is_member_name(
                        band_table@.subrange(0, i as int),
                        x,
                    ) || contains_name(members@.subrange(0, j as int), x),
            decreases members@.len() - j,
        {
            insert_name(&mut names, &members[j]);
            proof {
                let ghost mp = members@.subrange(0, j as int);
                assert(members@.subrange(0, j + 1) =~= mp.push(members@[j as int]));
                assert forall|x: Seq<char>|
                    #![trigger contains_name(names@, x)]
                    contains_name(names@, x) <==> is_member_name(
                        band_table@.subrange(0, i as int),
                        x,
                    ) || contains_name(members@.subrange(0, j + 1), x) by {
                    if contains_name(mp, x) {
                        let t = choose|t: int| 0 <= t < mp.len() && (#[trigger] mp[t])@ == x;
                        assert(members@.subrange(0, j + 1)[t]@ == x);
                    }
                    if x == members@[j as int]@ {
                        assert(members@.subrange(0, j + 1)[j as int]@ == x);
                    }
                    if contains_name(members@.subrange(0, j + 1), x) {
                        let t = choose|t: int|
                            0 <= t < members@.subrange(0, j + 1).len() && (
                            #[trigger] members@.subrange(0, j + 1)[t])@ == x;
                        if t < j as int {
                            assert(mp[t]@ == x);
                        }
                    }
                }
            }
            j = j + 1;
        }
        proof {
            assert(band_table@.subrange(0, i + 1) =~= prefix.push(band_table@[i as int]));
            assert(members@.subrange(0, members@.len() as int) =~= members@);
            assert forall|x: Seq<char>|
                #![trigger contains_name(names@, x)]
                contains_name(names@, x) <==> is_member_name(
                    band_table@.subrange(0, i + 1),
                    x,
                ) by {
                lemma_member_push(prefix, band_table@[i as int], x);
            }
        }
        i = i + 1;
    }
    proof {
        assert(band_table@.subrange(0, band_table@.len() as int) =~= band_table@);
    }
    names
}

/// Where an entry of this name stands in the table, if anywhere.
fn entry_position<T>(table: &Vec<(String, T)>, name: &String) -> (r: Option<usize>)
    ensures
        match r {
            Some(i) => i < table@.len() && table@[i as int].0@ == name@,
            None => !has_entry(table@, name@),
        },
{
    let mut i: usize = 0;
    while i < table.len()
        invariant
            i <= table@.len(),
            forall|j: int| 0 <= j < i ==> (#[trigger] table@[j]).0@ != name@,
        decreases table@.len() - i,
    {
        if table[i].0 == *name {
            return Some(i);
        }
        i = i + 1;
    }
    None
}

/// The interned identifiers of a member list.
fn member_ids_for(members: &Vec<String>, user_names: &Vec<String>) -> (r: Vec<UserId>)
    requires
        forall|j: int|
            0 <= j < members@.len() ==> contains_name(user_names@, (#[trigger] members@[j])@),
        strictly_sorted_names(user_names@),
    ensures
        r@.len() == members@.len(),
        forall|j: int|
            0 <= j < members@.len() ==> (#[trigger] r@[j]).0 < user_names@.len()
                && user_names@[r@[j].0 as int]@ == members@[j]@,
{
    let mut r: Vec<UserId> = Vec::new();
    let mut j: usize = 0;
    while j < members.len()
        invariant
            j <= members@.len(),
            r@.len() == j as int,
            forall|t: int|
                0 <= t < members@.len() ==> contains_name(user_names@, (#[trigger] members@[t])@),
            forall|t: int|
                0 <= t < j ==> (#[trigger] r@[t]).0 < user_names@.len() && user_names@[r@[t].0
                    as int]@ == members@[t]@,
        decreases members@.len() - j,
    {
        match name_position(user_names, &members[j]) {
            Some(i) => {
                r.push(UserId(i));
            },
            None => {
                proof {
                    assert(false);
                }
            },
        }
        j = j + 1;
    }
    r
}

/// The conflict mask of a member list.
fn mask_for(members: &Vec<UserId>) -> (h: u64)
    requires
        forall|j: int| 0 <= j < members@.len() ==> (#[trigger] members@[j]).0 < 64,
    ensures
        h == mask_of(members@),
{
    let mut h: u64 = 0;
    let mut j: usize = 0;
    while j < members.len()
        invariant
            j <= members@.len(),
            forall|t: int| 0 <= t < members@.len() ==> (#[trigger] members@[t]).0 < 64,
            h == mask_of(members@.subrange(0, j as int)),
        decreases members@.len() - j,
    {
        proof {
            assert(members@.subrange(0, j + 1).drop_last() =~= members@.subrange(0, j as int));
            assert(members@.subrange(0, j + 1).last() == members@[j as int]);
        }
        h = h | (1u64 << members[j].0);
        j = j + 1;
    }
    proof {
        assert(members@.subrange(0, members@.len() as int) =~= members@);
    }
    h
}

/// Do the two tables describe the same bands, once each, with schedules
/// long enough?  (Distinctness of the band table is already known.)
fn check_schedules(
    band_names: &Vec<String>,
    band_table: &Vec<(String, Vec<String>)>,
    sched_table: &Vec<(String, Vec<bool>)>,
    span_count: usize,
) -> (ok: bool)
    requires
        entry_names_distinct(band_table@),
        strictly_sorted_names(band_names@),
        forall|x: Seq<char>|
            #![trigger contains_name(band_names@, x)]
            contains_name(band_names@, x) <==> has_entry(band_table@, x),
    ensures
        ok == tables_consistent(band_table@, sched_table@, span_count as int),
{
    // every schedule entry must name a known band, exactly once, and be
    // long enough
    let mut seen: Vec<String> = Vec::new();
    let mut i: usize = 0;
    while i < sched_table.len()
        invariant
            i <= sched_table@.len(),
            strictly_sorted_names(seen@),
            entry_names_distinct(band_table@),
            strictly_sorted_names(band_names@),
            forall|x: Seq<char>|
                #![trigger contains_name(band_names@, x)]
                contains_name(band_names@, x) <==> has_entry(band_table@, x),
            forall|x: Seq<char>|
                #![trigger contains_name(seen@, x)]
                contains_name(seen@, x) <==> has_entry(sched_table@.subrange(0, i as int), x),
            entry_names_distinct(sched_table@.subrange(0, i as int)),
            forall|j: int|
                0 <= j < i ==> has_entry(band_table@, (#[trigger] sched_table@[j]).0@),
            forall|j: int|
                0 <= j < i ==> (#[trigger] sched_table@[j]).1@.len() >= span_count,
        decreases sched_table@.len() - i,
    {
        let ghost prefix = sched_table@.subrange(0, i as int);
        match name_position(band_names, &sched_table[i].0) {
            None => {
                proof {
                    assert(!has_entry(band_table@, sched_table@[i as int].0@));
                }
                return false;
            },
            Some(pos) => {
                proof {
                    assert(band_names@[pos as int]@ == sched_table@[i as int].0@);
                    assert(contains_name(band_names@, sched_table@[i as int].0@));
                }
            },
        }
        if sched_table[i].1.len() < span_count {
            return false;
        }
        let existed = insert_name(&mut seen, &sched_table[i].0);
        proof {
            assert(sched_table@.subrange(0, i + 1) =~= prefix.push(sched_table@[i as int]));
            lemma_has_entry_push(prefix, sched_table@[i as int], sched_table@[i as int].0@);
        }
        if existed {
            proof {
                let j = choose|j: int|
                    0 <= j < prefix.len() && (#[trigger] prefix[j]).0@ == sched_table@[i
                        as int].0@;
                assert(sched_table@[j].0@ == sched_table@[i as int].0@);
            }
            return false;
        }
        proof {
            assert forall|a: int, b: int|
                0 <= a < b < sched_table@.subrange(0, i + 1).len() implies (
            #[trigger] sched_table@.subrange(0, i + 1)[a]).0@ != (#[trigger] sched_table@.subrange(
                0,
                i + 1,
            )[b]).0@ by {
                if b < i as int {
                    assert(prefix[a].0@ != prefix[b].0@);
                } else {
                    assert(sched_table@.subrange(0, i + 1)[a] == prefix[a]);
                    if prefix[a].0@ == sched_table@[i as int].0@ {
                        assert(has_entry(prefix, sched_table@[i as int].0@));
                    }
                }
            }
            assert forall|x: Seq<char>|
                #![trigger contains_name(seen@, x)]
                contains_name(seen@, x) <==> has_entry(
                sched_table@.subrange(0, i + 1),
                x,
            ) by {
                lemma_has_entry_push(prefix, sched_table@[i as int], x);
            }
        }
        i = i + 1;
    }
    proof {
        assert(sched_table@.subrange(0, sched_table@.len() as int) =~= sched_table@);
    }
    // every band must have a schedule entry
    let mut b: usize = 0;
    while b < band_table.len()
        invariant
            b <= band_table@.len(),
            entry_names_distinct(band_table@),
            entry_names_distinct(sched_table@),
            forall|j: int|
                0 <= j < sched_table@.len() ==> has_entry(
                    band_table@,
                    (#[trigger] sched_table@[j]).0@,
                ),
            forall|j: int|
                0 <= j < sched_table@.len() ==> (#[trigger] sched_table@[j]).1@.len()
                    >= span_count,
            forall|j: int|
                0 <= j < b ==> has_entry(sched_table@, (#[trigger] band_table@[j]).0@),
        decreases band_table@.len() - b,
    {
        match entry_position(sched_table, &band_table[b].0) {
            None => {
                return false;
            },
            Some(pos) => {
                proof {
                    assert(sched_table@[pos as int].0@ == band_table@[b as int].0@);
                    assert(has_entry(sched_table@, band_table@[b as int].0@));
                }
            },
        }
        b = b + 1;
    }
    true
}

/// The index of the entry of `table` carrying the name `x` (meaningful
/// where `has_entry` holds and names are distinct).
pub open spec fn source_entry_of<T>(table: Seq<(String, T)>, x: Seq<char>) -> int {
    choose|i: int| 0 <= i < table.len() && (#[trigger] table[i]).0@ == x
}

/// Band `b` of `li` was read off the entry of `bands` carrying its name.
pub open spec fn band_sourced_at(li: LiveInfo, bands: Seq<(String, Vec<String>)>, b: int) -> bool {
    &&& 0 <= source_entry_of(bands, li.band_names@[b]@) < bands.len()
    &&& bands[source_entry_of(bands, li.band_names@[b]@)].0@ == li.band_names@[b]@
    &&& members_match(
        bands[source_entry_of(bands, li.band_names@[b]@)].1@,
        li.band_members@[b]@,
        li.user_names@,
    )
}

/// Every band of `li` was read off the entry of `bands` carrying its
/// name: the member lists correspond position by position.
pub open spec fn bands_sourced(li: LiveInfo, bands: Seq<(String, Vec<String>)>) -> bool {
    forall|b: int|
        0 <= b < li.band_count() ==> #[trigger] band_sourced_at(li, bands, b)
}

/// Band `b`'s availability vector is the one of the schedule entry
/// carrying its name.
pub open spec fn schedule_sourced_at(li: LiveInfo, scheds: Seq<(String, Vec<bool>)>, b: int) -> bool {
    &&& 0 <= source_entry_of(scheds, li.band_names@[b]@) < scheds.len()
    &&& scheds[source_entry_of(scheds, li.band_names@[b]@)].0@ == li.band_names@[b]@
    &&& li.band_schedules@[b]@ == scheds[source_entry_of(scheds, li.band_names@[b]@)].1@
}

/// Every band's availability vector is the one of the schedule entry
/// carrying its name.
pub open spec fn schedules_sourced(li: LiveInfo, scheds: Seq<(String, Vec<bool>)>) -> bool {
    forall|b: int|
        0 <= b < li.band_count() ==> #[trigger] schedule_sourced_at(li, scheds, b)
}

/// The recorded source indices witness that every band was read off the
/// matching entries of the two tables.
proof fn lemma_sourced(
    li: LiveInfo,
    bands: Seq<(String, Vec<String>)>,
    scheds: Seq<(String, Vec<bool>)>,
    band_sources: Seq<int>,
    sched_sources: Seq<int>,
)
    requires
        entry_names_distinct(bands),
        entry_names_distinct(scheds),
        band_sources.len() == li.band_count(),
        sched_sources.len() == li.band_count(),
        li.band_names@.len() == li.band_count(),
        li.band_members@.len() == li.band_count(),
        li.band_schedules@.len() == li.band_count(),
        forall|t: int|
            #![trigger band_sources[t]]
            0 <= t < li.band_count() ==> 0 <= band_sources[t] < bands.len()
                && bands[band_sources[t]].0@ == li.band_names@[t]@ && members_match(
                bands[band_sources[t]].1@,
                li.band_members@[t]@,
                li.user_names@,
            ),
        forall|t: int|
            #![trigger sched_sources[t]]
            0 <= t < li.band_count() ==> 0 <= sched_sources[t] < scheds.len()
                && scheds[sched_sources[t]].0@ == li.band_names@[t]@ && li.band_schedules@[t]@
                == scheds[sched_sources[t]].1@,
    ensures
        bands_sourced(li, bands),
        schedules_sourced(li, scheds),
{
    assert forall|t: int| 0 <= t < li.band_count() implies #[trigger] band_sourced_at(
        li,
        bands,
        t,
    ) by {
        assert(0 <= band_sources[t] < bands.len());
        assert(bands[band_sources[t]].0@ == li.band_names@[t]@);
        assert(has_entry(bands, li.band_names@[t]@));
        let j = source_entry_of(bands, li.band_names@[t]@);
        assert(0 <= j < bands.len() && bands[j].0@ == li.band_names@[t]@);
        assert(j == band_sources[t]);
        assert(members_match(bands[band_sources[t]].1@, li.band_members@[t]@, li.user_names@));
    }
    assert forall|t: int| 0 <= t < li.band_count() implies #[trigger] schedule_sourced_at(
        li,
        scheds,
        t,
    ) by {
        assert(0 <= sched_sources[t] < scheds.len());
        assert(scheds[sched_sources[t]].0@ == li.band_names@[t]@);
        assert(has_entry(scheds, li.band_names@[t]@));
        let j = source_entry_of(scheds, li.band_names@[t]@);
        assert(0 <= j < scheds.len() && scheds[j].0@ == li.band_names@[t]@);
        assert(j == sched_sources[t]);
    }
}

/// `ids` names the same musicians as `ms`, position by position.
pub open spec fn members_match(ms: Seq<String>, ids: Seq<UserId>, unames: Seq<String>) -> bool {
    &&& ids.len() == ms.len()
    &&& forall|j: int|
        0 <= j < ids.len() ==> (#[trigger] ids[j]).0 < unames.len() && unames[ids[j].0 as int]@
            == ms[j]@
}

/// The sorted distinct interned names count exactly the distinct member
/// names of the band table.
proof fn lemma_user_count(names: Seq<String>, bands: Seq<(String, Vec<String>)>)
    requires
        strictly_sorted_names(names),
        forall|x: Seq<char>|
            #![trigger contains_name(names, x)]
            contains_name(names, x) <==> is_member_name(bands, x),
    ensures
        names.len() == member_name_set(bands).len(),
{
    let views = names.map_values(|s: String| s@);
    assert(views.no_duplicates()) by {
        assert forall|i: int, j: int|
            0 <= i < views.len() && 0 <= j < views.len() && i != j implies views[i]
            != views[j] by {
            crate::text_order::lemma_chars_lt_irrefl(names[i]@);
            if i < j {
                assert(chars_lt(names[i]@, names[j]@));
            } else {
                assert(chars_lt(names[j]@, names[i]@));
                crate::text_order::lemma_chars_lt_irrefl(names[j]@);
            }
        }
    }
    views.unique_seq_to_set();
    assert(views.to_set() =~= member_name_set(bands)) by {
        assert forall|x: Seq<char>| views.to_set().contains(x) == member_name_set(
            bands,
        ).contains(x) by {
            lemma_member_name_set(bands, x);
            assert(views.contains(x) == contains_name(names, x)) by {
                if views.contains(x) {
                    let i = choose|i: int| 0 <= i < views.len() && views[i] == x;
                    assert(names[i]@ == x);
                }
                if contains_name(names, x) {
                    let i = choose|i: int| 0 <= i < names.len() && (#[trigger] names[i])@ == x;
                    assert(views[i] == x);
                }
            }
        }
    }
}

/// Build the interned search context from the ingestion tables.  Refused
/// with `InputInconsistency` when the two tables disagree (a repeated
/// name, a band without a schedule or a schedule without a band, or a
/// schedule shorter than the span count), and with `CapacityOverflow`
/// when more than 64 distinct musicians appear.
pub fn create_live_info(
    band_table: &Vec<(String, Vec<String>)>,
    band_schedule_table: &Vec<(String, Vec<bool>)>,
    room_matrix: &RoomMatrix,
) -> (r: Result<LiveInfo, LiveInfoError>)
    requires
        room_matrix.wf(),
    ensures
        match r {
            Ok(li) => {
                &&& li.wf()
                &&& li.matches_matrix(room_matrix)
                &&& tables_consistent(
                    band_table@,
                    band_schedule_table@,
                    room_matrix.num_spans(),
                )
                &&& li.band_count() == band_table@.len()
                &&& li.user_count() == member_name_set(band_table@).len()
                &&& strictly_sorted_names(li.band_names@)
                &&& strictly_sorted_names(li.user_names@)
                &&& forall|x: Seq<char>|
                    #![trigger contains_name(li.band_names@, x)]
                    contains_name(li.band_names@, x) <==> has_entry(band_table@, x)
                &&& forall|x: Seq<char>|
                    #![trigger contains_name(li.user_names@, x)]
                    contains_name(li.user_names@, x) <==> is_member_name(band_table@, x)
                &&& bands_sourced(li, band_table@)
                &&& schedules_sourced(li, band_schedule_table@)
            },
            Err(e) => {
                &&& (e == LiveInfoError::InputInconsistency) == !tables_consistent(
                    band_table@,
                    band_schedule_table@,
                    room_matrix.num_spans(),
                )
                &&& (e == LiveInfoError::CapacityOverflow) == (tables_consistent(
                    band_table@,
                    band_schedule_table@,
                    room_matrix.num_spans(),
                ) && member_name_set(band_table@).len() > 64)
            },
        },
{
    let band_names = match collect_band_names(band_table) {
        Ok(n) => n,
        Err(e) => {
            return Err(e);
        },
    };
    let span_count = room_matrix.spans.len();
    if !check_schedules(&band_names, band_table, band_schedule_table, span_count) {
        return Err(LiveInfoError::InputInconsistency);
    }
    let user_names = collect_user_names(band_table);
    proof {
        lemma_user_count(user_names@, band_table@);
    }
    if user_names.len() > 64 {
        return Err(LiveInfoError::CapacityOverflow);
    }
    let user_count = user_names.len();
    let mut user_ids: Vec<UserId> = Vec::new();
    let mut i: usize = 0;
    while i < user_count
        invariant
            i <= user_count,
            user_ids@.len() == i as int,
            forall|j: int| 0 <= j < i ==> (#[trigger] user_ids@[j]).0 == j,
        decreases user_count - i,
    {
        user_ids.push(UserId(i));
        i = i + 1;
    }
    let band_count = band_names.len();
    let mut band_ids: Vec<BandId> = Vec::new();
    let mut i: usize = 0;
    while i < band_count
        invariant
            i <= band_count,
            band_ids@.len() == i as int,
            forall|j: int| 0 <= j < i ==> (#[trigger] band_ids@[j]).0 == j,
        decreases band_count - i,
    {
        band_ids.push(BandId(i));
        i = i + 1;
    }
    let mut band_members: Vec<Vec<UserId>> = Vec::new();
    let mut band_hashes: Vec<u64> = Vec::new();
    let mut band_schedules: Vec<Vec<bool>> = Vec::new();
    let ghost mut band_sources: Seq<int> = Seq::empty();
    let ghost mut sched_sources: Seq<int> = Seq::empty();
    let mut b: usize = 0;
    while b < band_count
        invariant
            b <= band_count,
            band_count == band_names@.len(),
            user_count == user_names@.len(),
            user_count <= 64,
            strictly_sorted_names(band_names@),
            strictly_sorted_names(user_names@),
            tables_consistent(band_table@, band_schedule_table@, span_count as int),
            span_count as int == room_matrix.num_spans(),
            forall|x: Seq<char>|
                #![trigger contains_name(band_names@, x)]
                contains_name(band_names@, x) <==> has_entry(band_table@, x),
            forall|x: Seq<char>|
                #![trigger contains_name(user_names@, x)]
                contains_name(user_names@, x) <==> is_member_name(band_table@, x),
            band_members@.len() == b as int,
            band_hashes@.len() == b as int,
            band_schedules@.len() == b as int,
            forall|t: int, j: int|
                0 <= t < b as int && 0 <= j < (#[trigger] band_members@[t])@.len() ==> (
                #[trigger] band_members@[t]@[j]).0 < user_count,
            forall|t: int|
                0 <= t < b as int ==> (#[trigger] band_hashes@[t]) == mask_of(band_members@[t]@),
            forall|t: int|
                0 <= t < b as int ==> (#[trigger] band_schedules@[t])@.len() >= span_count,
            band_sources.len() == b as int,
            sched_sources.len() == b as int,
            forall|t: int|
                #![trigger band_sources[t]]
                0 <= t < b as int ==> 0 <= band_sources[t] < band_table@.len()
                    && band_table@[band_sources[t]].0@ == band_names@[t]@ && members_match(
                    band_table@[band_sources[t]].1@,
                    band_members@[t]@,
                    user_names@,
                ),
            forall|t: int|
                #![trigger sched_sources[t]]
                0 <= t < b as int ==> 0 <= sched_sources[t] < band_schedule_table@.len()
                    && band_schedule_table@[sched_sources[t]].0@ == band_names@[t]@
                    && band_schedules@[t]@ == band_schedule_table@[sched_sources[t]].1@,
        decreases band_count - b,
    {
        let name = &band_names[b];
        let e = match entry_position(band_table, name) {
            Some(e) => e,
            None => {
                proof {
                    assert(contains_name(band_names@, name@));
                    assert(false);
                }
                unreached()
            },
        };
        proof {
            assert forall|j: int|
                0 <= j < band_table@[e as int].1@.len() implies contains_name(
                user_names@,
                (#[trigger] band_table@[e as int].1@[j])@,
            ) by {
                assert(is_member_name(band_table@, band_table@[e as int].1@[j]@));
            }
        }
        let members = member_ids_for(&band_table[e].1, &user_names);
        let h = mask_for(&members);
        let se = match entry_position(band_schedule_table, name) {
            Some(se) => se,
            None => {
                proof {
                    assert(contains_name(band_names@, name@));
                    let w = choose|w: int|
                        0 <= w < band_table@.len() && (#[trigger] band_table@[w]).0@ == name@;
                    assert(has_entry(band_schedule_table@, band_table@[w].0@));
                    assert(false);
                }
                unreached()
            },
        };
        let sched = super::util::copy_vec(&band_schedule_table[se].1);
        band_members.push(members);
        band_hashes.push(h);
        band_schedules.push(sched);
        proof {
            let pre_sources = band_sources;
            let pre_scheds = sched_sources;
            band_sources = band_sources.push(e as int);
            sched_sources = sched_sources.push(se as int);
            assert(band_table@[e as int].0@ == band_names@[b as int]@);
            assert(members_match(
                band_table@[e as int].1@,
                band_members@[b as int]@,
                user_names@,
            ));
            assert(band_schedule_table@[se as int].0@ == band_names@[b as int]@);
            assert(band_schedules@[b as int]@ == band_schedule_table@[se as int].1@);
            assert forall|t: int| #![trigger band_sources[t]] 0 <= t < b as int + 1 implies 0
                <= band_sources[t] < band_table@.len() && band_table@[band_sources[t]].0@
                == band_names@[t]@ && members_match(
                band_table@[band_sources[t]].1@,
                band_members@[t]@,
                user_names@,
            ) by {
                if t < b as int {
                    assert(band_sources[t] == pre_sources[t]);
                } else {
                    assert(band_sources[t] == e as int);
                }
            }
            assert forall|t: int| #![trigger sched_sources[t]] 0 <= t < b as int + 1 implies 0
                <= sched_sources[t] < band_schedule_table@.len()
                && band_schedule_table@[sched_sources[t]].0@ == band_names@[t]@
                && band_schedules@[t]@ == band_schedule_table@[sched_sources[t]].1@ by {
                if t < b as int {
                    assert(sched_sources[t] == pre_scheds[t]);
                } else {
                    assert(sched_sources[t] == se as int);
                }
            }
        }
        b = b + 1;
    }
    let nb = room_matrix.blocks.len();
    let mut block_available: Vec<Vec<bool>> = Vec::new();
    let mut k: usize = 0;
    while k < nb
        invariant
            k <= nb,
            nb as int == room_matrix.num_blocks(),
            room_matrix.wf(),
            span_count as int == room_matrix.num_spans(),
            band_count == band_schedules@.len(),
            forall|t: int|
                0 <= t < band_count ==> (#[trigger] band_schedules@[t])@.len() >= span_count,
            block_available@.len() == k as int,
            forall|t: int|
                0 <= t < k as int ==> (#[trigger] block_available@[t])@.len() == band_count,
            forall|t: int, bb: int|
                0 <= t < k as int && 0 <= bb < band_count ==> (
                #[trigger] block_available@[t]@[bb]) == band_schedules@[bb]@[room_matrix.block_span(
                    t,
                )],
        decreases nb - k,
    {
        let span = room_matrix.block_spans[k];
        let mut row: Vec<bool> = Vec::new();
        let mut bb: usize = 0;
        while bb < band_count
            invariant
                bb <= band_count,
                k < nb,
                nb as int == room_matrix.num_blocks(),
                room_matrix.wf(),
                span_count as int == room_matrix.num_spans(),
                span as int == room_matrix.block_span(k as int),
                span < span_count,
                band_count == band_schedules@.len(),
                forall|t: int|
                    0 <= t < band_count ==> (#[trigger] band_schedules@[t])@.len() >= span_count,
                row@.len() == bb as int,
                forall|t: int|
                    0 <= t < bb as int ==> (#[trigger] row@[t]) == band_schedules@[t]@[span as int],
            decreases band_count - bb,
        {
            row.push(band_schedules[bb][span]);
            bb = bb + 1;
        }
        block_available.push(row);
        k = k + 1;
    }
    let li = LiveInfo {
        user_ids,
        user_names,
        band_ids,
        band_names,
        band_hashes,
        band_members,
        band_schedules,
        block_available,
    };
    proof {
        lemma_sourced(li, band_table@, band_schedule_table@, band_sources, sched_sources);
    }
    Ok(li)
}

/// The immutable search context: interned names, per-band masks and
/// availabilities, and the per-block eligibility table.
pub struct LiveInfo {
    /// One identifier per musician, dense.
    pub user_ids: Vec<UserId>,
    /// Musician names, sorted, one per identifier.
    pub user_names: Vec<String>,
    /// One identifier per band, dense.
    pub band_ids: Vec<BandId>,
    /// Band names, sorted, one per identifier.
    pub band_names: Vec<String>,
    /// The OR of the member bits of each band.
    pub band_hashes: Vec<u64>,
    /// The members of each band.
    pub band_members: Vec<Vec<UserId>>,
    /// Per-span availability of each band.
    pub band_schedules: Vec<Vec<bool>>,
    /// For each block (span-major) and band: may the band play there?
    pub block_available: Vec<Vec<bool>>,
}

impl LiveInfo {
    pub open spec fn band_count(&self) -> int {
        self.band_ids@.len() as int
    }

    pub open spec fn user_count(&self) -> int {
        self.user_ids@.len() as int
    }

    /// The conflict mask of band `b`.
    pub open spec fn band_hash_spec(&self, b: int) -> u64 {
        self.band_hashes@[b]
    }

    /// May band `b` play in span `s`?
    pub open spec fn band_avail(&self, b: int, s: int) -> bool {
        self.band_schedules@[b]@[s]
    }

    /// May band `b` play in block `k`?
    pub open spec fn block_ok(&self, k: int, b: int) -> bool {
        self.block_available@[k]@[b]
    }

    /// Identifiers are dense, every table covers every band, members are
    /// valid musicians, masks are the OR of the member bits, and at most
    /// 64 musicians exist.
    pub open spec fn wf(&self) -> bool {
        &&& self.user_names@.len() == self.user_ids@.len()
        &&& self.user_ids@.len() <= 64
        &&& forall|i: int| 0 <= i < self.user_ids@.len() ==> (#[trigger] self.user_ids@[i]).0 == i
        &&& self.band_names@.len() == self.band_ids@.len()
        &&& self.band_hashes@.len() == self.band_ids@.len()
        &&& self.band_members@.len() == self.band_ids@.len()
        &&& self.band_schedules@.len() == self.band_ids@.len()
        &&& forall|i: int| 0 <= i < self.band_ids@.len() ==> (#[trigger] self.band_ids@[i]).0 == i
        &&& forall|b: int, j: int|
            0 <= b < self.band_members@.len() && 0 <= j < (#[trigger] self.band_members@[b])@.len()
                ==> (#[trigger] self.band_members@[b]@[j]).0 < self.user_ids@.len()
        &&& forall|b: int|
            0 <= b < self.band_members@.len() ==> self.band_hashes@[b] == mask_of(
                (#[trigger] self.band_members@[b])@,
            )
    }

    /// The eligibility table was computed against this matrix: one row per
    /// block, one flag per band, each the band's availability at the
    /// block's span.
    pub open spec fn matches_matrix(&self, m: &RoomMatrix) -> bool {
        &&& self.block_available@.len() == m.num_blocks()
        &&& forall|k: int|
            0 <= k < m.num_blocks() ==> (#[trigger] self.block_available@[k])@.len()
                == self.band_count()
        &&& forall|b: int|
            0 <= b < self.band_count() ==> (#[trigger] self.band_schedules@[b])@.len()
                >= m.num_spans()
        &&& forall|k: int, b: int|
            0 <= k < m.num_blocks() && 0 <= b < self.band_count() ==> (
            #[trigger] self.block_available@[k]@[b]) == self.band_schedules@[b]@[m.block_span(k)]
    }

    /// The musicians, dense and in name order.
    pub fn user_ids(&self) -> (r: &[UserId])
        ensures
            r@ == self.user_ids@,
    {
        self.user_ids.as_slice()
    }

    /// The name a musician identifier stands for.
    pub fn user_identifier(&self, id: UserId) -> (r: Option<&str>)
        requires
            self.wf(),
        ensures
            match r {
                Some(name) => id.0 < self.user_count() && name@ == self.user_names@[id.0 as int]@,
                None => id.0 >= self.user_count(),
            },
    {
        if id.0 < self.user_names.len() {
            Some(self.user_names[id.0].as_str())
        } else {
            None
        }
    }

    /// The bands, dense and in name order.
    pub fn band_ids(&self) -> (r: &[BandId])
        ensures
            r@ == self.band_ids@,
    {
        self.band_ids.as_slice()
    }

    /// The name a band identifier stands for.
    pub fn band_name(&self, id: BandId) -> (r: &str)
        requires
            self.wf(),
            id.0 < self.band_count(),
        ensures
            r@ == self.band_names@[id.0 as int]@,
    {
        self.band_names[id.0].as_str()
    }

    /// The conflict mask of a band.
    pub fn band_hash(&self, id: BandId) -> (r: Option<u64>)
        requires
            self.wf(),
        ensures
            match r {
                Some(h) => id.0 < self.band_count() && h == self.band_hash_spec(id.0 as int),
                None => id.0 >= self.band_count(),
            },
    {
        if id.0 < self.band_hashes.len() {
            Some(self.band_hashes[id.0])
        } else {
            None
        }
    }

    /// The members of a band.
    pub fn band_member_ids(&self, id: BandId) -> (r: Option<&[UserId]>)
        requires
            self.wf(),
        ensures
            match r {
                Some(ms) => id.0 < self.band_count() && ms@ == self.band_members@[id.0 as int]@,
                None => id.0 >= self.band_count(),
            },
    {
        if id.0 < self.band_members.len() {
            Some(self.band_members[id.0].as_slice())
        } else {
            None
        }
    }

    /// A band's availability at one span; `None` for an unknown band or a
    /// span its schedule does not cover.
    pub fn band_schedule(&self, id: BandId, index: i32) -> (r: Option<bool>)
        requires
            self.wf(),
        ensures
            match r {
                Some(a) => id.0 < self.band_count() && 0 <= index
                    < self.band_schedules@[id.0 as int]@.len() && a == self.band_avail(
                    id.0 as int,
                    index as int,
                ),
                None => id.0 >= self.band_count() || index < 0 || index
                    >= self.band_schedules@[id.0 as int]@.len(),
            },
    {
        if id.0 >= self.band_schedules.len() {
            return None;
        }
        if index < 0 {
            return None;
        }
        let i = index as usize;
        if i >= self.band_schedules[id.0].len() {
            return None;
        }
        Some(self.band_schedules[id.0][i])
    }

    /// May this band be assigned to this block?  `false` for identifiers
    /// this `LiveInfo` does not know.
    pub fn confirm_assignable(&self, block_id: BlockId, band_id: BandId) -> (r: bool)
        ensures
            r == (block_id.0 < self.block_available@.len() && band_id.0
                < self.block_available@[block_id.0 as int]@.len() && self.block_ok(
                block_id.0 as int,
                band_id.0 as int,
            )),
    {
        if block_id.0 >= self.block_available.len() {
            return false;
        }
        if band_id.0 >= self.block_available[block_id.0].len() {
            return false;
        }
        self.block_available[block_id.0][band_id.0]
    }
}

} // verus!
