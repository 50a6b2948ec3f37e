//! The musician roster: parsed from a CSV export of name/property/value
//! rows, with an instrument filter over it.

use vstd::prelude::*;

use crate::text_order::str_eq;
use crate::{InstrumentType, INSTRUMENT_DRUMS, INSTRUMENT_ELECTRIC_BASS, INSTRUMENT_ELECTRIC_GUITAR,
    INSTRUMENT_KEYBOARD, INSTRUMENT_VOCAL};

verus! {

/// One CSV row: who, which property, which value.
pub struct Record {
    /// Musician name.
    pub name: String,
    /// Property the row sets (only `instrument` is meaningful).
    pub property_name: String,
    /// The property's value.
    pub value: String,
}

/// Names the table that `csv::Reader` parses out of the text: the header
/// row dropped, every record a list of fields.  `None` stands for text
/// the reader refuses.
pub uninterp spec fn csv_rows(s: Seq<char>) -> Option<Seq<Seq<Seq<char>>>>;

/// Relies on csv::Reader: parses the text as a headered CSV table and
/// hands the records out as plain field lists.
#[verifier::external_body]
fn read_csv_rows(data: &str) -> (r: Option<Vec<Vec<String>>>)
    ensures
        match r {
            Some(rows) => csv_rows(data@) == Some(
                rows_view(rows@),
            ),
            None => csv_rows(data@) is None,
        },
{
    let mut reader = csv::Reader::from_reader(data.as_bytes());
    let mut rows: Vec<Vec<String>> = Vec::new();
    for record in reader.records() {
        match record {
            Ok(rec) => rows.push(rec.iter().map(|f| f.to_string()).collect()),
            Err(_) => {
                return None;
            },
        }
    }
    Some(rows)
}

/// The instrument bit a property value stands for; unknown values carry
/// no bit.
pub open spec fn instrument_bit(v: Seq<char>) -> u32 {
    if v == "Vocal"@ {
        INSTRUMENT_VOCAL
    } else if v == "ElectricBass"@ {
        INSTRUMENT_ELECTRIC_BASS
    } else if v == "Keyboard"@ {
        INSTRUMENT_KEYBOARD
    } else if v == "ElectricGuitar"@ {
        INSTRUMENT_ELECTRIC_GUITAR
    } else if v == "Drums"@ {
        INSTRUMENT_DRUMS
    } else {
        0
    }
}

/// What one row adds to its musician's instrument set.
pub open spec fn row_bits(row: Seq<Seq<char>>) -> u32 {
    if row[1] == "instrument"@ {
        instrument_bit(row[2])
    } else {
        0u32
    }
}

/// The OR of everything the rows say about one musician's instruments.
pub open spec fn bits_of(rows: Seq<Seq<Seq<char>>>, name: Seq<char>) -> u32
    decreases rows.len(),
{
    if rows.len() == 0 {
        0u32
    } else {
        bits_of(rows.drop_last(), name) | (if rows.last()[0] == name {
            row_bits(rows.last())
        } else {
            0u32
        })
    }
}

/// The rows as plain character-sequence fields.
pub open spec fn rows_view(rows: Seq<Vec<String>>) -> Seq<Seq<Seq<char>>> {
    rows.map_values(|row: Vec<String>| row@.map_values(|f: String| f@))
}

/// Some row is about this musician.
pub open spec fn rows_mention(rows: Seq<Seq<Seq<char>>>, name: Seq<char>) -> bool {
    exists|i: int| 0 <= i < rows.len() && (#[trigger] rows[i])[0] == name
}

/// A musician: display name and the instruments they play.
pub struct Member {
    name: String,
    instruments: InstrumentType,
}

impl Member {
    /// The musician's name.
    pub closed spec fn name_spec(&self) -> Seq<char> {
        self.name@
    }

    /// The musician's instrument set.
    pub closed spec fn instruments_spec(&self) -> InstrumentType {
        self.instruments
    }

    pub fn new(name: &str, instruments: InstrumentType) -> (r: Self)
        ensures
            r.name_spec() == name@,
            r.instruments_spec() == instruments,
    {
        Member { name: name.to_owned(), instruments }
    }

    pub fn name(&self) -> (r: &str)
        ensures
            r@ == self.name_spec(),
    {
        self.name.as_str()
    }

    pub fn instruments(&self) -> (r: InstrumentType)
        ensures
            r == self.instruments_spec(),
    {
        self.instruments
    }
}

/// Fold the rows into one `Member` per distinct musician name, each with
/// the OR of their instrument bits.
pub fn members_from_rows(rows: &Vec<Vec<String>>) -> (r: Vec<Member>)
    requires
        forall|i: int| 0 <= i < rows@.len() ==> (#[trigger] rows@[i])@.len() == 3,
    ensures
        forall|i: int, j: int|
            0 <= i < j < r@.len() ==> (#[trigger] r@[i]).name_spec() != (
            #[trigger] r@[j]).name_spec(),
        forall|i: int|
            0 <= i < r@.len() ==> rows_mention(
                rows_view(rows@),
                (#[trigger] r@[i]).name_spec(),
            ),
        forall|x: Seq<char>|
            #![trigger rows_mention(rows_view(rows@), x)]
            rows_mention(rows_view(rows@), x)
                ==> exists|i: int| 0 <= i < r@.len() && (#[trigger] r@[i]).name_spec() == x,
        forall|i: int|
            0 <= i < r@.len() ==> (#[trigger] r@[i]).instruments_spec().0 == bits_of(
                rows_view(rows@),
                r@[i].name_spec(),
            ),
{
    let ghost all = rows_view(rows@);
    let mut members: Vec<Member> = Vec::new();
    let mut i: usize = 0;
    while i < rows.len()
        invariant
            i <= rows@.len(),
            all == rows_view(rows@),
            forall|t: int| 0 <= t < rows@.len() ==> (#[trigger] rows@[t])@.len() == 3,
            forall|a: int, b: int|
                0 <= a < b < members@.len() ==> (#[trigger] members@[a]).name_spec() != (
                #[trigger] members@[b]).name_spec(),
            forall|t: int|
                0 <= t < members@.len() ==> rows_mention(
                    all.subrange(0, i as int),
                    (#[trigger] members@[t]).name_spec(),
                ),
            forall|x: Seq<char>|
                #![trigger rows_mention(all.subrange(0, i as int), x)]
                rows_mention(all.subrange(0, i as int), x) ==> exists|t: int|
                    0 <= t < members@.len() && (#[trigger] members@[t]).name_spec() == x,
            forall|t: int|
                0 <= t < members@.len() ==> (#[trigger] members@[t]).instruments_spec().0
                    == bits_of(all.subrange(0, i as int), members@[t].name_spec()),
        decreases rows@.len() - i,
    {
        let ghost pre = all.subrange(0, i as int);
        let ghost cur = all.subrange(0, i + 1);
        proof {
            assert(all[i as int] == rows@[i as int]@.map_values(|f: String| f@));
            assert(cur =~= pre.push(all[i as int]));
            assert(cur.drop_last() =~= pre);
            // a row extends only its own musician's bits
            assert forall|x: Seq<char>| bits_of(cur, x) == (bits_of(pre, x) | (if all[i as int][0]
                == x {
                row_bits(all[i as int])
            } else {
                0u32
            })) by {
                assert(cur.last() == all[i as int]);
            }
        }
        let row = &rows[i];
        let name = &row[0];
        let bit: u32 = if str_eq(row[1].as_str(), "instrument") {
            let v = &row[2];
            if str_eq(v.as_str(), "Vocal") {
                INSTRUMENT_VOCAL
            } else if str_eq(v.as_str(), "ElectricBass") {
                INSTRUMENT_ELECTRIC_BASS
            } else if str_eq(v.as_str(), "Keyboard") {
                INSTRUMENT_KEYBOARD
            } else if str_eq(v.as_str(), "ElectricGuitar") {
                INSTRUMENT_ELECTRIC_GUITAR
            } else if str_eq(v.as_str(), "Drums") {
                INSTRUMENT_DRUMS
            } else {
                0
            }
        } else {
            0
        };
        proof {
            assert(all[i as int][0] == name@);
            assert(all[i as int][1] == rows@[i as int]@[1]@);
            assert(all[i as int][2] == rows@[i as int]@[2]@);
            assert(bit == row_bits(all[i as int]));
        }
        match find_member(&members, name.as_str()) {
            Some(idx) => {
                let merged = InstrumentType(members[idx].instruments.0 | bit);
                let kept = members[idx].name.clone();
                let ghost pre_members = members@;
                members.set(idx, Member { name: kept, instruments: merged });
                proof {
                    assert(pre_members[idx as int].name_spec() == name@);
                    assert(members@[idx as int].name_spec() == name@);
                    assert(pre_members[idx as int].instruments_spec().0 == bits_of(pre, name@));
                    assert forall|t: int|
                        0 <= t < members@.len() implies (#[trigger] members@[t]).instruments_spec().0
                        == bits_of(cur, members@[t].name_spec()) by {
                        if t != idx as int {
                            assert(members@[t] == pre_members[t]);
                            assert(members@[t].name_spec() != name@);
                            let bv = bits_of(pre, members@[t].name_spec());
                            assert(bv | 0u32 == bv) by (bit_vector);
                        } else {
                            assert(members@[t].instruments_spec().0 == (bits_of(pre, name@) | bit));
                        }
                    }
                    assert forall|t: int|
                        0 <= t < members@.len() implies rows_mention(
                        cur,
                        (#[trigger] members@[t]).name_spec(),
                    ) by {
                        assert(members@[t].name_spec() == pre_members[t].name_spec());
                        assert(rows_mention(pre, pre_members[t].name_spec()));
                        let w = choose|w: int|
                            0 <= w < pre.len() && (#[trigger] pre[w])[0] == pre_members[t].name_spec();
                        assert(cur[w] == pre[w]);
                    }
                    assert forall|x: Seq<char>| rows_mention(cur, x) implies exists|t: int|
                        0 <= t < members@.len() && (#[trigger] members@[t]).name_spec() == x by {
                        let w = choose|w: int| 0 <= w < cur.len() && (#[trigger] cur[w])[0] == x;
                        if w < i as int {
                            assert(pre[w] == cur[w]);
                            assert(rows_mention(pre, x));
                            let t = choose|t: int|
                                0 <= t < pre_members.len() && (#[trigger] pre_members[t]).name_spec()
                                    == x;
                            assert(members@[t].name_spec() == x);
                        } else {
                            assert(cur[i as int][0] == name@);
                            assert(members@[idx as int].name_spec() == x);
                        }
                    }
                }
            },
            None => {
                let ghost pre_members = members@;
                members.push(Member { name: name.clone(), instruments: InstrumentType(bit) });
                proof {
                    lemma_bits_unmentioned(pre, name@);
                    assert(cur[i as int][0] == name@);
                    assert(rows_mention(cur, name@));
                    assert forall|t: int|
                        0 <= t < members@.len() implies (#[trigger] members@[t]).instruments_spec().0
                        == bits_of(cur, members@[t].name_spec()) by {
                        if t < pre_members.len() {
                            assert(members@[t] == pre_members[t]);
                            assert(members@[t].name_spec() != name@);
                            let bv = bits_of(pre, members@[t].name_spec());
                            assert(bv | 0u32 == bv) by (bit_vector);
                        } else {
                            assert(bits_of(pre, name@) == 0);
                            assert(0u32 | bit == bit) by (bit_vector);
                        }
                    }
                    assert forall|t: int|
                        0 <= t < members@.len() implies rows_mention(
                        cur,
                        (#[trigger] members@[t]).name_spec(),
                    ) by {
                        if t < pre_members.len() {
                            assert(members@[t] == pre_members[t]);
                            assert(rows_mention(pre, pre_members[t].name_spec()));
                            let w = choose|w: int|
                                0 <= w < pre.len() && (#[trigger] pre[w])[0] == pre_members[t]
                                    .name_spec();
                            assert(cur[w] == pre[w]);
                        } else {
                            assert(members@[t].name_spec() == name@);
                            assert(cur[i as int][0] == name@);
                        }
                    }
                    assert forall|x: Seq<char>| rows_mention(cur, x) implies exists|t: int|
                        0 <= t < members@.len() && (#[trigger] members@[t]).name_spec() == x by {
                        let w = choose|w: int| 0 <= w < cur.len() && (#[trigger] cur[w])[0] == x;
                        if w < i as int {
                            assert(pre[w] == cur[w]);
                            assert(rows_mention(pre, x));
                            let t = choose|t: int|
                                0 <= t < pre_members.len() && (#[trigger] pre_members[t]).name_spec()
                                    == x;
                            assert(members@[t].name_spec() == x);
                        } else {
                            assert(cur[i as int][0] == name@);
                            assert(members@[members@.len() - 1].name_spec() == x);
                        }
                    }
                }
            },
        }
        i = i + 1;
    }
    proof {
        assert(all.subrange(0, rows@.len() as int) =~= all);
    }
        members
}

/// Where a musician of this name already stands in the roster.
fn find_member(members: &Vec<Member>, name: &str) -> (r: Option<usize>)
    ensures
        match r {
            Some(j) => j < members@.len() && members@[j as int].name_spec() == name@,
            None => forall|t: int|
                0 <= t < members@.len() ==> (#[trigger] members@[t]).name_spec() != name@,
        },
{
    let mut j: usize = 0;
    while j < members.len()
        invariant
            j <= members@.len(),
            forall|t: int| 0 <= t < j ==> (#[trigger] members@[t]).name_spec() != name@,
        decreases members@.len() - j,
    {
        if str_eq(members[j].name.as_str(), name) {
            return Some(j);
        }
        j = j + 1;
    }
    None
}

/// A musician no row mentions plays nothing.
proof fn lemma_bits_unmentioned(rows: Seq<Seq<Seq<char>>>, name: Seq<char>)
    requires
        !rows_mention(rows, name),
    ensures
        bits_of(rows, name) == 0,
    decreases rows.len(),
{
    if rows.len() > 0 {
        assert forall|w: int| 0 <= w < rows.drop_last().len() implies (
        #[trigger] rows.drop_last()[w])[0] != name by {
            assert(rows[w] == rows.drop_last()[w]);
        }
        lemma_bits_unmentioned(rows.drop_last(), name);
        assert(rows[rows.len() - 1][0] != name);
        assert((0u32 | 0u32) == 0u32) by (bit_vector);
    }
}

/// Parse the roster CSV.  The reader must accept the text and every
/// record must carry exactly the three columns.
pub fn deserialize(data: &str) -> (r: Vec<Member>)
    requires
        csv_rows(data@) is Some,
        forall|i: int|
            0 <= i < csv_rows(data@)->Some_0.len() ==> (#[trigger] csv_rows(data@)->Some_0[i]).len()
                == 3,
    ensures
        forall|i: int, j: int|
            0 <= i < j < r@.len() ==> (#[trigger] r@[i]).name_spec() != (
            #[trigger] r@[j]).name_spec(),
        forall|x: Seq<char>|
            #![trigger rows_mention(csv_rows(data@)->Some_0, x)]
            rows_mention(csv_rows(data@)->Some_0, x) <==> exists|i: int|
                0 <= i < r@.len() && (#[trigger] r@[i]).name_spec() == x,
        forall|i: int|
            0 <= i < r@.len() ==> (#[trigger] r@[i]).instruments_spec().0 == bits_of(
                csv_rows(data@)->Some_0,
                r@[i].name_spec(),
            ),
{
    let rows = match read_csv_rows(data) {
        Some(rows) => rows,
        None => {
            proof {
                assert(false);
            }
            unreached()
        },
    };
    proof {
        assert forall|i: int| 0 <= i < rows@.len() implies (#[trigger] rows@[i])@.len() == 3 by {
            assert(csv_rows(data@)->Some_0[i] == rows@[i]@.map_values(|f: String| f@));
        }
    }
    let r = members_from_rows(&rows);
    proof {
        assert(rows_view(rows@) == csv_rows(
            data@,
        )->Some_0);
        assert forall|x: Seq<char>|
            rows_mention(csv_rows(data@)->Some_0, x) implies exists|i: int|
            0 <= i < r@.len() && (#[trigger] r@[i]).name_spec() == x by {}
    }
    r
}

/// Parse the roster CSV, refusing malformed text instead of requiring it
/// away: the checked door to `deserialize`.
pub fn try_deserialize(data: &str) -> (r: Option<Vec<Member>>)
    ensures
        r is Some <==> csv_rows(data@) is Some && (forall|i: int|
            0 <= i < csv_rows(data@)->Some_0.len() ==> (#[trigger] csv_rows(data@)->Some_0[i]).len()
                == 3),
{
    match read_csv_rows(data) {
        None => None,
        Some(rows) => {
            let mut i: usize = 0;
            while i < rows.len()
                invariant
                    i <= rows@.len(),
                    csv_rows(data@) == Some(
                        rows_view(rows@),
                    ),
                    forall|t: int| 0 <= t < i ==> (#[trigger] rows@[t])@.len() == 3,
                decreases rows@.len() - i,
            {
                if rows[i].len() != 3 {
                    proof {
                        assert(csv_rows(data@)->Some_0[i as int].len() == rows@[i as int]@.len());
                    }
                    return None;
                }
                i = i + 1;
            }
            proof {
                assert forall|t: int|
                    0 <= t < csv_rows(data@)->Some_0.len() implies (#[trigger] csv_rows(
                    data@,
                )->Some_0[t]).len() == 3 by {
                    assert(csv_rows(data@)->Some_0[t] == rows@[t]@.map_values(|f: String| f@));
                }
            }
            Some(deserialize(data))
        },
    }
}

/// A source of roster CSV text.
pub trait IClient {
    fn fetch(&mut self) -> Result<String, String>;
}

/// A client that always serves the same canned roster: three members,
/// one instrument property each.  For trying the tooling without a
/// service.
#[derive(Default)]
pub struct SampleClient;

impl SampleClient {
    /// The canned roster text.
    pub open spec fn roster() -> Seq<char> {
        "name,property_name,value\nedogawa_conan,instrument,Vocal\nakai_shuichi,instrument,ElectricGuitar\nmori_kogoro,instrument,Drums\n"@
    }

    /// The roster text itself; the `IClient` door below always succeeds
    /// with exactly this.
    pub fn fetch_roster(&self) -> (r: String)
        ensures
            r@ == Self::roster(),
    {
        "name,property_name,value\nedogawa_conan,instrument,Vocal\nakai_shuichi,instrument,ElectricGuitar\nmori_kogoro,instrument,Drums\n".to_string()
    }
}

impl IClient for SampleClient {
    fn fetch(&mut self) -> Result<String, String> {
        Ok(self.fetch_roster())
    }
}

/// The roster with an instrument filter over it.
pub struct MemberList {
    members: Vec<Member>,
    instrument_filter: InstrumentType,
}

impl MemberList {
    /// The musicians.
    pub closed spec fn members_spec(&self) -> Seq<Member> {
        self.members@
    }

    /// The filter currently applied.
    pub closed spec fn filter_spec(&self) -> InstrumentType {
        self.instrument_filter
    }

    /// Parse a roster from CSV text; the text must be a well-formed
    /// three-column table (see `try_from_csv` for the checked door).
    pub fn from_csv(data: &str) -> (r: Self)
        requires
            csv_rows(data@) is Some,
            forall|i: int|
                0 <= i < csv_rows(data@)->Some_0.len() ==> (#[trigger] csv_rows(
                    data@,
                )->Some_0[i]).len() == 3,
        ensures
            r.filter_spec().0 == 0,
            forall|i: int, j: int|
                0 <= i < j < r.members_spec().len() ==> (#[trigger] r.members_spec()[i])
                    .name_spec() != (#[trigger] r.members_spec()[j]).name_spec(),
            forall|x: Seq<char>|
                #![trigger rows_mention(csv_rows(data@)->Some_0, x)]
                rows_mention(csv_rows(data@)->Some_0, x) <==> exists|i: int|
                    0 <= i < r.members_spec().len() && (#[trigger] r.members_spec()[i]).name_spec()
                        == x,
            forall|i: int|
                0 <= i < r.members_spec().len() ==> (#[trigger] r.members_spec()[i])
                    .instruments_spec().0 == bits_of(
                    csv_rows(data@)->Some_0,
                    r.members_spec()[i].name_spec(),
                ),
    {
        let members = deserialize(data);
        let r = MemberList { members, instrument_filter: InstrumentType(0) };
        proof {
            assert forall|x: Seq<char>|
                #![trigger rows_mention(csv_rows(data@)->Some_0, x)]
                rows_mention(csv_rows(data@)->Some_0, x) <==> exists|i: int|
                    0 <= i < r.members_spec().len() && (#[trigger] r.members_spec()[i]).name_spec()
                        == x by {
                if rows_mention(csv_rows(data@)->Some_0, x) {
                    let i = choose|i: int|
                        0 <= i < r.members@.len() && (#[trigger] r.members@[i]).name_spec() == x;
                    assert(r.members_spec()[i].name_spec() == x);
                }
                if exists|i: int|
                    0 <= i < r.members_spec().len() && (#[trigger] r.members_spec()[i]).name_spec()
                        == x {
                    let i = choose|i: int|
                        0 <= i < r.members_spec().len() && (
                        #[trigger] r.members_spec()[i]).name_spec() == x;
                    assert(rows_mention(csv_rows(data@)->Some_0, r.members@[i].name_spec()));
                }
            }
        }
        r
    }

    /// Parse a roster from CSV text, refusing malformed text.
    pub fn try_from_csv(data: &str) -> (r: Option<Self>)
        ensures
            r is Some <==> csv_rows(data@) is Some && (forall|i: int|
                0 <= i < csv_rows(data@)->Some_0.len() ==> (#[trigger] csv_rows(
                    data@,
                )->Some_0[i]).len() == 3),
    {
        match try_deserialize(data) {
            None => None,
            Some(_) => Some(Self::from_csv(data)),
        }
    }

    /// The musicians.
    pub fn members(&self) -> (r: &[Member])
        ensures
            r@ == self.members_spec(),
    {
        self.members.as_slice()
    }

    /// The filter currently applied.
    pub fn filter(&self) -> (r: InstrumentType)
        ensures
            r == self.filter_spec(),
    {
        self.instrument_filter
    }

    /// Widen the filter by the given instruments.
    pub fn add_filter(&mut self, filter: InstrumentType)
        ensures
            final(self).filter_spec().0 == old(self).filter_spec().0 | filter.0,
            final(self).members_spec() == old(self).members_spec(),
    {
        self.instrument_filter = self.instrument_filter.union(filter);
    }

    /// Narrow the filter by the given instruments.
    pub fn remove_filter(&mut self, filter: InstrumentType)
        ensures
            final(self).filter_spec().0 == old(self).filter_spec().0 & !filter.0,
            final(self).members_spec() == old(self).members_spec(),
    {
        self.instrument_filter = self.instrument_filter.remove(filter);
    }

    /// Clear the filter.
    pub fn clear_instrument_filter(&mut self)
        ensures
            final(self).filter_spec().0 == 0,
            final(self).members_spec() == old(self).members_spec(),
    {
        self.instrument_filter = self.instrument_filter.intersection(InstrumentType(0));
        proof {
            let v = self.instrument_filter.0;
            assert(v == 0) by (bit_vector)
                requires
                    exists|w: u32| v == (w & 0),
            ;
        }
    }
}

} // verus!
