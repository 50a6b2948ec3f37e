//! Parsing the textual band and schedule arguments.
//!
//! A band is written `name/member/member/...`, a schedule
//! `name/true/false/...`: slash-separated fields, the first naming the
//! band.

use vstd::prelude::*;

use crate::text_order::str_eq;

verus! {

/// The slash-separated fields of `s`, the (possibly empty) field `acc`
/// already under construction.
pub open spec fn split_fields_from(s: Seq<char>, acc: Seq<char>) -> Seq<Seq<char>>
    decreases s.len(),
{
    if s.len() == 0 {
        seq![acc]
    } else if s[0] == '/' {
        seq![acc] + split_fields_from(s.drop_first(), Seq::empty())
    } else {
        split_fields_from(s.drop_first(), acc.push(s[0]))
    }
}

/// The slash-separated fields of `s`; always at least one.
pub open spec fn split_fields(s: Seq<char>) -> Seq<Seq<char>> {
    split_fields_from(s, Seq::empty())
}

/// Splitting yields at least one field.
pub proof fn lemma_split_nonempty(s: Seq<char>, acc: Seq<char>)
    ensures
        split_fields_from(s, acc).len() >= 1,
    decreases s.len(),
{
    if s.len() > 0 && s[0] != '/' {
        lemma_split_nonempty(s.drop_first(), acc.push(s[0]));
    }
}

/// Split `s` at every slash.
pub fn split_slash(s: &str) -> (r: Vec<String>)
    ensures
        r@.map_values(|f: String| f@) == split_fields(s@),
{
    let n = s.unicode_len();
    let mut r: Vec<String> = Vec::new();
    proof {
        assert(s@.skip(0) =~= s@);
        assert(s@.subrange(0, 0) =~= Seq::<char>::empty());
        assert(r@.map_values(|f: String| f@) =~= Seq::<Seq<char>>::empty());
        assert(Seq::<Seq<char>>::empty() + split_fields_from(s@, Seq::empty())
            =~= split_fields_from(s@, Seq::empty()));
    }
    let mut start: usize = 0;
    let mut i: usize = 0;
    while i < n
        invariant
            start <= i <= n,
            n == s@.len(),
            split_fields(s@) == r@.map_values(|f: String| f@) + split_fields_from(
                s@.skip(i as int),
                s@.subrange(start as int, i as int),
            ),
        decreases n - i,
    {
        let ghost cur = s@.subrange(start as int, i as int);
        proof {
            assert(s@.skip(i as int)[0] == s@[i as int]);
            assert(s@.skip(i as int).drop_first() =~= s@.skip(i + 1));
        }
        let c = s.get_char(i);
        if c == '/' {
            let field = s.substring_char(start, i).to_owned();
            let ghost pre = r@;
            r.push(field);
            proof {
                assert(split_fields_from(s@.skip(i as int), cur) == seq![cur]
                    + split_fields_from(s@.skip(i + 1), Seq::empty()));
                assert(r@.map_values(|f: String| f@) =~= pre.map_values(|f: String| f@).push(
                    cur,
                ));
                assert(pre.map_values(|f: String| f@).push(cur) + split_fields_from(
                    s@.skip(i + 1),
                    Seq::empty(),
                ) =~= pre.map_values(|f: String| f@) + (seq![cur] + split_fields_from(
                    s@.skip(i + 1),
                    Seq::empty(),
                )));
                assert(s@.subrange(i + 1, i + 1) =~= Seq::<char>::empty());
            }
            start = i + 1;
        } else {
            proof {
                assert(split_fields_from(s@.skip(i as int), cur) == split_fields_from(
                    s@.skip(i + 1),
                    cur.push(s@[i as int]),
                ));
                assert(cur.push(s@[i as int]) =~= s@.subrange(start as int, i + 1));
            }
        }
        i = i + 1;
    }
    let last = s.substring_char(start, n).to_owned();
    let ghost pre = r@;
    r.push(last);
    proof {
        assert(s@.skip(n as int).len() == 0);
        assert(split_fields_from(s@.skip(n as int), s@.subrange(start as int, n as int)) == seq![
            s@.subrange(start as int, n as int)
        ]);
        assert(r@.map_values(|f: String| f@) =~= pre.map_values(|f: String| f@).push(
            s@.subrange(start as int, n as int),
        ));
        assert(pre.map_values(|f: String| f@).push(s@.subrange(start as int, n as int)) =~= pre
            .map_values(|f: String| f@) + seq![s@.subrange(start as int, n as int)]);
    }
    r
}

/// Parse `name/member/...` lines into the band table.
pub fn parse_bands(lines: &Vec<String>) -> (r: Vec<(String, Vec<String>)>)
    ensures
        r@.len() == lines@.len(),
        forall|i: int|
            0 <= i < lines@.len() ==> {
                let e = #[trigger] r@[i];
                &&& e.0@ == split_fields(lines@[i]@)[0]
                &&& e.1@.map_values(|m: String| m@) == split_fields(lines@[i]@).skip(1)
            },
{
    let mut r: Vec<(String, Vec<String>)> = Vec::new();
    let mut i: usize = 0;
    while i < lines.len()
        invariant
            i <= lines@.len(),
            r@.len() == i as int,
            forall|j: int|
                0 <= j < i ==> {
                    let e = #[trigger] r@[j];
                    &&& e.0@ == split_fields(lines@[j]@)[0]
                    &&& e.1@.map_values(|m: String| m@) == split_fields(lines@[j]@).skip(1)
                },
        decreases lines@.len() - i,
    {
        let mut fields = split_slash(lines[i].as_str());
        proof {
            lemma_split_nonempty(lines@[i as int]@, Seq::empty());
        }
        let name = fields.remove(0);
        proof {
            assert(name@ == split_fields(lines@[i as int]@)[0]);
            assert(fields@.map_values(|m: String| m@) =~= split_fields(lines@[i as int]@).skip(
                1,
            ));
        }
        r.push((name, fields));
        i = i + 1;
    }
    r
}

/// Parse `name/true/false/...` lines into the schedule table; any field
/// other than `true` counts as unavailable.
pub fn parse_schedule(lines: &Vec<String>) -> (r: Vec<(String, Vec<bool>)>)
    ensures
        r@.len() == lines@.len(),
        forall|i: int|
            0 <= i < lines@.len() ==> {
                let e = #[trigger] r@[i];
                &&& e.0@ == split_fields(lines@[i]@)[0]
                &&& e.1@.len() == split_fields(lines@[i]@).len() - 1
                &&& forall|j: int|
                    0 <= j < e.1@.len() ==> (#[trigger] e.1@[j]) == (split_fields(lines@[i]@)[j
                        + 1] == "true"@)
            },
{
    let mut r: Vec<(String, Vec<bool>)> = Vec::new();
    let mut i: usize = 0;
    while i < lines.len()
        invariant
            i <= lines@.len(),
            r@.len() == i as int,
            forall|j: int|
                0 <= j < i ==> {
                    let e = #[trigger] r@[j];
                    &&& e.0@ == split_fields(lines@[j]@)[0]
                    &&& e.1@.len() == split_fields(lines@[j]@).len() - 1
                    &&& forall|t: int|
                        0 <= t < e.1@.len() ==> (#[trigger] e.1@[t]) == (split_fields(lines@[j]@)[t
                            + 1] == "true"@)
                },
        decreases lines@.len() - i,
    {
        let mut fields = split_slash(lines[i].as_str());
        proof {
            lemma_split_nonempty(lines@[i as int]@, Seq::empty());
        }
        let name = fields.remove(0);
        proof {
            assert(fields@.map_values(|m: String| m@) =~= split_fields(lines@[i as int]@).skip(
                1,
            ));
        }
        let mut flags: Vec<bool> = Vec::new();
        let mut j: usize = 0;
        while j < fields.len()
            invariant
                j <= fields@.len(),
                flags@.len() == j as int,
                i < lines@.len(),
                split_fields(lines@[i as int]@).len() >= 1,
                name@ == split_fields(lines@[i as int]@)[0],
                fields@.map_values(|m: String| m@) == split_fields(lines@[i as int]@).skip(1),
                forall|t: int|
                    0 <= t < j ==> (#[trigger] flags@[t]) == (split_fields(lines@[i as int]@)[t + 1]
                        == "true"@),
            decreases fields@.len() - j,
        {
            let flag = str_eq(fields[j].as_str(), "true");
            proof {
                assert(fields@.map_values(|m: String| m@).len() == fields@.len());
                assert(j < split_fields(lines@[i as int]@).skip(1).len());
                assert(fields@.map_values(|m: String| m@)[j as int] == fields@[j as int]@);
                assert(split_fields(lines@[i as int]@).skip(1)[j as int] == split_fields(
                    lines@[i as int]@,
                )[j + 1]);
            }
            flags.push(flag);
            j = j + 1;
        }
        proof {
            assert(fields@.map_values(|m: String| m@).len() == fields@.len());
        }
        r.push((name, flags));
        i = i + 1;
    }
    r
}

} // verus!
