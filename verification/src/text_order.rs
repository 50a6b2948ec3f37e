//! Lexicographic order on strings (by code point), used to lay out bands
//! and musicians deterministically.

use vstd::prelude::*;

verus! {

/// `a` comes strictly before `b`: at the first differing position `a`'s
/// code point is smaller, or `a` is a proper prefix of `b`.
pub open spec fn chars_lt(a: Seq<char>, b: Seq<char>) -> bool
    decreases a.len(),
{
    if b.len() == 0 {
        false
    } else if a.len() == 0 {
        true
    } else if a[0] != b[0] {
        (a[0] as u32) < (b[0] as u32)
    } else {
        chars_lt(a.drop_first(), b.drop_first())
    }
}

/// Strings that are ordered neither way are equal.
pub proof fn lemma_chars_lt_connex(a: Seq<char>, b: Seq<char>)
    requires
        !chars_lt(a, b),
        !chars_lt(b, a),
    ensures
        a == b,
    decreases a.len(),
{
    if a.len() == 0 || b.len() == 0 {
        assert(a =~= b);
    } else if a[0] != b[0] {
        assert(!((a[0] as u32) < (b[0] as u32)));
        assert(!((b[0] as u32) < (a[0] as u32)));
        assert((a[0] as u32) == (b[0] as u32));
        vstd::utf8::char_u32_cast(a[0], a[0] as u32);
        vstd::utf8::char_u32_cast(b[0], b[0] as u32);
        assert(false);
    } else {
        lemma_chars_lt_connex(a.drop_first(), b.drop_first());
        assert(a.drop_first().len() == b.drop_first().len());
        assert(a.len() == b.len());
        assert forall|i: int| 0 <= i < a.len() implies a[i] == b[i] by {
            if i > 0 {
                assert(a.drop_first() == b.drop_first());
                assert(a.drop_first()[i - 1] == b.drop_first()[i - 1]);
                assert(a.drop_first()[i - 1] == a[i]);
                assert(b.drop_first()[i - 1] == b[i]);
            }
        }
        assert(a =~= b);
    }
}

/// The order is transitive.
pub proof fn lemma_chars_lt_trans(a: Seq<char>, b: Seq<char>, c: Seq<char>)
    requires
        chars_lt(a, b),
        chars_lt(b, c),
    ensures
        chars_lt(a, c),
    decreases a.len() + b.len() + c.len(),
{
    if a.len() == 0 {
    } else {
        // b and c are non-empty since something precedes them
        if a[0] == b[0] && b[0] == c[0] {
            lemma_chars_lt_trans(a.drop_first(), b.drop_first(), c.drop_first());
        }
    }
}

/// Equal prefixes of length `i` do not decide the order.
proof fn lemma_chars_lt_skip(a: Seq<char>, b: Seq<char>, i: int)
    requires
        0 <= i <= a.len(),
        i <= b.len(),
        forall|j: int| 0 <= j < i ==> a[j] == b[j],
    ensures
        chars_lt(a, b) == chars_lt(a.skip(i), b.skip(i)),
    decreases i,
{
    if i > 0 {
        assert(a[0] == b[0]);
        assert(a.len() > 0 && b.len() > 0);
        assert forall|j: int| 0 <= j < i - 1 implies a.drop_first()[j] == b.drop_first()[j] by {
            assert(a[j + 1] == b[j + 1]);
        }
        lemma_chars_lt_skip(a.drop_first(), b.drop_first(), i - 1);
        assert(chars_lt(a, b) == chars_lt(a.drop_first(), b.drop_first()));
        assert(a.drop_first().skip(i - 1) =~= a.skip(i));
        assert(b.drop_first().skip(i - 1) =~= b.skip(i));
    } else {
        assert(a.skip(0) =~= a);
        assert(b.skip(0) =~= b);
    }
}

/// The order never relates a string to itself.
pub proof fn lemma_chars_lt_irrefl(a: Seq<char>)
    ensures
        !chars_lt(a, a),
    decreases a.len(),
{
    if a.len() > 0 {
        lemma_chars_lt_irrefl(a.drop_first());
    }
}

/// Some list position holds exactly the name `x`.
pub open spec fn contains_name(names: Seq<String>, x: Seq<char>) -> bool {
    exists|i: int| 0 <= i < names.len() && (#[trigger] names[i])@ == x
}

/// The names grow strictly along the list: sorted, no repetitions.
pub open spec fn strictly_sorted_names(names: Seq<String>) -> bool {
    forall|i: int, j: int|
        0 <= i < j < names.len() ==> chars_lt((#[trigger] names[i])@, (#[trigger] names[j])@)
}

/// Put `name` into its place in a strictly sorted list, unless it is
/// already there; reports whether it was.
pub fn insert_name(names: &mut Vec<String>, name: &String) -> (existed: bool)
    requires
        strictly_sorted_names(old(names)@),
    ensures
        strictly_sorted_names(final(names)@),
        existed == contains_name(old(names)@, name@),
        existed ==> final(names)@ == old(names)@,
        !existed ==> final(names)@.len() == old(names)@.len() + 1,
        forall|x: Seq<char>|
            #![trigger contains_name(final(names)@, x)]
            contains_name(final(names)@, x) <==> contains_name(old(names)@, x) || x == name@,
{
    let n = names.len();
    let mut i: usize = 0;
    while i < n && str_lt(names[i].as_str(), name.as_str())
        invariant
            i <= n,
            n == names@.len(),
            names@ == old(names)@,
            strictly_sorted_names(names@),
            forall|j: int| 0 <= j < i ==> chars_lt((#[trigger] names@[j])@, name@),
        decreases n - i,
    {
        i = i + 1;
    }
    if i < n && names[i] == *name {
        proof {
            assert(contains_name(names@, name@));
        }
        return true;
    }
    let ghost pre = names@;
    names.insert(i, name.clone());
    proof {
        // nothing before the spot equals the name, nothing at or past it
        // may either: the list did not contain it
        assert(!contains_name(pre, name@)) by {
            if contains_name(pre, name@) {
                let j = choose|j: int| 0 <= j < pre.len() && (#[trigger] pre[j])@ == name@;
                if j < i {
                    lemma_chars_lt_irrefl(name@);
                } else if j == i {
                } else {
                    // name would be over names[i], which the scan refused
                    assert(chars_lt(pre[i as int]@, pre[j]@));
                }
            }
        }
        // every old name is still present, one position further past `i`
        assert forall|x: Seq<char>|
            #![trigger contains_name(names@, x)]
            contains_name(names@, x) <==> contains_name(pre, x) || x == name@ by {
            if contains_name(pre, x) {
                let j = choose|j: int| 0 <= j < pre.len() && (#[trigger] pre[j])@ == x;
                if j < i {
                    assert(names@[j]@ == x);
                } else {
                    assert(names@[j + 1]@ == x);
                }
            }
            if x == name@ {
                assert(names@[i as int]@ == x);
            }
            if contains_name(names@, x) {
                let j = choose|j: int| 0 <= j < names@.len() && (#[trigger] names@[j])@ == x;
                if j < i {
                    assert(pre[j]@ == x);
                } else if j == i {
                } else {
                    assert(pre[j - 1]@ == x);
                }
            }
        }
        // the new list is still strictly sorted around the insertion spot
        assert forall|a: int, b: int| 0 <= a < b < names@.len() implies chars_lt(
            (#[trigger] names@[a])@,
            (#[trigger] names@[b])@,
        ) by {
            if i < pre.len() {
                assert(!chars_lt(pre[i as int]@, name@));
                assert(pre[i as int]@ != name@);
                if chars_lt(name@, pre[i as int]@) {
                } else {
                    lemma_chars_lt_connex(name@, pre[i as int]@);
                }
            }
            if a == i as int {
                // name against a later old name
                assert(names@[b]@ == pre[b - 1]@);
                if b - 1 > i {
                    lemma_chars_lt_trans(name@, pre[i as int]@, pre[b - 1]@);
                }
            } else if b == i as int {
                assert(names@[a]@ == pre[a]@);
            } else {
                let pa = if a < i as int {
                    a
                } else {
                    a - 1
                };
                let pb = if b < i as int {
                    b
                } else {
                    b - 1
                };
                assert(names@[a]@ == pre[pa]@);
                assert(names@[b]@ == pre[pb]@);
                assert(pa < pb);
                assert(chars_lt(pre[pa]@, pre[pb]@));
            }
        }
    }
    false
}

/// Where `name` stands in the list, if anywhere.
pub fn name_position(names: &Vec<String>, name: &String) -> (r: Option<usize>)
    ensures
        match r {
            Some(i) => i < names@.len() && names@[i as int]@ == name@,
            None => !contains_name(names@, name@),
        },
{
    let mut i: usize = 0;
    while i < names.len()
        invariant
            i <= names@.len(),
            forall|j: int| 0 <= j < i ==> (#[trigger] names@[j])@ != name@,
        decreases names@.len() - i,
    {
        if names[i] == *name {
            return Some(i);
        }
        i = i + 1;
    }
    None
}

/// Are the two strings the same sequence of characters?
pub fn str_eq(a: &str, b: &str) -> (r: bool)
    ensures
        r == (a@ == b@),
{
    let la = a.unicode_len();
    let lb = b.unicode_len();
    if la != lb {
        return false;
    }
    let mut i: usize = 0;
    while i < la
        invariant
            i <= la,
            la == a@.len(),
            lb == b@.len(),
            la == lb,
            forall|j: int| 0 <= j < i ==> a@[j] == b@[j],
        decreases la - i,
    {
        let ca = a.get_char(i);
        let cb = b.get_char(i);
        if (ca as u32) != (cb as u32) {
            proof {
                vstd::utf8::char_u32_cast(ca, ca as u32);
                vstd::utf8::char_u32_cast(cb, cb as u32);
            }
            return false;
        }
        proof {
            vstd::utf8::char_u32_cast(ca, ca as u32);
            vstd::utf8::char_u32_cast(cb, cb as u32);
            assert(ca == cb);
        }
        i = i + 1;
    }
    proof {
        assert(a@ =~= b@);
    }
    true
}

/// Does `a` come strictly before `b` in code-point order?
pub fn str_lt(a: &str, b: &str) -> (r: bool)
    ensures
        r == chars_lt(a@, b@),
{
    let la = a.unicode_len();
    let lb = b.unicode_len();
    let n: usize = if la < lb {
        la
    } else {
        lb
    };
    let mut i: usize = 0;
    while i < n
        invariant
            i <= n,
            la == a@.len(),
            lb == b@.len(),
            n == if la < lb {
                la
            } else {
                lb
            },
            forall|j: int| 0 <= j < i ==> a@[j] == b@[j],
        decreases n - i,
    {
        let ca = a.get_char(i);
        let cb = b.get_char(i);
        if (ca as u32) != (cb as u32) {
            proof {
                lemma_chars_lt_skip(a@, b@, i as int);
                assert(a@.skip(i as int)[0] == a@[i as int]);
                assert(b@.skip(i as int)[0] == b@[i as int]);
                assert(a@.skip(i as int).len() > 0);
                assert(b@.skip(i as int).len() > 0);
            }
            return (ca as u32) < (cb as u32);
        }
        proof {
            vstd::utf8::char_u32_cast(ca, ca as u32);
            vstd::utf8::char_u32_cast(cb, cb as u32);
            assert(ca == cb);
        }
        i = i + 1;
    }
    proof {
        lemma_chars_lt_skip(a@, b@, n as int);
        assert(a@.skip(n as int).len() == a@.len() - n);
        assert(b@.skip(n as int).len() == b@.len() - n);
    }
    la < lb
}

} // verus!
