//! Plain views of the REST payloads a remote wiki serves.  Fetching
//! them is the application shell's business; the library only carries
//! and reads the values.

use vstd::prelude::*;

pub mod rest_type;

use rest_type::{ContenType, UserType};

verus! {

/// Is `c` a decimal digit?
pub open spec fn is_digit(c: char) -> bool {
    ('0' as u32) <= (c as u32) <= ('9' as u32)
}

/// The numeric value of a digit string, most significant first.
pub open spec fn dec_value(s: Seq<char>) -> nat
    decreases s.len(),
{
    if s.len() == 0 {
        0
    } else {
        dec_value(s.drop_last()) * 10 + (if is_digit(s.last()) {
            ((s.last() as u32) - ('0' as u32)) as nat
        } else {
            0nat
        })
    }
}

/// The whole string is made of digits.
pub open spec fn all_digits(s: Seq<char>) -> bool {
    forall|i: int| 0 <= i < s.len() ==> is_digit(#[trigger] s[i])
}

/// Growing a digit string never shrinks its value.
proof fn lemma_dec_value_prefix(s: Seq<char>, i: int)
    requires
        0 <= i <= s.len(),
    ensures
        dec_value(s.subrange(0, i)) <= dec_value(s),
    decreases s.len() - i,
{
    if i < s.len() {
        lemma_dec_value_prefix(s, i + 1);
        let a = s.subrange(0, i);
        let b = s.subrange(0, i + 1);
        assert(b.drop_last() =~= a);
        assert(dec_value(a) <= dec_value(a) * 10) by (nonlinear_arith)
            requires
                dec_value(a) >= 0,
        ;
    } else {
        assert(s.subrange(0, i) =~= s);
    }
}

/// Parse a decimal `u64`; `None` for an empty string, a non-digit, or a
/// value past `u64::MAX`.
pub fn parse_u64(s: &str) -> (r: Option<u64>)
    ensures
        match r {
            Some(v) => s@.len() >= 1 && all_digits(s@) && v as nat == dec_value(s@),
            None => s@.len() == 0 || !all_digits(s@) || dec_value(s@) > u64::MAX,
        },
{
    let n = s.unicode_len();
    if n == 0 {
        return None;
    }
    let mut v: u64 = 0;
    let mut i: usize = 0;
    while i < n
        invariant
            i <= n,
            n == s@.len(),
            forall|j: int| 0 <= j < i ==> is_digit(#[trigger] s@[j]),
            v as nat == dec_value(s@.subrange(0, i as int)),
        decreases n - i,
    {
        let c = s.get_char(i);
        let code = c as u32;
        if code < 48 || code > 57 {
            proof {
                assert(!is_digit(s@[i as int]));
            }
            return None;
        }
        let d = (code - 48) as u64;
        proof {
            assert(s@.subrange(0, i + 1).drop_last() =~= s@.subrange(0, i as int));
            assert(s@.subrange(0, i + 1).last() == s@[i as int]);
        }
        if v > (u64::MAX - d) / 10 {
            proof {
                assert(dec_value(s@.subrange(0, i + 1)) > u64::MAX) by (nonlinear_arith)
                    requires
                        dec_value(s@.subrange(0, i + 1)) == dec_value(s@.subrange(0, i as int)) * 10
                            + d,
                        dec_value(s@.subrange(0, i as int)) > ((u64::MAX - d) / 10) as nat,
                        0 <= d <= 9,
                ;
                lemma_dec_value_prefix(s@, i + 1);
            }
            return None;
        }
        v = v * 10 + d;
        i = i + 1;
    }
    proof {
        assert(s@.subrange(0, n as int) =~= s@);
    }
    Some(v)
}

/// A wiki user: login name and display name.
pub struct User {
    internal: UserType,
}

impl User {
    /// The payload's character data.
    pub closed spec fn view(&self) -> UserType {
        self.internal
    }

    /// Wrap a fetched payload.
    pub fn new(internal: UserType) -> (r: Self)
        ensures
            r@ == internal,
    {
        User { internal }
    }

    /// The login name.
    pub fn name(&self) -> (r: &str)
        ensures
            r@ == self@.username@,
    {
        self.internal.username.as_str()
    }

    /// The display name.
    pub fn display_name(&self) -> (r: &str)
        ensures
            r@ == self@.displayName@,
    {
        self.internal.displayName.as_str()
    }
}

/// A wiki page: numeric identifier, title, raw markup.
pub struct Content {
    id: u64,
    title: String,
    raw_content: String,
}

impl Content {
    pub closed spec fn id_spec(&self) -> u64 {
        self.id
    }

    pub closed spec fn title_spec(&self) -> Seq<char> {
        self.title@
    }

    pub closed spec fn raw_content_spec(&self) -> Seq<char> {
        self.raw_content@
    }

    /// Read a fetched payload; its identifier must be a decimal number.
    pub fn new(content_type: &ContenType) -> (r: Self)
        requires
            content_type.id@.len() >= 1,
            all_digits(content_type.id@),
            dec_value(content_type.id@) <= u64::MAX,
        ensures
            r.id_spec() as nat == dec_value(content_type.id@),
            r.title_spec() == content_type.title@,
            r.raw_content_spec() == content_type.body.view.value@,
    {
        let id = match parse_u64(content_type.id.as_str()) {
            Some(v) => v,
            None => {
                proof {
                    assert(false);
                }
                unreached()
            },
        };
        Content {
            id,
            title: content_type.title.clone(),
            raw_content: content_type.body.view.value.clone(),
        }
    }

    /// The page's numeric identifier.
    pub fn id(&self) -> (r: u64)
        ensures
            r == self.id_spec(),
    {
        self.id
    }

    /// The page title.
    pub fn title(&self) -> (r: &str)
        ensures
            r@ == self.title_spec(),
    {
        self.title.as_str()
    }

    /// The page markup.
    pub fn raw_content(&self) -> (r: &str)
        ensures
            r@ == self.raw_content_spec(),
    {
        self.raw_content.as_str()
    }
}

} // verus!
