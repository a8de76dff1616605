use vstd::prelude::*;
use vstd::utf8::{decode_utf8, encode_utf8, valid_utf8};
use crate::text::{chars_of, str_from_utf8, string_from_chars};
use crate::versions::views;

verus! {

broadcast use vstd::string::group_string_axioms;

/// The bytes of a downloaded or extracted file.
#[derive(Debug)]
pub struct FileContents {
    pub contents: Vec<u8>,
}

impl FileContents {
    /// How file contents are shown to users.
    pub fn to_string(&self) -> (r: String)
        ensures
            r@ == "filecontents"@,
    {
        "filecontents".to_string()
    }

    /// The contents as text: `None` exactly where they are not well-formed UTF-8.
    pub fn as_string(&self) -> (r: Option<String>)
        ensures
            r is Some <==> valid_utf8(self.contents@),
            r matches Some(s) ==> s@ == decode_utf8(self.contents@),
            r matches Some(s) ==> encode_utf8(s@) == self.contents@,
    {
        let r = str_from_utf8(self.contents.as_slice());
        proof {
            if r is Some {
                vstd::utf8::decode_utf8_encode_utf8(self.contents@);
            }
        }
        r
    }
}

/// `name` names one entry of a directory: it is not empty, holds no `/`, and is neither
/// `.` nor `..`, so that joined to a directory it stays inside it.
pub open spec fn is_plain_file_name(name: Seq<char>) -> bool {
    &&& name.len() > 0
    &&& !name.contains('/')
    &&& name != seq!['.']
    &&& name != seq!['.', '.']
}

/// Where a binary named `name` is installed, relative to the user's home directory:
/// `.local/bin/<name>`; `None` where `name` is not a plain file name, which would lead
/// out of that directory.
pub fn install_location(name: &str) -> (r: Option<Vec<String>>)
    ensures
        r is Some <==> is_plain_file_name(name@),
        r is Some <==> (name@.len() > 0 && !name@.contains('/') && name@ != seq!['.'] && name@
            != seq!['.', '.']),
        r matches Some(v) ==> views(v@) == seq![".local"@, "bin"@, name@],
{
    let chars = chars_of(name);
    if chars.len() == 0 {
        return None;
    }
    let mut i: usize = 0;
    while i < chars.len()
        invariant
            i <= chars.len(),
            chars@ == name@,
            forall|k: int| 0 <= k < i ==> chars@[k] != '/',
        decreases chars.len() - i,
    {
        if chars[i] == '/' {
            assert(name@[i as int] == '/');
            return None;
        }
        i = i + 1;
    }
    if chars[0] == '.' && (chars.len() == 1 || (chars.len() == 2 && chars[1] == '.')) {
        assert(chars@ =~= seq!['.'] || chars@ =~= seq!['.', '.']);
        return None;
    }
    assert(!name@.contains('/'));
    assert(name@ != seq!['.']) by {
        if name@ =~= seq!['.'] {
            assert(chars@[0] == '.');
        }
    }
    assert(name@ != seq!['.', '.']) by {
        if name@ =~= seq!['.', '.'] {
            assert(chars@[0] == '.' && chars@[1] == '.');
        }
    }
    let mut r: Vec<String> = Vec::new();
    r.push(".local".to_string());
    r.push("bin".to_string());
    r.push(name.to_string());
    assert(views(r@) =~= seq![".local"@, "bin"@, name@]);
    Some(r)
}

/// A name is installed exactly when it is not empty, holds no `/`, and is neither `.`
/// nor `..`; any other character may stand in it (`-`, `_`, `.`, letters, digits and the
/// rest), and joined below `.local/bin` such a name never leads out of it.
pub proof fn lemma_plain_file_names(name: Seq<char>)
    ensures
        is_plain_file_name(name) <==> (name.len() > 0 && !name.contains('/') && name != seq!['.']
            && name != seq!['.', '.']),
        name.len() > 0 && (forall|i: int| 0 <= i < name.len() ==> #[trigger] name[i] != '/')
            && name != seq!['.'] && name != seq!['.', '.'] ==> is_plain_file_name(name),
{
}

/// The permission bits of an installed binary: those it had, with the owner's execute
/// bit (`0o100`) set.
pub fn executable_mode(mode: u32) -> (r: u32)
    ensures
        r == mode | 0o100u32,
{
    mode | 0o100u32
}

/// Making a binary executable sets the owner's execute bit, keeps every other bit as it
/// was, and changes nothing when done twice.
pub proof fn lemma_executable_mode(mode: u32)
    ensures
        (mode | 0o100u32) & 0o100u32 == 0o100u32,
        (mode | 0o100u32) & !0o100u32 == mode & !0o100u32,
        ((mode | 0o100u32) | 0o100u32) == (mode | 0o100u32),
        mode & 0o100u32 == 0o100u32 ==> (mode | 0o100u32) == mode,
{
    assert((mode | 0o100u32) & 0o100u32 == 0o100u32) by (bit_vector);
    assert((mode | 0o100u32) & !0o100u32 == mode & !0o100u32) by (bit_vector);
    assert(((mode | 0o100u32) | 0o100u32) == (mode | 0o100u32)) by (bit_vector);
    assert(mode & 0o100u32 == 0o100u32 ==> (mode | 0o100u32) == mode) by (bit_vector);
}


/// Why a `Content-Length` value is not a length, as `usize::from_str` tells it.
#[derive(PartialEq, Eq, Debug, Clone, Copy)]
pub enum ParseLengthError {
    /// The value is empty.
    Empty,
    /// The value holds something other than a decimal digit (after one optional `+`),
    /// or holds no digit at all.
    InvalidDigit,
    /// The number does not fit in a `usize`.
    PosOverflow,
}

/// `c` is one of the decimal digits `0` to `9`.
pub open spec fn is_digit(c: char) -> bool {
    '0' <= c <= '9'
}

/// Every character of `d` is a decimal digit.
pub open spec fn all_digits(d: Seq<char>) -> bool {
    forall|i: int| 0 <= i < d.len() ==> is_digit(#[trigger] d[i])
}

/// The number that the decimal digits `d` write (0 for no digits).
pub open spec fn decimal_value(d: Seq<char>) -> int
    decreases d.len(),
{
    if d.len() == 0 {
        0
    } else {
        decimal_value(d.drop_last()) * 10 + (d.last() as int - '0' as int)
    }
}

/// The digits of an unsigned number as text: all after one leading `+`, if there is one.
pub open spec fn unsigned_digits(s: Seq<char>) -> Seq<char> {
    if s.len() > 0 && s[0] == '+' {
        s.drop_first()
    } else {
        s
    }
}

/// Some leading run of digits of `d` already writes a number above `usize::MAX`.
pub open spec fn overflows(d: Seq<char>) -> bool {
    exists|k: int|
        0 < k <= d.len() && all_digits(#[trigger] d.take(k)) && decimal_value(d.take(k))
            > usize::MAX
}

proof fn lemma_decimal_value_grows(d: Seq<char>, k: int)
    requires
        all_digits(d),
        0 <= k <= d.len(),
    ensures
        0 <= decimal_value(d.take(k)) <= decimal_value(d),
    decreases d.len(),
{
    if d.len() > 0 {
        let p = d.drop_last();
        assert(all_digits(p)) by {
            assert forall|i: int| 0 <= i < p.len() implies is_digit(#[trigger] p[i]) by {
                assert(p[i] == d[i]);
            }
        }
        assert(is_digit(d[d.len() - 1]));
        if k == d.len() {
            assert(d.take(k) =~= d);
            lemma_decimal_value_grows(p, p.len() as int);
            assert(p.take(p.len() as int) =~= p);
        } else {
            lemma_decimal_value_grows(p, k);
            assert(p.take(k) =~= d.take(k));
            lemma_decimal_value_grows(p, p.len() as int);
            assert(p.take(p.len() as int) =~= p);
        }
    } else {
        assert(d.take(k) =~= d);
    }
}

/// Parses a `Content-Length` value as `str::parse::<usize>` does: one optional `+`, then
/// one or more decimal digits, whose number must fit in a `usize`.
pub fn parse_content_length(value: &str) -> (r: Result<usize, ParseLengthError>)
    ensures
        ({
            let d = unsigned_digits(value@);
            &&& r is Ok <==> (value@.len() > 0 && d.len() > 0 && all_digits(d) && decimal_value(d)
                <= usize::MAX)
            &&& r matches Ok(n) ==> n == decimal_value(d)
            &&& r == Err::<usize, ParseLengthError>(ParseLengthError::Empty) <==> value@.len() == 0
            &&& r == Err::<usize, ParseLengthError>(ParseLengthError::PosOverflow) <==> (
            value@.len() > 0 && overflows(d))
        }),
{
    let chars = chars_of(value);
    if chars.len() == 0 {
        return Err(ParseLengthError::Empty);
    }
    let start: usize = if chars[0] == '+' {
        1
    } else {
        0
    };
    let ghost d = unsigned_digits(value@);
    assert(d =~= chars@.skip(start as int));
    if start == chars.len() {
        assert(!overflows(d));
        return Err(ParseLengthError::InvalidDigit);
    }
    let mut acc: usize = 0;
    let mut i: usize = start;
    assert(d.take(0) =~= Seq::<char>::empty());
    while i < chars.len()
        invariant
            start <= i <= chars.len(),
            chars@ == value@,
            d == unsigned_digits(value@),
            d == chars@.skip(start as int),
            d.len() > 0,
            all_digits(d.take(i - start)),
            acc == decimal_value(d.take(i - start)),
        decreases chars.len() - i,
    {
        let c = chars[i];
        let ghost k = i - start;
        assert(d[k] == c);
        if !('0' <= c && c <= '9') {
            proof {
                assert forall|j: int|
                    0 < j <= d.len() && all_digits(#[trigger] d.take(j)) implies decimal_value(
                    d.take(j),
                ) <= usize::MAX by {
                    if j > k {
                        assert(d.take(j)[k] == c);
                    } else {
                        lemma_decimal_value_grows(d.take(k), j);
                        assert(d.take(k).take(j) =~= d.take(j));
                    }
                }
                assert(!overflows(d));
                assert(!is_digit(d[k]));
                assert(!all_digits(d));
            }
            return Err(ParseLengthError::InvalidDigit);
        }
        let digit = (c as u32 - '0' as u32) as usize;
        assert(d.take(k + 1).drop_last() =~= d.take(k));
        assert(d.take(k + 1).last() == c);
        assert(all_digits(d.take(k + 1))) by {
            assert forall|j: int| 0 <= j < k + 1 implies is_digit(#[trigger] d.take(k + 1)[j]) by {
                if j < k {
                    assert(d.take(k + 1)[j] == d.take(k)[j]);
                }
            }
        }
        let next = match acc.checked_mul(10) {
            Some(m) => m.checked_add(digit),
            None => None,
        };
        match next {
            Some(n) => {
                acc = n;
            },
            None => {
                assert(digit == c as int - '0' as int);
                assert(decimal_value(d.take(k + 1)) == acc * 10 + digit);
                assert(decimal_value(d.take(k + 1)) > usize::MAX);
                assert(overflows(d));
                assert(chars@ == value@);
                assert(!all_digits(d) || decimal_value(d) > usize::MAX) by {
                    if all_digits(d) {
                        lemma_decimal_value_grows(d, k + 1);
                    }
                }
                return Err(ParseLengthError::PosOverflow);
            },
        }
        i = i + 1;
    }
    assert(d.take(d.len() as int) =~= d);
    proof {
        assert forall|j: int|
            0 < j <= d.len() && all_digits(#[trigger] d.take(j)) implies decimal_value(d.take(j))
            <= usize::MAX by {
            lemma_decimal_value_grows(d, j);
        }
    }
    Ok(acc)
}

/// The prefix of a `Content-Disposition` value that names an attachment's file.
pub open spec fn attachment_prefix() -> Seq<char> {
    "attachment; filename="@
}

/// `seg` is the part of `url` after its last `/` (all of it where it has none), as
/// `str::split('/').next_back()` gives it.
pub open spec fn is_last_segment(seg: Seq<char>, url: Seq<char>) -> bool {
    &&& seg.len() <= url.len()
    &&& url.skip(url.len() - seg.len()) == seg
    &&& !seg.contains('/')
    &&& seg.len() == url.len() || url[url.len() - seg.len() - 1] == '/'
}

/// The file name under which an asset downloaded from `url` is saved: the name that the
/// server gave in its `Content-Disposition` header, else the last segment of the URL.
pub fn asset_file_name(url: &str, content_disposition: Option<&str>) -> (r: String)
    requires
        content_disposition matches Some(cd) ==> attachment_prefix().is_prefix_of(cd@),
    ensures
        content_disposition matches Some(cd) ==> r@ == cd@.skip(attachment_prefix().len() as int),
        content_disposition is None ==> is_last_segment(r@, url@),
{
    match content_disposition {
        Some(cd) => {
            proof {
                reveal_strlit("attachment; filename=");
            }
            let chars = chars_of(cd);
            string_from_chars(&chars, 21)
        },
        None => {
            let chars = chars_of(url);
            let mut j: usize = chars.len();
            while j > 0 && chars[j - 1] != '/'
                invariant
                    j <= chars.len(),
                    forall|k: int| j <= k < chars.len() ==> chars@[k] != '/',
                decreases j,
            {
                j = j - 1;
            }
            let r = string_from_chars(&chars, j);
            assert(!r@.contains('/')) by {
                if r@.contains('/') {
                    let k = choose|k: int| 0 <= k < r@.len() && r@[k] == '/';
                    assert(chars@[j + k] == '/');
                }
            }
            r
        },
    }
}

} // verus!
