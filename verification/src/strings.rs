//! Small helpers on text.
use vstd::prelude::*;
use vstd::string::StrSliceExecFns;
use vstd::utf8::encode_utf8_decode_utf8;
use crate::compare::bytes_equal;

verus! {

/// Whether Unicode counts the character as alphabetic: what
/// `char::is_alphabetic` returns for it.
pub uninterp spec fn alphabetic(c: char) -> bool;

/// The text in lower case, as Unicode defines it: what `str::to_lowercase`
/// returns for it.
pub uninterp spec fn lowercase(text: Seq<char>) -> Seq<char>;

/// The texts in `rows`.
pub open spec fn texts_of(rows: Seq<Vec<String>>) -> Seq<Seq<Seq<char>>> {
    rows.map_values(|row: Vec<String>| row@.map_values(|field: String| field@))
}

/// `char::is_alphabetic`: whether Unicode counts the character as
/// alphabetic.
#[verifier::external_body]
pub(crate) fn is_alphabetic(c: char) -> (yes: bool)
    ensures
        yes == alphabetic(c),
{
    c.is_alphabetic()
}

/// `str::to_lowercase`: the text in lower case, as Unicode defines it.
#[verifier::external_body]
pub(crate) fn to_lowercase(text: &str) -> (lower: String)
    ensures
        lower@ == lowercase(text@),
{
    text.to_lowercase()
}

/// `c` is white space as Unicode defines it: a space, a control character
/// from tab to carriage return, or one of the other characters with the
/// property `White_Space`.
pub open spec fn is_white(c: char) -> bool {
    ||| c == ' '
    ||| '\u{9}' <= c <= '\u{d}'
    ||| c == '\u{85}'
    ||| c == '\u{a0}'
    ||| c == '\u{1680}'
    ||| '\u{2000}' <= c <= '\u{200a}'
    ||| c == '\u{2028}'
    ||| c == '\u{2029}'
    ||| c == '\u{202f}'
    ||| c == '\u{205f}'
    ||| c == '\u{3000}'
}

/// `s` without the white space at its front.
pub open spec fn trim_front(s: Seq<char>) -> Seq<char>
    decreases s.len(),
{
    if s.len() > 0 && is_white(s[0]) {
        trim_front(s.drop_first())
    } else {
        s
    }
}

/// `s` without the white space at its end.
pub open spec fn trim_back(s: Seq<char>) -> Seq<char>
    decreases s.len(),
{
    if s.len() > 0 && is_white(s.last()) {
        trim_back(s.drop_last())
    } else {
        s
    }
}

/// `s` without the white space at its front and at its end.
pub open spec fn trimmed(s: Seq<char>) -> Seq<char> {
    trim_back(trim_front(s))
}

/// Whether `c` is white space as Unicode defines it.
pub fn is_white_space(c: char) -> (yes: bool)
    ensures
        yes == is_white(c),
{
    c == ' ' || ('\u{9}' <= c && c <= '\u{d}') || c == '\u{85}' || c == '\u{a0}' || c
        == '\u{1680}' || ('\u{2000}' <= c && c <= '\u{200a}') || c == '\u{2028}' || c
        == '\u{2029}' || c == '\u{202f}' || c == '\u{205f}' || c == '\u{3000}'
}

/// The text without the white space at its front and at its end.
pub fn trim_text(text: &str) -> (inner: &str)
    ensures
        inner@ == trimmed(text@),
{
    let len = text.unicode_len();
    let mut a: usize = 0;
    proof {
        assert(text@.subrange(0, len as int) =~= text@);
    }
    while a < len && is_white_space(text.get_char(a))
        invariant
            a <= len,
            len == text@.len(),
            trim_front(text@) == trim_front(text@.subrange(a as int, len as int)),
        decreases len - a,
    {
        proof {
            assert(text@.subrange(a as int, len as int).drop_first() =~= text@.subrange(
                a + 1,
                len as int,
            ));
        }
        a = a + 1;
    }
    let mut b: usize = len;
    while a < b && is_white_space(text.get_char(b - 1))
        invariant
            a <= b <= len,
            len == text@.len(),
            trim_front(text@) == text@.subrange(a as int, len as int),
            trim_back(text@.subrange(a as int, len as int)) == trim_back(
                text@.subrange(a as int, b as int),
            ),
        decreases b - a,
    {
        proof {
            assert(text@.subrange(a as int, b as int).drop_last() =~= text@.subrange(
                a as int,
                b - 1,
            ));
        }
        b = b - 1;
    }
    text.substring_char(a, b)
}

/// Whether two texts are the same.
pub fn str_equal(a: &str, b: &str) -> (equal: bool)
    ensures
        equal == (a@ == b@),
{
    proof {
        encode_utf8_decode_utf8(a@);
        encode_utf8_decode_utf8(b@);
    }
    bytes_equal(a.as_bytes(), b.as_bytes())
}

/// The characters of a text.
pub fn chars_of(text: &str) -> (chars: Vec<char>)
    ensures
        chars@ == text@,
{
    let len = text.unicode_len();
    let mut chars: Vec<char> = Vec::new();
    let mut i: usize = 0;
    while i < len
        invariant
            i <= len,
            len == text@.len(),
            chars@ == text@.take(i as int),
        decreases len - i,
    {
        chars.push(text.get_char(i));
        assert(chars@ =~= text@.take(i + 1));
        i = i + 1;
    }
    assert(text@.take(len as int) =~= text@);
    chars
}

} // verus!
