//! Values and text: how a value is printed, and which value a piece of text
//! stands for.
//!
//! Floats are printed and parsed by the caller, which has the arithmetic for
//! it; the functions here take and give their 64 bits.
use vstd::prelude::*;
use vstd::slice::{slice_subrange, slice_to_vec};
use vstd::string::{StrSliceExecFns, StringExecFns};
use vstd::utf8::{decode_utf8, encode_utf8, valid_utf8};
use crate::value::{float_view, int_view, text_view, Shape, Value, ValueView, MAX_TEXT_LEN};

verus! {

/// The character of the decimal digit `d`.
pub open spec fn digit_char(d: nat) -> char {
    if d == 0 {
        '0'
    } else if d == 1 {
        '1'
    } else if d == 2 {
        '2'
    } else if d == 3 {
        '3'
    } else if d == 4 {
        '4'
    } else if d == 5 {
        '5'
    } else if d == 6 {
        '6'
    } else if d == 7 {
        '7'
    } else if d == 8 {
        '8'
    } else {
        '9'
    }
}

/// The decimal digits of `n`, without leading zeros.
pub open spec fn digits(n: nat) -> Seq<char>
    decreases n,
{
    if n < 10 {
        seq![digit_char(n)]
    } else {
        digits(n / 10).push(digit_char(n % 10))
    }
}

/// `v` in decimal, with a minus sign where it is negative.
pub open spec fn decimal(v: int) -> Seq<char> {
    if v < 0 {
        seq!['-'] + digits((-v) as nat)
    } else {
        digits(v as nat)
    }
}

/// What `String::from_utf8_lossy` makes of `bytes`: the text they spell,
/// with the replacement character in place of what is not UTF-8.
pub uninterp spec fn lossy_utf8(bytes: Seq<u8>) -> Seq<char>;

/// What a value prints as; `None` for a float, which the caller prints from
/// its bits.
pub open spec fn display(v: ValueView) -> Option<Seq<char>>
    recommends
        v.wf(),
{
    match v.shape() {
        Shape::Null => Some("NULL"@),
        Shape::SmallInt(_) => Some(decimal(v.integer().unwrap())),
        Shape::Int(_) => Some(decimal(v.integer().unwrap())),
        Shape::Float => None,
        Shape::Text(_) => Some(lossy_utf8(v.payload)),
        Shape::Blob(_) => Some(lossy_utf8(v.payload)),
    }
}

/// Number of bytes that a value prints as: four for null, the digits and
/// the sign of an integer, the bytes of a text or a blob; `None` for a float.
pub open spec fn display_len(v: ValueView) -> Option<nat>
    recommends
        v.wf(),
{
    match v.shape() {
        Shape::Null => Some(4),
        Shape::SmallInt(_) => Some(1),
        Shape::Int(_) => Some(decimal(v.integer().unwrap()).len()),
        Shape::Float => None,
        Shape::Text(len) => Some(len as nat),
        Shape::Blob(len) => Some(len as nat),
    }
}

/// `b` is an ASCII decimal digit.
pub open spec fn is_digit_byte(b: u8) -> bool {
    48 <= b <= 57
}

/// Every byte of `s` is an ASCII decimal digit.
pub open spec fn all_digits(s: Seq<u8>) -> bool {
    forall|i: int| 0 <= i < s.len() ==> is_digit_byte(#[trigger] s[i])
}

/// The number that the ASCII digits `s` spell in decimal.
pub open spec fn digits_value(s: Seq<u8>) -> nat
    decreases s.len(),
{
    if s.len() == 0 {
        0
    } else {
        digits_value(s.drop_last()) * 10 + (s.last() - 48) as nat
    }
}

/// The integer that `s` spells: an optional `+` or `-`, then one or more
/// ASCII digits, the whole within 64 bits. `None` for anything else.
pub open spec fn parse_integer(s: Seq<u8>) -> Option<int> {
    let negative = s.len() > 0 && s[0] == 45;
    let signed = s.len() > 0 && (s[0] == 45 || s[0] == 43);
    let body = if signed { s.skip(1) } else { s };
    if body.len() == 0 || !all_digits(body) {
        None
    } else {
        let v = if negative { -(digits_value(body) as int) } else { digits_value(body) as int };
        if i64::MIN <= v <= i64::MAX {
            Some(v)
        } else {
            None
        }
    }
}

/// `s` without the double quotes around it, where it has two or more bytes
/// and begins and ends with one; else `s` itself.
pub open spec fn strip_quotes_spec(s: Seq<u8>) -> Seq<u8> {
    if s.len() >= 2 && s[0] == 34 && s.last() == 34 {
        s.subrange(1, s.len() - 1)
    } else {
        s
    }
}

/// The value that a piece of text stands for. An integer where the text
/// spells one; else the float whose bits the caller parsed from it, where it
/// gave any; else the text itself, without quotes around it.
pub open spec fn sniff(text: Seq<u8>, float_bits: Option<u64>) -> ValueView {
    match parse_integer(text) {
        Some(i) => int_view(i),
        None => match float_bits {
            Some(bits) => float_view(bits),
            None => text_view(strip_quotes_spec(text)),
        },
    }
}

/// Extending a digit string never lowers the number it spells.
proof fn lemma_digits_value_grows(s: Seq<u8>, k: int)
    requires
        0 <= k <= s.len(),
    ensures
        digits_value(s.take(k)) <= digits_value(s),
    decreases s.len(),
{
    if k < s.len() {
        lemma_digits_value_grows(s.drop_last(), k);
        assert(s.drop_last().take(k) =~= s.take(k));
    } else {
        assert(s.take(k) =~= s);
    }
}

/// `decimal(v)` has as many characters as `v` has digits, and one more for
/// the sign of a negative number.
proof fn lemma_digits_len(n: nat)
    ensures
        digits(n).len() >= 1,
        n >= 10 ==> digits(n).len() == digits(n / 10).len() + 1,
        n < 10 ==> digits(n).len() == 1,
    decreases n,
{
    if n >= 10 {
        lemma_digits_len(n / 10);
    }
}

/// `i64`'s `to_string`: the number in decimal, with a minus sign where it is
/// negative.
#[verifier::external_body]
pub(crate) fn decimal_string(v: i64) -> (s: String)
    ensures
        s@ == decimal(v as int),
{
    v.to_string()
}

/// `String::from_utf8_lossy`: the text that `bytes` spell, with the
/// replacement character in place of what is not UTF-8. Bytes that are
/// UTF-8 come back as the text they encode.
#[verifier::external_body]
pub(crate) fn lossy_text(bytes: &[u8]) -> (s: String)
    ensures
        s@ == lossy_utf8(bytes@),
        valid_utf8(bytes@) ==> s@ == decode_utf8(bytes@),
{
    String::from_utf8_lossy(bytes).into_owned()
}

/// Number of characters of `v` in decimal.
fn decimal_len(v: i64) -> (n: usize)
    ensures
        n == decimal(v as int).len(),
{
    let mut m: u64 = if v < 0 { (-(v + 1)) as u64 + 1 } else { v as u64 };
    let mut n: usize = if v < 0 { 2 } else { 1 };
    let ghost start = m;
    let ghost sign: int = if v < 0 { 1 } else { 0 };
    let ghost mut k: int = 0;
    while m >= 10
        invariant
            0 <= k <= 19,
            n == k + 1 + sign,
            sign == if v < 0 { 1int } else { 0int },
            start == if v < 0 { -v } else { v as int },
            m * pow10_at(k) <= u64::MAX,
            digits(start as nat).len() + 1 == k + 1 + digits(m as nat).len(),
        decreases m,
    {
        proof {
            lemma_digits_len(m as nat);
            let p = pow10_at(k);
            assert(k < 19) by {
                if k == 19 {
                    assert(m * p >= 10 * p) by (nonlinear_arith)
                        requires
                            m >= 10,
                            p >= 1,
                    ;
                }
            }
            assert(pow10_at(k + 1) == 10 * p);
            assert((m / 10) * (10 * p) <= m * p) by (nonlinear_arith)
                requires
                    p >= 1,
                    m >= 0,
            ;
            k = k + 1;
        }
        m = m / 10;
        n = n + 1;
    }
    proof {
        lemma_digits_len(m as nat);
    }
    n
}

/// Ten to the power `k`, for the `k` that a 64-bit number reaches.
spec fn pow10_at(k: int) -> nat {
    if k <= 0 {
        1
    } else if k == 1 {
        10
    } else if k == 2 {
        100
    } else if k == 3 {
        1_000
    } else if k == 4 {
        10_000
    } else if k == 5 {
        100_000
    } else if k == 6 {
        1_000_000
    } else if k == 7 {
        10_000_000
    } else if k == 8 {
        100_000_000
    } else if k == 9 {
        1_000_000_000
    } else if k == 10 {
        10_000_000_000
    } else if k == 11 {
        100_000_000_000
    } else if k == 12 {
        1_000_000_000_000
    } else if k == 13 {
        10_000_000_000_000
    } else if k == 14 {
        100_000_000_000_000
    } else if k == 15 {
        1_000_000_000_000_000
    } else if k == 16 {
        10_000_000_000_000_000
    } else if k == 17 {
        100_000_000_000_000_000
    } else if k == 18 {
        1_000_000_000_000_000_000
    } else {
        10_000_000_000_000_000_000
    }
}

/// Reads an optional sign and ASCII digits as a 64-bit integer. `None`
/// where `text` is anything else, or the number does not fit.
pub fn parse_i64(text: &[u8]) -> (result: Option<i64>)
    ensures
        match parse_integer(text@) {
            Some(v) => result == Some(v as i64),
            None => result is None,
        },
{
    let len = text.len();
    if len == 0 {
        return None;
    }
    let negative = text[0] == 45;
    let start: usize = if text[0] == 45 || text[0] == 43 { 1 } else { 0 };
    if start == len {
        return None;
    }
    let ghost body = if start == 1 { text@.skip(1) } else { text@ };
    let limit: u64 = if negative { 0x8000_0000_0000_0000 } else { 0x7fff_ffff_ffff_ffff };
    let mut acc: u64 = 0;
    let mut i: usize = start;
    while i < len
        invariant
            start <= i <= len,
            len == text@.len(),
            body.len() == len - start,
            forall|j: int| 0 <= j < body.len() ==> body[j] == text@[j + start],
            all_digits(body.take(i - start)),
            acc == digits_value(body.take(i - start)),
            acc <= limit,
            limit == if negative { 0x8000_0000_0000_0000u64 } else { 0x7fff_ffff_ffff_ffffu64 },
            negative == (text@[0] == 45),
            body == if text@[0] == 45 || text@[0] == 43 { text@.skip(1) } else { text@ },
        decreases len - i,
    {
        let b = text[i];
        if b < 48 || b > 57 {
            proof {
                assert(body[i - start] == b);
                assert(!is_digit_byte(body[i - start]));
            }
            return None;
        }
        let d: u64 = (b - 48) as u64;
        proof {
            let next = body.take(i - start + 1);
            assert(next.drop_last() =~= body.take(i - start));
            assert(next.last() == b);
            assert(all_digits(next)) by {
                assert forall|j: int| 0 <= j < next.len() implies is_digit_byte(
                    #[trigger] next[j],
                ) by {
                    if j < i - start {
                        assert(next[j] == body.take(i - start)[j]);
                    }
                }
            }
            lemma_digits_value_grows(body, i - start + 1);
        }
        if acc > (limit - d) / 10 {
            return None;
        }
        acc = acc * 10 + d;
        i = i + 1;
    }
    proof {
        assert(body.take(len - start) =~= body);
    }
    if negative {
        if acc == 0x8000_0000_0000_0000 {
            Some(i64::MIN)
        } else {
            Some(-(acc as i64))
        }
    } else {
        Some(acc as i64)
    }
}

/// `text` without the double quotes around it, where it has two or more
/// bytes and begins and ends with one; else `text` itself.
pub fn strip_quotes(text: &[u8]) -> (stripped: &[u8])
    ensures
        stripped@ == strip_quotes_spec(text@),
{
    let len = text.len();
    if len >= 2 && text[0] == 34 && text[len - 1] == 34 {
        slice_subrange(text, 1, len - 1)
    } else {
        text
    }
}

impl Value {
    /// The value that a piece of text stands for, given as its UTF-8 bytes.
    /// An integer where the text spells one; else the float with the bits
    /// `float_bits`, where the caller parsed the text as a float and gives
    /// them; else the text itself, without the double quotes around it.
    /// `None` where that text is longer than a value can hold.
    pub fn sniff_bytes(text: &[u8], float_bits: Option<u64>) -> (v: Option<Value>)
        ensures
            match v {
                Some(value) => value@ == sniff(text@, float_bits),
                None => parse_integer(text@) is None && float_bits is None && strip_quotes_spec(
                    text@,
                ).len() > MAX_TEXT_LEN,
            },
    {
        match parse_i64(text) {
            Some(i) => Some(Value::from_i64(i)),
            None => match float_bits {
                Some(bits) => Some(Value::from_f64_bits(bits)),
                None => {
                    let stripped = strip_quotes(text);
                    if stripped.len() as u64 > MAX_TEXT_LEN {
                        None
                    } else {
                        Some(Value::text_from_bytes(slice_to_vec(stripped)))
                    }
                },
            },
        }
    }

    /// The value that a piece of text stands for. An integer where the text
    /// spells one; else the float with the bits `float_bits`, where the
    /// caller parsed the text as a float and gives them; else the text
    /// itself, without the double quotes around it.
    pub fn from_text(text: &str, float_bits: Option<u64>) -> (v: Value)
        requires
            encode_utf8(text@).len() <= MAX_TEXT_LEN,
        ensures
            v@ == sniff(encode_utf8(text@), float_bits),
    {
        match Value::sniff_bytes(text.as_bytes(), float_bits) {
            Some(value) => value,
            None => Value::null(),
        }
    }

    /// What the value prints as: `NULL`, an integer in decimal, a text or a
    /// blob as the text that its bytes spell. `None` for a float: the caller
    /// prints it from its bits.
    pub fn to_display_string(&self) -> (text: Option<String>)
        ensures
            match display(self@) {
                Some(chars) => text is Some && text->0@ == chars,
                None => text is None,
            },
            self@.datatype() == crate::value::Datatype::Text && valid_utf8(self@.payload)
                ==> text is Some && text->0@ == decode_utf8(self@.payload),
    {
        match self.shape() {
            Shape::Null => Some(String::from_str("NULL")),
            Shape::SmallInt(_) | Shape::Int(_) => match self.as_i64() {
                Some(i) => Some(decimal_string(i)),
                None => None,
            },
            Shape::Float => None,
            Shape::Text(_) | Shape::Blob(_) => Some(lossy_text(self.payload().as_slice())),
        }
    }

    /// Number of bytes that the value prints as: four for null, the digits
    /// and the sign of an integer, the bytes of a text or a blob. `None` for
    /// a float.
    pub fn string_len(&self) -> (n: Option<usize>)
        ensures
            match display_len(self@) {
                Some(len) => n == Some(len as usize) && len <= usize::MAX,
                None => n is None,
            },
    {
        match self.shape() {
            Shape::Null => Some(4),
            Shape::SmallInt(_) => Some(1),
            Shape::Int(_) => match self.as_i64() {
                Some(i) => Some(decimal_len(i)),
                None => None,
            },
            Shape::Float => None,
            Shape::Text(_) | Shape::Blob(_) => Some(self.payload().len()),
        }
    }
}

} // verus!
