//! A tagged scalar: null, integer, float, text or blob.
//!
//! A value is a type tag and the bytes that the tag announces. The tag gives
//! the kind and, for integers, text and blobs, the number of bytes:
//!
//! | tag            | kind                         | bytes          |
//! |----------------|------------------------------|----------------|
//! | 0              | null                         | 0              |
//! | 1, 2, 3, 4     | integer, two's complement    | 1, 2, 3, 4     |
//! | 5, 6           | integer, two's complement    | 6, 8           |
//! | 7              | float, IEEE-754 double       | 8              |
//! | 8, 9           | the integers 0 and 1         | 0              |
//! | even, 12 or up | blob                         | (tag - 12) / 2 |
//! | odd, 13 or up  | text, UTF-8                  | (tag - 13) / 2 |
//!
//! Tags 10 and 11 name nothing. All numbers are stored big-endian. A float is
//! handled as its 64 bits throughout; nothing here does float arithmetic.
use vstd::prelude::*;
use vstd::slice::slice_to_vec;
use vstd::string::StrSliceExecFns;
use vstd::utf8::encode_utf8;
use crate::endian::{be_bytes, be_signed, be_value, pow256, signed_bytes};
use crate::endian;
use crate::error::{CorruptReason, StorageError};
use crate::varint;

verus! {

/// The kind of a value.
#[derive(Debug, Clone, Copy, PartialEq, Eq, Structural)]
pub enum Datatype {
    Text,
    Blob,
    Integer,
    Float,
    Null,
}

/// What a type tag announces: the kind, and the width or length with it.
#[derive(Debug, Clone, Copy, PartialEq, Eq, Structural)]
pub enum Shape {
    Null,
    /// The integer 0 (`false`) or 1 (`true`), stored in the tag alone.
    SmallInt(bool),
    /// An integer of the given width in bytes: 1, 2, 3, 4, 6 or 8.
    Int(u8),
    Float,
    /// Text of the given length in bytes.
    Text(u64),
    /// A blob of the given length in bytes.
    Blob(u64),
}

/// The shape that `tag` announces; `None` for the tags 10 and 11.
pub open spec fn shape_of(tag: u64) -> Option<Shape> {
    if tag == 0 {
        Some(Shape::Null)
    } else if tag <= 4 {
        Some(Shape::Int(tag as u8))
    } else if tag == 5 {
        Some(Shape::Int(6))
    } else if tag == 6 {
        Some(Shape::Int(8))
    } else if tag == 7 {
        Some(Shape::Float)
    } else if tag == 8 {
        Some(Shape::SmallInt(false))
    } else if tag == 9 {
        Some(Shape::SmallInt(true))
    } else if tag < 12 {
        None
    } else if tag % 2 == 0 {
        Some(Shape::Blob(((tag - 12) / 2) as u64))
    } else {
        Some(Shape::Text(((tag - 13) / 2) as u64))
    }
}

impl Shape {
    /// Number of bytes that follow a tag of this shape.
    pub open spec fn payload_len(self) -> nat {
        match self {
            Shape::Null => 0,
            Shape::SmallInt(_) => 0,
            Shape::Int(width) => width as nat,
            Shape::Float => 8,
            Shape::Text(len) => len as nat,
            Shape::Blob(len) => len as nat,
        }
    }

    /// The kind of a value of this shape.
    pub open spec fn datatype(self) -> Datatype {
        match self {
            Shape::Null => Datatype::Null,
            Shape::SmallInt(_) => Datatype::Integer,
            Shape::Int(_) => Datatype::Integer,
            Shape::Float => Datatype::Float,
            Shape::Text(_) => Datatype::Text,
            Shape::Blob(_) => Datatype::Blob,
        }
    }

    /// Decodes a type tag. The tags 10 and 11 are rejected.
    pub fn of_tag(tag: u64) -> (result: Result<Shape, StorageError>)
        ensures
            match shape_of(tag) {
                Some(shape) => result == Ok::<Shape, StorageError>(shape),
                None => result == Err::<Shape, StorageError>(StorageError::InvalidType(tag)),
            },
    {
        if tag == 0 {
            Ok(Shape::Null)
        } else if tag <= 4 {
            Ok(Shape::Int(tag as u8))
        } else if tag == 5 {
            Ok(Shape::Int(6))
        } else if tag == 6 {
            Ok(Shape::Int(8))
        } else if tag == 7 {
            Ok(Shape::Float)
        } else if tag == 8 {
            Ok(Shape::SmallInt(false))
        } else if tag == 9 {
            Ok(Shape::SmallInt(true))
        } else if tag < 12 {
            Err(StorageError::InvalidType(tag))
        } else if tag % 2 == 0 {
            Ok(Shape::Blob((tag - 12) / 2))
        } else {
            Ok(Shape::Text((tag - 13) / 2))
        }
    }

    /// Number of bytes that follow a tag of this shape.
    pub fn len(&self) -> (n: u64)
        ensures
            n == self.payload_len(),
    {
        match self {
            Shape::Null => 0,
            Shape::SmallInt(_) => 0,
            Shape::Int(width) => *width as u64,
            Shape::Float => 8,
            Shape::Text(len) => *len,
            Shape::Blob(len) => *len,
        }
    }

    /// The kind of a value of this shape.
    pub fn kind(&self) -> (kind: Datatype)
        ensures
            kind == self.datatype(),
    {
        match self {
            Shape::Null => Datatype::Null,
            Shape::SmallInt(_) => Datatype::Integer,
            Shape::Int(_) => Datatype::Integer,
            Shape::Float => Datatype::Float,
            Shape::Text(_) => Datatype::Text,
            Shape::Blob(_) => Datatype::Blob,
        }
    }
}

/// A value as contracts see it: the tag and the bytes.
pub struct ValueView {
    pub tag: u64,
    pub payload: Seq<u8>,
}

impl ValueView {
    /// The tag names a shape, and the bytes are as many as it announces.
    pub open spec fn wf(self) -> bool {
        shape_of(self.tag) matches Some(shape) && self.payload.len() == shape.payload_len()
    }

    /// The shape of a well-formed value.
    pub open spec fn shape(self) -> Shape
        recommends
            self.wf(),
    {
        shape_of(self.tag).unwrap()
    }

    /// The kind of a well-formed value.
    pub open spec fn datatype(self) -> Datatype
        recommends
            self.wf(),
    {
        self.shape().datatype()
    }

    /// The number that an integer value holds; `None` for the other kinds.
    pub open spec fn integer(self) -> Option<int>
        recommends
            self.wf(),
    {
        match self.shape() {
            Shape::SmallInt(one) => Some(if one { 1int } else { 0int }),
            Shape::Int(_) => Some(be_signed(self.payload)),
            _ => None,
        }
    }

    /// The 64 bits that a float value holds; `None` for the other kinds.
    pub open spec fn float_bits(self) -> Option<u64>
        recommends
            self.wf(),
    {
        match self.shape() {
            Shape::Float => Some(be_value(self.payload) as u64),
            _ => None,
        }
    }

    /// Number of bytes that the value takes in a record: its tag as a
    /// variable-length integer, and its bytes.
    pub open spec fn encoded_len(self) -> nat {
        varint::encoded_len(self.tag) + self.payload.len()
    }
}

/// The null value.
pub open spec fn null_view() -> ValueView {
    ValueView { tag: 0, payload: Seq::empty() }
}

/// Number of bytes of the least width, out of 1, 2, 3, 4, 6 and 8, whose
/// two's complement range holds `v`.
pub open spec fn int_width(v: int) -> nat {
    let m = if v < 0 { -v - 1 } else { v };
    if m < 0x80 {
        1
    } else if m < 0x8000 {
        2
    } else if m < 0x80_0000 {
        3
    } else if m < 0x8000_0000 {
        4
    } else if m < 0x8000_0000_0000 {
        6
    } else {
        8
    }
}

/// The tag of an integer of `width` bytes.
pub open spec fn width_tag(width: nat) -> u64 {
    if width <= 4 {
        width as u64
    } else if width == 6 {
        5
    } else {
        6
    }
}

/// The value that stands for the integer `v`: 0 and 1 are held in the tag
/// alone, any other number in the least width that holds it.
pub open spec fn int_view(v: int) -> ValueView {
    if v == 0 {
        ValueView { tag: 8, payload: Seq::empty() }
    } else if v == 1 {
        ValueView { tag: 9, payload: Seq::empty() }
    } else {
        ValueView { tag: width_tag(int_width(v)), payload: signed_bytes(v, int_width(v)) }
    }
}

/// The value that stands for the float with the given bits.
pub open spec fn float_view(bits: u64) -> ValueView {
    ValueView { tag: 7, payload: be_bytes(bits as nat, 8) }
}

/// The text value with the given bytes.
pub open spec fn text_view(bytes: Seq<u8>) -> ValueView {
    ValueView { tag: (13 + 2 * bytes.len()) as u64, payload: bytes }
}

/// A float's place among the floats: its magnitude bits, negated where the
/// sign bit is set. Both zeros are at 0, and the infinities are at the ends.
pub open spec fn float_rank(bits: u64) -> int {
    if bits >= 0x8000_0000_0000_0000 {
        -(bits - 0x8000_0000_0000_0000)
    } else {
        bits as int
    }
}

/// The bits are those of a NaN: all exponent bits set, and a fraction that
/// is not zero.
pub open spec fn float_is_nan(bits: u64) -> bool {
    bits % 0x8000_0000_0000_0000 > 0x7ff0_0000_0000_0000
}

/// The views of the values in `values`, in their order.
pub open spec fn views(values: Seq<Value>) -> Seq<ValueView> {
    values.map_values(|v: Value| v@)
}

/// The longest text, in bytes, whose tag fits in 64 bits.
pub const MAX_TEXT_LEN: u64 = 0x7fff_ffff_ffff_fff9;

/// A tagged scalar. It cannot be changed once it is made.
#[derive(Debug)]
pub struct Value {
    /// The type tag: the kind, and the number of bytes.
    tag: u64,
    /// The bytes that the tag announces.
    payload: Vec<u8>,
}

impl View for Value {
    type V = ValueView;

    closed spec fn view(&self) -> ValueView {
        ValueView { tag: self.tag, payload: self.payload@ }
    }
}

impl Clone for Value {
    fn clone(&self) -> (copy: Self)
        ensures
            copy@ == self@,
    {
        proof {
            use_type_invariant(self);
        }
        Value { tag: self.tag, payload: slice_to_vec(self.payload.as_slice()) }
    }
}

impl Value {
    #[verifier::type_invariant]
    spec fn inv(&self) -> bool {
        self@.wf()
    }

    /// Makes a value from a tag and its bytes. Fails with `InvalidType`
    /// where the tag names nothing, and with `CorruptRecord` where the bytes
    /// are not as many as the tag announces.
    pub fn from_parts(tag: u64, payload: Vec<u8>) -> (result: Result<Value, StorageError>)
        ensures
            match shape_of(tag) {
                None => result is Err && result->Err_0 == StorageError::InvalidType(tag),
                Some(shape) => if payload@.len() == shape.payload_len() {
                    result is Ok && result->Ok_0@ == (ValueView { tag, payload: payload@ })
                } else {
                    result is Err && result->Err_0 == StorageError::CorruptRecord(
                        CorruptReason::LengthMismatch,
                    )
                },
            },
    {
        match Shape::of_tag(tag) {
            Err(e) => Err(e),
            Ok(shape) => {
                if payload.len() as u64 == shape.len() {
                    Ok(Value { tag, payload })
                } else {
                    Err(StorageError::CorruptRecord(CorruptReason::LengthMismatch))
                }
            },
        }
    }

    /// The null value.
    pub fn null() -> (v: Value)
        ensures
            v@ == null_view(),
    {
        Value { tag: 0, payload: Vec::new() }
    }

    /// The float with the given IEEE-754 bits.
    pub fn from_f64_bits(bits: u64) -> (v: Value)
        ensures
            v@ == float_view(bits),
    {
        let payload = endian::u64_to_bytes(bits);
        proof {
            endian::lemma_be_bytes_len(bits as nat, 8);
        }
        Value { tag: 7, payload }
    }

    /// The integer `value`, in the least width that holds it.
    pub fn from_i64(value: i64) -> (v: Value)
        ensures
            v@ == int_view(value as int),
    {
        if value == 0 {
            Value { tag: 8, payload: Vec::new() }
        } else if value == 1 {
            Value { tag: 9, payload: Vec::new() }
        } else {
            let width = encoding_len(value);
            let payload = as_bytes(value, width);
            proof {
                endian::lemma_be_bytes_len(
                    (if value < 0 { value + pow256(width as nat) } else { value as int }) as nat,
                    width as nat,
                );
            }
            Value { tag: int_datatype(width), payload }
        }
    }

    /// The text value that holds `text` as it is, with no look at what it
    /// spells.
    pub fn text(text: &str) -> (v: Value)
        requires
            encode_utf8(text@).len() <= MAX_TEXT_LEN,
        ensures
            v@ == text_view(encode_utf8(text@)),
    {
        Value::text_from_bytes(text.as_bytes_vec())
    }

    /// The text value that holds the given bytes.
    pub fn text_from_bytes(payload: Vec<u8>) -> (v: Value)
        requires
            payload@.len() <= MAX_TEXT_LEN,
        ensures
            v@ == text_view(payload@),
    {
        let tag: u64 = 13 + 2 * (payload.len() as u64);
        Value { tag, payload }
    }

    /// The type tag.
    pub fn tag(&self) -> (tag: u64)
        ensures
            tag == self@.tag,
            self@.wf(),
    {
        proof {
            use_type_invariant(self);
        }
        self.tag
    }

    /// The bytes that follow the tag.
    pub fn payload(&self) -> (bytes: &Vec<u8>)
        ensures
            bytes@ == self@.payload,
            self@.wf(),
    {
        proof {
            use_type_invariant(self);
        }
        &self.payload
    }

    /// The shape that the tag announces.
    pub fn shape(&self) -> (shape: Shape)
        ensures
            self@.wf(),
            shape == self@.shape(),
    {
        proof {
            use_type_invariant(self);
        }
        match Shape::of_tag(self.tag) {
            Ok(shape) => shape,
            Err(_) => Shape::Null,
        }
    }

    /// The kind of the value.
    pub fn datatype(&self) -> (kind: Datatype)
        ensures
            kind == self@.datatype(),
    {
        self.shape().kind()
    }

    /// Number of bytes that the value takes in a record: its tag as a
    /// variable-length integer, and its bytes.
    pub fn bytes_len(&self) -> (n: u64)
        ensures
            n == self@.encoded_len(),
    {
        proof {
            use_type_invariant(self);
        }
        varint::len(self.tag) as u64 + self.payload.len() as u64
    }

    /// The number that an integer value holds; `None` for the other kinds.
    pub fn as_i64(&self) -> (n: Option<i64>)
        ensures
            match self@.integer() {
                Some(i) => n == Some(i as i64) && i64::MIN <= i <= i64::MAX,
                None => n is None,
            },
    {
        match self.shape() {
            Shape::SmallInt(one) => Some(if one { 1 } else { 0 }),
            Shape::Int(width) => {
                proof {
                    use_type_invariant(self);
                    assert(self.payload@.subrange(0, width as int) =~= self.payload@);
                }
                Some(endian::read_int(self.payload.as_slice(), width as usize))
            },
            _ => None,
        }
    }

    /// The 64 bits that a float value holds; `None` for the other kinds.
    pub fn float_bits(&self) -> (bits: Option<u64>)
        ensures
            bits == self@.float_bits(),
    {
        match self.shape() {
            Shape::Float => {
                proof {
                    use_type_invariant(self);
                    assert(self.payload@.subrange(0, 8) =~= self.payload@);
                    endian::lemma_be_value_bound(self.payload@);
                }
                Some(endian::read_u64(self.payload.as_slice()))
            },
            _ => None,
        }
    }
}

/// A float's place among the floats, and whether it is a NaN.
pub fn float_place(bits: u64) -> (place: (i128, bool))
    ensures
        place.0 == float_rank(bits),
        place.1 == float_is_nan(bits),
{
    let magnitude: u64 = bits % 0x8000_0000_0000_0000;
    let rank: i128 = if bits >= 0x8000_0000_0000_0000 {
        -(magnitude as i128)
    } else {
        magnitude as i128
    };
    (rank, magnitude > 0x7ff0_0000_0000_0000)
}

/// The tag of an integer of `width` bytes.
fn int_datatype(width: usize) -> (tag: u64)
    requires
        width == 1 || width == 2 || width == 3 || width == 4 || width == 6 || width == 8,
    ensures
        tag == width_tag(width as nat),
        shape_of(tag) == Some(Shape::Int(width as u8)),
{
    if width <= 4 {
        width as u64
    } else if width == 6 {
        5
    } else {
        6
    }
}

/// Number of bytes of the least width, out of 1, 2, 3, 4, 6 and 8, that
/// holds `v` in two's complement.
fn encoding_len(v: i64) -> (width: usize)
    ensures
        width == int_width(v as int),
        width == 1 || width == 2 || width == 3 || width == 4 || width == 6 || width == 8,
        -(pow256(width as nat) as int) <= 2 * v < pow256(width as nat),
{
    let m: i64 = if v < 0 { -(v + 1) } else { v };
    if m < 0x80 {
        1
    } else if m < 0x8000 {
        2
    } else if m < 0x80_0000 {
        3
    } else if m < 0x8000_0000 {
        4
    } else if m < 0x8000_0000_0000 {
        6
    } else {
        8
    }
}

/// Appends the `n` low base-256 digits of `v` to `out`, most significant
/// first.
fn encode(out: &mut Vec<u8>, v: u64, n: usize)
    ensures
        final(out)@ == old(out)@ + be_bytes(v as nat, n as nat),
    decreases n,
{
    if n > 0 {
        encode(out, v / 256, n - 1);
        out.push((v % 256) as u8);
        assert(final(out)@ =~= old(out)@ + be_bytes(v as nat, n as nat));
    } else {
        assert(out@ =~= old(out)@ + be_bytes(v as nat, n as nat));
    }
}

/// The `width`-byte two's complement of `v`, big-endian.
fn as_bytes(v: i64, width: usize) -> (bytes: Vec<u8>)
    requires
        1 <= width <= 8,
        -(pow256(width as nat) as int) <= 2 * v < pow256(width as nat),
    ensures
        bytes@ == signed_bytes(v as int, width as nat),
{
    let unsigned: u64 = if v >= 0 {
        v as u64
    } else if width == 8 {
        (v - i64::MIN) as u64 + 0x8000_0000_0000_0000
    } else {
        let span: i64 = if width == 1 {
            0x100
        } else if width == 2 {
            0x1_0000
        } else if width == 3 {
            0x100_0000
        } else if width == 4 {
            0x1_0000_0000
        } else if width == 5 {
            0x100_0000_0000
        } else if width == 6 {
            0x1_0000_0000_0000
        } else {
            0x100_0000_0000_0000
        };
        (v + span) as u64
    };
    let mut bytes: Vec<u8> = Vec::new();
    encode(&mut bytes, unsigned, width);
    assert(bytes@ =~= signed_bytes(v as int, width as nat));
    bytes
}

/// An integer comes back from the value that stands for it.
pub proof fn lemma_int_round_trip(v: int)
    requires
        i64::MIN <= v <= i64::MAX,
    ensures
        int_view(v).wf(),
        int_view(v).integer() == Some(v),
{
    if v != 0 && v != 1 {
        endian::lemma_signed_round_trip(v, int_width(v));
    }
}

/// The bits of a float come back from the value that stands for it.
pub proof fn lemma_float_round_trip(bits: u64)
    ensures
        float_view(bits).wf(),
        float_view(bits).float_bits() == Some(bits),
{
    endian::lemma_be_bytes_len(bits as nat, 8);
    endian::lemma_be_round_trip(bits as nat, 8);
}

} // verus!
