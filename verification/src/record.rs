//! A record: a row identifier and an ordered list of values.
//!
//! A record is stored as one self-describing byte string:
//!
//! ```text
//! varint(total length)    the header length, plus the bytes of all values
//! varint(row identifier)
//! varint(header length)   one, plus the bytes of all tags
//! varint(tag)             for each column, in order
//! bytes                   of each column, in order
//! ```
//!
//! The header length counts its own field as one byte, whatever that field
//! takes; the total length counts neither itself nor the row identifier.
use vstd::prelude::*;
use vstd::slice::{slice_subrange, slice_to_vec};
use crate::error::{CorruptReason, StorageError};
use crate::text::display_len;
use crate::value::{shape_of, views, Shape, Value, ValueView};
use crate::varint;

verus! {

/// A record as contracts see it.
pub struct RecordView {
    pub rowid: u64,
    pub columns: Seq<ValueView>,
}

/// The tags of `columns`, in their order.
pub open spec fn tags_of(columns: Seq<ValueView>) -> Seq<u64> {
    columns.map_values(|c: ValueView| c.tag)
}

/// The tags of `columns` as variable-length integers, one after the other.
pub open spec fn tag_bytes(columns: Seq<ValueView>) -> Seq<u8> {
    columns.map_values(|c: ValueView| varint::encode(c.tag)).flatten()
}

/// The bytes of `columns`, one after the other.
pub open spec fn raw_bytes(columns: Seq<ValueView>) -> Seq<u8> {
    columns.map_values(|c: ValueView| c.payload).flatten()
}

/// Number of bytes that `columns` print as; `None` where one is a float.
pub open spec fn display_len_sum(columns: Seq<ValueView>) -> Option<nat>
    decreases columns.len(),
{
    if columns.len() == 0 {
        Some(0)
    } else {
        match (display_len_sum(columns.drop_last()), display_len(columns.last())) {
            (Some(sum), Some(len)) => Some(sum + len),
            _ => None,
        }
    }
}

impl RecordView {
    /// Every column is well-formed.
    pub open spec fn wf(self) -> bool {
        forall|i: int| 0 <= i < self.columns.len() ==> (#[trigger] self.columns[i]).wf()
    }

    /// The header length that is stored: one, plus the bytes of all tags.
    pub open spec fn header_len(self) -> nat {
        1 + tag_bytes(self.columns).len()
    }

    /// The total length that is stored: the header length, plus the bytes of
    /// all values.
    pub open spec fn body_len(self) -> nat {
        1 + tag_bytes(self.columns).len() + raw_bytes(self.columns).len()
    }

    /// The byte string that stands for the record.
    pub open spec fn serialized(self) -> Seq<u8>
        recommends
            self.body_len() <= u64::MAX,
    {
        varint::encode(self.body_len() as u64) + varint::encode(self.rowid) + varint::encode(
            self.header_len() as u64,
        ) + tag_bytes(self.columns) + raw_bytes(self.columns)
    }
}

/// The tags that are read from `pos` up to `end`, after those in `acc`. The
/// last tag has to end at `end`, and each has to name a shape.
pub open spec fn parse_tags(bytes: Seq<u8>, pos: nat, end: nat, acc: Seq<u64>) -> Result<
    Seq<u64>,
    CorruptReason,
>
    decreases end - pos,
{
    if pos >= end {
        Ok(acc)
    } else {
        match varint::decode(bytes.skip(pos as int)) {
            None => Err(CorruptReason::TruncatedField),
            Some((n, tag)) => {
                proof {
                    varint::lemma_decode_bounds(bytes.skip(pos as int));
                }
                if pos + n > end {
                    Err(CorruptReason::HeaderOverrun)
                } else if shape_of(tag as u64) is None {
                    Err(CorruptReason::UnknownTag(tag as u64))
                } else {
                    parse_tags(bytes, pos + n, end, acc.push(tag as u64))
                }
            },
        }
    }
}

/// The values that are read from `pos` on for `tags`, after those in `acc`,
/// and the position behind the last. Each value has to lie within `bytes`.
pub open spec fn parse_values(bytes: Seq<u8>, pos: nat, tags: Seq<u64>, acc: Seq<ValueView>)
    -> Result<(Seq<ValueView>, nat), CorruptReason>
    decreases tags.len(),
{
    if tags.len() == 0 {
        Ok((acc, pos))
    } else {
        let len = shape_of(tags[0]).unwrap().payload_len();
        if pos + len > bytes.len() {
            Err(CorruptReason::PayloadOverrun)
        } else {
            parse_values(
                bytes,
                pos + len,
                tags.drop_first(),
                acc.push(
                    ValueView {
                        tag: tags[0],
                        payload: bytes.subrange(pos as int, (pos + len) as int),
                    },
                ),
            )
        }
    }
}

/// The record that `bytes` hold from the row identifier on, where
/// `total_len` is the total length that was stored before it. Bytes behind
/// the record are ignored.
pub open spec fn decode_body(total_len: u64, bytes: Seq<u8>) -> Result<RecordView, CorruptReason> {
    match varint::decode(bytes) {
        None => Err(CorruptReason::TruncatedField),
        Some((r, rowid)) => match varint::decode(bytes.skip(r as int)) {
            None => Err(CorruptReason::TruncatedField),
            Some((h, header_len)) => {
                let tags_end = (r + h + header_len - 1) as nat;
                if header_len == 0 {
                    Err(CorruptReason::EmptyHeader)
                } else if tags_end > bytes.len() {
                    Err(CorruptReason::HeaderOverrun)
                } else {
                    match parse_tags(bytes, r + h, tags_end, Seq::empty()) {
                        Err(reason) => Err(reason),
                        Ok(tags) => match parse_values(bytes, tags_end, tags, Seq::empty()) {
                            Err(reason) => Err(reason),
                            Ok((columns, end)) => if header_len + end - tags_end != total_len {
                                Err(CorruptReason::LengthMismatch)
                            } else {
                                Ok(RecordView { rowid: rowid as u64, columns })
                            },
                        },
                    }
                }
            },
        },
    }
}

/// What `Record::deserialize` returns for these arguments.
pub open spec fn deserialize_spec(total_len: u64, bytes: Seq<u8>) -> Result<
    RecordView,
    StorageError,
> {
    match decode_body(total_len, bytes) {
        Ok(record) => Ok(record),
        Err(reason) => Err(StorageError::CorruptRecord(reason)),
    }
}

/// The record at the front of `bytes`, total length and all. Bytes behind
/// the record are ignored.
#[verifier::opaque]
pub open spec fn read_spec(bytes: Seq<u8>) -> Result<RecordView, StorageError> {
    match varint::decode(bytes) {
        None => Err(StorageError::TruncatedVarint),
        Some((n, total_len)) => deserialize_spec(total_len as u64, bytes.skip(n as int)),
    }
}

/// A row identifier and an ordered list of values.
#[derive(Debug)]
pub struct Record {
    rowid: u64,
    values: Vec<Value>,
}

impl View for Record {
    type V = RecordView;

    closed spec fn view(&self) -> RecordView {
        RecordView { rowid: self.rowid, columns: views(self.values@) }
    }
}

impl Default for Record {
    /// The record with row identifier 0 and no column.
    fn default() -> (record: Self)
        ensures
            record@ == (RecordView { rowid: 0, columns: Seq::empty() }),
    {
        let record = Record { rowid: 0, values: Vec::new() };
        assert(record@.columns =~= Seq::empty());
        record
    }
}

impl Clone for Record {
    fn clone(&self) -> (copy: Self)
        ensures
            copy@ == self@,
    {
        let mut values: Vec<Value> = Vec::new();
        let mut i: usize = 0;
        while i < self.values.len()
            invariant
                i <= self.values@.len(),
                views(values@) == views(self.values@).take(i as int),
            decreases self.values@.len() - i,
        {
            let value = self.values[i].clone();
            assert(views(values@.push(value)) =~= views(values@).push(value@));
            values.push(value);
            assert(views(values@) =~= views(self.values@).take(i + 1));
            i = i + 1;
        }
        assert(views(values@) =~= views(self.values@));
        Record { rowid: self.rowid, values }
    }
}

impl Record {
    /// The record with the given row identifier and no column.
    pub fn new(rowid: u64) -> (record: Record)
        ensures
            record@ == (RecordView { rowid, columns: Seq::empty() }),
    {
        let record = Record { rowid, values: Vec::new() };
        assert(record@.columns =~= Seq::empty());
        record
    }

    /// The row identifier.
    pub fn rowid(&self) -> (rowid: u64)
        ensures
            rowid == self@.rowid,
    {
        self.rowid
    }

    /// Gives the record another row identifier.
    pub fn set_rowid(&mut self, rowid: u64)
        ensures
            final(self)@ == (RecordView { rowid, columns: old(self)@.columns }),
    {
        self.rowid = rowid;
    }

    /// Number of columns.
    pub fn column_count(&self) -> (count: usize)
        ensures
            count == self@.columns.len(),
    {
        self.values.len()
    }

    /// Adds a value as the last column.
    pub fn add_value(&mut self, value: Value)
        ensures
            final(self)@ == (RecordView {
                rowid: old(self)@.rowid,
                columns: old(self)@.columns.push(value@),
            }),
    {
        self.values.push(value);
        assert(views(self.values@) =~= views(old(self).values@).push(value@));
    }

    /// The value of the column at `index`. Fails with `ColumnOutOfRange`
    /// where the record has no such column.
    pub fn get(&self, index: usize) -> (result: Result<&Value, StorageError>)
        ensures
            match result {
                Ok(value) => index < self@.columns.len() && value@ == self@.columns[index as int],
                Err(e) => index >= self@.columns.len() && e == StorageError::ColumnOutOfRange(
                    index,
                    self@.columns.len() as usize,
                ),
            },
    {
        if index < self.values.len() {
            Ok(&self.values[index])
        } else {
            Err(StorageError::ColumnOutOfRange(index, self.values.len()))
        }
    }

    /// A record with the columns of this one and then those of `other`,
    /// under the row identifier of this one.
    pub fn concat(&self, other: &Record) -> (joined: Record)
        ensures
            joined@ == (RecordView {
                rowid: self@.rowid,
                columns: self@.columns + other@.columns,
            }),
    {
        let mut joined = self.clone();
        let mut i: usize = 0;
        while i < other.values.len()
            invariant
                i <= other.values@.len(),
                joined@.rowid == self@.rowid,
                joined@.columns == self@.columns + other@.columns.take(i as int),
            decreases other.values@.len() - i,
        {
            joined.add_value(other.values[i].clone());
            assert(joined@.columns =~= self@.columns + other@.columns.take(i + 1));
            i = i + 1;
        }
        assert(joined@.columns =~= self@.columns + other@.columns);
        joined
    }

    /// Number of bytes that the columns print as, all together. `None`
    /// where a column is a float, or the sum does not fit.
    pub fn string_len(&self) -> (n: Option<usize>)
        ensures
            match display_len_sum(self@.columns) {
                Some(len) => if len <= usize::MAX {
                    n == Some(len as usize)
                } else {
                    n is None
                },
                None => n is None,
            },
    {
        let mut sum: usize = 0;
        let mut i: usize = 0;
        while i < self.values.len()
            invariant
                i <= self.values@.len(),
                display_len_sum(self@.columns.take(i as int)) == Some(sum as nat),
            decreases self.values@.len() - i,
        {
            proof {
                assert(self@.columns.take(i + 1).drop_last() =~= self@.columns.take(i as int));
                lemma_display_len_sum_grows(self@.columns, i + 1);
            }
            match self.values[i].string_len() {
                None => {
                    return None;
                },
                Some(len) => {
                    if len > usize::MAX - sum {
                        return None;
                    }
                    sum = sum + len;
                },
            }
            i = i + 1;
        }
        assert(self@.columns.take(i as int) =~= self@.columns);
        Some(sum)
    }

    /// The header length and the total length that are stored with the
    /// record. `None` where the total length does not fit in 64 bits.
    fn checked_lens(&self) -> (lens: Option<(u64, u64)>)
        ensures
            match lens {
                Some((header, body)) => header == self@.header_len() && body == self@.body_len()
                    && self@.wf(),
                None => self@.body_len() > u64::MAX,
            },
    {
        let mut header: u64 = 1;
        let mut sum: u64 = 1;
        let mut i: usize = 0;
        let ghost columns = self@.columns;
        proof {
            lemma_bytes_of_none();
            assert(columns.take(0) =~= Seq::empty());
        }
        while i < self.values.len()
            invariant
                i <= self.values@.len(),
                columns == self@.columns,
                columns == views(self.values@),
                header == 1 + tag_bytes(columns.take(i as int)).len(),
                sum == header + raw_bytes(columns.take(i as int)).len(),
                forall|j: int| 0 <= j < i ==> (#[trigger] columns[j]).wf(),
            decreases self.values@.len() - i,
        {
            let len = self.values[i].bytes_len();
            let tag = self.values[i].tag();
            proof {
                assert(columns.take(i + 1) =~= columns.take(i as int).push(columns[i as int]));
                lemma_bytes_push(columns.take(i as int), columns[i as int]);
                varint::lemma_encode_len(tag);
                lemma_bytes_grow(columns, i + 1);
            }
            if len > u64::MAX - sum {
                return None;
            }
            sum = sum + len;
            header = header + varint::len(tag) as u64;
            i = i + 1;
        }
        assert(columns.take(i as int) =~= columns);
        Some((header, sum))
    }

    /// The total length that is stored with the record: one, plus the bytes
    /// of all tags and of all values. `None` where it does not fit.
    pub fn checked_bytes_len(&self) -> (n: Option<u64>)
        ensures
            match n {
                Some(len) => len == self@.body_len() && self@.wf(),
                None => self@.body_len() > u64::MAX,
            },
    {
        match self.checked_lens() {
            Some((_, body)) => Some(body),
            None => None,
        }
    }

    /// Number of bytes that `serialize` writes for the record, without
    /// writing them. `None` where the total length does not fit in 64 bits,
    /// or that number not in a `usize`.
    pub fn checked_serialized_len(&self) -> (n: Option<usize>)
        ensures
            match n {
                Some(len) => self@.body_len() <= u64::MAX && len == self@.serialized().len()
                    && self@.wf(),
                None => self@.body_len() > u64::MAX || self@.serialized().len() > usize::MAX,
            },
    {
        match self.checked_lens() {
            None => None,
            Some((header, body)) => {
                proof {
                    lemma_serialized_len(self@);
                }
                let fields: u64 = (varint::len(body) + varint::len(self.rowid) + varint::len(
                    header,
                )) as u64;
                if body - 1 > u64::MAX - fields {
                    return None;
                }
                let total: u64 = fields + (body - 1);
                if total > usize::MAX as u64 {
                    return None;
                }
                Some(total as usize)
            },
        }
    }

    /// The total length that is stored with the record: one, plus the bytes
    /// of all tags and of all values.
    pub fn bytes_len(&self) -> (n: u64)
        requires
            self@.body_len() <= u64::MAX,
        ensures
            n == self@.body_len(),
    {
        match self.checked_bytes_len() {
            Some(n) => n,
            None => 0,
        }
    }

    /// The byte string that stands for the record.
    pub fn serialize(&self) -> (bytes: Vec<u8>)
        requires
            self@.body_len() <= u64::MAX,
        ensures
            bytes@ == self@.serialized(),
            self@.wf(),
    {
        let mut tags: Vec<u8> = Vec::new();
        let mut raws: Vec<u8> = Vec::new();
        let mut i: usize = 0;
        let ghost columns = self@.columns;
        proof {
            lemma_bytes_of_none();
            assert(columns.take(0) =~= Seq::empty());
        }
        while i < self.values.len()
            invariant
                i <= self.values@.len(),
                columns == self@.columns,
                columns == views(self.values@),
                tags@ == tag_bytes(columns.take(i as int)),
                raws@ == raw_bytes(columns.take(i as int)),
                forall|j: int| 0 <= j < i ==> (#[trigger] columns[j]).wf(),
            decreases self.values@.len() - i,
        {
            let value = &self.values[i];
            let mut tag = varint::write(value.tag());
            let mut raw = slice_to_vec(value.payload().as_slice());
            tags.append(&mut tag);
            raws.append(&mut raw);
            proof {
                assert(columns.take(i + 1) =~= columns.take(i as int).push(columns[i as int]));
                lemma_bytes_push(columns.take(i as int), columns[i as int]);
            }
            i = i + 1;
        }
        assert(columns.take(i as int) =~= columns);
        let header_len: u64 = 1 + tags.len() as u64;
        let total_len: u64 = header_len + raws.len() as u64;
        let mut bytes = varint::write(total_len);
        let mut rowid = varint::write(self.rowid);
        let mut header = varint::write(header_len);
        bytes.append(&mut rowid);
        bytes.append(&mut header);
        bytes.append(&mut tags);
        bytes.append(&mut raws);
        bytes
    }

    /// Reads the record that `bytes` hold from the row identifier on, where
    /// `total_len` is the total length that was stored before it. Bytes
    /// behind the record are ignored. Fails with `CorruptRecord` where a
    /// field is cut short, the header length is zero or reaches past the
    /// bytes, the tags do not end where the header does, a tag names
    /// nothing, a value reaches past the bytes, or the header and the values
    /// are not `total_len` bytes.
    #[verifier::loop_isolation(false)]
    pub fn deserialize(total_len: u64, bytes: &[u8]) -> (result: Result<Record, StorageError>)
        ensures
            match deserialize_spec(total_len, bytes@) {
                Ok(record) => result is Ok && result->Ok_0@ == record,
                Err(e) => result is Err && result->Err_0 == e,
            },
    {
        let len = bytes.len();
        let (r, rowid) = match varint::read(bytes) {
            Ok(pair) => pair,
            Err(_) => {
                return Err(StorageError::CorruptRecord(CorruptReason::TruncatedField));
            },
        };
        proof {
            assert(bytes@.subrange(r as int, len as int) =~= bytes@.skip(r as int));
        }
        let (h, header_len) = match varint::read(slice_subrange(bytes, r, len)) {
            Ok(pair) => pair,
            Err(_) => {
                return Err(StorageError::CorruptRecord(CorruptReason::TruncatedField));
            },
        };
        if header_len == 0 {
            return Err(StorageError::CorruptRecord(CorruptReason::EmptyHeader));
        }
        let tags_start: usize = r + h;
        if header_len - 1 > (len - tags_start) as u64 {
            return Err(StorageError::CorruptRecord(CorruptReason::HeaderOverrun));
        }
        let tags_end: usize = tags_start + (header_len - 1) as usize;

        let mut tags: Vec<u64> = Vec::new();
        let mut pos: usize = tags_start;
        while pos < tags_end
            invariant
                tags_start <= pos <= tags_end <= len,
                len == bytes@.len(),
                parse_tags(bytes@, tags_start as nat, tags_end as nat, Seq::empty()) == parse_tags(
                    bytes@,
                    pos as nat,
                    tags_end as nat,
                    tags@,
                ),
                forall|j: int| 0 <= j < tags@.len() ==> shape_of(#[trigger] tags@[j]) is Some,
            decreases tags_end - pos,
        {
            proof {
                assert(bytes@.subrange(pos as int, len as int) =~= bytes@.skip(pos as int));
            }
            let (n, tag) = match varint::read(slice_subrange(bytes, pos, len)) {
                Ok(pair) => pair,
                Err(_) => {
                    return Err(StorageError::CorruptRecord(CorruptReason::TruncatedField));
                },
            };
            if n > tags_end - pos {
                return Err(StorageError::CorruptRecord(CorruptReason::HeaderOverrun));
            }
            if Shape::of_tag(tag).is_err() {
                return Err(StorageError::CorruptRecord(CorruptReason::UnknownTag(tag)));
            }
            tags.push(tag);
            pos = pos + n;
        }

        let mut values: Vec<Value> = Vec::new();
        let mut k: usize = 0;
        proof {
            assert(tags@.skip(0) =~= tags@);
            assert(views(values@) =~= Seq::empty());
        }
        while k < tags.len()
            invariant
                k <= tags@.len(),
                tags_end <= pos <= len,
                len == bytes@.len(),
                forall|j: int| 0 <= j < tags@.len() ==> shape_of(#[trigger] tags@[j]) is Some,
                parse_values(bytes@, tags_end as nat, tags@, Seq::empty()) == parse_values(
                    bytes@,
                    pos as nat,
                    tags@.skip(k as int),
                    views(values@),
                ),
            decreases tags@.len() - k,
        {
            let tag = tags[k];
            proof {
                assert(tags@.skip(k as int)[0] == tag);
                assert(tags@.skip(k as int).drop_first() =~= tags@.skip(k + 1));
            }
            let shape = match Shape::of_tag(tag) {
                Ok(shape) => shape,
                Err(e) => {
                    return Err(e);
                },
            };
            let size = shape.len();
            if size > (len - pos) as u64 {
                return Err(StorageError::CorruptRecord(CorruptReason::PayloadOverrun));
            }
            let end: usize = pos + size as usize;
            let payload = slice_to_vec(slice_subrange(bytes, pos, end));
            let value = match Value::from_parts(tag, payload) {
                Ok(value) => value,
                Err(e) => {
                    return Err(e);
                },
            };
            proof {
                assert(views(values@.push(value)) =~= views(values@).push(value@));
            }
            values.push(value);
            pos = end;
            k = k + 1;
        }
        proof {
            assert(tags@.skip(k as int).len() == 0);
        }
        if header_len as u128 + (pos - tags_end) as u128 != total_len as u128 {
            return Err(StorageError::CorruptRecord(CorruptReason::LengthMismatch));
        }
        Ok(Record { rowid, values })
    }

    /// Reads the record at the front of `bytes`, total length and all: what
    /// `serialize` wrote. Bytes behind the record are ignored. Fails with
    /// `TruncatedVarint` where the total length is cut short, and as
    /// `deserialize` does for what follows it.
    pub fn read(bytes: &[u8]) -> (result: Result<Record, StorageError>)
        ensures
            match read_spec(bytes@) {
                Ok(record) => result is Ok && result->Ok_0@ == record,
                Err(e) => result is Err && result->Err_0 == e,
            },
    {
        proof {
            reveal(read_spec);
        }
        match varint::read(bytes) {
            Err(e) => Err(e),
            Ok((n, total_len)) => {
                proof {
                    assert(bytes@.subrange(n as int, bytes@.len() as int) =~= bytes@.skip(
                        n as int,
                    ));
                }
                Record::deserialize(total_len, slice_subrange(bytes, n, bytes.len()))
            },
        }
    }
}

/// Number of bytes in what `serialize` writes: the three length fields, the
/// tags and the values.
pub proof fn lemma_serialized_len(record: RecordView)
    requires
        record.body_len() <= u64::MAX,
    ensures
        record.serialized().len() == varint::encoded_len(record.body_len() as u64)
            + varint::encoded_len(record.rowid) + varint::encoded_len(record.header_len() as u64)
            + record.body_len() - 1,
        record.serialized().len() > record.body_len(),
{
    varint::lemma_encode_len(record.body_len() as u64);
    varint::lemma_encode_len(record.rowid);
    varint::lemma_encode_len(record.header_len() as u64);
}

/// No columns take no bytes.
pub proof fn lemma_bytes_of_none()
    ensures
        tag_bytes(Seq::empty()) == Seq::<u8>::empty(),
        raw_bytes(Seq::empty()) == Seq::<u8>::empty(),
{
    assert(Seq::<ValueView>::empty().map_values(|c: ValueView| varint::encode(c.tag)) =~= Seq::<
        Seq<u8>,
    >::empty());
    assert(Seq::<ValueView>::empty().map_values(|c: ValueView| c.payload) =~= Seq::<
        Seq<u8>,
    >::empty());
}

/// One more column adds its tag and its bytes at the end.
pub proof fn lemma_bytes_push(columns: Seq<ValueView>, last: ValueView)
    ensures
        tag_bytes(columns.push(last)) == tag_bytes(columns) + varint::encode(last.tag),
        raw_bytes(columns.push(last)) == raw_bytes(columns) + last.payload,
{
    let tag_parts = columns.map_values(|c: ValueView| varint::encode(c.tag));
    let raw_parts = columns.map_values(|c: ValueView| c.payload);
    assert(columns.push(last).map_values(|c: ValueView| varint::encode(c.tag)) =~= tag_parts.push(
        varint::encode(last.tag),
    ));
    assert(columns.push(last).map_values(|c: ValueView| c.payload) =~= raw_parts.push(
        last.payload,
    ));
    tag_parts.lemma_flatten_push(varint::encode(last.tag));
    raw_parts.lemma_flatten_push(last.payload);
}

/// The first column's tag and bytes come first.
pub proof fn lemma_bytes_front(columns: Seq<ValueView>)
    requires
        columns.len() > 0,
    ensures
        tag_bytes(columns) == varint::encode(columns[0].tag) + tag_bytes(columns.drop_first()),
        raw_bytes(columns) == columns[0].payload + raw_bytes(columns.drop_first()),
{
    assert(columns.map_values(|c: ValueView| varint::encode(c.tag)).drop_first()
        =~= columns.drop_first().map_values(|c: ValueView| varint::encode(c.tag)));
    assert(columns.map_values(|c: ValueView| c.payload).drop_first()
        =~= columns.drop_first().map_values(|c: ValueView| c.payload));
}

/// The first `k` columns take no more bytes than all of them.
pub proof fn lemma_bytes_grow(columns: Seq<ValueView>, k: int)
    requires
        0 <= k <= columns.len(),
    ensures
        tag_bytes(columns.take(k)).len() <= tag_bytes(columns).len(),
        raw_bytes(columns.take(k)).len() <= raw_bytes(columns).len(),
    decreases columns.len() - k,
{
    if k < columns.len() {
        lemma_bytes_grow(columns, k + 1);
        assert(columns.take(k + 1) =~= columns.take(k).push(columns[k]));
        lemma_bytes_push(columns.take(k), columns[k]);
    } else {
        assert(columns.take(k) =~= columns);
    }
}

/// The bytes of all columns are at least as many as those of any one.
pub proof fn lemma_raw_bytes_cover(columns: Seq<ValueView>, j: int)
    requires
        0 <= j < columns.len(),
    ensures
        raw_bytes(columns).len() >= columns[j].payload.len(),
    decreases columns.len(),
{
    let front = columns.drop_last();
    assert(columns =~= front.push(columns.last()));
    lemma_bytes_push(front, columns.last());
    if j < columns.len() - 1 {
        lemma_raw_bytes_cover(front, j);
    }
}

/// Tags that were written one after the other are read back, in order.
proof fn lemma_parse_written_tags(
    bytes: Seq<u8>,
    pos: nat,
    columns: Seq<ValueView>,
    acc: Seq<u64>,
)
    requires
        forall|i: int| 0 <= i < columns.len() ==> (#[trigger] columns[i]).wf(),
        pos + tag_bytes(columns).len() <= bytes.len(),
        bytes.subrange(pos as int, (pos + tag_bytes(columns).len()) as int) == tag_bytes(columns),
    ensures
        parse_tags(bytes, pos, pos + tag_bytes(columns).len(), acc) == Ok::<
            Seq<u64>,
            CorruptReason,
        >(acc + tags_of(columns)),
    decreases columns.len(),
{
    let end = pos + tag_bytes(columns).len();
    if columns.len() == 0 {
        lemma_bytes_of_none();
        assert(columns =~= Seq::empty());
        assert(acc + tags_of(columns) =~= acc);
    } else {
        lemma_bytes_front(columns);
        let first = columns[0];
        let others = columns.drop_first();
        let written = varint::encode(first.tag);
        varint::lemma_encode_len(first.tag);
        let next = pos + written.len();
        assert(first.wf());
        assert(bytes.skip(pos as int) =~= written + bytes.skip(next as int)) by {
            assert forall|j: int| 0 <= j < written.len() implies bytes[pos + j] == written[j] by {
                assert(bytes[pos + j] == bytes.subrange(pos as int, end as int)[j]);
            }
        }
        varint::lemma_round_trip(first.tag, bytes.skip(next as int));
        assert(bytes.subrange(next as int, end as int) =~= tag_bytes(others)) by {
            assert forall|j: int| 0 <= j < tag_bytes(others).len() implies bytes[next + j]
                == tag_bytes(others)[j] by {
                assert(bytes[next + j] == bytes.subrange(pos as int, end as int)[written.len()
                    + j]);
            }
        }
        assert forall|i: int| 0 <= i < others.len() implies (#[trigger] others[i]).wf() by {
            assert(others[i] == columns[i + 1]);
        }
        lemma_parse_written_tags(bytes, next, others, acc.push(first.tag));
        assert(acc.push(first.tag) + tags_of(others) =~= acc + tags_of(columns));
    }
}

/// Values that were written one after the other are read back, in order.
proof fn lemma_parse_written_values(
    bytes: Seq<u8>,
    pos: nat,
    columns: Seq<ValueView>,
    acc: Seq<ValueView>,
)
    requires
        forall|i: int| 0 <= i < columns.len() ==> (#[trigger] columns[i]).wf(),
        pos + raw_bytes(columns).len() <= bytes.len(),
        bytes.subrange(pos as int, (pos + raw_bytes(columns).len()) as int) == raw_bytes(columns),
    ensures
        parse_values(bytes, pos, tags_of(columns), acc) == Ok::<
            (Seq<ValueView>, nat),
            CorruptReason,
        >((acc + columns, pos + raw_bytes(columns).len())),
    decreases columns.len(),
{
    let end = pos + raw_bytes(columns).len();
    if columns.len() == 0 {
        lemma_bytes_of_none();
        assert(columns =~= Seq::empty());
        assert(acc + columns =~= acc);
    } else {
        lemma_bytes_front(columns);
        let first = columns[0];
        let others = columns.drop_first();
        let next = pos + first.payload.len();
        assert(first.wf());
        assert(tags_of(columns)[0] == first.tag);
        assert(tags_of(columns).drop_first() =~= tags_of(others));
        assert(bytes.subrange(pos as int, next as int) =~= first.payload) by {
            assert forall|j: int| 0 <= j < first.payload.len() implies bytes[pos + j]
                == first.payload[j] by {
                assert(bytes[pos + j] == bytes.subrange(pos as int, end as int)[j]);
            }
        }
        assert(bytes.subrange(next as int, end as int) =~= raw_bytes(others)) by {
            assert forall|j: int| 0 <= j < raw_bytes(others).len() implies bytes[next + j]
                == raw_bytes(others)[j] by {
                assert(bytes[next + j] == bytes.subrange(pos as int, end as int)[first.payload.len()
                    + j]);
            }
        }
        assert forall|i: int| 0 <= i < others.len() implies (#[trigger] others[i]).wf() by {
            assert(others[i] == columns[i + 1]);
        }
        let read = ValueView { tag: first.tag, payload: bytes.subrange(pos as int, next as int) };
        assert(read == first);
        lemma_parse_written_values(bytes, next, others, acc.push(first));
        assert(acc.push(first) + others =~= acc + columns);
    }
}

/// What follows the total length in the bytes of a record.
pub open spec fn serialized_body(record: RecordView) -> Seq<u8> {
    varint::encode(record.rowid) + varint::encode(record.header_len() as u64) + tag_bytes(
        record.columns,
    ) + raw_bytes(record.columns)
}

/// A record comes back from what follows the total length in its bytes.
proof fn lemma_body_round_trip(record: RecordView, rest: Seq<u8>)
    requires
        record.wf(),
        record.body_len() <= u64::MAX,
    ensures
        decode_body(record.body_len() as u64, serialized_body(record) + rest) == Ok::<
            RecordView,
            CorruptReason,
        >(record),
{
    let header = record.header_len() as u64;
    let b = varint::encode(record.rowid);
    let c = varint::encode(header);
    let t = tag_bytes(record.columns);
    let p = raw_bytes(record.columns);
    let bytes = serialized_body(record) + rest;
    let tags_start = b.len() + c.len();
    let tags_end = tags_start + t.len();
    let values_end = tags_end + p.len();
    varint::lemma_encode_len(record.rowid);
    varint::lemma_encode_len(header);

    let tail = t + p + rest;
    assert(bytes == b + (c + tail) && c + tail == c + t + p + rest) by {
        lemma_concat_assoc(c, t, p);
        lemma_concat_assoc(c, t + p, rest);
        lemma_concat_assoc(t, p, rest);
        lemma_concat_assoc(b, c, t);
        lemma_concat_assoc(b, c + t, p);
        lemma_concat_assoc(b, c + t + p, rest);
    }
    assert(varint::decode(bytes) == Some((b.len(), record.rowid as nat))) by {
        varint::lemma_round_trip(record.rowid, c + tail);
    }
    assert(varint::decode(bytes.skip(b.len() as int)) == Some((c.len(), header as nat))) by {
        lemma_skip_concat(b, c + tail);
        varint::lemma_round_trip(header, tail);
    }
    assert(bytes.len() == values_end + rest.len());
    assert(parse_tags(bytes, tags_start, tags_end, Seq::empty()) == Ok::<
        Seq<u64>,
        CorruptReason,
    >(tags_of(record.columns))) by {
        assert(bytes.subrange(tags_start as int, tags_end as int) =~= t);
        lemma_parse_written_tags(bytes, tags_start, record.columns, Seq::empty());
        assert(Seq::<u64>::empty() + tags_of(record.columns) =~= tags_of(record.columns));
    }
    assert(parse_values(bytes, tags_end, tags_of(record.columns), Seq::empty()) == Ok::<
        (Seq<ValueView>, nat),
        CorruptReason,
    >((record.columns, values_end))) by {
        assert(bytes.subrange(tags_end as int, values_end as int) =~= p);
        lemma_parse_written_values(bytes, tags_end, record.columns, Seq::empty());
        assert(Seq::<ValueView>::empty() + record.columns =~= record.columns);
    }
    assert(tags_end == (b.len() + c.len() + header - 1) as nat);
}

/// A record comes back from its bytes: reading what `serialize` wrote gives
/// the record itself, row identifier and every column with its tag,
/// whatever bytes follow.
pub proof fn lemma_round_trip(record: RecordView, rest: Seq<u8>)
    requires
        record.wf(),
        record.body_len() <= u64::MAX,
    ensures
        read_spec(record.serialized() + rest) == Ok::<RecordView, StorageError>(record),
        varint::decode(record.serialized() + rest) == Some(
            (varint::encoded_len(record.body_len() as u64), record.body_len()),
        ),
        deserialize_spec(
            record.body_len() as u64,
            (record.serialized() + rest).skip(
                varint::encoded_len(record.body_len() as u64) as int,
            ),
        ) == Ok::<RecordView, StorageError>(record),
{
    reveal(read_spec);
    let total = record.body_len() as u64;
    let a = varint::encode(total);
    let b = varint::encode(record.rowid);
    let c = varint::encode(record.header_len() as u64);
    let t = tag_bytes(record.columns);
    let p = raw_bytes(record.columns);
    let body = serialized_body(record) + rest;
    let all = record.serialized() + rest;
    assert(all == a + body) by {
        lemma_concat_assoc(a, b, c);
        lemma_concat_assoc(a, b + c, t);
        lemma_concat_assoc(a, b + c + t, p);
        lemma_concat_assoc(a, serialized_body(record), rest);
    }
    assert(a.len() == varint::encoded_len(total)) by {
        varint::lemma_encode_len(total);
    }
    assert(all.skip(a.len() as int) == body) by {
        lemma_skip_concat(a, body);
    }
    varint::lemma_round_trip(total, body);
    lemma_body_round_trip(record, rest);
}

/// Joining byte strings is associative.
proof fn lemma_concat_assoc(x: Seq<u8>, y: Seq<u8>, z: Seq<u8>)
    ensures
        (x + y) + z == x + (y + z),
{
    assert((x + y) + z =~= x + (y + z));
}

/// Skipping the first of two joined byte strings leaves the second.
proof fn lemma_skip_concat(x: Seq<u8>, y: Seq<u8>)
    ensures
        (x + y).skip(x.len() as int) == y,
{
    assert((x + y).skip(x.len() as int) =~= y);
}

/// Where the first `k` columns have no printed length, all of them have none.
proof fn lemma_display_len_sum_grows(columns: Seq<ValueView>, k: int)
    requires
        0 <= k <= columns.len(),
    ensures
        display_len_sum(columns.take(k)) is None ==> display_len_sum(columns) is None,
        display_len_sum(columns) matches Some(all) ==> display_len_sum(columns.take(k))
            matches Some(part) && part <= all,
    decreases columns.len() - k,
{
    if k < columns.len() {
        lemma_display_len_sum_grows(columns, k + 1);
        assert(columns.take(k + 1).drop_last() =~= columns.take(k));
    } else {
        assert(columns.take(k) =~= columns);
    }
}

} // verus!
