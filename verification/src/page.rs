//! A slotted page: a fixed buffer that holds serialized records.
//!
//! The buffer has two parts that grow towards each other. The slot
//! directory starts at offset 0 and grows upwards, two bytes for each
//! record: the big-endian offset of the record's first byte. The records
//! themselves are laid down from the end of the buffer towards the front.
//! Slot `i` belongs to the `i`-th record that was inserted.
use vstd::prelude::*;
use vstd::slice::slice_subrange;
use crate::endian::{self, be_bytes, be_value};
use crate::error::StorageError;
use crate::record::{self, read_spec, Record, RecordView};

verus! {

/// Number of bytes in a page.
pub const PAGE_SIZE: usize = 4096;

/// Number of bytes in a slot.
pub const SLOT_SIZE: usize = 2;

/// The place of a page in a tree of pages. Only storage in a single page is
/// offered yet, and the kind is fixed when the page is made.
#[derive(Debug, Clone, Copy, PartialEq, Eq, Structural)]
pub enum PageType {
    Root,
    Interior,
    Leaf,
}

/// The offset that slot `index` of `buffer` holds.
pub open spec fn slot_at(buffer: Seq<u8>, index: int) -> nat {
    be_value(buffer.subrange(SLOT_SIZE * index, SLOT_SIZE * index + SLOT_SIZE))
}

/// The record that slot `index` of `buffer` leads to; `None` where the
/// offset lies outside the buffer or no well-formed record begins there.
pub open spec fn record_at(buffer: Seq<u8>, index: int) -> Option<RecordView> {
    let offset = slot_at(buffer, index);
    if offset >= buffer.len() {
        None
    } else {
        match read_spec(buffer.skip(offset as int)) {
            Ok(record) => Some(record),
            Err(_) => None,
        }
    }
}

/// Number of bytes that a record takes in a page: its bytes and its slot.
pub open spec fn space_needed(record: RecordView) -> nat
    recommends
        record.body_len() <= u64::MAX,
{
    record.serialized().len() + SLOT_SIZE as nat
}

/// The bytes that a refused record is said to need: its bytes and its slot.
/// Where that number is beyond the largest `usize`, or the record is none
/// that can be written, it is the largest `usize`.
pub open spec fn claimed_need(record: RecordView) -> nat {
    if record.wf() && record.body_len() <= u64::MAX && space_needed(record) <= usize::MAX {
        space_needed(record)
    } else {
        usize::MAX as nat
    }
}

/// The records fit into `free` bytes of a page, one after the other.
pub open spec fn fits(rows: Seq<RecordView>, free: nat) -> bool
    decreases rows.len(),
{
    if rows.len() == 0 {
        true
    } else {
        &&& rows[0].body_len() <= u64::MAX
        &&& space_needed(rows[0]) <= free
        &&& fits(rows.drop_first(), (free - space_needed(rows[0])) as nat)
    }
}

/// What the first record that does not fit is refused with: the bytes it
/// is said to need, and the bytes that are free when its turn comes. `None`
/// where all records fit.
pub open spec fn refusal(rows: Seq<RecordView>, free: nat) -> Option<(nat, nat)>
    decreases rows.len(),
{
    if rows.len() == 0 {
        None
    } else if rows[0].body_len() <= u64::MAX && space_needed(rows[0]) <= free {
        refusal(rows.drop_first(), (free - space_needed(rows[0])) as nat)
    } else {
        Some((claimed_need(rows[0]), free))
    }
}

/// Records fit exactly where none of them is refused.
pub proof fn lemma_fits_or_refused(rows: Seq<RecordView>, free: nat)
    ensures
        fits(rows, free) <==> refusal(rows, free) is None,
    decreases rows.len(),
{
    if rows.len() > 0 && rows[0].body_len() <= u64::MAX && space_needed(rows[0]) <= free {
        lemma_fits_or_refused(rows.drop_first(), (free - space_needed(rows[0])) as nat);
    }
}

/// The buffer once a record was put in: its bytes lie before `data_start`,
/// the old beginning of the records, and the slot with their offset lies at
/// `slot_end`, the old end of the directory. All other bytes are as before.
pub open spec fn written(buffer: Seq<u8>, slot_end: nat, data_start: nat, bytes: Seq<u8>) -> Seq<
    u8,
> {
    let offset = (data_start - bytes.len()) as nat;
    buffer.subrange(0, slot_end as int) + be_bytes(offset, 2) + buffer.subrange(
        slot_end + SLOT_SIZE,
        offset as int,
    ) + bytes + buffer.subrange(data_start as int, buffer.len() as int)
}

/// Number of bytes that the records of `rows` take in a page, with their
/// slots.
pub open spec fn total_space(rows: Seq<Option<RecordView>>) -> nat
    decreases rows.len(),
{
    if rows.len() == 0 {
        0
    } else {
        total_space(rows.drop_last()) + match rows.last() {
            Some(record) => space_needed(record),
            None => 0,
        }
    }
}

/// A fixed-capacity buffer of serialized records.
#[derive(Debug)]
pub struct Page {
    pagetype: PageType,
    id: u64,
    /// The buffer, of the page size.
    data: Vec<u8>,
    /// Where the next slot goes: the end of the slot directory.
    index_pos: u16,
    /// Where the records begin: the next record ends here.
    data_pos: u16,
    /// The pages below this one in a tree of pages. None is made yet.
    children: Vec<Page>,
    /// Number of records, and of slots.
    n_records: u32,
}

impl View for Page {
    type V = Seq<Option<RecordView>>;

    /// What each slot leads to, in the order of insertion.
    closed spec fn view(&self) -> Seq<Option<RecordView>> {
        Seq::new(self.n_records as nat, |i: int| record_at(self.data@, i))
    }
}

impl Page {
    /// The buffer has its full size, the slot directory ends at or before
    /// the first record, and the record count is the number of slots.
    pub closed spec fn wf(&self) -> bool {
        &&& self.data@.len() == PAGE_SIZE
        &&& self.index_pos as int == SLOT_SIZE * self.n_records
        &&& self.index_pos <= self.data_pos
        &&& self.data_pos <= PAGE_SIZE
    }

    /// Every slot leads to a record behind the directory and the free
    /// space, and the records and their slots take all that is not free. A
    /// page that was filled by `insert` alone is intact.
    pub closed spec fn intact(&self) -> bool {
        &&& forall|i: int|
            0 <= i < self.n_records ==> self.data_pos <= #[trigger] slot_at(self.data@, i) && (
            record_at(self.data@, i) matches Some(record) && record.body_len() <= u64::MAX)
        &&& self.free_space() + total_space(self@) == PAGE_SIZE
    }

    /// Number of bytes that are free between the slot directory and the
    /// records.
    pub closed spec fn free_space(&self) -> nat {
        (self.data_pos - self.index_pos) as nat
    }

    /// The bytes of the buffer.
    pub closed spec fn buffer(&self) -> Seq<u8> {
        self.data@
    }

    /// The end of the slot directory: where the next slot goes.
    pub closed spec fn slot_end(&self) -> nat {
        self.index_pos as nat
    }

    /// The beginning of the records: the offset of the record that was
    /// inserted last, or the page size where there is none.
    pub closed spec fn data_start(&self) -> nat {
        self.data_pos as nat
    }

    /// The pages below this one. No function puts any there yet.
    pub closed spec fn spec_children(&self) -> Seq<Page> {
        self.children@
    }

    /// The kind that the page was made with.
    pub closed spec fn spec_kind(&self) -> PageType {
        self.pagetype
    }

    /// The identifier that the page was made with.
    pub closed spec fn spec_id(&self) -> u64 {
        self.id
    }

    /// The shape of a page: the buffer has the page size, the slot
    /// directory holds two bytes for each record and ends at or before the
    /// records, what lies between is free, and each slot leads to what
    /// `record_at` reads there.
    pub proof fn lemma_shape(&self)
        requires
            self.wf(),
        ensures
            self.buffer().len() == PAGE_SIZE,
            self.slot_end() == SLOT_SIZE * self@.len(),
            self.slot_end() <= self.data_start() <= PAGE_SIZE,
            self.free_space() == self.data_start() - self.slot_end(),
            self.free_space() <= PAGE_SIZE,
            self@ == Seq::new(self@.len(), |i: int| record_at(self.buffer(), i)),
    {
        assert(self@ =~= Seq::new(self@.len(), |i: int| record_at(self.buffer(), i)));
    }

    /// In an intact page every slot leads to a record, and the records and
    /// their slots take all that is not free.
    pub proof fn lemma_intact(&self)
        requires
            self.intact(),
        ensures
            forall|i: int|
                0 <= i < self@.len() ==> ((#[trigger] self@[i]) matches Some(record)
                    && record.body_len() <= u64::MAX),
            self.free_space() + total_space(self@) == PAGE_SIZE,
    {
        assert forall|i: int| 0 <= i < self@.len() implies ((#[trigger] self@[i]) matches Some(
            record,
        ) && record.body_len() <= u64::MAX) by {
            assert(self.data_pos <= slot_at(self.data@, i));
        }
    }

    /// An empty page: the buffer is zeroed, the slot directory is empty and
    /// the records will start at the end of the buffer.
    pub fn new(pagetype: PageType, id: u64) -> (page: Page)
        ensures
            page.wf(),
            page.intact(),
            page@ == Seq::<Option<RecordView>>::empty(),
            page.free_space() == PAGE_SIZE,
            page.buffer() == Seq::new(PAGE_SIZE as nat, |i: int| 0u8),
            page.slot_end() == 0,
            page.data_start() == PAGE_SIZE,
            page.spec_children() == Seq::<Page>::empty(),
            page.spec_kind() == pagetype,
            page.spec_id() == id,
    {
        let mut data: Vec<u8> = Vec::new();
        let mut i: usize = 0;
        while i < PAGE_SIZE
            invariant
                i <= PAGE_SIZE,
                data@.len() == i,
                forall|j: int| 0 <= j < i ==> data@[j] == 0,
            decreases PAGE_SIZE - i,
        {
            data.push(0);
            i = i + 1;
        }
        assert(data@ =~= Seq::new(PAGE_SIZE as nat, |i: int| 0u8));
        let page = Page {
            pagetype,
            id,
            data,
            index_pos: 0,
            data_pos: PAGE_SIZE as u16,
            children: Vec::new(),
            n_records: 0,
        };
        assert(page@ =~= Seq::<Option<RecordView>>::empty());
        page
    }

    /// A page over a given buffer, as it may come from elsewhere. The
    /// buffer has to be of the page size, and the slots of `record_count`
    /// records have to end at or before `data_cursor`, the offset of the
    /// first record; else there is no such page. What the slots lead to is
    /// not looked at: `get` finds out.
    pub fn from_image(
        pagetype: PageType,
        id: u64,
        image: Vec<u8>,
        record_count: u32,
        data_cursor: u16,
    ) -> (page: Option<Page>)
        ensures
            page is Some <==> image@.len() == PAGE_SIZE && SLOT_SIZE * record_count <= data_cursor
                <= PAGE_SIZE,
            page matches Some(p) ==> p.wf() && p@ == Seq::new(
                record_count as nat,
                |i: int| record_at(image@, i),
            ) && p.free_space() == data_cursor - SLOT_SIZE * record_count && p.buffer() == image@
                && p.data_start() == data_cursor && p.spec_children() == Seq::<Page>::empty()
                && p.spec_kind() == pagetype && p.spec_id()
                == id,
    {
        if image.len() != PAGE_SIZE || data_cursor as usize > PAGE_SIZE || record_count as usize
            > data_cursor as usize / SLOT_SIZE {
            return None;
        }
        let index_pos: u16 = (record_count as usize * SLOT_SIZE) as u16;
        Some(
            Page {
                pagetype,
                id,
                data: image,
                index_pos,
                data_pos: data_cursor,
                children: Vec::new(),
                n_records: record_count,
            },
        )
    }

    /// The kind that the page was made with.
    pub fn kind(&self) -> (kind: PageType)
        ensures
            kind == self.spec_kind(),
    {
        self.pagetype
    }

    /// The identifier that the page was made with.
    pub fn id(&self) -> (id: u64)
        ensures
            id == self.spec_id(),
    {
        self.id
    }

    /// The pages below this one.
    pub fn children(&self) -> (children: &Vec<Page>)
        ensures
            children@ == self.spec_children(),
    {
        &self.children
    }

    /// Number of records in the page.
    pub fn record_count(&self) -> (count: usize)
        ensures
            count == self@.len(),
    {
        self.n_records as usize
    }

    /// The buffer: the slot directory at the front, the records at the end.
    pub fn image(&self) -> (bytes: &Vec<u8>)
        requires
            self.wf(),
        ensures
            bytes@ == self.buffer(),
            bytes@.len() == PAGE_SIZE,
    {
        &self.data
    }

    /// The offset of the first byte of the records: of the record that was
    /// inserted last, or the page size where there is none.
    pub fn data_cursor(&self) -> (offset: u16)
        requires
            self.wf(),
        ensures
            offset == self.data_start(),
            offset <= PAGE_SIZE,
    {
        self.data_pos
    }

    /// Number of bytes that are free between the slot directory and the
    /// records.
    pub fn available(&self) -> (free: usize)
        requires
            self.wf(),
        ensures
            free == self.free_space(),
    {
        (self.data_pos - self.index_pos) as usize
    }

    /// Puts a record into the page: its bytes go in front of the records
    /// that are there, and a slot with their offset is added to the
    /// directory. Fails with `CapacityExceeded` where the bytes and the slot
    /// are more than the free space; the page is then as it was.
    pub fn insert(&mut self, record: Record) -> (result: Result<(), StorageError>)
        requires
            old(self).wf(),
        ensures
            final(self).wf(),
            final(self).spec_kind() == old(self).spec_kind(),
            final(self).spec_id() == old(self).spec_id(),
            final(self).spec_children() == old(self).spec_children(),
            match result {
                Ok(()) => {
                    &&& record@.body_len() <= u64::MAX
                    &&& space_needed(record@) <= old(self).free_space()
                    &&& final(self).free_space() == old(self).free_space() - space_needed(
                        record@,
                    )
                    &&& final(self).data_start() == old(self).data_start()
                        - record@.serialized().len()
                    &&& final(self).buffer() == written(
                        old(self).buffer(),
                        old(self).slot_end(),
                        old(self).data_start(),
                        record@.serialized(),
                    )
                    &&& final(self)@.len() == old(self)@.len() + 1
                    &&& final(self)@.last() == Some(record@)
                    &&& old(self).intact() ==> final(self).intact() && final(self)@ == old(
                        self,
                    )@.push(Some(record@))
                },
                Err(e) => {
                    &&& *final(self) == *old(self)
                    &&& record@.body_len() <= u64::MAX ==> space_needed(record@) > old(
                        self,
                    ).free_space()
                    &&& e matches StorageError::CapacityExceeded(needed, free) && free == old(
                        self,
                    ).free_space() && needed == claimed_need(record@)
                },
            },
    {
        let free: usize = self.available();
        let needed: usize = match record.checked_serialized_len() {
            Some(len) => if len <= usize::MAX - SLOT_SIZE {
                len + SLOT_SIZE
            } else {
                usize::MAX
            },
            None => usize::MAX,
        };
        if needed > free {
            return Err(StorageError::CapacityExceeded(needed, free));
        }
        let bytes = record.serialize();
        self.store(bytes, Ghost(record@));
        Ok(())
    }

    /// Lays down the bytes of a record that fits, and adds its slot.
    fn store(&mut self, bytes: Vec<u8>, record: Ghost<RecordView>)
        requires
            old(self).wf(),
            record@.wf(),
            record@.body_len() <= u64::MAX,
            bytes@ == record@.serialized(),
            bytes@.len() + SLOT_SIZE <= old(self).free_space(),
        ensures
            final(self).wf(),
            final(self).spec_kind() == old(self).spec_kind(),
            final(self).spec_id() == old(self).spec_id(),
            final(self).spec_children() == old(self).spec_children(),
            final(self).free_space() == old(self).free_space() - bytes@.len() - SLOT_SIZE,
            final(self).data_start() == old(self).data_start() - bytes@.len(),
            final(self).buffer() == written(
                old(self).buffer(),
                old(self).slot_end(),
                old(self).data_start(),
                bytes@,
            ),
            final(self)@.len() == old(self)@.len() + 1,
            final(self)@.last() == Some(record@),
            old(self).intact() ==> final(self).intact() && final(self)@ == old(self)@.push(
                Some(record@),
            ),
    {
        let ghost before = self.data@;
        let ghost old_data_pos = self.data_pos as int;
        let ghost old_index_pos = self.index_pos as int;
        let ghost written = bytes@;
        self.insert_data(bytes);
        let ghost between = self.data@;
        self.insert_index(self.data_pos);
        self.n_records = self.n_records + 1;
        proof {
            let after = self.data@;
            let n = old(self).n_records as int;
            let offset = self.data_pos as int;
            let slot = be_bytes(offset as nat, 2);
            endian::lemma_be_bytes_len(offset as nat, 2);
            lemma_layout(before, between, after, old_index_pos, old_data_pos, written, slot);
            assert(slot_at(after, n) == offset && record_at(after, n) == Some(record@)) by {
                endian::lemma_be_round_trip(offset as nat, 2);
                record::lemma_round_trip(record@, before.skip(old_data_pos));
            }
            if old(self).intact() {
                assert forall|i: int| 0 <= i < n + 1 implies offset <= #[trigger] slot_at(after, i)
                    && (record_at(after, i) matches Some(kept) && kept.body_len() <= u64::MAX) && (
                i < n ==> record_at(after, i) == record_at(before, i)) by {
                    if i < n {
                        assert(old_data_pos <= slot_at(before, i));
                        assert(record_at(before, i) is Some);
                        lemma_record_kept(before, after, i, old_index_pos, old_data_pos);
                    }
                }
                assert(self@ =~= old(self)@.push(Some(record@)));
                assert(self@.drop_last() =~= old(self)@);
            }
        }
    }

    /// Lays `bytes` down in front of the records that are there.
    fn insert_data(&mut self, bytes: Vec<u8>)
        requires
            old(self).wf(),
            bytes@.len() + SLOT_SIZE <= old(self).data_pos - old(self).index_pos,
        ensures
            final(self).data_pos == old(self).data_pos - bytes@.len(),
            final(self).data@ == old(self).data@.subrange(0, final(self).data_pos as int) + bytes@
                + old(self).data@.subrange(old(self).data_pos as int, PAGE_SIZE as int),
            final(self).index_pos == old(self).index_pos,
            final(self).n_records == old(self).n_records,
            final(self).pagetype == old(self).pagetype,
            final(self).id == old(self).id,
            final(self).children == old(self).children,
    {
        let start: usize = self.data_pos as usize - bytes.len();
        write_at(&mut self.data, start, bytes.as_slice());
        self.data_pos = start as u16;
    }

    /// Adds a slot that holds `value` to the directory.
    fn insert_index(&mut self, value: u16)
        requires
            old(self).data@.len() == PAGE_SIZE,
            old(self).index_pos + SLOT_SIZE <= old(self).data_pos <= PAGE_SIZE,
        ensures
            final(self).index_pos == old(self).index_pos + SLOT_SIZE,
            final(self).data@ == old(self).data@.subrange(0, old(self).index_pos as int) + be_bytes(
                value as nat,
                2,
            ) + old(self).data@.subrange(final(self).index_pos as int, PAGE_SIZE as int),
            final(self).data_pos == old(self).data_pos,
            final(self).n_records == old(self).n_records,
            final(self).pagetype == old(self).pagetype,
            final(self).id == old(self).id,
            final(self).children == old(self).children,
    {
        let bytes = endian::u16_to_bytes(value);
        proof {
            endian::lemma_be_bytes_len(value as nat, 2);
        }
        let start: usize = self.index_pos as usize;
        write_at(&mut self.data, start, bytes.as_slice());
        self.index_pos = (start + SLOT_SIZE) as u16;
    }

    /// The record of slot `row_index`: the `row_index`-th that was
    /// inserted. `None` where the page has no such slot, where the slot's
    /// offset lies outside the buffer, and where no well-formed record
    /// begins at that offset.
    pub fn get(&self, row_index: usize) -> (result: Option<Record>)
        requires
            self.wf(),
        ensures
            match (if row_index < self@.len() { self@[row_index as int] } else { None }) {
                Some(record) => result is Some && result->0@ == record,
                None => result is None,
            },
    {
        if row_index >= self.n_records as usize {
            return None;
        }
        let at: usize = row_index * SLOT_SIZE;
        let slot = slice_subrange(self.data.as_slice(), at, at + SLOT_SIZE);
        let offset = endian::read_u16(slot) as usize;
        proof {
            let slot = self.data@.subrange(at as int, at + SLOT_SIZE);
            assert(slot.subrange(0, 2) =~= slot);
        }
        if offset >= PAGE_SIZE {
            return None;
        }
        proof {
            assert(self.data@.subrange(offset as int, PAGE_SIZE as int) =~= self.data@.skip(
                offset as int,
            ));
        }
        match Record::read(slice_subrange(self.data.as_slice(), offset, PAGE_SIZE)) {
            Ok(record) => Some(record),
            Err(_) => None,
        }
    }
}

/// Where the bytes of a record and then its slot were written into a page
/// buffer: the slot and the record are there, and what lay outside the free
/// space is as it was.
proof fn lemma_layout(
    before: Seq<u8>,
    between: Seq<u8>,
    after: Seq<u8>,
    index_pos: int,
    data_pos: int,
    bytes: Seq<u8>,
    slot: Seq<u8>,
)
    requires
        before.len() == PAGE_SIZE,
        slot.len() == SLOT_SIZE,
        0 <= index_pos,
        index_pos + SLOT_SIZE + bytes.len() <= data_pos <= PAGE_SIZE,
        between == before.subrange(0, data_pos - bytes.len()) + bytes + before.subrange(
            data_pos,
            PAGE_SIZE as int,
        ),
        after == between.subrange(0, index_pos) + slot + between.subrange(
            index_pos + SLOT_SIZE,
            PAGE_SIZE as int,
        ),
    ensures
        after.len() == PAGE_SIZE,
        after.subrange(index_pos, index_pos + SLOT_SIZE) == slot,
        after.skip(data_pos - bytes.len()) == bytes + before.skip(data_pos),
        forall|j: int| 0 <= j < index_pos ==> after[j] == before[j],
        forall|j: int| data_pos <= j < PAGE_SIZE ==> after[j] == before[j],
        slot == be_bytes((data_pos - bytes.len()) as nat, 2) ==> after == written(
            before,
            index_pos as nat,
            data_pos as nat,
            bytes,
        ),
{
    if slot == be_bytes((data_pos - bytes.len()) as nat, 2) {
        assert(after =~= written(before, index_pos as nat, data_pos as nat, bytes));
    }
    assert(after.subrange(index_pos, index_pos + SLOT_SIZE) =~= slot);
    assert(after.skip(data_pos - bytes.len()) =~= bytes + before.skip(data_pos));
}

/// A record whose slot and bytes lie outside what was written is read as
/// before.
proof fn lemma_record_kept(before: Seq<u8>, after: Seq<u8>, i: int, index_pos: int, data_pos: int)
    requires
        before.len() == PAGE_SIZE,
        after.len() == PAGE_SIZE,
        0 <= i,
        SLOT_SIZE * i + SLOT_SIZE <= index_pos <= data_pos <= PAGE_SIZE,
        data_pos <= slot_at(before, i),
        forall|j: int| 0 <= j < index_pos ==> after[j] == before[j],
        forall|j: int| data_pos <= j < PAGE_SIZE ==> after[j] == before[j],
    ensures
        slot_at(after, i) == slot_at(before, i),
        record_at(after, i) == record_at(before, i),
{
    assert(after.subrange(SLOT_SIZE * i, SLOT_SIZE * i + SLOT_SIZE) =~= before.subrange(
        SLOT_SIZE * i,
        SLOT_SIZE * i + SLOT_SIZE,
    ));
    let at = slot_at(before, i);
    if at < PAGE_SIZE {
        assert(after.skip(at as int) =~= before.skip(at as int));
    }
}

/// Writes `bytes` over the bytes of `buffer` from `offset` on.
fn write_at(buffer: &mut Vec<u8>, offset: usize, bytes: &[u8])
    requires
        offset + bytes@.len() <= old(buffer)@.len(),
    ensures
        final(buffer)@ == old(buffer)@.subrange(0, offset as int) + bytes@ + old(buffer)@.subrange(
            offset + bytes@.len(),
            old(buffer)@.len() as int,
        ),
{
    let mut i: usize = 0;
    let size = buffer.len();
    while i < bytes.len()
        invariant
            i <= bytes@.len(),
            offset + bytes@.len() <= buffer@.len(),
            buffer@.len() == size,
            buffer@.len() == old(buffer)@.len(),
            buffer@ == old(buffer)@.subrange(0, offset as int) + bytes@.take(i as int) + old(
                buffer,
            )@.subrange(offset + i, size as int),
        decreases bytes@.len() - i,
    {
        buffer.set(offset + i, bytes[i]);
        i = i + 1;
        assert(buffer@ =~= old(buffer)@.subrange(0, offset as int) + bytes@.take(i as int) + old(
            buffer,
        )@.subrange(offset + i, size as int));
    }
    assert(bytes@.take(i as int) =~= bytes@);
}

} // verus!
