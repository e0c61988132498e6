//! A table: named columns over one page of records.
use vstd::prelude::*;
use vstd::slice::slice_subrange;
use vstd::string::StringExecFns;
use vstd::utf8::{decode_utf8, encode_utf8, encode_utf8_valid_utf8};
use crate::error::StorageError;
use crate::page::{claimed_need, space_needed, Page, PageType};
use crate::record::{Record, RecordView};
use crate::split::{lemma_ascii_is_utf8, lemma_split_is_utf8, split, split_ranges};
use crate::strings::{trim_text, trimmed};
use crate::text::{decimal, decimal_string, lossy_text};

pub use crate::key::Key;

verus! {

/// A table as contracts see it.
pub struct TableView {
    pub name: Seq<char>,
    /// The column names, in the order of the columns.
    pub columns: Seq<Seq<char>>,
    /// What each slot of the page leads to, in the order of insertion.
    pub rows: Seq<Option<RecordView>>,
}

/// The texts of `names`, in their order.
pub open spec fn names_of(names: Seq<String>) -> Seq<Seq<char>> {
    names.map_values(|name: String| name@)
}

/// The index of the last column with the given name.
pub open spec fn index_of(columns: Seq<Seq<char>>, name: Seq<char>) -> Option<int>
    decreases columns.len(),
{
    if columns.len() == 0 {
        None
    } else if columns.last() == name {
        Some(columns.len() - 1)
    } else {
        index_of(columns.drop_last(), name)
    }
}

/// The name with the number `k` behind it; for `k` up to 1, the name alone.
pub open spec fn numbered(name: Seq<char>, k: nat) -> Seq<char> {
    if k <= 1 {
        name
    } else {
        name + decimal(k as int)
    }
}

/// The least number from `from` on, and below `limit`, under which the name
/// is not a column yet; `limit` where there is none.
pub open spec fn first_free(columns: Seq<Seq<char>>, name: Seq<char>, from: nat, limit: nat) -> nat
    decreases limit - from,
{
    if from >= limit || !columns.contains(numbered(name, from)) {
        from
    } else {
        first_free(columns, name, from + 1, limit)
    }
}

/// The largest number that `add_column` puts behind a name.
pub const MAX_SUFFIX: i64 = i64::MAX;

/// The column names that a list spells, given as its UTF-8 bytes: the
/// pieces between its commas, each without the white space around it.
pub open spec fn listed_names(expression: Seq<u8>) -> Seq<Seq<char>> {
    split(expression, seq![44u8]).map_values(|piece: Seq<u8>| trimmed(decode_utf8(piece)))
}

/// The column indexes that the names stand for, in the order of the names;
/// `None` where a name is no column.
pub open spec fn indexes_of(columns: Seq<Seq<char>>, names: Seq<Seq<char>>) -> Option<Seq<int>>
    decreases names.len(),
{
    if names.len() == 0 {
        Some(Seq::empty())
    } else {
        match (indexes_of(columns, names.drop_last()), index_of(columns, names.last())) {
            (Some(front), Some(last)) => Some(front.push(last)),
            _ => None,
        }
    }
}

/// An ordering of rows that is kept with its table. None is made yet.
#[derive(Debug)]
pub struct SavedView {
    /// For each key of the ordering, the key of the row in the table.
    records: Vec<(Key, Key)>,
}

/// Named columns over one page of records.
#[derive(Debug)]
pub struct Table {
    name: String,
    /// The column names, in the order of the columns.
    cols: Vec<String>,
    /// The page that holds the rows.
    root: Page,
    /// The orderings that are kept, each under the expression it was made
    /// for.
    views: Vec<(String, SavedView)>,
}

impl View for Table {
    type V = TableView;

    closed spec fn view(&self) -> TableView {
        TableView { name: self.name@, columns: names_of(self.cols@), rows: self.root@ }
    }
}

impl Table {
    /// The page has its shape. Every table that this module hands out is
    /// well-formed.
    pub closed spec fn wf(&self) -> bool {
        self.root.wf()
    }

    /// Every slot of the page leads to a record. A table that was filled by
    /// `insert` and `add_record` alone is intact.
    pub closed spec fn intact(&self) -> bool {
        self.root.intact()
    }

    /// Number of bytes that are free in the page.
    pub closed spec fn free_space(&self) -> nat {
        self.root.free_space()
    }

    /// In an intact table every slot leads to a record, and the records and
    /// their slots take all of the page that is not free.
    pub proof fn lemma_intact(&self)
        requires
            self.intact(),
        ensures
            forall|i: int|
                0 <= i < self@.rows.len() ==> ((#[trigger] self@.rows[i]) matches Some(record)
                    && record.body_len() <= u64::MAX),
            self.free_space() + crate::page::total_space(self@.rows) == crate::page::PAGE_SIZE,
    {
        self.root.lemma_intact();
    }

    /// The free space is no more than a page.
    pub proof fn lemma_free_space_bound(&self)
        requires
            self.wf(),
        ensures
            self.free_space() <= crate::page::PAGE_SIZE,
    {
        self.root.lemma_shape();
    }

    /// Number of bytes that are free in the page.
    pub fn available(&self) -> (free: usize)
        requires
            self.wf(),
        ensures
            free == self.free_space(),
    {
        self.root.available()
    }

    /// A table without columns and rows.
    pub fn new(name: &str) -> (table: Table)
        ensures
            table.wf(),
            table.intact(),
            table@ == (TableView { name: name@, columns: Seq::empty(), rows: Seq::empty() }),
            table.free_space() == crate::page::PAGE_SIZE,
    {
        let table = Table {
            name: String::from_str(name),
            cols: Vec::new(),
            root: Page::new(PageType::Root, 0),
            views: Vec::new(),
        };
        assert(table@.columns =~= Seq::empty());
        table
    }

    /// A table with the name and the columns of this one, and no rows.
    pub fn empty_copy(&self) -> (table: Table)
        ensures
            table.wf(),
            table.intact(),
            table@ == (TableView { name: self@.name, columns: self@.columns, rows: Seq::empty() }),
            table.free_space() == crate::page::PAGE_SIZE,
    {
        let mut cols: Vec<String> = Vec::new();
        let mut i: usize = 0;
        while i < self.cols.len()
            invariant
                i <= self.cols@.len(),
                names_of(cols@) == names_of(self.cols@).take(i as int),
            decreases self.cols@.len() - i,
        {
            let name = self.cols[i].clone();
            assert(names_of(cols@.push(name)) =~= names_of(cols@).push(name@));
            cols.push(name);
            assert(names_of(cols@) =~= names_of(self.cols@).take(i + 1));
            i = i + 1;
        }
        assert(names_of(self.cols@).take(i as int) =~= names_of(self.cols@));
        Table {
            name: self.name.clone(),
            cols,
            root: Page::new(PageType::Root, 0),
            views: Vec::new(),
        }
    }

    /// The name of the table.
    pub fn name(&self) -> (name: &String)
        ensures
            name@ == self@.name,
    {
        &self.name
    }

    /// Number of columns.
    pub fn column_count(&self) -> (count: usize)
        ensures
            count == self@.columns.len(),
    {
        self.cols.len()
    }

    /// Number of rows.
    pub fn row_count(&self) -> (count: usize)
        ensures
            count == self@.rows.len(),
    {
        self.root.record_count()
    }

    /// The page that holds the rows.
    pub fn page(&self) -> (page: &Page)
        ensures
            page@ == self@.rows,
            page.wf() == self.wf(),
            page.intact() == self.intact(),
    {
        &self.root
    }

    /// Puts a record into the table, as the next row. Fails with
    /// `CapacityExceeded` where the page has no room for it; the table is
    /// then as it was.
    pub fn insert(&mut self, record: Record) -> (result: Result<(), StorageError>)
        requires
            old(self).wf(),
        ensures
            final(self).wf(),
            final(self)@.name == old(self)@.name,
            final(self)@.columns == old(self)@.columns,
            match result {
                Ok(()) => {
                    &&& record@.body_len() <= u64::MAX
                    &&& space_needed(record@) <= old(self).free_space()
                    &&& final(self).free_space() == old(self).free_space() - space_needed(
                        record@,
                    )
                    &&& final(self)@.rows.len() == old(self)@.rows.len() + 1
                    &&& final(self)@.rows.last() == Some(record@)
                    &&& old(self).intact() ==> final(self).intact() && final(self)@.rows == old(
                        self,
                    )@.rows.push(Some(record@))
                },
                Err(e) => {
                    &&& final(self)@ == old(self)@
                    &&& final(self).free_space() == old(self).free_space()
                    &&& final(self).intact() == old(self).intact()
                    &&& record@.body_len() <= u64::MAX ==> space_needed(record@) > old(
                        self,
                    ).free_space()
                    &&& e matches StorageError::CapacityExceeded(needed, free) && free == old(
                        self,
                    ).free_space() && needed == claimed_need(record@)
                },
            },
    {
        self.root.insert(record)
    }

    /// Puts a record into the table under the next row identifier, which is
    /// the number of rows that the table has. Fails as `insert` does.
    pub fn add_record(&mut self, record: Record) -> (result: Result<(), StorageError>)
        requires
            old(self).wf(),
        ensures
            final(self).wf(),
            final(self)@.name == old(self)@.name,
            final(self)@.columns == old(self)@.columns,
            ({
                let stored = RecordView {
                    rowid: old(self)@.rows.len() as u64,
                    columns: record@.columns,
                };
                match result {
                    Ok(()) => {
                        &&& stored.body_len() <= u64::MAX
                        &&& space_needed(stored) <= old(self).free_space()
                        &&& final(self).free_space() == old(self).free_space() - space_needed(
                            stored,
                        )
                        &&& final(self)@.rows.len() == old(self)@.rows.len() + 1
                        &&& final(self)@.rows.last() == Some(stored)
                        &&& old(self).intact() ==> final(self).intact() && final(self)@.rows
                            == old(self)@.rows.push(Some(stored))
                    },
                    Err(e) => {
                        &&& final(self)@ == old(self)@
                        &&& final(self).free_space() == old(self).free_space()
                        &&& final(self).intact() == old(self).intact()
                        &&& stored.body_len() <= u64::MAX ==> space_needed(stored) > old(
                            self,
                        ).free_space()
                        &&& e matches StorageError::CapacityExceeded(needed, free) && free == old(
                            self,
                        ).free_space() && needed == claimed_need(stored)
                    },
                }
            }),
    {
        let mut record = record;
        record.set_rowid(self.root.record_count() as u64);
        self.root.insert(record)
    }

    /// Whether the table has a column of the given name.
    pub fn has_column(&self, name: &str) -> (found: bool)
        ensures
            found == self@.columns.contains(name@),
            found == (index_of(self@.columns, name@) is Some),
    {
        self.get_index(name).is_some()
    }

    /// The index of the column of the given name: of the last one, where
    /// several columns have it. `None` where none has it.
    pub fn get_index(&self, col_name: &str) -> (index: Option<usize>)
        ensures
            match index_of(self@.columns, col_name@) {
                Some(i) => index is Some && index->0 == i && 0 <= i < self@.columns.len()
                    && self@.columns[i] == col_name@,
                None => index is None,
            },
            index is Some <==> self@.columns.contains(col_name@),
    {
        let wanted = String::from_str(col_name);
        let mut i: usize = self.cols.len();
        let ghost columns = names_of(self.cols@);
        proof {
            assert(columns.take(i as int) =~= columns);
        }
        while i > 0
            invariant
                i <= self.cols@.len(),
                columns == names_of(self.cols@),
                wanted@ == col_name@,
                index_of(columns, col_name@) == index_of(columns.take(i as int), col_name@),
                forall|j: int| i <= j < columns.len() ==> columns[j] != col_name@,
            decreases i,
        {
            proof {
                assert(columns.take(i as int).drop_last() =~= columns.take(i - 1));
                assert(columns.take(i as int).last() == self.cols@[i - 1]@);
            }
            if self.cols[i - 1] == wanted {
                proof {
                    assert(columns[i - 1] == col_name@);
                }
                return Some(i - 1);
            }
            i = i - 1;
        }
        proof {
            assert(columns.take(0) =~= Seq::<Seq<char>>::empty());
            if columns.contains(col_name@) {
                let j = choose|j: int| 0 <= j < columns.len() && columns[j] == col_name@;
                assert(false);
            }
        }
        None
    }

    /// Adds a column at the end. With `allow_duplicates`, a name that is
    /// taken gets a number behind it, from 2 on: the least under which it is
    /// free. Without, the name is added as it is, and hides the column that
    /// had it from `get_index`.
    pub fn add_column(&mut self, name: &str, allow_duplicates: bool)
        ensures
            final(self).wf() == old(self).wf(),
            final(self).intact() == old(self).intact(),
            final(self).free_space() == old(self).free_space(),
            final(self)@.name == old(self)@.name,
            final(self)@.rows == old(self)@.rows,
            final(self)@.columns == old(self)@.columns.push(
                if allow_duplicates {
                    numbered(name@, first_free(old(self)@.columns, name@, 1, MAX_SUFFIX as nat))
                } else {
                    name@
                },
            ),
    {
        let mut chosen = String::from_str(name);
        if allow_duplicates {
            let mut index: i64 = 1;
            while index < MAX_SUFFIX && self.has_column(chosen.as_str())
                invariant
                    1 <= index <= MAX_SUFFIX,
                    chosen@ == numbered(name@, index as nat),
                    first_free(self@.columns, name@, 1, MAX_SUFFIX as nat) == first_free(
                        self@.columns,
                        name@,
                        index as nat,
                        MAX_SUFFIX as nat,
                    ),
                decreases MAX_SUFFIX - index,
            {
                index = index + 1;
                chosen = String::from_str(name);
                let suffix = decimal_string(index);
                chosen.append(suffix.as_str());
            }
        }
        proof {
            assert(names_of(self.cols@.push(chosen)) =~= names_of(self.cols@).push(chosen@));
        }
        self.cols.push(chosen);
    }

    /// The indexes of the columns that a list names, in the order of the
    /// list. The names stand between commas, and white space around them is
    /// dropped. `None` where a name is no column.
    pub fn get_column_indexes(&self, expression: &str) -> (indexes: Option<Vec<usize>>)
        ensures
            match indexes_of(self@.columns, listed_names(encode_utf8(expression@))) {
                Some(wanted) => indexes is Some && indexes->0@.len() == wanted.len() && forall|
                    k: int,
                |
                    0 <= k < wanted.len() ==> (#[trigger] indexes->0@[k]) == wanted[k]
                        && wanted[k] < self@.columns.len(),
                None => indexes is None,
            },
    {
        let bytes = expression.as_bytes();
        let mut comma: Vec<u8> = Vec::new();
        comma.push(44);
        assert(comma@ =~= seq![44u8]);
        let ranges = split_ranges(bytes, comma.as_slice());
        let ghost names = listed_names(bytes@);
        let ghost parts = split(bytes@, seq![44u8]);
        let mut indexes: Vec<usize> = Vec::new();
        let mut k: usize = 0;
        let ghost mut wanted: Seq<int> = Seq::empty();
        proof {
            assert(names.take(0) =~= Seq::empty());
        }
        while k < ranges.len()
            invariant
                k <= ranges@.len(),
                bytes@ == encode_utf8(expression@),
                names == listed_names(bytes@),
                parts == split(bytes@, seq![44u8]),
                crate::split::pieces(bytes@, ranges@) == parts,
                crate::split::ranges_within(ranges@, bytes@.len()),
                names.len() == ranges@.len(),
                indexes@.len() == k,
                wanted.len() == k,
                indexes_of(self@.columns, names.take(k as int)) == Some(wanted),
                forall|j: int|
                    0 <= j < k ==> (#[trigger] indexes@[j]) == wanted[j] && wanted[j]
                        < self@.columns.len(),
            decreases ranges@.len() - k,
        {
            let (begin, end) = ranges[k];
            proof {
                encode_utf8_valid_utf8(expression@);
                lemma_ascii_is_utf8(44);
                lemma_split_is_utf8(bytes@, seq![44u8]);
                assert(parts[k as int] == bytes@.subrange(begin as int, end as int));
            }
            let piece = lossy_text(slice_subrange(bytes, begin, end));
            let name = trim_text(piece.as_str());
            proof {
                assert(names[k as int] == name@);
                assert(names.take(k + 1).drop_last() =~= names.take(k as int));
                assert(names.take(k + 1).last() == name@);
                lemma_indexes_of_prefix(self@.columns, names, k + 1);
            }
            match self.get_index(name) {
                Some(index) => {
                    indexes.push(index);
                    proof {
                        wanted = wanted.push(index as int);
                    }
                },
                None => {
                    return None;
                },
            }
            k = k + 1;
        }
        proof {
            assert(names.take(k as int) =~= names);
        }
        Some(indexes)
    }

    /// The indexes of the columns that a selection names: of all columns
    /// for `*`, else those that `get_column_indexes` gives.
    pub fn select(&self, expression: &str) -> (indexes: Option<Vec<usize>>)
        ensures
            encode_utf8(expression@) == seq![42u8] ==> indexes is Some && indexes->0@.len()
                == self@.columns.len() && forall|k: int|
                0 <= k < self@.columns.len() ==> (#[trigger] indexes->0@[k]) == k,
            encode_utf8(expression@) != seq![42u8] ==> match indexes_of(
                self@.columns,
                listed_names(encode_utf8(expression@)),
            ) {
                Some(wanted) => indexes is Some && indexes->0@.len() == wanted.len() && forall|
                    k: int,
                |
                    0 <= k < wanted.len() ==> (#[trigger] indexes->0@[k]) == wanted[k]
                        && wanted[k] < self@.columns.len(),
                None => indexes is None,
            },
    {
        let bytes = expression.as_bytes();
        if bytes.len() == 1 && bytes[0] == 42 {
            assert(bytes@ =~= seq![42u8]);
            let mut indexes: Vec<usize> = Vec::new();
            let mut k: usize = 0;
            while k < self.cols.len()
                invariant
                    k <= self.cols@.len(),
                    indexes@.len() == k,
                    forall|j: int| 0 <= j < k ==> (#[trigger] indexes@[j]) == j,
                decreases self.cols@.len() - k,
            {
                indexes.push(k);
                k = k + 1;
            }
            Some(indexes)
        } else {
            proof {
                if bytes@ == seq![42u8] {
                    assert(seq![42u8].len() == 1);
                    assert(seq![42u8][0] == 42u8);
                }
            }
            self.get_column_indexes(expression)
        }
    }

    /// Walks the rows, from the first.
    pub fn iter(&self) -> (rows: TableIter<'_>)
        ensures
            rows.page() == self.page_spec(),
            rows.position() == 0,
    {
        TableIter { root_page: &self.root, index: 0 }
    }

    /// Walks the rows, from the first.
    pub fn iter_records(&self) -> (rows: TableIter<'_>)
        ensures
            rows.page() == self.page_spec(),
            rows.position() == 0,
    {
        self.iter()
    }

    /// The page that holds the rows.
    pub closed spec fn page_spec(&self) -> Page {
        self.root
    }

    /// The page holds the rows of the table, and is as sound as the table.
    pub proof fn lemma_page_spec(&self)
        ensures
            self.page_spec()@ == self@.rows,
            self.page_spec().wf() == self.wf(),
            self.page_spec().intact() == self.intact(),
    {
    }

    /// Walks the given column names, from the first.
    pub fn select_columns<'a>(&'a self, columns: &'a Vec<&'a str>) -> (names: OwnedColIter<'a>)
        ensures
            names.names() == columns@,
            names.position() == 0,
    {
        OwnedColIter { cols: columns, index: 0 }
    }

    /// Walks the column names of the table, from the first.
    pub fn iter_colums(&self) -> (names: ColIter<'_>)
        ensures
            names_of(names.names()) == self@.columns,
            names.position() == 0,
    {
        ColIter { cols: &self.cols, index: 0 }
    }
}

/// Where one of the first `k` names is no column, one of all names is none.
proof fn lemma_indexes_of_prefix(columns: Seq<Seq<char>>, names: Seq<Seq<char>>, k: int)
    requires
        0 <= k <= names.len(),
    ensures
        indexes_of(columns, names.take(k)) is None ==> indexes_of(columns, names) is None,
    decreases names.len() - k,
{
    if k < names.len() {
        lemma_indexes_of_prefix(columns, names, k + 1);
        assert(names.take(k + 1).drop_last() =~= names.take(k));
    } else {
        assert(names.take(k) =~= names);
    }
}

/// Where a name has an index, the column at that index has the name.
pub proof fn lemma_index_of_bounds(columns: Seq<Seq<char>>, name: Seq<char>)
    ensures
        index_of(columns, name) matches Some(i) ==> 0 <= i < columns.len() && columns[i] == name,
        index_of(columns, name) is Some <==> columns.contains(name),
    decreases columns.len(),
{
    if columns.len() > 0 {
        lemma_index_of_bounds(columns.drop_last(), name);
        if columns.last() != name {
            if columns.contains(name) {
                let j = choose|j: int| 0 <= j < columns.len() && columns[j] == name;
                assert(columns.drop_last()[j] == name);
            }
            if columns.drop_last().contains(name) {
                let j = choose|j: int|
                    0 <= j < columns.drop_last().len() && columns.drop_last()[j] == name;
                assert(columns[j] == name);
            }
        } else {
            assert(columns[columns.len() - 1] == name);
        }
    }
}

/// A walk over the rows of a table.
pub struct TableIter<'a> {
    root_page: &'a Page,
    index: usize,
}

impl<'a> TableIter<'a> {
    /// The page that is walked.
    pub closed spec fn page(&self) -> Page {
        *self.root_page
    }

    /// Number of rows that the walk is past.
    pub closed spec fn position(&self) -> nat {
        self.index as nat
    }

    /// The next row, and a step forward. `None` at the end of the rows, and
    /// where the slot leads to no record; the walk then stays where it is.
    pub fn next(&mut self) -> (row: Option<Record>)
        requires
            old(self).page().wf(),
        ensures
            final(self).page() == old(self).page(),
            match (if old(self).position() < old(self).page()@.len() {
                old(self).page()@[old(self).position() as int]
            } else {
                None
            }) {
                Some(record) => row is Some && row->0@ == record && final(self).position()
                    == old(self).position() + 1,
                None => row is None && final(self).position() == old(self).position(),
            },
    {
        if self.index >= self.root_page.record_count() {
            return None;
        }
        let row = self.root_page.get(self.index);
        if row.is_some() {
            self.index = self.index + 1;
        }
        row
    }
}

/// A walk over the column names of a table.
pub struct ColIter<'a> {
    cols: &'a Vec<String>,
    index: usize,
}

impl<'a> ColIter<'a> {
    /// The names that are walked.
    pub closed spec fn names(&self) -> Seq<String> {
        self.cols@
    }

    /// Number of names that the walk is past.
    pub closed spec fn position(&self) -> nat {
        self.index as nat
    }

    /// The next name, and a step forward; `None` at the end.
    pub fn next(&mut self) -> (name: Option<&'a String>)
        ensures
            final(self).names() == old(self).names(),
            old(self).position() < old(self).names().len() ==> name == Some(
                &old(self).names()[old(self).position() as int],
            ) && final(self).position() == old(self).position() + 1,
            old(self).position() >= old(self).names().len() ==> name is None && final(
                self
            ).position() == old(self).position(),
    {
        if self.index < self.cols.len() {
            self.index = self.index + 1;
            Some(&self.cols[self.index - 1])
        } else {
            None
        }
    }
}

/// A walk over column names that the caller gave.
pub struct OwnedColIter<'a> {
    cols: &'a Vec<&'a str>,
    index: usize,
}

impl<'a> OwnedColIter<'a> {
    /// The names that are walked.
    pub closed spec fn names(&self) -> Seq<&'a str> {
        self.cols@
    }

    /// Number of names that the walk is past.
    pub closed spec fn position(&self) -> nat {
        self.index as nat
    }

    /// The next name, and a step forward; `None` at the end.
    pub fn next(&mut self) -> (name: Option<&'a str>)
        ensures
            final(self).names() == old(self).names(),
            old(self).position() < old(self).names().len() ==> name == Some(
                old(self).names()[old(self).position() as int],
            ) && final(self).position() == old(self).position() + 1,
            old(self).position() >= old(self).names().len() ==> name is None && final(
                self
            ).position() == old(self).position(),
    {
        if self.index < self.cols.len() {
            self.index = self.index + 1;
            Some(self.cols[self.index - 1])
        } else {
            None
        }
    }
}

} // verus!
