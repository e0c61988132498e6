//! Ordering the rows of a table by some of its columns.
//!
//! The rows go into the new table as they would come out of a map that is
//! keyed by their key columns: in the order of their keys, and of rows with
//! equal keys only the last one.
use vstd::prelude::*;
use std::cmp::Ordering;
use vstd::utf8::encode_utf8;
use crate::error::StorageError;
use crate::key::{
    key_order, lemma_key_order_flips, lemma_key_order_transitive, ordered_values, Key,
};
use crate::page::{claimed_need, fits, refusal, space_needed, total_space, PAGE_SIZE};
use crate::record::{Record, RecordView};
use crate::table::{indexes_of, listed_names, Table};
use crate::value::{views, Value, ValueView};

verus! {

/// Why the rows of a table could not be ordered.
#[derive(Debug, Clone, Copy, PartialEq, Eq, Structural)]
pub enum OrderError {
    /// The expression names something that is no column of the table.
    UnknownColumn,
    /// The row at this index (first field) has no value in the key column
    /// at this index (second field).
    MissingValue(usize, usize),
    /// The ordered rows were refused by the new table.
    Storage(StorageError),
}

/// The rows that a walk over the slots reads: those up to the first slot
/// that leads to no record.
pub open spec fn readable(rows: Seq<Option<RecordView>>) -> Seq<RecordView>
    decreases rows.len(),
{
    if rows.len() == 0 {
        Seq::empty()
    } else {
        let front = readable(rows.drop_last());
        if front.len() == rows.len() - 1 && rows.last() is Some {
            front.push(rows.last().unwrap())
        } else {
            front
        }
    }
}

/// The key of a row: its values in the columns `indexes`, in that order.
pub open spec fn key_of(row: RecordView, indexes: Seq<usize>) -> Seq<ValueView> {
    Seq::new(indexes.len(), |k: int| row.columns[indexes[k] as int])
}

/// Where `row` goes among `sorted`: before the first row whose key is
/// greater, or in the place of the first whose key is equal.
pub open spec fn place(sorted: Seq<RecordView>, row: RecordView, indexes: Seq<usize>) -> Seq<
    RecordView,
>
    decreases sorted.len(),
{
    if sorted.len() == 0 {
        seq![row]
    } else {
        match key_order(key_of(row, indexes), key_of(sorted[0], indexes)) {
            Ordering::Less => seq![row] + sorted,
            Ordering::Equal => seq![row] + sorted.drop_first(),
            Ordering::Greater => seq![sorted[0]] + place(sorted.drop_first(), row, indexes),
        }
    }
}

/// The rows, placed one after the other.
pub open spec fn ordered(rows: Seq<RecordView>, indexes: Seq<usize>) -> Seq<RecordView>
    decreases rows.len(),
{
    if rows.len() == 0 {
        Seq::empty()
    } else {
        place(ordered(rows.drop_last(), indexes), rows.last(), indexes)
    }
}

/// The first row that lacks a key column, and the first column it lacks.
pub open spec fn first_gap(rows: Seq<RecordView>, indexes: Seq<usize>) -> Option<(int, int)>
    decreases rows.len(),
{
    if rows.len() == 0 {
        None
    } else {
        match first_gap(rows.drop_last(), indexes) {
            Some(gap) => Some(gap),
            None => match first_lack(rows.last(), indexes, 0) {
                Some(k) => Some((rows.len() - 1, k)),
                None => None,
            },
        }
    }
}

/// The first place from `from` on in `indexes` whose column the row lacks.
pub open spec fn first_lack(row: RecordView, indexes: Seq<usize>, from: int) -> Option<int>
    decreases indexes.len() - from,
{
    if from < 0 || from >= indexes.len() {
        None
    } else if indexes[from] >= row.columns.len() {
        Some(from)
    } else {
        first_lack(row, indexes, from + 1)
    }
}

/// The views of the records in `pairs`, in their order.
spec fn pair_rows(pairs: Seq<(Key, Record)>) -> Seq<RecordView> {
    pairs.map_values(|pair: (Key, Record)| pair.1@)
}

/// Each key is the key of the row it stands with.
spec fn keyed(pairs: Seq<(Key, Record)>, indexes: Seq<usize>) -> bool {
    forall|k: int| 0 <= k < pairs.len() ==> (#[trigger] pairs[k]).0@ == key_of(pairs[k].1@, indexes)
}

/// The key of a row: its values in the columns `indexes`. Fails with the
/// first place in `indexes` whose column the row lacks.
fn row_key(row: &Record, indexes: &Vec<usize>) -> (result: Result<Key, usize>)
    ensures
        match first_lack(row@, indexes@, 0) {
            Some(k) => result is Err && result->Err_0 == k && 0 <= k < indexes@.len(),
            None => result is Ok && result->Ok_0@ == key_of(row@, indexes@),
        },
{
    let mut values: Vec<Value> = Vec::new();
    let mut k: usize = 0;
    while k < indexes.len()
        invariant
            k <= indexes@.len(),
            first_lack(row@, indexes@, 0) == first_lack(row@, indexes@, k as int),
            views(values@) == key_of(row@, indexes@).take(k as int),
            forall|j: int| 0 <= j < k ==> (#[trigger] indexes@[j]) < row@.columns.len(),
        decreases indexes@.len() - k,
    {
        match row.get(indexes[k]) {
            Ok(value) => {
                let copy = value.clone();
                proof {
                    assert(views(values@.push(copy)) =~= views(values@).push(copy@));
                    assert(key_of(row@, indexes@).take(k + 1) =~= key_of(row@, indexes@).take(
                        k as int,
                    ).push(copy@));
                }
                values.push(copy);
            },
            Err(_) => {
                return Err(k);
            },
        }
        k = k + 1;
    }
    proof {
        assert(key_of(row@, indexes@).take(k as int) =~= key_of(row@, indexes@));
    }
    Ok(Key::compound(values))
}

/// The first `at` rows.
spec fn upto(rows: Seq<RecordView>, at: usize) -> Seq<RecordView> {
    rows.take(at as int)
}

/// The rows from `at` on.
spec fn after(rows: Seq<RecordView>, at: usize) -> Seq<RecordView> {
    rows.skip(at as int)
}

/// Placing a row among all rows is placing it among those from 0 on.
proof fn lemma_place_start(rows: Seq<RecordView>, row: RecordView, indexes: Seq<usize>)
    ensures
        place(rows, row, indexes) == upto(rows, 0) + place(after(rows, 0), row, indexes),
{
    assert(after(rows, 0) =~= rows);
    assert(upto(rows, 0) + place(rows, row, indexes) =~= place(rows, row, indexes));
}

/// The row at `at` is the first of those from `at` on, and stands with its
/// key.
proof fn lemma_place_at(pairs: Seq<(Key, Record)>, at: usize, indexes: Seq<usize>)
    requires
        at < pairs.len(),
        keyed(pairs, indexes),
    ensures
        after(pair_rows(pairs), at).len() > 0,
        pairs[at as int].0@ == key_of(after(pair_rows(pairs), at)[0], indexes),
{
    assert(after(pair_rows(pairs), at)[0] == pairs[at as int].1@);
}

/// Going past the row at `at` leaves the placing among the rows behind it.
proof fn lemma_place_next(rows: Seq<RecordView>, at: usize, tail: Seq<RecordView>)
    requires
        at < rows.len(),
        at < usize::MAX,
    ensures
        after(rows, at).drop_first() == after(rows, (at + 1) as usize),
        upto(rows, at) + (seq![after(rows, at)[0]] + tail) == upto(rows, (at + 1) as usize) + tail,
{
    assert(after(rows, at).drop_first() =~= after(rows, (at + 1) as usize));
    assert(upto(rows, at) + (seq![after(rows, at)[0]] + tail) =~= upto(rows, (at + 1) as usize)
        + tail);
}

/// What the rows are once a pair was put in at `at`.
proof fn lemma_placed_before(
    before: Seq<(Key, Record)>,
    now: Seq<(Key, Record)>,
    at: usize,
    pair: (Key, Record),
    indexes: Seq<usize>,
)
    requires
        at <= before.len(),
        keyed(before, indexes),
        pair.0@ == key_of(pair.1@, indexes),
        now == before.insert(at as int, pair),
    ensures
        keyed(now, indexes),
        pair_rows(now) == upto(pair_rows(before), at) + (seq![pair.1@] + after(
            pair_rows(before),
            at,
        )),
{
    assert(pair_rows(now) =~= upto(pair_rows(before), at) + (seq![pair.1@] + after(
        pair_rows(before),
        at,
    )));
    assert forall|k: int| 0 <= k < now.len() implies (#[trigger] now[k]).0@ == key_of(
        now[k].1@,
        indexes,
    ) by {
        if k < at {
            assert(now[k] == before[k]);
        } else if k > at {
            assert(now[k] == before[k - 1]);
        }
    }
}

/// What the rows are once a pair took the place of the one at `at`.
proof fn lemma_placed_over(
    before: Seq<(Key, Record)>,
    now: Seq<(Key, Record)>,
    at: usize,
    pair: (Key, Record),
    indexes: Seq<usize>,
)
    requires
        at < before.len(),
        keyed(before, indexes),
        pair.0@ == key_of(pair.1@, indexes),
        now == before.update(at as int, pair),
    ensures
        keyed(now, indexes),
        pair_rows(now) == upto(pair_rows(before), at) + (seq![pair.1@] + after(
            pair_rows(before),
            at,
        ).drop_first()),
{
    assert(pair_rows(now) =~= upto(pair_rows(before), at) + (seq![pair.1@] + after(
        pair_rows(before),
        at,
    ).drop_first()));
    assert forall|k: int| 0 <= k < now.len() implies (#[trigger] now[k]).0@ == key_of(
        now[k].1@,
        indexes,
    ) by {
        if k != at {
            assert(now[k] == before[k]);
        }
    }
}

/// What the rows are once a pair was put behind all of them.
proof fn lemma_placed_last(
    before: Seq<(Key, Record)>,
    now: Seq<(Key, Record)>,
    at: usize,
    pair: (Key, Record),
    indexes: Seq<usize>,
)
    requires
        at == before.len(),
        keyed(before, indexes),
        pair.0@ == key_of(pair.1@, indexes),
        now == before.push(pair),
    ensures
        keyed(now, indexes),
        after(pair_rows(before), at).len() == 0,
        pair_rows(now) == upto(pair_rows(before), at) + seq![pair.1@],
{
    assert(pair_rows(now) =~= upto(pair_rows(before), at) + seq![pair.1@]);
    assert forall|k: int| 0 <= k < now.len() implies (#[trigger] now[k]).0@ == key_of(
        now[k].1@,
        indexes,
    ) by {
        if k < at {
            assert(now[k] == before[k]);
        }
    }
}

/// Puts a row with its key into rows that are in order.
fn place_row(sorted: &mut Vec<(Key, Record)>, key: Key, row: Record, indexes: Ghost<Seq<usize>>)
    requires
        keyed(old(sorted)@, indexes@),
        key@ == key_of(row@, indexes@),
    ensures
        keyed(final(sorted)@, indexes@),
        pair_rows(final(sorted)@) == place(pair_rows(old(sorted)@), row@, indexes@),
{
    let mut at: usize = 0;
    let ghost before = pair_rows(sorted@);
    let ghost pair = (key, row);
    proof {
        lemma_place_start(before, row@, indexes@);
    }
    while at < sorted.len()
        invariant
            at <= sorted@.len(),
            sorted@ == old(sorted)@,
            before == pair_rows(sorted@),
            keyed(sorted@, indexes@),
            pair == (key, row),
            key@ == key_of(row@, indexes@),
            place(before, row@, indexes@) == upto(before, at) + place(
                after(before, at),
                row@,
                indexes@,
            ),
        decreases sorted@.len() - at,
    {
        let ghost rest = after(before, at);
        proof {
            lemma_place_at(sorted@, at, indexes@);
            lemma_place_next(before, at, place(rest.drop_first(), row@, indexes@));
        }
        match key.compare(&sorted[at].0) {
            Ordering::Less => {
                sorted.insert(at, (key, row));
                proof {
                    lemma_placed_before(old(sorted)@, sorted@, at, pair, indexes@);
                }
                return ;
            },
            Ordering::Equal => {
                sorted.set(at, (key, row));
                proof {
                    lemma_placed_over(old(sorted)@, sorted@, at, pair, indexes@);
                }
                return ;
            },
            Ordering::Greater => {},
        }
        at = at + 1;
    }
    sorted.push((key, row));
    proof {
        lemma_placed_last(old(sorted)@, sorted@, at, pair, indexes@);
    }
}

impl Table {
    /// The first row, in the order of insertion, that has the given value in
    /// the column `colindex`. A row without that column does not count. The
    /// search ends at a slot that leads to no record.
    pub fn where_clause(&self, colindex: usize, value: &Value) -> (found: Option<Record>)
        requires
            self.wf(),
        ensures
            match first_with(readable(self@.rows), 0, colindex as int, value@) {
                Some(row) => found is Some && found->0@ == row,
                None => found is None,
            },
    {
        let mut rows = self.iter();
        let ghost all = self@.rows;
        let count = self.row_count();
        let mut i: usize = 0;
        proof {
            lemma_readable_prefix(all, 0);
            self.lemma_page_spec();
        }
        loop
            invariant
                count == all.len(),
                rows.page() == self.page_spec(),
                rows.page().wf(),
                rows.page()@ == all,
                all == self@.rows,
                rows.position() == i,
                i <= readable(all).len(),
                first_with(readable(all), 0, colindex as int, value@) == first_with(
                    readable(all),
                    i as int,
                    colindex as int,
                    value@,
                ),
            decreases all.len() - i,
        {
            proof {
                lemma_readable_prefix(all, i as int);
                lemma_readable_prefix(all, i + 1);
                self.lemma_page_spec();
            }
            match rows.next() {
                None => {
                    return None;
                },
                Some(row) => {
                    match row.get(colindex) {
                        Ok(cell) => {
                            if *cell == *value {
                                return Some(row);
                            }
                        },
                        Err(_) => {},
                    }
                },
            }
            i = i + 1;
        }
    }

    /// A table with the name and the columns of this one, and its rows in
    /// the order of the columns that `expression` names: a list of column
    /// names between commas. Of rows with equal keys only the last is kept.
    /// The rows are read up to the first slot that leads to no record.
    /// Fails with `UnknownColumn` where a name is no column, with
    /// `MissingValue` where a row is too short for a key column, and with
    /// `Storage` where the ordered rows do not fit into a page.
    #[verifier::loop_isolation(false)]
    pub fn order_by(&self, expression: &str) -> (result: Result<Table, OrderError>)
        requires
            self.wf(),
        ensures
            ({
                let rows = readable(self@.rows);
                match indexes_of(self@.columns, listed_names(encode_utf8(expression@))) {
                    None => result is Err && result->Err_0 == OrderError::UnknownColumn,
                    Some(wanted) => {
                        let indexes = Seq::new(wanted.len(), |k: int| wanted[k] as usize);
                        match first_gap(rows, indexes) {
                            Some((row, place)) => result is Err && (result->Err_0
                                matches OrderError::MissingValue(r, c) && r == row && c
                                == indexes[place]),
                            None => (self.intact() ==> result is Ok) && match result {
                                Ok(table) => {
                                    &&& table.wf()
                                    &&& table.intact()
                                    &&& table@.name == self@.name
                                    &&& table@.columns == self@.columns
                                    &&& table@.rows == ordered(rows, indexes).map_values(
                                        |row: RecordView| Some(row),
                                    )
                                    &&& fits(ordered(rows, indexes), PAGE_SIZE as nat)
                                },
                                Err(e) => {
                                    &&& !fits(ordered(rows, indexes), PAGE_SIZE as nat)
                                    &&& e is Storage
                                    &&& e->Storage_0 is CapacityExceeded
                                    &&& refusal(ordered(rows, indexes), PAGE_SIZE as nat) == Some(
                                        (
                                            e->Storage_0->CapacityExceeded_0 as nat,
                                            e->Storage_0->CapacityExceeded_1 as nat,
                                        ),
                                    )
                                },
                            },
                        }
                    },
                }
            }),
    {
        let indexes = match self.get_column_indexes(expression) {
            Some(indexes) => indexes,
            None => {
                return Err(OrderError::UnknownColumn);
            },
        };
        let ghost wanted = indexes_of(self@.columns, listed_names(encode_utf8(expression@)))->0;
        assert(indexes@ =~= Seq::new(wanted.len(), |k: int| wanted[k] as usize));
        let ghost all = self@.rows;
        let ghost source = readable(all);
        proof {
            if self.intact() {
                self.lemma_intact();
                lemma_ordered_rows_fit(all, indexes@);
            }
        }

        let mut sorted: Vec<(Key, Record)> = Vec::new();
        let mut rows = self.iter();
        let count = self.row_count();
        let mut i: usize = 0;
        proof {
            assert(pair_rows(sorted@) =~= ordered(source.take(0), indexes@));
            lemma_readable_prefix(all, 0);
            self.lemma_page_spec();
        }
        let mut done = false;
        while !done
            invariant
                count == all.len(),
                rows.page() == self.page_spec(),
                rows.page().wf(),
                rows.page()@ == all,
                rows.position() == i,
                i <= source.len(),
                done ==> i == source.len(),
                keyed(sorted@, indexes@),
                pair_rows(sorted@) == ordered(source.take(i as int), indexes@),
                first_gap(source.take(i as int), indexes@) is None,
            decreases all.len() - i + (if done { 0int } else { 1int }),
        {
            proof {
                lemma_readable_prefix(all, i as int);
                lemma_readable_prefix(all, i + 1);
            }
            match rows.next() {
                None => {
                    done = true;
                },
                Some(row) => {
                    proof {
                        assert(source.take(i + 1).drop_last() =~= source.take(i as int));
                        assert(source.take(i + 1).last() == row@);
                        lemma_first_gap_prefix(source, indexes@, i + 1);
                    }
                    match row_key(&row, &indexes) {
                        Ok(key) => {
                            place_row(&mut sorted, key, row, Ghost(indexes@));
                        },
                        Err(column) => {
                            proof {
                                assert(source.take(i + 1).len() == i + 1);
                                assert(first_gap(source.take(i + 1), indexes@) == Some(
                                    (i as int, column as int),
                                ));
                            }
                            return Err(OrderError::MissingValue(i, indexes[column]));
                        },
                    }
                    i = i + 1;
                },
            }
        }
        proof {
            assert(source.take(i as int) =~= source);
        }

        let mut table = self.empty_copy();
        let ghost target = ordered(source, indexes@);
        let mut k: usize = 0;
        proof {
            assert(target.skip(0) =~= target);
            assert(target.take(0).map_values(|row: RecordView| Some(row)) =~= Seq::<
                Option<RecordView>,
            >::empty());
        }
        while k < sorted.len()
            invariant
                k <= sorted@.len(),
                target == pair_rows(sorted@),
                table.wf(),
                table.intact(),
                table@.name == self@.name,
                table@.columns == self@.columns,
                table@.rows == target.take(k as int).map_values(|row: RecordView| Some(row)),
                fits(target, PAGE_SIZE as nat) == fits(target.skip(k as int), table.free_space()),
                refusal(target, PAGE_SIZE as nat) == refusal(
                    target.skip(k as int),
                    table.free_space(),
                ),
            decreases sorted@.len() - k,
        {
            let row = sorted[k].1.clone();
            proof {
                assert(target.skip(k as int)[0] == row@);
                assert(target.skip(k as int).drop_first() =~= target.skip(k + 1));
            }
            match table.insert(row) {
                Ok(()) => {
                    proof {
                        assert(target.take(k + 1) =~= target.take(k as int).push(target[k as int]));
                        assert(target.take(k + 1).map_values(|row: RecordView| Some(row))
                            =~= target.take(k as int).map_values(|row: RecordView| Some(row)).push(
                            Some(target[k as int]),
                        ));
                    }
                },
                Err(e) => {
                    proof {
                        assert(!fits(target.skip(k as int), table.free_space()));
                        assert(refusal(target.skip(k as int), table.free_space()) == Some(
                            (claimed_need(target[k as int]), table.free_space()),
                        ));
                    }
                    return Err(OrderError::Storage(e));
                },
            }
            k = k + 1;
        }
        proof {
            assert(target.take(k as int) =~= target);
            assert(target.skip(k as int).len() == 0);
        }
        Ok(table)
    }
}

/// Number of bytes that the rows take in a page, with their slots.
pub open spec fn sum_space(rows: Seq<RecordView>) -> nat
    decreases rows.len(),
{
    if rows.len() == 0 {
        0
    } else {
        space_needed(rows[0]) + sum_space(rows.drop_first())
    }
}

/// The total length of every row fits in 64 bits.
pub open spec fn all_small(rows: Seq<RecordView>) -> bool {
    forall|i: int| 0 <= i < rows.len() ==> (#[trigger] rows[i]).body_len() <= u64::MAX
}

/// Rows that take no more than the free space fit into it.
pub proof fn lemma_small_rows_fit(rows: Seq<RecordView>, free: nat)
    requires
        all_small(rows),
        sum_space(rows) <= free,
    ensures
        fits(rows, free),
    decreases rows.len(),
{
    if rows.len() > 0 {
        assert(rows[0].body_len() <= u64::MAX);
        assert forall|i: int| 0 <= i < rows.drop_first().len() implies (
        #[trigger] rows.drop_first()[i]).body_len() <= u64::MAX by {
            assert(rows[i + 1].body_len() <= u64::MAX);
        }
        lemma_small_rows_fit(rows.drop_first(), (free - space_needed(rows[0])) as nat);
    }
}

/// Placing a row adds no more than the space of that row.
proof fn lemma_place_space(sorted: Seq<RecordView>, row: RecordView, indexes: Seq<usize>)
    requires
        all_small(sorted),
        row.body_len() <= u64::MAX,
    ensures
        all_small(place(sorted, row, indexes)),
        sum_space(place(sorted, row, indexes)) <= sum_space(sorted) + space_needed(row),
    decreases sorted.len(),
{
    let placed = place(sorted, row, indexes);
    if sorted.len() > 0 {
        let rest = sorted.drop_first();
        assert forall|i: int| 0 <= i < rest.len() implies (#[trigger] rest[i]).body_len()
            <= u64::MAX by {
            assert(sorted[i + 1].body_len() <= u64::MAX);
        }
        lemma_place_space(rest, row, indexes);
        let behind = place(rest, row, indexes);
        assert(sorted[0].body_len() <= u64::MAX);
        assert(sum_space(sorted) == space_needed(sorted[0]) + sum_space(rest));
        assert(sum_space(placed) == space_needed(placed[0]) + sum_space(placed.drop_first()));
        match key_order(key_of(row, indexes), key_of(sorted[0], indexes)) {
            Ordering::Less => {
                assert(placed == seq![row] + sorted);
                assert(placed.drop_first() =~= sorted);
                assert forall|i: int| 0 <= i < placed.len() implies (
                #[trigger] placed[i]).body_len() <= u64::MAX by {
                    if i > 0 {
                        assert(placed[i] == sorted[i - 1]);
                    }
                }
            },
            Ordering::Equal => {
                assert(placed == seq![row] + rest);
                assert(placed.drop_first() =~= rest);
                assert forall|i: int| 0 <= i < placed.len() implies (
                #[trigger] placed[i]).body_len() <= u64::MAX by {
                    if i > 0 {
                        assert(placed[i] == rest[i - 1]);
                    }
                }
            },
            Ordering::Greater => {
                assert(placed == seq![sorted[0]] + behind);
                assert(placed.drop_first() =~= behind);
                assert forall|i: int| 0 <= i < placed.len() implies (
                #[trigger] placed[i]).body_len() <= u64::MAX by {
                    if i > 0 {
                        assert(placed[i] == behind[i - 1]);
                    }
                }
            },
        }
    } else {
        assert(placed.drop_first() =~= Seq::<RecordView>::empty());
        assert(sum_space(placed.drop_first()) == 0);
        assert(sum_space(placed) == space_needed(placed[0]) + sum_space(placed.drop_first()));
    }
}

/// The rows that are read from a page take, in any order that leaves rows
/// out but adds none, no more space than the page gave them.
proof fn lemma_ordered_space(rows: Seq<Option<RecordView>>, indexes: Seq<usize>)
    requires
        forall|i: int|
            0 <= i < rows.len() ==> ((#[trigger] rows[i]) matches Some(row) ==> row.body_len()
                <= u64::MAX),
    ensures
        all_small(ordered(readable(rows), indexes)),
        sum_space(ordered(readable(rows), indexes)) <= total_space(rows),
    decreases rows.len(),
{
    if rows.len() > 0 {
        let front = readable(rows.drop_last());
        assert forall|i: int| 0 <= i < rows.drop_last().len() implies ((
        #[trigger] rows.drop_last()[i]) matches Some(row) ==> row.body_len() <= u64::MAX) by {
            assert(rows.drop_last()[i] == rows[i]);
        }
        lemma_ordered_space(rows.drop_last(), indexes);
        if front.len() == rows.len() - 1 && rows.last() is Some {
            let row = rows.last().unwrap();
            assert(rows[rows.len() - 1] == Some(row));
            assert(front.push(row).drop_last() =~= front);
            lemma_place_space(ordered(front, indexes), row, indexes);
        }
    }
}

/// The rows of an intact page fit into an empty page, in whatever order
/// they are put and whichever of them are left out for their keys.
pub proof fn lemma_ordered_rows_fit(rows: Seq<Option<RecordView>>, indexes: Seq<usize>)
    requires
        total_space(rows) <= PAGE_SIZE,
        forall|i: int|
            0 <= i < rows.len() ==> ((#[trigger] rows[i]) matches Some(row) ==> row.body_len()
                <= u64::MAX),
    ensures
        fits(ordered(readable(rows), indexes), PAGE_SIZE as nat),
{
    lemma_ordered_space(rows, indexes);
    lemma_small_rows_fit(ordered(readable(rows), indexes), PAGE_SIZE as nat);
}

/// Every two rows have keys whose values are ordered, place by place.
pub open spec fn comparable(rows: Seq<RecordView>, indexes: Seq<usize>) -> bool {
    forall|i: int, j: int|
        0 <= i < rows.len() && 0 <= j < rows.len() ==> ordered_values(
            key_of(#[trigger] rows[i], indexes),
            key_of(#[trigger] rows[j], indexes),
        )
}

/// Each row comes before all rows behind it: the rows are in the order of
/// their keys, and no two have equal keys.
pub open spec fn ascending(rows: Seq<RecordView>, indexes: Seq<usize>) -> bool {
    forall|i: int, j: int|
        0 <= i < j < rows.len() ==> key_order(
            key_of(#[trigger] rows[i], indexes),
            key_of(#[trigger] rows[j], indexes),
        ) == Ordering::Less
}

/// No two rows have equal keys.
pub open spec fn distinct_keys(rows: Seq<RecordView>, indexes: Seq<usize>) -> bool {
    forall|i: int, j: int|
        0 <= i < rows.len() && 0 <= j < rows.len() && i != j ==> key_order(
            key_of(#[trigger] rows[i], indexes),
            key_of(#[trigger] rows[j], indexes),
        ) != Ordering::Equal
}

/// Every row among the placed ones is the new row or one that was there.
proof fn lemma_place_members(sorted: Seq<RecordView>, row: RecordView, indexes: Seq<usize>)
    ensures
        forall|i: int|
            0 <= i < place(sorted, row, indexes).len() ==> (#[trigger] place(
                sorted,
                row,
                indexes,
            )[i]) == row || sorted.contains(place(sorted, row, indexes)[i]),
    decreases sorted.len(),
{
    let placed = place(sorted, row, indexes);
    if sorted.len() > 0 {
        let rest = sorted.drop_first();
        lemma_place_members(rest, row, indexes);
        let behind = place(rest, row, indexes);
        assert forall|i: int| 0 <= i < placed.len() implies (#[trigger] placed[i]) == row
            || sorted.contains(placed[i]) by {
            if i > 0 {
                match key_order(key_of(row, indexes), key_of(sorted[0], indexes)) {
                    Ordering::Less => {
                        assert(placed[i] == sorted[i - 1]);
                    },
                    Ordering::Equal => {
                        assert(placed[i] == rest[i - 1]);
                        assert(rest[i - 1] == sorted[i]);
                    },
                    Ordering::Greater => {
                        assert(placed[i] == behind[i - 1]);
                        if behind[i - 1] != row {
                            let at = choose|at: int|
                                0 <= at < rest.len() && rest[at] == behind[i - 1];
                            assert(sorted[at + 1] == behind[i - 1]);
                        }
                    },
                }
            } else {
                assert(placed[0] == row || placed[0] == sorted[0]);
            }
        }
    }
}

/// Placing a row among rows in ascending order leaves them in ascending
/// order.
proof fn lemma_place_ascending(sorted: Seq<RecordView>, row: RecordView, indexes: Seq<usize>)
    requires
        ascending(sorted, indexes),
        comparable(sorted.push(row), indexes),
    ensures
        ascending(place(sorted, row, indexes), indexes),
    decreases sorted.len(),
{
    let placed = place(sorted, row, indexes);
    let all = sorted.push(row);
    let key = key_of(row, indexes);
    assert(all[all.len() - 1] == row);
    assert forall|i: int| 0 <= i < sorted.len() implies ordered_values(
        key,
        key_of(#[trigger] sorted[i], indexes),
    ) && ordered_values(key_of(sorted[i], indexes), key) by {
        assert(all[i] == sorted[i]);
    }
    assert forall|i: int, j: int|
        0 <= i < sorted.len() && 0 <= j < sorted.len() implies ordered_values(
        key_of(#[trigger] sorted[i], indexes),
        key_of(#[trigger] sorted[j], indexes),
    ) by {
        assert(all[i] == sorted[i] && all[j] == sorted[j]);
    }
    if sorted.len() > 0 {
        let first = sorted[0];
        let rest = sorted.drop_first();
        let order = key_order(key, key_of(first, indexes));
        lemma_key_order_flips(key, key_of(first, indexes));
        assert forall|j: int| 0 <= j < rest.len() implies key_order(
            key_of(first, indexes),
            key_of(#[trigger] rest[j], indexes),
        ) == Ordering::Less by {
            assert(rest[j] == sorted[j + 1]);
        }
        match order {
            Ordering::Less => {
                assert forall|i: int, j: int| 0 <= i < j < placed.len() implies key_order(
                    key_of(#[trigger] placed[i], indexes),
                    key_of(#[trigger] placed[j], indexes),
                ) == Ordering::Less by {
                    assert(placed[j] == sorted[j - 1]);
                    if i == 0 {
                        if j > 1 {
                            lemma_key_order_transitive(
                                key,
                                key_of(first, indexes),
                                key_of(sorted[j - 1], indexes),
                            );
                        }
                    } else {
                        assert(placed[i] == sorted[i - 1]);
                    }
                }
            },
            Ordering::Equal => {
                assert forall|i: int, j: int| 0 <= i < j < placed.len() implies key_order(
                    key_of(#[trigger] placed[i], indexes),
                    key_of(#[trigger] placed[j], indexes),
                ) == Ordering::Less by {
                    assert(placed[j] == rest[j - 1]);
                    assert(rest[j - 1] == sorted[j]);
                    if i == 0 {
                        lemma_key_order_transitive(
                            key,
                            key_of(first, indexes),
                            key_of(sorted[j], indexes),
                        );
                    } else {
                        assert(placed[i] == rest[i - 1]);
                        assert(rest[i - 1] == sorted[i]);
                    }
                }
            },
            Ordering::Greater => {
                let behind = place(rest, row, indexes);
                assert(ascending(rest, indexes)) by {
                    assert forall|i: int, j: int| 0 <= i < j < rest.len() implies key_order(
                        key_of(#[trigger] rest[i], indexes),
                        key_of(#[trigger] rest[j], indexes),
                    ) == Ordering::Less by {
                        assert(rest[i] == sorted[i + 1] && rest[j] == sorted[j + 1]);
                    }
                }
                assert(comparable(rest.push(row), indexes)) by {
                    let some = rest.push(row);
                    assert forall|i: int, j: int|
                        0 <= i < some.len() && 0 <= j < some.len() implies ordered_values(
                        key_of(#[trigger] some[i], indexes),
                        key_of(#[trigger] some[j], indexes),
                    ) by {
                        assert(some[i] == all[i + 1] && some[j] == all[j + 1]);
                    }
                }
                lemma_place_ascending(rest, row, indexes);
                lemma_place_members(rest, row, indexes);
                assert forall|i: int, j: int| 0 <= i < j < placed.len() implies key_order(
                    key_of(#[trigger] placed[i], indexes),
                    key_of(#[trigger] placed[j], indexes),
                ) == Ordering::Less by {
                    assert(placed[j] == behind[j - 1]);
                    if i == 0 {
                        assert(placed[0] == first);
                        if behind[j - 1] != row {
                            let at = choose|at: int|
                                0 <= at < rest.len() && rest[at] == behind[j - 1];
                            assert(key_order(key_of(first, indexes), key_of(rest[at], indexes))
                                == Ordering::Less);
                        }
                    } else {
                        assert(placed[i] == behind[i - 1]);
                    }
                }
            },
        }
    }
}

/// A row in front of others adds that row to them.
proof fn lemma_front_row(row: RecordView, rows: Seq<RecordView>)
    ensures
        (seq![row] + rows).to_multiset() == rows.to_multiset().insert(row),
{
    vstd::seq_lib::to_multiset_insert(rows, 0, row);
    assert(rows.insert(0, row) =~= seq![row] + rows);
}

/// Placing a row whose key no row has adds that row and takes none away.
proof fn lemma_place_keeps_all(sorted: Seq<RecordView>, row: RecordView, indexes: Seq<usize>)
    requires
        forall|i: int|
            0 <= i < sorted.len() ==> key_order(
                key_of(row, indexes),
                key_of(#[trigger] sorted[i], indexes),
            ) != Ordering::Equal,
    ensures
        place(sorted, row, indexes).to_multiset() == sorted.to_multiset().insert(row),
    decreases sorted.len(),
{
    broadcast use vstd::multiset::group_multiset_axioms;

    let placed = place(sorted, row, indexes);
    if sorted.len() > 0 {
        let first = sorted[0];
        let rest = sorted.drop_first();
        assert(key_order(key_of(row, indexes), key_of(first, indexes)) != Ordering::Equal);
        assert forall|i: int| 0 <= i < rest.len() implies key_order(
            key_of(row, indexes),
            key_of(#[trigger] rest[i], indexes),
        ) != Ordering::Equal by {
            assert(rest[i] == sorted[i + 1]);
        }
        lemma_place_keeps_all(rest, row, indexes);
        assert(sorted =~= seq![first] + rest);
        lemma_front_row(first, rest);
        match key_order(key_of(row, indexes), key_of(first, indexes)) {
            Ordering::Less => {
                lemma_front_row(row, sorted);
            },
            Ordering::Equal => {},
            Ordering::Greater => {
                lemma_front_row(first, place(rest, row, indexes));
                assert(placed.to_multiset() =~= sorted.to_multiset().insert(row));
            },
        }
    } else {
        lemma_front_row(row, sorted);
        assert(placed =~= seq![row] + sorted);
    }
}

/// Every row that `ordered` gives is one of the rows it was given.
pub proof fn lemma_ordered_rows_are_given(rows: Seq<RecordView>, indexes: Seq<usize>)
    ensures
        forall|i: int|
            0 <= i < ordered(rows, indexes).len() ==> rows.contains(
                #[trigger] ordered(rows, indexes)[i],
            ),
    decreases rows.len(),
{
    if rows.len() > 0 {
        let front = rows.drop_last();
        let before = ordered(front, indexes);
        let now = ordered(rows, indexes);
        lemma_ordered_rows_are_given(front, indexes);
        lemma_place_members(before, rows.last(), indexes);
        assert forall|i: int| 0 <= i < now.len() implies rows.contains(#[trigger] now[i]) by {
            if now[i] == rows.last() {
                assert(rows[rows.len() - 1] == now[i]);
            } else {
                let at = choose|at: int| 0 <= at < before.len() && before[at] == now[i];
                let from = choose|from: int| 0 <= from < front.len() && front[from] == before[at];
                assert(rows[from] == now[i]);
            }
        }
    }
}

/// Where the keys of all rows have ordered values, `ordered` gives the rows
/// in ascending order of their keys.
pub proof fn lemma_ordered_is_ascending(rows: Seq<RecordView>, indexes: Seq<usize>)
    requires
        comparable(rows, indexes),
    ensures
        ascending(ordered(rows, indexes), indexes),
    decreases rows.len(),
{
    if rows.len() > 0 {
        let front = rows.drop_last();
        let before = ordered(front, indexes);
        assert(comparable(front, indexes)) by {
            assert forall|i: int, j: int|
                0 <= i < front.len() && 0 <= j < front.len() implies ordered_values(
                key_of(#[trigger] front[i], indexes),
                key_of(#[trigger] front[j], indexes),
            ) by {
                assert(front[i] == rows[i] && front[j] == rows[j]);
            }
        }
        lemma_ordered_is_ascending(front, indexes);
        lemma_ordered_rows_are_given(front, indexes);
        let all = before.push(rows.last());
        assert forall|i: int| 0 <= i < all.len() implies rows.contains(#[trigger] all[i]) by {
            if i < before.len() {
                let from = choose|from: int| 0 <= from < front.len() && front[from] == before[i];
                assert(rows[from] == all[i]);
            } else {
                assert(rows[rows.len() - 1] == all[i]);
            }
        }
        assert(comparable(all, indexes)) by {
            assert forall|i: int, j: int|
                0 <= i < all.len() && 0 <= j < all.len() implies ordered_values(
                key_of(#[trigger] all[i], indexes),
                key_of(#[trigger] all[j], indexes),
            ) by {
                let x = choose|x: int| 0 <= x < rows.len() && rows[x] == all[i];
                let y = choose|y: int| 0 <= y < rows.len() && rows[y] == all[j];
                assert(ordered_values(key_of(rows[x], indexes), key_of(rows[y], indexes)));
            }
        }
        lemma_place_ascending(before, rows.last(), indexes);
    }
}

/// Where no two rows have equal keys, `ordered` gives every row once: the
/// rows it gives are those it was given, in another order.
pub proof fn lemma_ordered_is_permutation(rows: Seq<RecordView>, indexes: Seq<usize>)
    requires
        distinct_keys(rows, indexes),
    ensures
        ordered(rows, indexes).to_multiset() == rows.to_multiset(),
        ordered(rows, indexes).len() == rows.len(),
    decreases rows.len(),
{
    broadcast use vstd::multiset::group_multiset_axioms;

    if rows.len() > 0 {
        let front = rows.drop_last();
        let last = rows.last();
        let before = ordered(front, indexes);
        assert(distinct_keys(front, indexes)) by {
            assert forall|i: int, j: int|
                0 <= i < front.len() && 0 <= j < front.len() && i != j implies key_order(
                key_of(#[trigger] front[i], indexes),
                key_of(#[trigger] front[j], indexes),
            ) != Ordering::Equal by {
                assert(front[i] == rows[i] && front[j] == rows[j]);
            }
        }
        lemma_ordered_is_permutation(front, indexes);
        lemma_ordered_rows_are_given(front, indexes);
        assert forall|i: int| 0 <= i < before.len() implies key_order(
            key_of(last, indexes),
            key_of(#[trigger] before[i], indexes),
        ) != Ordering::Equal by {
            let from = choose|from: int| 0 <= from < front.len() && front[from] == before[i];
            assert(rows[from] == before[i]);
            assert(rows[rows.len() - 1] == last);
        }
        lemma_place_keeps_all(before, last, indexes);
        assert(rows =~= front.push(last));
        vstd::seq_lib::to_multiset_build(front, last);
        ordered(rows, indexes).to_multiset_ensures();
        rows.to_multiset_ensures();
    } else {
        ordered(rows, indexes).to_multiset_ensures();
        rows.to_multiset_ensures();
    }
}

/// The first row from `from` on that has `value` in the column `colindex`.
pub open spec fn first_with(rows: Seq<RecordView>, from: int, colindex: int, value: ValueView)
    -> Option<RecordView>
    decreases rows.len() - from,
{
    if from < 0 || from >= rows.len() {
        None
    } else if 0 <= colindex < rows[from].columns.len() && rows[from].columns[colindex] == value {
        Some(rows[from])
    } else {
        first_with(rows, from + 1, colindex, value)
    }
}

/// The readable rows are the slots up to the first that leads to no record.
pub proof fn lemma_readable_prefix(rows: Seq<Option<RecordView>>, i: int)
    requires
        0 <= i,
    ensures
        readable(rows).len() <= rows.len(),
        i < readable(rows).len() ==> rows[i] == Some(readable(rows)[i]),
        i == readable(rows).len() && i < rows.len() ==> rows[i] is None,
    decreases rows.len(),
{
    if rows.len() > 0 {
        lemma_readable_prefix(rows.drop_last(), i);
    }
}

/// Where the first `k` rows have a gap, all rows have that gap.
proof fn lemma_first_gap_prefix(rows: Seq<RecordView>, indexes: Seq<usize>, k: int)
    requires
        0 <= k <= rows.len(),
    ensures
        first_gap(rows.take(k), indexes) is Some ==> first_gap(rows, indexes) == first_gap(
            rows.take(k),
            indexes,
        ),
    decreases rows.len() - k,
{
    if k < rows.len() {
        lemma_first_gap_prefix(rows, indexes, k + 1);
        assert(rows.take(k + 1).drop_last() =~= rows.take(k));
    } else {
        assert(rows.take(k) =~= rows);
    }
}

} // verus!
