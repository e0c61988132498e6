//! Reading delimited text into a table.
//!
//! The text is cut into lines at line feeds. The first line names the
//! columns; every later line that is not empty is a row. A line is cut into
//! fields at the separator, which the caller names or which is guessed from
//! the text. Each field of a row becomes the value that it stands for: an
//! integer, a float or a text.
//!
//! An empty separator cuts nowhere. Line feeds alone end a line: a carriage
//! return before one stays in the last field.
//!
//! Floats are parsed by the caller: it cuts the text with `split_rows`,
//! parses the fields that it takes for floats, and hands their bits on.
use vstd::prelude::*;
use vstd::slice::slice_subrange;
use vstd::utf8::{decode_utf8, encode_utf8, encode_utf8_valid_utf8, valid_utf8};
use crate::error::StorageError;
use crate::page::{claimed_need, fits, refusal, space_needed, PAGE_SIZE};
use crate::record::{lemma_raw_bytes_cover, lemma_serialized_len, Record, RecordView};
use crate::split::{
    count, count_byte, lemma_ascii_is_utf8, lemma_split_is_utf8, pieces, ranges_within, split,
    split_ranges,
};
use crate::strings::texts_of;
use crate::table::{first_free, numbered, Table, MAX_SUFFIX};
use crate::text::{lossy_text, sniff, strip_quotes_spec};
use crate::value::{Value, ValueView, MAX_TEXT_LEN};

verus! {

/// The separator that the text speaks for: of tab, semicolon, comma and
/// pipe, the one that occurs most often; of two that occur equally often,
/// the one that comes later in this list.
pub open spec fn guess(text: Seq<u8>) -> u8 {
    let tabs = count(text, 9);
    let semis = count(text, 59);
    let commas = count(text, 44);
    let pipes = count(text, 124);
    if pipes >= tabs && pipes >= semis && pipes >= commas {
        124
    } else if commas >= tabs && commas >= semis {
        44
    } else if semis >= tabs {
        59
    } else {
        9
    }
}

/// The lines that count: the first, and every later one that is not empty.
pub open spec fn kept_lines(lines: Seq<Seq<u8>>) -> Seq<Seq<u8>>
    decreases lines.len(),
{
    if lines.len() == 0 {
        Seq::empty()
    } else if lines.len() == 1 || lines.last().len() > 0 {
        kept_lines(lines.drop_last()).push(lines.last())
    } else {
        kept_lines(lines.drop_last())
    }
}

/// The lines of a text that count.
pub open spec fn lines_of(text: Seq<u8>) -> Seq<Seq<u8>> {
    kept_lines(split(text, seq![10u8]))
}

/// The fields of every line that counts, as the texts they spell.
pub open spec fn rows_of(text: Seq<u8>, separator: Seq<u8>) -> Seq<Seq<Seq<char>>> {
    lines_of(text).map_values(
        |line: Seq<u8>| split(line, separator).map_values(|field: Seq<u8>| decode_utf8(field)),
    )
}

/// The bits that the caller gave for field `j` of row `i`, if any.
pub open spec fn float_at(floats: Seq<Vec<Option<u64>>>, i: int, j: int) -> Option<u64> {
    if 0 <= i < floats.len() && 0 <= j < floats[i]@.len() {
        floats[i]@[j]
    } else {
        None
    }
}

/// The values of row `i`, whose fields are `fields`.
pub open spec fn row_values(fields: Seq<Seq<u8>>, floats: Seq<Vec<Option<u64>>>, i: int) -> Seq<
    ValueView,
> {
    Seq::new(fields.len(), |j: int| sniff(fields[j], float_at(floats, i, j)))
}

/// The records that the lines after the first stand for. Row `i` has the
/// row identifier `i`.
pub open spec fn csv_rows(
    lines: Seq<Seq<u8>>,
    separator: Seq<u8>,
    floats: Seq<Vec<Option<u64>>>,
) -> Seq<RecordView> {
    Seq::new(
        (lines.len() - 1) as nat,
        |i: int|
            RecordView {
                rowid: i as u64,
                columns: row_values(split(lines[i + 1], separator), floats, i),
            },
    )
}

/// The columns after `names` were added one by one, each under the first
/// free number where its name was taken.
pub open spec fn with_columns(columns: Seq<Seq<char>>, names: Seq<Seq<char>>) -> Seq<Seq<char>>
    decreases names.len(),
{
    if names.len() == 0 {
        columns
    } else {
        let before = with_columns(columns, names.drop_last());
        before.push(
            numbered(names.last(), first_free(before, names.last(), 1, MAX_SUFFIX as nat)),
        )
    }
}

/// Every line of a text is text.
pub proof fn lemma_lines_are_utf8(text: Seq<u8>)
    requires
        valid_utf8(text),
    ensures
        lines_of(text).len() >= 1,
        forall|k: int| 0 <= k < lines_of(text).len() ==> valid_utf8(#[trigger] lines_of(text)[k]),
{
    lemma_ascii_is_utf8(10);
    lemma_split_is_utf8(text, seq![10u8]);
    crate::split::lemma_join_split(text, seq![10u8]);
    lemma_kept_lines_are_utf8(split(text, seq![10u8]));
}

/// Where all lines are text, those that count are.
proof fn lemma_kept_lines_are_utf8(lines: Seq<Seq<u8>>)
    requires
        forall|k: int| 0 <= k < lines.len() ==> valid_utf8(#[trigger] lines[k]),
    ensures
        lines.len() >= 1 ==> kept_lines(lines).len() >= 1,
        forall|k: int|
            0 <= k < kept_lines(lines).len() ==> valid_utf8(#[trigger] kept_lines(lines)[k]),
    decreases lines.len(),
{
    if lines.len() > 0 {
        assert forall|k: int| 0 <= k < lines.drop_last().len() implies valid_utf8(
            #[trigger] lines.drop_last()[k],
        ) by {
            assert(lines.drop_last()[k] == lines[k]);
        }
        lemma_kept_lines_are_utf8(lines.drop_last());
        let front = kept_lines(lines.drop_last());
        let kept = kept_lines(lines);
        assert(valid_utf8(lines[lines.len() - 1]));
        assert forall|k: int| 0 <= k < kept.len() implies valid_utf8(#[trigger] kept[k]) by {
            if k < front.len() {
                assert(kept[k] == front[k]);
            }
        }
    }
}

/// The separator that a text speaks for, as a byte.
pub fn guess_byte(text: &[u8]) -> (separator: u8)
    ensures
        separator == guess(text@),
{
    let tabs = count_byte(text, 9);
    let semis = count_byte(text, 59);
    let commas = count_byte(text, 44);
    let pipes = count_byte(text, 124);
    if pipes >= tabs && pipes >= semis && pipes >= commas {
        124
    } else if commas >= tabs && commas >= semis {
        44
    } else if semis >= tabs {
        59
    } else {
        9
    }
}

/// The separator that a text speaks for: of tab, semicolon, comma and pipe,
/// the one that occurs most often. There always is one.
pub fn guess_separator(csv: &str) -> (separator: Option<&'static str>)
    ensures
        separator is Some,
        separator->0@ == seq![guess(encode_utf8(csv@)) as char],
{
    proof {
        reveal_strlit("\t");
        reveal_strlit(";");
        reveal_strlit(",");
        reveal_strlit("|");
    }
    let byte = guess_byte(csv.as_bytes());
    let text: &'static str = if byte == 124 {
        "|"
    } else if byte == 44 {
        ","
    } else if byte == 59 {
        ";"
    } else {
        "\t"
    };
    assert(text@ =~= seq![byte as char]);
    Some(text)
}

/// The ranges of the lines of `text` that count.
fn line_ranges(text: &[u8]) -> (lines: Vec<(usize, usize)>)
    ensures
        ranges_within(lines@, text@.len()),
        pieces(text@, lines@) == lines_of(text@),
        lines@.len() >= 1,
{
    let mut feed: Vec<u8> = Vec::new();
    feed.push(10);
    assert(feed@ =~= seq![10u8]);
    let all = split_ranges(text, feed.as_slice());
    let ghost parts = split(text@, seq![10u8]);
    let mut lines: Vec<(usize, usize)> = Vec::new();
    let mut i: usize = 0;
    proof {
        assert(parts.take(0) =~= Seq::empty());
        assert(pieces(text@, lines@) =~= Seq::empty());
    }
    while i < all.len()
        invariant
            i <= all@.len(),
            parts == split(text@, seq![10u8]),
            pieces(text@, all@) == parts,
            ranges_within(all@, text@.len()),
            ranges_within(lines@, text@.len()),
            pieces(text@, lines@) == kept_lines(parts.take(i as int)),
            i > 0 ==> lines@.len() >= 1,
        decreases all@.len() - i,
    {
        let (begin, end) = all[i];
        proof {
            assert(parts.take(i + 1).drop_last() =~= parts.take(i as int));
            assert(parts.take(i + 1).last() == parts[i as int]);
            assert(parts[i as int] == text@.subrange(begin as int, end as int));
            assert(pieces(text@, lines@.push((begin, end))) =~= pieces(text@, lines@).push(
                text@.subrange(begin as int, end as int),
            ));
        }
        if i == 0 || end > begin {
            lines.push((begin, end));
        }
        i = i + 1;
    }
    proof {
        assert(parts.take(i as int) =~= parts);
    }
    lines
}

/// Cuts a delimited text into its rows, the first of which names the
/// columns, and each row into its fields. Empty lines after the first are
/// left out. An empty separator cuts nowhere.
pub fn split_rows(csv: &str, separator: &str) -> (rows: Vec<Vec<String>>)
    ensures
        texts_of(rows@) == rows_of(encode_utf8(csv@), encode_utf8(separator@)),
        rows@.len() >= 1,
{
    let text = csv.as_bytes();
    let sep = separator.as_bytes();
    let lines = line_ranges(text);
    let ghost wanted = rows_of(text@, sep@);
    let mut rows: Vec<Vec<String>> = Vec::new();
    let mut i: usize = 0;
    proof {
        assert(texts_of(rows@) =~= wanted.take(0));
        encode_utf8_valid_utf8(csv@);
        encode_utf8_valid_utf8(separator@);
        lemma_lines_are_utf8(text@);
    }
    while i < lines.len()
        invariant
            i <= lines@.len(),
            valid_utf8(sep@),
            forall|k: int|
                0 <= k < lines_of(text@).len() ==> valid_utf8(#[trigger] lines_of(text@)[k]),
            ranges_within(lines@, text@.len()),
            pieces(text@, lines@) == lines_of(text@),
            wanted == rows_of(text@, sep@),
            wanted.len() == lines@.len(),
            texts_of(rows@) == wanted.take(i as int),
        decreases lines@.len() - i,
    {
        let (begin, end) = lines[i];
        let line = slice_subrange(text, begin, end);
        let fields = split_ranges(line, sep);
        let ghost cut = split(line@, sep@);
        proof {
            assert(lines_of(text@)[i as int] == line@);
            lemma_split_is_utf8(line@, sep@);
        }
        let mut row: Vec<String> = Vec::new();
        let mut j: usize = 0;
        while j < fields.len()
            invariant
                j <= fields@.len(),
                forall|k: int| 0 <= k < cut.len() ==> valid_utf8(#[trigger] cut[k]),
                ranges_within(fields@, line@.len()),
                pieces(line@, fields@) == cut,
                row@.len() == j,
                forall|k: int| 0 <= k < j ==> (#[trigger] row@[k])@ == decode_utf8(cut[k]),
            decreases fields@.len() - j,
        {
            let (from, to) = fields[j];
            proof {
                assert(cut[j as int] == line@.subrange(from as int, to as int));
            }
            row.push(lossy_text(slice_subrange(line, from, to)));
            j = j + 1;
        }
        proof {
            let made = row@.map_values(|field: String| field@);
            assert(made =~= wanted[i as int]);
            assert(texts_of(rows@.push(row)) =~= texts_of(rows@).push(made));
            assert(wanted.take(i + 1) =~= wanted.take(i as int).push(wanted[i as int]));
        }
        rows.push(row);
        i = i + 1;
    }
    proof {
        assert(wanted.take(i as int) =~= wanted);
    }
    rows
}

/// A row whose value at `j` has more bytes than any tag can announce fits
/// nowhere, and is no row that can be written.
proof fn lemma_long_value_misfits(row: RecordView, j: int, free: nat)
    requires
        0 <= j < row.columns.len(),
        row.columns[j].payload.len() > MAX_TEXT_LEN,
        free <= PAGE_SIZE,
    ensures
        !(row.body_len() <= u64::MAX && space_needed(row) <= free),
        !row.wf(),
        claimed_need(row) == usize::MAX,
{
    lemma_raw_bytes_cover(row.columns, j);
    if row.body_len() <= u64::MAX {
        lemma_serialized_len(row);
    }
    assert(!row.columns[j].wf());
}

/// The column names that a first line spells: its fields, as text.
pub open spec fn header_names(line: Seq<u8>, separator: Seq<u8>) -> Seq<Seq<char>> {
    split(line, separator).map_values(|field: Seq<u8>| decode_utf8(field))
}

/// Adds a column for each field of the first line; a name that is taken
/// gets a number behind it.
fn add_header(table: &mut Table, head: &[u8], sep: &[u8])
    requires
        valid_utf8(head@),
        valid_utf8(sep@),
    ensures
        final(table).wf() == old(table).wf(),
        final(table).intact() == old(table).intact(),
        final(table).free_space() == old(table).free_space(),
        final(table)@.name == old(table)@.name,
        final(table)@.rows == old(table)@.rows,
        final(table)@.columns == with_columns(old(table)@.columns, header_names(head@, sep@)),
{
    let fields = split_ranges(head, sep);
    let ghost cut = split(head@, sep@);
    let ghost names = header_names(head@, sep@);
    proof {
        lemma_split_is_utf8(head@, sep@);
        assert(names.take(0) =~= Seq::empty());
    }
    let mut j: usize = 0;
    while j < fields.len()
        invariant
            j <= fields@.len(),
            ranges_within(fields@, head@.len()),
            cut == split(head@, sep@),
            pieces(head@, fields@) == cut,
            forall|k: int| 0 <= k < cut.len() ==> valid_utf8(#[trigger] cut[k]),
            names == header_names(head@, sep@),
            table.wf() == old(table).wf(),
            table.intact() == old(table).intact(),
            table.free_space() == old(table).free_space(),
            table@.name == old(table)@.name,
            table@.rows == old(table)@.rows,
            table@.columns == with_columns(old(table)@.columns, names.take(j as int)),
        decreases fields@.len() - j,
    {
        let (from, to) = fields[j];
        proof {
            assert(cut[j as int] == head@.subrange(from as int, to as int));
        }
        let name = lossy_text(slice_subrange(head, from, to));
        proof {
            assert(names.take(j + 1).drop_last() =~= names.take(j as int));
            assert(names.take(j + 1).last() == name@);
        }
        table.add_column(name.as_str(), true);
        j = j + 1;
    }
    proof {
        assert(names.take(j as int) =~= names);
    }
}

impl Table {
    /// Reads a delimited text into a table without a name. The first line
    /// names the columns; a name that is taken gets a number behind it.
    /// Every later line that is not empty becomes a row, under its index as
    /// row identifier, and each of its fields the value that it stands for.
    /// `floats[i][j]` holds the bits of field `j` of row `i` where the
    /// caller parsed that field as a float; a field without an entry has
    /// none. Without a separator, the one that the text speaks for is taken;
    /// an empty separator cuts nowhere, so that each line is one field.
    /// Fails with `CapacityExceeded` where the rows do not fit into a page.
    #[verifier::loop_isolation(false)]
    pub fn from_csv(csv: &str, separator: Option<&str>, floats: &Vec<Vec<Option<u64>>>) -> (result:
        Result<Table, StorageError>)
        ensures
            ({
                let text = encode_utf8(csv@);
                let sep = match separator {
                    Some(s) => encode_utf8(s@),
                    None => seq![guess(text)],
                };
                let lines = lines_of(text);
                let rows = csv_rows(lines, sep, floats@);
                let names = header_names(lines[0], sep);
                match result {
                    Ok(table) => {
                        &&& fits(rows, PAGE_SIZE as nat)
                        &&& table.wf()
                        &&& table.intact()
                        &&& table@.name == Seq::<char>::empty()
                        &&& table@.columns == with_columns(Seq::empty(), names)
                        &&& table@.rows == rows.map_values(|row: RecordView| Some(row))
                    },
                    Err(e) => {
                        &&& !fits(rows, PAGE_SIZE as nat)
                        &&& e is CapacityExceeded
                        &&& refusal(rows, PAGE_SIZE as nat) == Some(
                            (e->CapacityExceeded_0 as nat, e->CapacityExceeded_1 as nat),
                        )
                    },
                }
            }),
    {
        let text = csv.as_bytes();
        let mut guessed: Vec<u8> = Vec::new();
        let sep: &[u8] = match separator {
            Some(s) => s.as_bytes(),
            None => {
                guessed.push(guess_byte(text));
                assert(guessed@ =~= seq![guess(text@)]);
                guessed.as_slice()
            },
        };
        let lines = line_ranges(text);
        let ghost all_lines = lines_of(text@);
        let ghost rows = csv_rows(all_lines, sep@, floats@);
        let mut table = Table::new("");
        proof {
            reveal_strlit("");
            assert(""@ =~= Seq::<char>::empty());
        }

        let (begin, end) = lines[0];
        let head = slice_subrange(text, begin, end);
        let ghost names = header_names(head@, sep@);
        proof {
            assert(all_lines[0] == head@);
            assert(valid_utf8(head@)) by {
                encode_utf8_valid_utf8(csv@);
                lemma_lines_are_utf8(text@);
            }
            assert(valid_utf8(sep@)) by {
                match separator {
                    Some(s) => {
                        encode_utf8_valid_utf8(s@);
                    },
                    None => {
                        lemma_ascii_is_utf8(guess(text@));
                    },
                }
            }
        }
        add_header(&mut table, head, sep);
        proof {
            assert(rows.skip(0) =~= rows);
            assert(rows.take(0).map_values(|row: RecordView| Some(row)) =~= Seq::<
                Option<RecordView>,
            >::empty());
        }

        let mut i: usize = 1;
        while i < lines.len()
            invariant
                1 <= i <= lines@.len(),
                ranges_within(lines@, text@.len()),
                pieces(text@, lines@) == all_lines,
                all_lines == lines_of(text@),
                rows == csv_rows(all_lines, sep@, floats@),
                rows.len() == lines@.len() - 1,
                table.wf(),
                table.intact(),
                table@.name == Seq::<char>::empty(),
                table@.columns == with_columns(Seq::empty(), names),
                table@.rows == rows.take(i - 1).map_values(|row: RecordView| Some(row)),
                fits(rows, PAGE_SIZE as nat) == fits(rows.skip(i - 1), table.free_space()),
                refusal(rows, PAGE_SIZE as nat) == refusal(rows.skip(i - 1), table.free_space()),
            decreases lines@.len() - i,
        {
            let (begin, end) = lines[i];
            let line = slice_subrange(text, begin, end);
            let fields = split_ranges(line, sep);
            let ghost cut = split(line@, sep@);
            let ghost row = rows[i - 1];
            let free = table.available();
            proof {
                assert(all_lines[i as int] == line@);
                assert(row.columns == row_values(cut, floats@, i - 1));
                assert(rows.skip(i - 1)[0] == row);
                assert(rows.skip(i - 1).drop_first() =~= rows.skip(i as int));
                table.lemma_free_space_bound();
            }
            let mut record = Record::new(0);
            let mut j: usize = 0;
            while j < fields.len()
                invariant
                    j <= fields@.len(),
                    ranges_within(fields@, line@.len()),
                    pieces(line@, fields@) == cut,
                    row.columns == row_values(cut, floats@, i - 1),
                    record@.rowid == 0,
                    record@.columns == row.columns.take(j as int),
                    i - 1 < usize::MAX,
                    free <= PAGE_SIZE,
                    !(row.body_len() <= u64::MAX && space_needed(row) <= free) ==> !fits(
                        rows,
                        PAGE_SIZE as nat,
                    ),
                decreases fields@.len() - j,
            {
                let (from, to) = fields[j];
                let float_bits = if i - 1 < floats.len() && j < floats[i - 1].len() {
                    floats[i - 1][j]
                } else {
                    None
                };
                proof {
                    assert(cut[j as int] == line@.subrange(from as int, to as int));
                    assert(float_bits == float_at(floats@, i - 1, j as int));
                    assert(row.columns.take(j + 1) =~= row.columns.take(j as int).push(
                        row.columns[j as int],
                    ));
                }
                match Value::sniff_bytes(slice_subrange(line, from, to), float_bits) {
                    Some(value) => {
                        record.add_value(value);
                    },
                    None => {
                        proof {
                            assert(row.columns[j as int] == sniff(cut[j as int], float_bits));
                            assert(row.columns[j as int].payload == strip_quotes_spec(
                                cut[j as int],
                            ));
                            lemma_long_value_misfits(row, j as int, free as nat);
                            assert(!fits(rows.skip(i - 1), free as nat));
                            assert(refusal(rows.skip(i - 1), free as nat) == Some(
                                (usize::MAX as nat, free as nat),
                            ));
                        }
                        return Err(StorageError::CapacityExceeded(usize::MAX, free));
                    },
                }
                j = j + 1;
            }
            proof {
                assert(row.columns.take(j as int) =~= row.columns);
                assert(row == RecordView {
                    rowid: table@.rows.len() as u64,
                    columns: record@.columns,
                });
            }
            match table.add_record(record) {
                Ok(()) => {
                    proof {
                        assert(rows.take(i as int) =~= rows.take(i - 1).push(row));
                        assert(rows.take(i as int).map_values(|row: RecordView| Some(row))
                            =~= rows.take(i - 1).map_values(|row: RecordView| Some(row)).push(
                            Some(row),
                        ));
                    }
                },
                Err(e) => {
                    proof {
                        assert(!fits(rows.skip(i - 1), free as nat));
                        assert(refusal(rows.skip(i - 1), free as nat) == Some(
                            (claimed_need(row), free as nat),
                        ));
                    }
                    return Err(e);
                },
            }
            i = i + 1;
        }
        proof {
            assert(rows.take(i - 1) =~= rows);
            assert(rows.skip(i - 1).len() == 0);
        }
        Ok(table)
    }
}

} // verus!
