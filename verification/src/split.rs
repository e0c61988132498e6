//! Cutting byte strings at separators.
//!
//! Text is handled as its UTF-8 bytes. A separator that is UTF-8 itself
//! never matches inside the encoding of another character, so text that is
//! cut at such a separator is made of pieces that are text again.
use vstd::prelude::*;
use vstd::utf8::{
    is_char_boundary, is_char_boundary_iff_not_is_continuation_byte,
    is_char_boundary_start_end_of_seq, is_continuation_byte, length_of_first_scalar,
    pop_first_scalar, valid_first_scalar, valid_utf8, valid_utf8_split,
};

verus! {

/// The first place at or after `from` where `sep` lies in `s`.
pub open spec fn find(s: Seq<u8>, sep: Seq<u8>, from: int) -> Option<int>
    decreases s.len() - from + 1,
{
    if from < 0 || from + sep.len() > s.len() {
        None
    } else if s.subrange(from, from + sep.len()) == sep {
        Some(from)
    } else {
        find(s, sep, from + 1)
    }
}

/// The pieces of `s` between the places where `sep` lies, from left to
/// right; a place that overlaps an earlier one does not count. There is one
/// piece more than there are such places, and pieces may be empty. An empty
/// separator cuts nowhere.
pub open spec fn split(s: Seq<u8>, sep: Seq<u8>) -> Seq<Seq<u8>>
    decreases s.len(),
{
    if sep.len() == 0 {
        seq![s]
    } else {
        match find(s, sep, 0) {
            None => seq![s],
            Some(at) => {
                proof {
                    lemma_find_bounds(s, sep, 0);
                }
                seq![s.take(at)] + split(s.skip(at + sep.len()), sep)
            },
        }
    }
}

/// Number of times that `b` occurs in `s`.
pub open spec fn count(s: Seq<u8>, b: u8) -> nat
    decreases s.len(),
{
    if s.len() == 0 {
        0
    } else {
        count(s.drop_last(), b) + if s.last() == b { 1nat } else { 0nat }
    }
}

/// The pieces, with the separator between each two of them.
pub open spec fn join(parts: Seq<Seq<u8>>, sep: Seq<u8>) -> Seq<u8>
    decreases parts.len(),
{
    if parts.len() == 0 {
        Seq::empty()
    } else if parts.len() == 1 {
        parts[0]
    } else {
        parts[0] + sep + join(parts.drop_first(), sep)
    }
}

/// Cutting loses nothing: the pieces, joined by the separator, are the
/// string that was cut.
pub proof fn lemma_join_split(s: Seq<u8>, sep: Seq<u8>)
    ensures
        split(s, sep).len() >= 1,
        join(split(s, sep), sep) == s,
    decreases s.len(),
{
    if sep.len() > 0 {
        lemma_find_bounds(s, sep, 0);
        match find(s, sep, 0) {
            None => {},
            Some(at) => {
                let rest = s.skip(at + sep.len());
                lemma_join_split(rest, sep);
                let parts = seq![s.take(at)] + split(rest, sep);
                assert(parts[0] == s.take(at));
                assert(parts.drop_first() =~= split(rest, sep));
                assert(s.take(at) + sep + rest =~= s);
            },
        }
    }
}

/// A place where UTF-8 bytes may be cut: the end, or a byte that begins a
/// character.
pub open spec fn cut_point(s: Seq<u8>, i: int) -> bool {
    0 <= i <= s.len() && (i < s.len() ==> !is_continuation_byte(s[i]))
}

/// In UTF-8 bytes the cut points are the character boundaries.
pub proof fn lemma_cut_point_is_boundary(s: Seq<u8>, i: int)
    requires
        valid_utf8(s),
        0 <= i <= s.len(),
    ensures
        cut_point(s, i) <==> is_char_boundary(s, i),
{
    if i < s.len() {
        is_char_boundary_iff_not_is_continuation_byte(s, i);
    } else {
        is_char_boundary_start_end_of_seq(s);
    }
}

/// What lies between two cut points of UTF-8 bytes is UTF-8.
pub proof fn lemma_piece_is_utf8(s: Seq<u8>, a: int, b: int)
    requires
        valid_utf8(s),
        a <= b,
        cut_point(s, a),
        cut_point(s, b),
    ensures
        valid_utf8(s.subrange(a, b)),
{
    lemma_cut_point_is_boundary(s, b);
    valid_utf8_split(s, b);
    let front = s.subrange(0, b);
    assert(cut_point(front, a)) by {
        if a < b {
            assert(front[a] == s[a]);
        }
    }
    lemma_cut_point_is_boundary(front, a);
    valid_utf8_split(front, a);
    assert(front.subrange(a, front.len() as int) =~= s.subrange(a, b));
}

/// Where UTF-8 bytes begin with other UTF-8 bytes, those end at a character
/// boundary.
proof fn lemma_prefix_ends_at_boundary(s: Seq<u8>, prefix: Seq<u8>)
    requires
        valid_utf8(s),
        valid_utf8(prefix),
        prefix.len() <= s.len(),
        s.subrange(0, prefix.len() as int) == prefix,
    ensures
        is_char_boundary(s, prefix.len() as int),
    decreases prefix.len(),
{
    if prefix.len() > 0 {
        assert(s[0] == s.subrange(0, prefix.len() as int)[0]);
        let len = length_of_first_scalar(prefix);
        assert(valid_first_scalar(prefix));
        assert(valid_first_scalar(s));
        assert(len == length_of_first_scalar(s));
        assert(1 <= len <= prefix.len());
        let rest = pop_first_scalar(s);
        let behind = pop_first_scalar(prefix);
        assert(rest.subrange(0, behind.len() as int) =~= behind) by {
            assert forall|j: int| 0 <= j < behind.len() implies rest[j] == behind[j] by {
                assert(s[len + j] == s.subrange(0, prefix.len() as int)[len + j]);
            }
        }
        lemma_prefix_ends_at_boundary(rest, behind);
        reveal_with_fuel(is_char_boundary, 2);
    }
}

/// Where a separator that is UTF-8 lies in UTF-8 bytes, it begins and ends
/// at cut points.
pub proof fn lemma_separator_at_cut_points(s: Seq<u8>, sep: Seq<u8>, at: int)
    requires
        valid_utf8(s),
        valid_utf8(sep),
        sep.len() > 0,
        0 <= at,
        at + sep.len() <= s.len(),
        s.subrange(at, at + sep.len()) == sep,
    ensures
        cut_point(s, at),
        cut_point(s, at + sep.len()),
{
    assert(s[at] == s.subrange(at, at + sep.len())[0]);
    lemma_cut_point_is_boundary(sep, 0);
    assert(cut_point(s, at));
    lemma_piece_is_utf8(s, at, s.len() as int);
    let tail = s.subrange(at, s.len() as int);
    assert(tail.subrange(0, sep.len() as int) =~= sep);
    lemma_prefix_ends_at_boundary(tail, sep);
    lemma_cut_point_is_boundary(tail, sep.len() as int);
    if at + sep.len() < s.len() {
        assert(tail[sep.len() as int] == s[at + sep.len()]);
    }
}

/// The pieces of UTF-8 bytes that are cut at a separator that is UTF-8 are
/// UTF-8.
pub proof fn lemma_split_is_utf8(s: Seq<u8>, sep: Seq<u8>)
    requires
        valid_utf8(s),
        valid_utf8(sep),
    ensures
        forall|k: int| 0 <= k < split(s, sep).len() ==> valid_utf8(#[trigger] split(s, sep)[k]),
    decreases s.len(),
{
    if sep.len() > 0 {
        lemma_find_bounds(s, sep, 0);
        match find(s, sep, 0) {
            None => {},
            Some(at) => {
                lemma_separator_at_cut_points(s, sep, at);
                lemma_piece_is_utf8(s, 0, at);
                lemma_piece_is_utf8(s, at + sep.len(), s.len() as int);
                let first = s.take(at);
                let rest = s.skip(at + sep.len());
                assert(first =~= s.subrange(0, at));
                assert(rest =~= s.subrange(at + sep.len(), s.len() as int));
                lemma_split_is_utf8(rest, sep);
                let parts = seq![first] + split(rest, sep);
                assert forall|k: int| 0 <= k < parts.len() implies valid_utf8(
                    #[trigger] parts[k],
                ) by {
                    if k > 0 {
                        assert(parts[k] == split(rest, sep)[k - 1]);
                    }
                }
            },
        }
    }
}

/// One ASCII byte is UTF-8.
pub proof fn lemma_ascii_is_utf8(b: u8)
    requires
        b < 128,
    ensures
        valid_utf8(seq![b]),
{
    let s = seq![b];
    assert(pop_first_scalar(s) =~= Seq::<u8>::empty());
    reveal_with_fuel(valid_utf8, 2);
    vstd::utf8::utf8_byte_ranges_bitwise(b);
}

/// Where `find` finds the separator, it lies there, within `s`.
pub proof fn lemma_find_bounds(s: Seq<u8>, sep: Seq<u8>, from: int)
    ensures
        find(s, sep, from) matches Some(at) ==> from <= at && at + sep.len() <= s.len()
            && s.subrange(at, at + sep.len()) == sep,
    decreases s.len() - from + 1,
{
    if !(from < 0 || from + sep.len() > s.len()) && s.subrange(from, from + sep.len()) != sep {
        lemma_find_bounds(s, sep, from + 1);
    }
}

/// Whether `sep` lies in `s` at `at`.
pub fn matches_at(s: &[u8], at: usize, sep: &[u8]) -> (found: bool)
    requires
        at + sep@.len() <= s@.len(),
    ensures
        found == (s@.subrange(at as int, at + sep@.len()) == sep@),
{
    let mut j: usize = 0;
    let len = s.len();
    while j < sep.len()
        invariant
            j <= sep@.len(),
            at + sep@.len() <= s@.len(),
            s@.len() == len,
            forall|k: int| 0 <= k < j ==> s@[at + k] == sep@[k],
        decreases sep@.len() - j,
    {
        if s[at + j] != sep[j] {
            assert(s@.subrange(at as int, at + sep@.len())[j as int] != sep@[j as int]);
            return false;
        }
        j = j + 1;
    }
    assert(s@.subrange(at as int, at + sep@.len()) =~= sep@);
    true
}

/// The pieces that the given ranges cut out of `s`.
pub open spec fn pieces(s: Seq<u8>, ranges: Seq<(usize, usize)>) -> Seq<Seq<u8>> {
    Seq::new(ranges.len(), |k: int| s.subrange(ranges[k].0 as int, ranges[k].1 as int))
}

/// Every range lies within a string of length `len`.
pub open spec fn ranges_within(ranges: Seq<(usize, usize)>, len: nat) -> bool {
    forall|k: int| 0 <= k < ranges.len() ==> (#[trigger] ranges[k]).0 <= ranges[k].1 <= len
}

/// Cuts `s` at the separator: the ranges of the pieces, begin and end, from
/// left to right.
pub fn split_ranges(s: &[u8], sep: &[u8]) -> (ranges: Vec<(usize, usize)>)
    ensures
        ranges_within(ranges@, s@.len()),
        pieces(s@, ranges@) == split(s@, sep@),
        ranges@.len() >= 1,
{
    let mut ranges: Vec<(usize, usize)> = Vec::new();
    let len = s.len();
    let width = sep.len();
    if width == 0 || width > len {
        ranges.push((0, len));
        proof {
            assert(s@.subrange(0, len as int) =~= s@);
            assert(pieces(s@, ranges@) =~= seq![s@]);
        }
        return ranges;
    }
    let mut start: usize = 0;
    let mut i: usize = 0;
    proof {
        assert(s@.skip(0) =~= s@);
        assert(pieces(s@, ranges@) =~= Seq::empty());
        assert(Seq::<Seq<u8>>::empty() + split(s@, sep@) =~= split(s@, sep@));
    }
    while i <= len - width
        invariant
            len == s@.len(),
            width == sep@.len(),
            0 < width <= len,
            start <= i <= len,
            ranges_within(ranges@, s@.len()),
            split(s@, sep@) == pieces(s@, ranges@) + split(s@.skip(start as int), sep@),
            find(s@.skip(start as int), sep@, 0) == find(s@.skip(start as int), sep@, i - start),
        decreases len - i,
    {
        let ghost rest = s@.skip(start as int);
        proof {
            assert(rest.subrange(i - start, i - start + width) =~= s@.subrange(
                i as int,
                i + width,
            ));
        }
        if matches_at(s, i, sep) {
            proof {
                assert(find(rest, sep@, 0) == Some(i - start));
                assert(rest.take(i - start) =~= s@.subrange(start as int, i as int));
                assert(rest.skip(i - start + width) =~= s@.skip(i + width));
                let grown = ranges@.push((start, i));
                assert(pieces(s@, grown) =~= pieces(s@, ranges@) + seq![
                    s@.subrange(start as int, i as int),
                ]);
                assert(split(s@, sep@) =~= pieces(s@, grown) + split(s@.skip(i + width), sep@));
                assert(s@.skip(i + width).skip(0) =~= s@.skip(i + width));
            }
            ranges.push((start, i));
            i = i + width;
            start = i;
        } else {
            i = i + 1;
        }
    }
    proof {
        let rest = s@.skip(start as int);
        assert(find(rest, sep@, i - start) is None);
        assert(rest =~= s@.subrange(start as int, len as int));
        let grown = ranges@.push((start, len));
        assert(pieces(s@, grown) =~= pieces(s@, ranges@) + seq![rest]);
    }
    ranges.push((start, len));
    ranges
}

/// Number of times that `b` occurs in `s`.
pub fn count_byte(s: &[u8], b: u8) -> (n: usize)
    ensures
        n == count(s@, b),
{
    let mut n: usize = 0;
    let mut i: usize = 0;
    while i < s.len()
        invariant
            i <= s@.len(),
            n == count(s@.take(i as int), b),
            n <= i,
        decreases s@.len() - i,
    {
        proof {
            assert(s@.take(i + 1).drop_last() =~= s@.take(i as int));
        }
        if s[i] == b {
            n = n + 1;
        }
        i = i + 1;
    }
    assert(s@.take(i as int) =~= s@);
    n
}

} // verus!
