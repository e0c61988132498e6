//! Equality and order of values.
//!
//! Two values are equal when their tags and their bytes are. Order is
//! another matter: only values of one kind are ordered. Integers go by the
//! number they hold, floats by IEEE-754 order on their bits, texts byte by
//! byte. A null, a blob, a NaN, and two values of different kinds have no
//! order; an integer and a float are of different kinds.
use vstd::prelude::*;
use std::cmp::Ordering;
use vstd::std_specs::cmp::{PartialEqSpecImpl, PartialOrdSpecImpl};
use crate::seqs::{lemma_tail_ends, lemma_tail_step, tail};
use crate::value::{float_is_nan, float_place, float_rank, Datatype, Value, ValueView};

verus! {

/// The order of two integers.
pub open spec fn int_order(a: int, b: int) -> Ordering {
    if a < b {
        Ordering::Less
    } else if a == b {
        Ordering::Equal
    } else {
        Ordering::Greater
    }
}

/// The other way round.
pub open spec fn flip(o: Ordering) -> Ordering {
    match o {
        Ordering::Less => Ordering::Greater,
        Ordering::Equal => Ordering::Equal,
        Ordering::Greater => Ordering::Less,
    }
}

/// Lexicographic order of two byte strings: the first byte that differs
/// decides; where none does, the shorter string comes first.
pub open spec fn lex_order(a: Seq<u8>, b: Seq<u8>) -> Ordering
    decreases a.len(),
{
    if a.len() == 0 {
        if b.len() == 0 {
            Ordering::Equal
        } else {
            Ordering::Less
        }
    } else if b.len() == 0 {
        Ordering::Greater
    } else if a[0] < b[0] {
        Ordering::Less
    } else if a[0] > b[0] {
        Ordering::Greater
    } else {
        lex_order(a.drop_first(), b.drop_first())
    }
}

/// The order of two floats given by their bits; `None` where one is a NaN.
pub open spec fn float_order(a: u64, b: u64) -> Option<Ordering> {
    if float_is_nan(a) || float_is_nan(b) {
        None
    } else {
        Some(int_order(float_rank(a), float_rank(b)))
    }
}

/// The order of two well-formed values; `None` where they have none.
pub open spec fn value_order(a: ValueView, b: ValueView) -> Option<Ordering> {
    if a.integer() is Some && b.integer() is Some {
        Some(int_order(a.integer().unwrap(), b.integer().unwrap()))
    } else if a.float_bits() is Some && b.float_bits() is Some {
        float_order(a.float_bits().unwrap(), b.float_bits().unwrap())
    } else if a.datatype() == Datatype::Text && b.datatype() == Datatype::Text {
        Some(lex_order(a.payload, b.payload))
    } else {
        None
    }
}

/// Lexicographic order read the other way round is the flipped order.
pub proof fn lemma_lex_order_flips(a: Seq<u8>, b: Seq<u8>)
    ensures
        lex_order(b, a) == flip(lex_order(a, b)),
    decreases a.len(),
{
    if a.len() > 0 && b.len() > 0 && a[0] == b[0] {
        lemma_lex_order_flips(a.drop_first(), b.drop_first());
    }
}

/// Two byte strings are in the order `Equal` exactly when they are equal.
pub proof fn lemma_lex_order_equal(a: Seq<u8>, b: Seq<u8>)
    ensures
        lex_order(a, b) == Ordering::Equal <==> a == b,
    decreases a.len(),
{
    if a.len() > 0 && b.len() > 0 {
        lemma_lex_order_equal(a.drop_first(), b.drop_first());
        if a[0] == b[0] && a.drop_first() == b.drop_first() {
            assert(a =~= seq![a[0]] + a.drop_first());
            assert(b =~= seq![b[0]] + b.drop_first());
        }
    } else if a.len() == 0 && b.len() == 0 {
        assert(a =~= b);
    }
}

/// Lexicographic order is transitive.
pub proof fn lemma_lex_order_transitive(a: Seq<u8>, b: Seq<u8>, c: Seq<u8>)
    requires
        lex_order(a, b) != Ordering::Greater,
        lex_order(b, c) != Ordering::Greater,
    ensures
        lex_order(a, c) != Ordering::Greater,
        lex_order(a, b) == Ordering::Less || lex_order(b, c) == Ordering::Less ==> lex_order(a, c)
            == Ordering::Less,
    decreases a.len(),
{
    if a.len() > 0 && b.len() > 0 && c.len() > 0 && a[0] == b[0] && b[0] == c[0] {
        lemma_lex_order_transitive(a.drop_first(), b.drop_first(), c.drop_first());
    }
}

/// Where `a` comes before `b`, `b` comes after `a`, and the other way
/// round; where one has no order, the other has none.
pub proof fn lemma_value_order_flips(a: ValueView, b: ValueView)
    ensures
        value_order(b, a) == match value_order(a, b) {
            Some(o) => Some(flip(o)),
            None => None,
        },
{
    lemma_lex_order_flips(a.payload, b.payload);
}

/// Within what is ordered, the order of values is transitive.
pub proof fn lemma_value_order_transitive(a: ValueView, b: ValueView, c: ValueView)
    requires
        value_order(a, b) is Some,
        value_order(b, c) is Some,
        value_order(a, b) != Some(Ordering::Greater),
        value_order(b, c) != Some(Ordering::Greater),
    ensures
        value_order(a, c) is Some,
        value_order(a, c) != Some(Ordering::Greater),
        value_order(a, b) == Some(Ordering::Less) || value_order(b, c) == Some(Ordering::Less)
            ==> value_order(a, c) == Some(Ordering::Less),
{
    if a.integer() is None && a.float_bits() is None {
        lemma_lex_order_transitive(a.payload, b.payload, c.payload);
    }
}

/// Lexicographic order of two byte strings.
pub fn compare_bytes(a: &[u8], b: &[u8]) -> (o: Ordering)
    ensures
        o == lex_order(a@, b@),
{
    let mut i: usize = 0;
    proof {
        lemma_tail_ends(a@, 0);
        lemma_tail_ends(b@, 0);
    }
    while i < a.len() && i < b.len()
        invariant
            i <= a@.len(),
            i <= b@.len(),
            lex_order(a@, b@) == lex_order(tail(a@, i), tail(b@, i)),
        decreases a@.len() - i,
    {
        proof {
            lemma_tail_step(a@, i);
            lemma_tail_step(b@, i);
        }
        if a[i] < b[i] {
            return Ordering::Less;
        }
        if a[i] > b[i] {
            return Ordering::Greater;
        }
        i = i + 1;
    }
    proof {
        lemma_tail_ends(a@, i);
        lemma_tail_ends(b@, i);
    }
    if i < b.len() {
        Ordering::Less
    } else if i < a.len() {
        Ordering::Greater
    } else {
        Ordering::Equal
    }
}

/// Whether two byte strings are equal.
pub fn bytes_equal(a: &[u8], b: &[u8]) -> (equal: bool)
    ensures
        equal == (a@ == b@),
{
    proof {
        lemma_lex_order_equal(a@, b@);
    }
    match compare_bytes(a, b) {
        Ordering::Equal => true,
        _ => false,
    }
}

/// The order of two integers.
fn order_of(a: i128, b: i128) -> (o: Ordering)
    ensures
        o == int_order(a + 0, b + 0),
{
    if a < b {
        Ordering::Less
    } else if a == b {
        Ordering::Equal
    } else {
        Ordering::Greater
    }
}

/// The order of two integer values; `None` where one is no integer.
fn integer_order(l: &Value, r: &Value) -> (o: Option<Ordering>)
    ensures
        o == if l@.integer() is Some && r@.integer() is Some {
            Some(int_order(l@.integer().unwrap(), r@.integer().unwrap()))
        } else {
            None
        },
{
    match l.as_i64() {
        Some(x) => match r.as_i64() {
            Some(y) => Some(order_of(x.into(), y.into())),
            None => None,
        },
        None => None,
    }
}

impl Value {
    /// The order of this value and another; `None` where they have none.
    pub fn compare(&self, other: &Value) -> (o: Option<Ordering>)
        ensures
            o == value_order(self@, other@),
    {
        match self.datatype() {
            Datatype::Integer => integer_order(self, other),
            Datatype::Float => match (self.float_bits(), other.float_bits()) {
                (Some(x), Some(y)) => {
                    let (rank_x, nan_x) = float_place(x);
                    let (rank_y, nan_y) = float_place(y);
                    if nan_x || nan_y {
                        None
                    } else {
                        Some(order_of(rank_x, rank_y))
                    }
                },
                _ => None,
            },
            Datatype::Text => match other.datatype() {
                Datatype::Text => Some(
                    compare_bytes(self.payload().as_slice(), other.payload().as_slice()),
                ),
                _ => None,
            },
            Datatype::Blob => None,
            Datatype::Null => None,
        }
    }
}

impl PartialEq for Value {
    fn eq(&self, other: &Value) -> (equal: bool) {
        self.tag() == other.tag() && bytes_equal(
            self.payload().as_slice(),
            other.payload().as_slice(),
        )
    }
}

impl PartialEqSpecImpl for Value {
    open spec fn obeys_eq_spec() -> bool {
        true
    }

    open spec fn eq_spec(&self, other: &Value) -> bool {
        self@.tag == other@.tag && self@.payload == other@.payload
    }
}

impl PartialOrd for Value {
    fn partial_cmp(&self, other: &Value) -> (o: Option<Ordering>) {
        self.compare(other)
    }
}

impl PartialOrdSpecImpl for Value {
    open spec fn obeys_partial_cmp_spec() -> bool {
        true
    }

    open spec fn partial_cmp_spec(&self, other: &Value) -> Option<Ordering> {
        value_order(self@, other@)
    }
}

} // verus!
