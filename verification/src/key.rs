//! Compound keys: tuples of values with an order, for sorting, grouping and
//! joining.
//!
//! Keys are ordered column by column. The first pair of values that is
//! ordered and not equal decides; pairs without an order are passed over.
//! Where no pair decides, the key with fewer values comes first, so that
//! every two keys are ordered.
use vstd::prelude::*;
use std::cmp::Ordering;
use vstd::std_specs::cmp::{PartialEqSpecImpl, PartialOrdSpecImpl};
use crate::compare::{flip, lemma_value_order_flips, value_order};
use crate::seqs::{lemma_tail_ends, lemma_tail_step, tail};
use crate::value::{views, Value, ValueView};

verus! {

/// The order of two keys given by their values.
pub open spec fn key_order(a: Seq<ValueView>, b: Seq<ValueView>) -> Ordering
    decreases a.len(),
{
    if a.len() == 0 {
        if b.len() == 0 {
            Ordering::Equal
        } else {
            Ordering::Less
        }
    } else if b.len() == 0 {
        Ordering::Greater
    } else {
        match value_order(a[0], b[0]) {
            Some(Ordering::Less) => Ordering::Less,
            Some(Ordering::Greater) => Ordering::Greater,
            _ => key_order(a.drop_first(), b.drop_first()),
        }
    }
}

/// Two keys read the other way round are in the flipped order: where one
/// comes first, the other comes last.
pub proof fn lemma_key_order_flips(a: Seq<ValueView>, b: Seq<ValueView>)
    ensures
        key_order(b, a) == flip(key_order(a, b)),
    decreases a.len(),
{
    if a.len() > 0 && b.len() > 0 {
        lemma_value_order_flips(a[0], b[0]);
        lemma_key_order_flips(a.drop_first(), b.drop_first());
    }
}

/// The values of two keys are ordered, place by place, as far as both keys
/// reach.
pub open spec fn ordered_values(a: Seq<ValueView>, b: Seq<ValueView>) -> bool {
    forall|i: int|
        0 <= i < a.len() && i < b.len() ==> (#[trigger] value_order(a[i], b[i])) is Some
}

/// On keys whose values are ordered, the order of keys is transitive: a key
/// that comes no later than a second, which comes no later than a third,
/// comes no later than the third, and before it where one of the two steps
/// is a step forward. With `lemma_key_order_flips` this makes the order of
/// such keys a total order.
pub proof fn lemma_key_order_transitive(a: Seq<ValueView>, b: Seq<ValueView>, c: Seq<ValueView>)
    requires
        ordered_values(a, b),
        ordered_values(b, c),
        key_order(a, b) != Ordering::Greater,
        key_order(b, c) != Ordering::Greater,
    ensures
        key_order(a, c) != Ordering::Greater,
        key_order(a, b) == Ordering::Less || key_order(b, c) == Ordering::Less ==> key_order(a, c)
            == Ordering::Less,
    decreases a.len(),
{
    if a.len() > 0 && b.len() > 0 && c.len() > 0 {
        assert(value_order(a[0], b[0]) is Some);
        assert(value_order(b[0], c[0]) is Some);
        crate::compare::lemma_value_order_transitive(a[0], b[0], c[0]);
        if value_order(a[0], b[0]) == Some(Ordering::Equal) && value_order(b[0], c[0]) == Some(
            Ordering::Equal,
        ) {
            let (x, y, z) = (a.drop_first(), b.drop_first(), c.drop_first());
            assert forall|i: int| 0 <= i < x.len() && i < y.len() implies (#[trigger] value_order(
                x[i],
                y[i],
            )) is Some by {
                assert(value_order(a[i + 1], b[i + 1]) is Some);
            }
            assert forall|i: int| 0 <= i < y.len() && i < z.len() implies (#[trigger] value_order(
                y[i],
                z[i],
            )) is Some by {
                assert(value_order(b[i + 1], c[i + 1]) is Some);
            }
            lemma_key_order_transitive(x, y, z);
        }
    }
}

/// A key that is the beginning of a longer key comes before it.
pub proof fn lemma_prefix_comes_first(a: Seq<ValueView>, b: Seq<ValueView>)
    requires
        a.len() < b.len(),
        forall|i: int|
            0 <= i < a.len() ==> value_order(#[trigger] a[i], b[i]) == Some(Ordering::Equal),
    ensures
        key_order(a, b) == Ordering::Less,
    decreases a.len(),
{
    if a.len() > 0 {
        assert(value_order(a[0], b[0]) == Some(Ordering::Equal));
        assert forall|i: int| 0 <= i < a.drop_first().len() implies value_order(
            #[trigger] a.drop_first()[i],
            b.drop_first()[i],
        ) == Some(Ordering::Equal) by {
            assert(value_order(a[i + 1], b[i + 1]) == Some(Ordering::Equal));
        }
        lemma_prefix_comes_first(a.drop_first(), b.drop_first());
    }
}

/// `n` as a signed 64-bit number in two's complement: `n` itself up to the
/// largest such number, and `n - 2^64` above it.
pub open spec fn wrapped(n: usize) -> int {
    if n <= i64::MAX {
        n as int
    } else {
        n - 0x1_0000_0000_0000_0000
    }
}

/// A tuple of values to order rows by.
#[derive(Debug)]
pub struct Key {
    values: Vec<Value>,
}

impl View for Key {
    type V = Seq<ValueView>;

    closed spec fn view(&self) -> Seq<ValueView> {
        views(self.values@)
    }
}

impl Key {
    /// The key of one integer: `integer` as a signed 64-bit number. A
    /// number above the largest of those wraps around to a negative one.
    pub fn integer(integer: usize) -> (key: Key)
        ensures
            key@ == seq![crate::value::int_view(wrapped(integer))],
    {
        let number: i64 = if integer as u64 <= 0x7fff_ffff_ffff_ffff {
            integer as i64
        } else {
            (integer as u64 - 0x8000_0000_0000_0000) as i64 + i64::MIN
        };
        let mut values: Vec<Value> = Vec::new();
        values.push(Value::from_i64(number));
        let key = Key { values };
        assert(key@ =~= seq![crate::value::int_view(wrapped(integer))]);
        key
    }

    /// The key of the given values, in their order.
    pub fn compound(keys: Vec<Value>) -> (key: Key)
        ensures
            key@ == views(keys@),
    {
        Key { values: keys }
    }

    /// Number of values in the key.
    pub fn arity(&self) -> (n: usize)
        ensures
            n == self@.len(),
    {
        self.values.len()
    }

    /// The order of this key and another.
    pub fn compare(&self, other: &Key) -> (o: Ordering)
        ensures
            o == key_order(self@, other@),
    {
        let mut i: usize = 0;
        proof {
            lemma_tail_ends(self@, 0);
            lemma_tail_ends(other@, 0);
        }
        while i < self.values.len() && i < other.values.len()
            invariant
                i <= self@.len(),
                i <= other@.len(),
                self@ == views(self.values@),
                other@ == views(other.values@),
                key_order(self@, other@) == key_order(tail(self@, i), tail(other@, i)),
            decreases self@.len() - i,
        {
            proof {
                lemma_tail_step(self@, i);
                lemma_tail_step(other@, i);
            }
            match self.values[i].compare(&other.values[i]) {
                Some(Ordering::Less) => {
                    return Ordering::Less;
                },
                Some(Ordering::Greater) => {
                    return Ordering::Greater;
                },
                _ => {},
            }
            i = i + 1;
        }
        proof {
            lemma_tail_ends(self@, i);
            lemma_tail_ends(other@, i);
        }
        if i < other.values.len() {
            Ordering::Less
        } else if i < self.values.len() {
            Ordering::Greater
        } else {
            Ordering::Equal
        }
    }

    /// Whether the two keys have the same values: as many, and each with
    /// the tag and the bytes of its counterpart.
    pub fn same(&self, other: &Key) -> (equal: bool)
        ensures
            equal == (self@ == other@),
    {
        if self.values.len() != other.values.len() {
            return false;
        }
        let mut i: usize = 0;
        while i < self.values.len()
            invariant
                i <= self@.len(),
                self@.len() == other@.len(),
                self@ == views(self.values@),
                other@ == views(other.values@),
                forall|j: int| 0 <= j < i ==> self@[j] == other@[j],
            decreases self@.len() - i,
        {
            if self.values[i] != other.values[i] {
                proof {
                    assert(self@[i as int] == self.values@[i as int]@);
                    assert(other@[i as int] == other.values@[i as int]@);
                }
                return false;
            }
            proof {
                assert(self@[i as int] == self.values@[i as int]@);
                assert(other@[i as int] == other.values@[i as int]@);
            }
            i = i + 1;
        }
        assert(self@ =~= other@);
        true
    }
}

impl PartialEq for Key {
    fn eq(&self, other: &Key) -> (equal: bool) {
        self.same(other)
    }
}

impl PartialEqSpecImpl for Key {
    open spec fn obeys_eq_spec() -> bool {
        true
    }

    open spec fn eq_spec(&self, other: &Key) -> bool {
        self@ == other@
    }
}

impl PartialOrd for Key {
    fn partial_cmp(&self, other: &Key) -> (o: Option<Ordering>) {
        Some(self.compare(other))
    }
}

impl PartialOrdSpecImpl for Key {
    open spec fn obeys_partial_cmp_spec() -> bool {
        true
    }

    open spec fn partial_cmp_spec(&self, other: &Key) -> Option<Ordering> {
        Some(key_order(self@, other@))
    }
}

} // verus!
