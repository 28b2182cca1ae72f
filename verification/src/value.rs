//! The canonical value model that every front matter format is parsed into.

use vstd::prelude::*;
use crate::object::unique_keys;

verus! {

/// A number of the canonical model.
///
/// Integers are held exactly. A float is held as the bit pattern of its
/// IEEE 754 binary64 encoding.
#[derive(Debug, Clone, Copy, PartialEq, Eq)]
pub enum Number {
    /// An integer that is zero or greater.
    PosInt(u64),
    /// An integer below zero.
    NegInt(i64),
    /// A finite float, as its bit pattern.
    Float(u64),
}

/// The mask of the exponent bits of a binary64 bit pattern.
pub const EXPONENT_MASK: u64 = 0x7ff0_0000_0000_0000;

/// Whether a binary64 bit pattern encodes a finite number: neither an
/// infinity nor a NaN, which are the patterns whose exponent bits are all set.
pub open spec fn is_finite_bits(bits: u64) -> bool {
    bits & EXPONENT_MASK != EXPONENT_MASK
}

impl Number {
    /// The invariant of a number: a `NegInt` is negative and a `Float` is
    /// finite, so that every number has one representation.
    pub open spec fn wf(self) -> bool {
        match self {
            Number::PosInt(_) => true,
            Number::NegInt(i) => i < 0,
            Number::Float(bits) => is_finite_bits(bits),
        }
    }

    /// The number that holds the integer `i`.
    pub open spec fn of_int(i: i64) -> Number {
        if i < 0 {
            Number::NegInt(i)
        } else {
            Number::PosInt(i as u64)
        }
    }

    /// Makes the number that holds the integer `i`.
    pub fn from_integer(i: i64) -> (r: Number)
        ensures
            r == Number::of_int(i),
            r.wf(),
    {
        if i < 0 {
            Number::NegInt(i)
        } else {
            Number::PosInt(i as u64)
        }
    }

    /// Makes the number that holds the float with the given bit pattern,
    /// if that float is finite.
    pub fn from_float_bits(bits: u64) -> (r: Option<Number>)
        ensures
            r == if is_finite_bits(bits) {
                Some(Number::Float(bits))
            } else {
                None
            },
            r matches Some(n) ==> n.wf(),
    {
        if bits & EXPONENT_MASK != EXPONENT_MASK {
            Some(Number::Float(bits))
        } else {
            None
        }
    }
}

/// A canonical value: null, a boolean, a number, a string, an array of
/// values, or an object.
///
/// An object is the sequence of its entries in insertion order.
#[derive(Debug, PartialEq, Eq)]
pub enum CanonicalValue {
    Null,
    Bool(bool),
    Number(Number),
    String(String),
    Array(Vec<CanonicalValue>),
    Object(Vec<Member>),
}

/// One entry of an object: a key and the value bound to it.
#[derive(Debug, PartialEq, Eq)]
pub struct Member {
    pub key: String,
    pub value: CanonicalValue,
}

/// The mathematical model of a [`CanonicalValue`].
pub enum ValueModel {
    Null,
    Bool(bool),
    Number(Number),
    String(Seq<char>),
    Array(Seq<ValueModel>),
    Object(Seq<(Seq<char>, ValueModel)>),
}

impl ValueModel {
    /// The invariant of a value: every number in it is well formed, and no
    /// object in it has two entries under one key.
    pub open spec fn wf(self) -> bool
        decreases self,
    {
        match self {
            ValueModel::Number(n) => n.wf(),
            ValueModel::Array(items) => forall|i: int|
                0 <= i < items.len() ==> (#[trigger] items[i]).wf(),
            ValueModel::Object(entries) => unique_keys(entries) && forall|i: int|
                0 <= i < entries.len() ==> (#[trigger] entries[i]).1.wf(),
            _ => true,
        }
    }

    /// Whether the value is an object with at least one entry.
    pub open spec fn is_nonempty_object(self) -> bool {
        self matches ValueModel::Object(entries) && entries.len() > 0
    }
}

/// The model of a value.
pub open spec fn value_model(value: CanonicalValue) -> ValueModel
    decreases value,
{
    match value {
        CanonicalValue::Null => ValueModel::Null,
        CanonicalValue::Bool(b) => ValueModel::Bool(b),
        CanonicalValue::Number(n) => ValueModel::Number(n),
        CanonicalValue::String(s) => ValueModel::String(s@),
        CanonicalValue::Array(items) => ValueModel::Array(
            Seq::new(
                items@.len(),
                |i: int|
                    if 0 <= i < items@.len() {
                        value_model(items@[i])
                    } else {
                        ValueModel::Null
                    },
            ),
        ),
        CanonicalValue::Object(entries) => ValueModel::Object(
            Seq::new(
                entries@.len(),
                |i: int|
                    if 0 <= i < entries@.len() {
                        (entries@[i].key@, value_model(entries@[i].value))
                    } else {
                        (Seq::empty(), ValueModel::Null)
                    },
            ),
        ),
    }
}

impl View for CanonicalValue {
    type V = ValueModel;

    open spec fn view(&self) -> ValueModel {
        value_model(*self)
    }
}

impl CanonicalValue {
    /// The invariant of a value, which is that of its model.
    pub open spec fn wf(&self) -> bool {
        self@.wf()
    }

    /// Whether the value is an object with at least one entry.
    pub fn is_nonempty_object(&self) -> (r: bool)
        ensures
            r == self@.is_nonempty_object(),
    {
        match self {
            CanonicalValue::Object(entries) => {
                proof {
                    lemma_view_of_collection(*self);
                }
                entries.len() > 0
            },
            _ => false,
        }
    }
}

/// A copy of the value.
pub fn duplicate(value: &CanonicalValue) -> (r: CanonicalValue)
    ensures
        r@ == value@,
    decreases value,
{
    match value {
        CanonicalValue::Null => CanonicalValue::Null,
        CanonicalValue::Bool(b) => CanonicalValue::Bool(*b),
        CanonicalValue::Number(n) => CanonicalValue::Number(*n),
        CanonicalValue::String(text) => CanonicalValue::String(text.clone()),
        CanonicalValue::Array(items) => {
            let mut copies: Vec<CanonicalValue> = Vec::new();
            let mut i: usize = 0;
            while i < items.len()
                invariant
                    value is Array && value->Array_0 == *items,
                    i <= items.len(),
                    copies.len() == i,
                    forall|j: int| 0 <= j < i ==> copies[j]@ == items[j]@,
                decreases items.len() - i,
            {
                copies.push(duplicate(&items[i]));
                i += 1;
            }
            let r = CanonicalValue::Array(copies);
            proof {
                lemma_view_of_collection(r);
                lemma_view_of_collection(*value);
                assert(values_model(copies@) =~= values_model(items@));
            }
            r
        },
        CanonicalValue::Object(entries) => {
            let mut copies: Vec<Member> = Vec::new();
            let mut i: usize = 0;
            while i < entries.len()
                invariant
                    value is Object && value->Object_0 == *entries,
                    i <= entries.len(),
                    copies.len() == i,
                    forall|j: int|
                        0 <= j < i ==> copies[j].key@ == entries[j].key@ && copies[j].value@
                            == entries[j].value@,
                decreases entries.len() - i,
            {
                let copy = duplicate(&entries[i].value);
                copies.push(Member { key: entries[i].key.clone(), value: copy });
                i += 1;
            }
            let r = CanonicalValue::Object(copies);
            proof {
                lemma_view_of_collection(r);
                lemma_view_of_collection(*value);
                assert(entries_model(copies@) =~= entries_model(entries@));
            }
            r
        },
    }
}

impl Clone for CanonicalValue {
    fn clone(&self) -> (r: Self)
        ensures
            r@ == self@,
    {
        duplicate(self)
    }
}

impl Clone for Member {
    fn clone(&self) -> (r: Self)
        ensures
            r.key@ == self.key@,
            r.value@ == self.value@,
    {
        Member { key: self.key.clone(), value: duplicate(&self.value) }
    }
}

/// The models of a sequence of values.
pub open spec fn values_model(values: Seq<CanonicalValue>) -> Seq<ValueModel> {
    Seq::new(values.len(), |i: int| values[i]@)
}

/// The view of an array and of an object in terms of [`values_model`] and
/// [`entries_model`].
pub proof fn lemma_view_of_collection(value: CanonicalValue)
    ensures
        value matches CanonicalValue::Array(items) ==> value@ == ValueModel::Array(
            values_model(items@),
        ),
        value matches CanonicalValue::Object(entries) ==> value@ == ValueModel::Object(
            entries_model(entries@),
        ),
{
    match value {
        CanonicalValue::Array(items) => {
            assert(value@->Array_0 =~= values_model(items@));
        },
        CanonicalValue::Object(entries) => {
            assert(value@->Object_0 =~= entries_model(entries@));
        },
        _ => {},
    }
}

/// The entries of an object, each as its key and the model of its value.
pub open spec fn entries_model(entries: Seq<Member>) -> Seq<(Seq<char>, ValueModel)> {
    Seq::new(entries.len(), |i: int| (entries[i].key@, entries[i].value@))
}

} // verus!
