//! The numeric capability that the verified statistics work through.
//!
//! A [`Number`] renders to a canonical decimal key — the byte string its
//! human-readable printing produces — and parses back from it losslessly.
//! The mode classifier tallies values by this key, so the round-trip law
//! proved by every implementation is what makes a key stand for exactly
//! one value.  A [`Number`] also carries the type's natural numeric
//! order, as the order of the mathematical integers the values stand
//! for: the classifier reports its values ascending in that order.

use vstd::prelude::*;

use crate::count::count_of;
use crate::decimal::{
    canonical_digits, dec_digits, dec_to_i32, dec_to_u32, digits_val, i32_to_dec, int_key, int_val,
    lemma_dec_digits_canonical, lemma_dec_digits_val, lemma_int_key_val, u32_to_dec,
};

verus! {

/// A numeric element usable with the mode classifier.
pub trait Number: Sized + Copy {
    /// The value as a mathematical integer; the type's natural order is
    /// the order of these integers.
    spec fn int_spec(self) -> int;

    /// Canonical decimal key of the value.
    spec fn key_spec(self) -> Seq<u8>;

    /// What parsing a byte string as this type yields.
    spec fn parse_spec(key: Seq<u8>) -> Option<Self>;

    /// Compares two values in the type's natural numeric order.
    fn le(self, other: Self) -> (r: bool)
        ensures
            r == (self.int_spec() <= other.int_spec()),
    ;

    /// Renders the value to its canonical key.
    fn to_key(self) -> (r: Vec<u8>)
        ensures
            r@ == self.key_spec(),
    ;

    /// Parses a canonical key back to a value.
    fn from_key(key: &[u8]) -> (r: Option<Self>)
        ensures
            r == Self::parse_spec(key@),
    ;

    /// Printing and then parsing loses nothing.
    proof fn lemma_key_round_trip(self)
        ensures
            Self::parse_spec(self.key_spec()) == Some(self),
    ;

    /// Two values standing for the same integer are the same value.
    proof fn lemma_int_injective(a: Self, b: Self)
        requires
            a.int_spec() == b.int_spec(),
        ensures
            a == b,
    ;
}

/// Two values with the same canonical key are the same value.
pub proof fn lemma_key_injective<T: Number>(a: T, b: T)
    requires
        a.key_spec() == b.key_spec(),
    ensures
        a == b,
{
    a.lemma_key_round_trip();
    b.lemma_key_round_trip();
}

/// A value occurs in a sequence as often as its key occurs among the
/// sequence's keys.
pub proof fn lemma_count_of_keys<T: Number>(s: Seq<T>, v: T)
    ensures
        count_of(s.map_values(|x: T| x.key_spec()), v.key_spec()) == count_of(s, v),
    decreases s.len(),
{
    let keys = s.map_values(|x: T| x.key_spec());
    if s.len() > 0 {
        lemma_count_of_keys(s.drop_last(), v);
        assert(keys.drop_last() =~= s.drop_last().map_values(|x: T| x.key_spec()));
        assert(keys.last() == s.last().key_spec());
        if s.last() != v && s.last().key_spec() == v.key_spec() {
            lemma_key_injective(s.last(), v);
        }
    } else {
        assert(keys.len() == 0);
    }
}

impl Number for u8 {
    open spec fn int_spec(self) -> int {
        self as int
    }

    open spec fn key_spec(self) -> Seq<u8> {
        dec_digits(self as nat)
    }

    open spec fn parse_spec(key: Seq<u8>) -> Option<u8> {
        if canonical_digits(key) && digits_val(key) <= u8::MAX {
            Some(digits_val(key) as u8)
        } else {
            None
        }
    }

    fn le(self, other: Self) -> (r: bool) {
        self <= other
    }

    fn to_key(self) -> (r: Vec<u8>) {
        u32_to_dec(self as u32)
    }

    fn from_key(key: &[u8]) -> (r: Option<u8>) {
        match dec_to_u32(key) {
            Some(v) => if v <= 255 {
                Some(v as u8)
            } else {
                None
            },
            None => None,
        }
    }

    proof fn lemma_key_round_trip(self) {
        lemma_dec_digits_canonical(self as nat);
        lemma_dec_digits_val(self as nat);
    }

    proof fn lemma_int_injective(a: Self, b: Self) {
    }
}

impl Number for u16 {
    open spec fn int_spec(self) -> int {
        self as int
    }

    open spec fn key_spec(self) -> Seq<u8> {
        dec_digits(self as nat)
    }

    open spec fn parse_spec(key: Seq<u8>) -> Option<u16> {
        if canonical_digits(key) && digits_val(key) <= u16::MAX {
            Some(digits_val(key) as u16)
        } else {
            None
        }
    }

    fn le(self, other: Self) -> (r: bool) {
        self <= other
    }

    fn to_key(self) -> (r: Vec<u8>) {
        u32_to_dec(self as u32)
    }

    fn from_key(key: &[u8]) -> (r: Option<u16>) {
        match dec_to_u32(key) {
            Some(v) => if v <= 65535 {
                Some(v as u16)
            } else {
                None
            },
            None => None,
        }
    }

    proof fn lemma_key_round_trip(self) {
        lemma_dec_digits_canonical(self as nat);
        lemma_dec_digits_val(self as nat);
    }

    proof fn lemma_int_injective(a: Self, b: Self) {
    }
}

impl Number for u32 {
    open spec fn int_spec(self) -> int {
        self as int
    }

    open spec fn key_spec(self) -> Seq<u8> {
        dec_digits(self as nat)
    }

    open spec fn parse_spec(key: Seq<u8>) -> Option<u32> {
        if canonical_digits(key) && digits_val(key) <= u32::MAX {
            Some(digits_val(key) as u32)
        } else {
            None
        }
    }

    fn le(self, other: Self) -> (r: bool) {
        self <= other
    }

    fn to_key(self) -> (r: Vec<u8>) {
        u32_to_dec(self)
    }

    fn from_key(key: &[u8]) -> (r: Option<u32>) {
        dec_to_u32(key)
    }

    proof fn lemma_key_round_trip(self) {
        lemma_dec_digits_canonical(self as nat);
        lemma_dec_digits_val(self as nat);
    }

    proof fn lemma_int_injective(a: Self, b: Self) {
    }
}

impl Number for i8 {
    open spec fn int_spec(self) -> int {
        self as int
    }

    open spec fn key_spec(self) -> Seq<u8> {
        int_key(self as int)
    }

    open spec fn parse_spec(key: Seq<u8>) -> Option<i8> {
        match int_val(key) {
            Some(v) => if i8::MIN <= v <= i8::MAX {
                Some(v as i8)
            } else {
                None
            },
            None => None,
        }
    }

    fn le(self, other: Self) -> (r: bool) {
        self <= other
    }

    fn to_key(self) -> (r: Vec<u8>) {
        i32_to_dec(self as i32)
    }

    fn from_key(key: &[u8]) -> (r: Option<i8>) {
        match dec_to_i32(key) {
            Some(v) => if -128 <= v && v <= 127 {
                Some(v as i8)
            } else {
                None
            },
            None => None,
        }
    }

    proof fn lemma_key_round_trip(self) {
        lemma_int_key_val(self as int);
    }

    proof fn lemma_int_injective(a: Self, b: Self) {
    }
}

impl Number for i16 {
    open spec fn int_spec(self) -> int {
        self as int
    }

    open spec fn key_spec(self) -> Seq<u8> {
        int_key(self as int)
    }

    open spec fn parse_spec(key: Seq<u8>) -> Option<i16> {
        match int_val(key) {
            Some(v) => if i16::MIN <= v <= i16::MAX {
                Some(v as i16)
            } else {
                None
            },
            None => None,
        }
    }

    fn le(self, other: Self) -> (r: bool) {
        self <= other
    }

    fn to_key(self) -> (r: Vec<u8>) {
        i32_to_dec(self as i32)
    }

    fn from_key(key: &[u8]) -> (r: Option<i16>) {
        match dec_to_i32(key) {
            Some(v) => if -32768 <= v && v <= 32767 {
                Some(v as i16)
            } else {
                None
            },
            None => None,
        }
    }

    proof fn lemma_key_round_trip(self) {
        lemma_int_key_val(self as int);
    }

    proof fn lemma_int_injective(a: Self, b: Self) {
    }
}

impl Number for i32 {
    open spec fn int_spec(self) -> int {
        self as int
    }

    open spec fn key_spec(self) -> Seq<u8> {
        int_key(self as int)
    }

    open spec fn parse_spec(key: Seq<u8>) -> Option<i32> {
        match int_val(key) {
            Some(v) => if i32::MIN <= v <= i32::MAX {
                Some(v as i32)
            } else {
                None
            },
            None => None,
        }
    }

    fn le(self, other: Self) -> (r: bool) {
        self <= other
    }

    fn to_key(self) -> (r: Vec<u8>) {
        i32_to_dec(self)
    }

    fn from_key(key: &[u8]) -> (r: Option<i32>) {
        dec_to_i32(key)
    }

    proof fn lemma_key_round_trip(self) {
        lemma_int_key_val(self as int);
    }

    proof fn lemma_int_injective(a: Self, b: Self) {
    }
}

} // verus!
