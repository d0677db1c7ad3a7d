//! What an element type has to supply.

use std::ops::{Add, Div, Mul, Sub};
use vstd::prelude::*;
use vstd::std_specs::cmp::PartialEqSpec;
use vstd::std_specs::ops::{AddSpec, DivSpec, MulSpec, SubSpec};

verus! {

/// The arithmetic an element type must supply to take part in determinant and
/// inverse computation: the two identities, the four operators and a test for
/// equality.
///
/// The operators are described by the specification traits of `vstd`: for
/// `a + b`, `a.add_req(b)` says when the operation is defined (it neither
/// overflows nor traps) and `a.add_spec(b)` names its result; likewise for
/// `-`, `*`, `/` and `==`. An implementor owes the proof that its operators
/// return what those specifications name; an implementation in code that is
/// not verified writes the lemma with an empty body and so vouches for it.
pub trait Numeric: Sized + Copy + PartialEq + Mul<Output = Self> + Sub<Output = Self> + Add<
    Output = Self,
> + Div<Output = Self> {
    /// The additive identity.
    const ZERO: Self;

    /// The multiplicative identity.
    const ONE: Self;

    /// Every operator of the type returns the value that its specification names.
    proof fn lemma_operators_obey()
        ensures
            Self::obeys_add_spec(),
            Self::obeys_sub_spec(),
            Self::obeys_mul_spec(),
            Self::obeys_div_spec(),
            Self::obeys_eq_spec(),
    ;
}

impl Numeric for i8 {
    const ZERO: Self = 0;

    const ONE: Self = 1;

    proof fn lemma_operators_obey() {
    }
}

impl Numeric for i16 {
    const ZERO: Self = 0;

    const ONE: Self = 1;

    proof fn lemma_operators_obey() {
    }
}

impl Numeric for i32 {
    const ZERO: Self = 0;

    const ONE: Self = 1;

    proof fn lemma_operators_obey() {
    }
}

impl Numeric for i64 {
    const ZERO: Self = 0;

    const ONE: Self = 1;

    proof fn lemma_operators_obey() {
    }
}

impl Numeric for i128 {
    const ZERO: Self = 0;

    const ONE: Self = 1;

    proof fn lemma_operators_obey() {
    }
}

impl Numeric for isize {
    const ZERO: Self = 0;

    const ONE: Self = 1;

    proof fn lemma_operators_obey() {
    }
}

impl Numeric for u8 {
    const ZERO: Self = 0;

    const ONE: Self = 1;

    proof fn lemma_operators_obey() {
    }
}

impl Numeric for u16 {
    const ZERO: Self = 0;

    const ONE: Self = 1;

    proof fn lemma_operators_obey() {
    }
}

impl Numeric for u32 {
    const ZERO: Self = 0;

    const ONE: Self = 1;

    proof fn lemma_operators_obey() {
    }
}

impl Numeric for u64 {
    const ZERO: Self = 0;

    const ONE: Self = 1;

    proof fn lemma_operators_obey() {
    }
}

impl Numeric for u128 {
    const ZERO: Self = 0;

    const ONE: Self = 1;

    proof fn lemma_operators_obey() {
    }
}

impl Numeric for usize {
    const ZERO: Self = 0;

    const ONE: Self = 1;

    proof fn lemma_operators_obey() {
    }
}

/// For each of the machine integer types, `ZERO` is the number 0 and `ONE` is
/// the number 1.
pub proof fn lemma_integer_identities()
    ensures
        <i8 as Numeric>::ZERO == 0i8,
        <i8 as Numeric>::ONE == 1i8,
        <i16 as Numeric>::ZERO == 0i16,
        <i16 as Numeric>::ONE == 1i16,
        <i32 as Numeric>::ZERO == 0i32,
        <i32 as Numeric>::ONE == 1i32,
        <i64 as Numeric>::ZERO == 0i64,
        <i64 as Numeric>::ONE == 1i64,
        <i128 as Numeric>::ZERO == 0i128,
        <i128 as Numeric>::ONE == 1i128,
        <isize as Numeric>::ZERO == 0isize,
        <isize as Numeric>::ONE == 1isize,
        <u8 as Numeric>::ZERO == 0u8,
        <u8 as Numeric>::ONE == 1u8,
        <u16 as Numeric>::ZERO == 0u16,
        <u16 as Numeric>::ONE == 1u16,
        <u32 as Numeric>::ZERO == 0u32,
        <u32 as Numeric>::ONE == 1u32,
        <u64 as Numeric>::ZERO == 0u64,
        <u64 as Numeric>::ONE == 1u64,
        <u128 as Numeric>::ZERO == 0u128,
        <u128 as Numeric>::ONE == 1u128,
        <usize as Numeric>::ZERO == 0usize,
        <usize as Numeric>::ONE == 1usize,
{
}

} // verus!
