//! The integer types that a numeral system reads and writes.
//!
//! An unsigned integer stands for itself. A signed integer is written as
//! the unsigned integer of the same width that has the same bits in two's
//! complement; reading narrows the number itself, so only the integers
//! from 0 on are read back.

use std::num::TryFromIntError;
use vstd::pervasive::unreached;
use vstd::prelude::*;

verus! {

/// The error that an integer conversion gives for a value out of range.
pub(crate) fn range_error() -> TryFromIntError {
    match u8::try_from(u16::MAX) {
        Err(e) => e,
        Ok(_) => unreached(),
    }
}

/// An integer type of a fixed width, as a numeral system sees it: as the
/// unsigned number of its bits when written, and as the target of a
/// narrowing when read.
pub trait Integer: Sized + Copy {
    /// The unsigned number that has the bits of `self`: `self` where it is
    /// not negative, and `self` plus 2 to the power of the width where it
    /// is.
    spec fn bits(self) -> nat;

    /// Whether `self` is at least 0.
    spec fn nonnegative(self) -> bool;

    /// The integer of this type that equals `n`, where there is one.
    spec fn narrowed(n: nat) -> Option<Self>;

    /// Bits fit 128 bits and tell integers apart, and `narrowed` gives
    /// exactly the integers from 0 on, each for its own bits.
    proof fn lemma_bits(a: Self, b: Self, n: nat)
        ensures
            a.bits() <= u128::MAX,
            a.bits() == b.bits() ==> a == b,
            Self::narrowed(n) == Some(a) <==> a.nonnegative() && a.bits() == n,
    ;

    /// The bits of `self`, widened to 128 bits.
    fn to_bits(self) -> (r: u128)
        ensures
            r == self.bits(),
    ;

    /// The integer of this type that equals `n`, or the range error.
    fn narrow(n: u128) -> (r: Result<Self, TryFromIntError>)
        ensures
            match r {
                Ok(val) => Self::narrowed(n as nat) == Some(val),
                Err(_) => Self::narrowed(n as nat) is None,
            },
    ;
}

impl Integer for u8 {
    open spec fn bits(self) -> nat {
        self as nat
    }

    open spec fn nonnegative(self) -> bool {
        true
    }

    open spec fn narrowed(n: nat) -> Option<u8> {
        if n <= u8::MAX {
            Some(n as u8)
        } else {
            None
        }
    }

    proof fn lemma_bits(a: u8, b: u8, n: nat) {
    }

    fn to_bits(self) -> (r: u128) {
        self as u128
    }

    fn narrow(n: u128) -> (r: Result<u8, TryFromIntError>) {
        u8::try_from(n)
    }
}

impl Integer for u16 {
    open spec fn bits(self) -> nat {
        self as nat
    }

    open spec fn nonnegative(self) -> bool {
        true
    }

    open spec fn narrowed(n: nat) -> Option<u16> {
        if n <= u16::MAX {
            Some(n as u16)
        } else {
            None
        }
    }

    proof fn lemma_bits(a: u16, b: u16, n: nat) {
    }

    fn to_bits(self) -> (r: u128) {
        self as u128
    }

    fn narrow(n: u128) -> (r: Result<u16, TryFromIntError>) {
        u16::try_from(n)
    }
}

impl Integer for u32 {
    open spec fn bits(self) -> nat {
        self as nat
    }

    open spec fn nonnegative(self) -> bool {
        true
    }

    open spec fn narrowed(n: nat) -> Option<u32> {
        if n <= u32::MAX {
            Some(n as u32)
        } else {
            None
        }
    }

    proof fn lemma_bits(a: u32, b: u32, n: nat) {
    }

    fn to_bits(self) -> (r: u128) {
        self as u128
    }

    fn narrow(n: u128) -> (r: Result<u32, TryFromIntError>) {
        u32::try_from(n)
    }
}

impl Integer for u64 {
    open spec fn bits(self) -> nat {
        self as nat
    }

    open spec fn nonnegative(self) -> bool {
        true
    }

    open spec fn narrowed(n: nat) -> Option<u64> {
        if n <= u64::MAX {
            Some(n as u64)
        } else {
            None
        }
    }

    proof fn lemma_bits(a: u64, b: u64, n: nat) {
    }

    fn to_bits(self) -> (r: u128) {
        self as u128
    }

    fn narrow(n: u128) -> (r: Result<u64, TryFromIntError>) {
        u64::try_from(n)
    }
}

impl Integer for u128 {
    open spec fn bits(self) -> nat {
        self as nat
    }

    open spec fn nonnegative(self) -> bool {
        true
    }

    open spec fn narrowed(n: nat) -> Option<u128> {
        if n <= u128::MAX {
            Some(n as u128)
        } else {
            None
        }
    }

    proof fn lemma_bits(a: u128, b: u128, n: nat) {
    }

    fn to_bits(self) -> (r: u128) {
        self
    }

    fn narrow(n: u128) -> (r: Result<u128, TryFromIntError>) {
        Ok(n)
    }
}

impl Integer for usize {
    open spec fn bits(self) -> nat {
        self as nat
    }

    open spec fn nonnegative(self) -> bool {
        true
    }

    open spec fn narrowed(n: nat) -> Option<usize> {
        if n <= usize::MAX {
            Some(n as usize)
        } else {
            None
        }
    }

    proof fn lemma_bits(a: usize, b: usize, n: nat) {
    }

    fn to_bits(self) -> (r: u128) {
        self as u128
    }

    fn narrow(n: u128) -> (r: Result<usize, TryFromIntError>) {
        usize::try_from(n)
    }
}

impl Integer for i8 {
    open spec fn bits(self) -> nat {
        if self >= 0 {
            self as nat
        } else {
            (self + u8::MAX + 1) as nat
        }
    }

    open spec fn nonnegative(self) -> bool {
        self >= 0
    }

    open spec fn narrowed(n: nat) -> Option<i8> {
        if n <= i8::MAX {
            Some(n as i8)
        } else {
            None
        }
    }

    proof fn lemma_bits(a: i8, b: i8, n: nat) {
    }

    fn to_bits(self) -> (r: u128) {
        if self >= 0 {
            self as u128
        } else {
            (u8::MAX - ((-(self + 1)) as u8)) as u128
        }
    }

    fn narrow(n: u128) -> (r: Result<i8, TryFromIntError>) {
        i8::try_from(n)
    }
}

impl Integer for i16 {
    open spec fn bits(self) -> nat {
        if self >= 0 {
            self as nat
        } else {
            (self + u16::MAX + 1) as nat
        }
    }

    open spec fn nonnegative(self) -> bool {
        self >= 0
    }

    open spec fn narrowed(n: nat) -> Option<i16> {
        if n <= i16::MAX {
            Some(n as i16)
        } else {
            None
        }
    }

    proof fn lemma_bits(a: i16, b: i16, n: nat) {
    }

    fn to_bits(self) -> (r: u128) {
        if self >= 0 {
            self as u128
        } else {
            (u16::MAX - ((-(self + 1)) as u16)) as u128
        }
    }

    fn narrow(n: u128) -> (r: Result<i16, TryFromIntError>) {
        i16::try_from(n)
    }
}

impl Integer for i32 {
    open spec fn bits(self) -> nat {
        if self >= 0 {
            self as nat
        } else {
            (self + u32::MAX + 1) as nat
        }
    }

    open spec fn nonnegative(self) -> bool {
        self >= 0
    }

    open spec fn narrowed(n: nat) -> Option<i32> {
        if n <= i32::MAX {
            Some(n as i32)
        } else {
            None
        }
    }

    proof fn lemma_bits(a: i32, b: i32, n: nat) {
    }

    fn to_bits(self) -> (r: u128) {
        if self >= 0 {
            self as u128
        } else {
            (u32::MAX - ((-(self + 1)) as u32)) as u128
        }
    }

    fn narrow(n: u128) -> (r: Result<i32, TryFromIntError>) {
        i32::try_from(n)
    }
}

impl Integer for i64 {
    open spec fn bits(self) -> nat {
        if self >= 0 {
            self as nat
        } else {
            (self + u64::MAX + 1) as nat
        }
    }

    open spec fn nonnegative(self) -> bool {
        self >= 0
    }

    open spec fn narrowed(n: nat) -> Option<i64> {
        if n <= i64::MAX {
            Some(n as i64)
        } else {
            None
        }
    }

    proof fn lemma_bits(a: i64, b: i64, n: nat) {
    }

    fn to_bits(self) -> (r: u128) {
        if self >= 0 {
            self as u128
        } else {
            (u64::MAX - ((-(self + 1)) as u64)) as u128
        }
    }

    fn narrow(n: u128) -> (r: Result<i64, TryFromIntError>) {
        i64::try_from(n)
    }
}

impl Integer for i128 {
    open spec fn bits(self) -> nat {
        if self >= 0 {
            self as nat
        } else {
            (self + u128::MAX + 1) as nat
        }
    }

    open spec fn nonnegative(self) -> bool {
        self >= 0
    }

    open spec fn narrowed(n: nat) -> Option<i128> {
        if n <= i128::MAX {
            Some(n as i128)
        } else {
            None
        }
    }

    proof fn lemma_bits(a: i128, b: i128, n: nat) {
    }

    fn to_bits(self) -> (r: u128) {
        if self >= 0 {
            self as u128
        } else {
            u128::MAX - ((-(self + 1)) as u128)
        }
    }

    fn narrow(n: u128) -> (r: Result<i128, TryFromIntError>) {
        if n <= i128::MAX as u128 {
            Ok(n as i128)
        } else {
            Err(range_error())
        }
    }
}

impl Integer for isize {
    open spec fn bits(self) -> nat {
        if self >= 0 {
            self as nat
        } else {
            (self + usize::MAX + 1) as nat
        }
    }

    open spec fn nonnegative(self) -> bool {
        self >= 0
    }

    open spec fn narrowed(n: nat) -> Option<isize> {
        if n <= isize::MAX {
            Some(n as isize)
        } else {
            None
        }
    }

    proof fn lemma_bits(a: isize, b: isize, n: nat) {
    }

    fn to_bits(self) -> (r: u128) {
        if self >= 0 {
            self as u128
        } else {
            (usize::MAX - ((-(self + 1)) as usize)) as u128
        }
    }

    fn narrow(n: u128) -> (r: Result<isize, TryFromIntError>) {
        isize::try_from(n)
    }
}

} // verus!
