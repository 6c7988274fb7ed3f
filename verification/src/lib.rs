//! Custom numeral systems with single-character digits.
//!
//! A [`Base`] is made from the string of its digits. Through
//! [`NumeralSystem`] it reads a representation into an integer of any
//! width, and writes an integer as its representation. Multi-character
//! digits are not supported.

use std::num::TryFromIntError;
use vstd::prelude::*;
use vstd::std_specs::convert::FromSpecImpl;

pub mod integer;
pub mod laws;
pub mod numeral;
pub mod single_base;

pub use integer::Integer;
pub use single_base::{Base, BaseError, DuplicateCharacterError};

verus! {

/// The error of [`NumeralSystem::decode`]: a character that is no digit of
/// the system, or a number that the integer type asked for cannot hold.
#[derive(Debug)]
pub enum StrError {
    /// Contains the unknown character.
    UnknownChar(char),
    /// The number is out of the integer type's range.
    Try(TryFromIntError),
}

impl From<TryFromIntError> for StrError {
    fn from(err: TryFromIntError) -> (r: StrError) {
        StrError::Try(err)
    }
}

impl FromSpecImpl<TryFromIntError> for StrError {
    open spec fn obeys_from_spec() -> bool {
        true
    }

    open spec fn from_spec(err: TryFromIntError) -> StrError {
        StrError::Try(err)
    }
}

/// Conversions between integers of type `T` and their representations in a
/// numeral system.
pub trait NumeralSystem<T> {
    /// The leftmost character of `rep` that is no digit of the system, if
    /// there is one.
    spec fn unknown_char(&self, rep: Seq<char>) -> Option<char>;

    /// The number that `rep` denotes, where a `T` can hold it.
    spec fn number(&self, rep: Seq<char>) -> Option<T>;

    /// Whether the system can write `val`.
    spec fn representable(&self, val: T) -> bool;

    /// The representation of `val`.
    spec fn representation(&self, val: T) -> Seq<char>;

    /// Given a number's representation in the system, returns the number.
    ///
    /// Fails with the leftmost unknown character if there is one, whatever
    /// the rest of `rep` holds, and else with a range error if `T` cannot
    /// hold the number.
    fn decode(&self, rep: &str) -> (r: Result<T, StrError>)
        ensures
            r is Ok <==> self.unknown_char(rep@) is None && self.number(rep@) is Some,
            match r {
                Ok(val) => self.number(rep@) == Some(val),
                Err(StrError::UnknownChar(c)) => self.unknown_char(rep@) == Some(c),
                Err(StrError::Try(_)) => {
                    &&& self.unknown_char(rep@) is None
                    &&& self.number(rep@) is None
                },
            },
    ;

    /// Given a number, returns its representation in the system.
    ///
    /// A signed integer is written as the unsigned integer of the same width
    /// that has the same bits. An error would stand for an integer
    /// conversion that failed on the way; on what the system can write,
    /// none does.
    fn encode(&self, val: T) -> (r: Result<String, TryFromIntError>)
        requires
            self.representable(val),
        ensures
            r matches Ok(s) && s@ == self.representation(val),
    ;
}

} // verus!
