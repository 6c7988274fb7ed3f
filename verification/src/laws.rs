//! What holds of reading and writing together, for every integer type and
//! every numeral system.

use crate::integer::Integer;
use crate::numeral::{lemma_read_numeral, lemma_unknown_at, lemma_write_value, value_of};
use crate::single_base::Base;
use crate::NumeralSystem;
use vstd::prelude::*;

verus! {

/// What `encode` writes for `val` holds digits only, and `decode` reads
/// `val` from it, where `val` is not negative: always, for an unsigned type.
pub proof fn lemma_decode_encode<T: Integer>(base: &Base, val: T)
    requires
        NumeralSystem::<T>::representable(base, val),
        val.nonnegative(),
    ensures
        ({
            let rep = NumeralSystem::<T>::representation(base, val);
            &&& NumeralSystem::<T>::unknown_char(base, rep) is None
            &&& NumeralSystem::<T>::number(base, rep) == Some(val)
        }),
{
    base.lemma_digits();
    lemma_read_numeral(base@, val.bits());
    T::lemma_bits(val, val, val.bits());
}

/// What `encode` writes for a negative `val` denotes a number that its type
/// cannot hold: `decode` finds digits only and fails on the range.
pub proof fn lemma_decode_encode_negative<T: Integer>(base: &Base, val: T)
    requires
        NumeralSystem::<T>::representable(base, val),
        !val.nonnegative(),
    ensures
        ({
            let rep = NumeralSystem::<T>::representation(base, val);
            &&& NumeralSystem::<T>::unknown_char(base, rep) is None
            &&& NumeralSystem::<T>::number(base, rep) is None
        }),
{
    base.lemma_digits();
    lemma_read_numeral(base@, val.bits());
    if T::narrowed(val.bits()) is Some {
        let other = T::narrowed(val.bits())->Some_0;
        T::lemma_bits(other, val, val.bits());
    }
}

/// Where `decode` reads `val` from `rep`, and `rep` is not empty and does
/// not begin with the zero digit unless it is that digit alone, `encode`
/// writes `rep` for `val`.
pub proof fn lemma_encode_decode<T: Integer>(base: &Base, rep: Seq<char>, val: T)
    requires
        rep.len() >= 1,
        rep.len() == 1 || rep[0] != base@[0],
        NumeralSystem::<T>::unknown_char(base, rep) is None,
        NumeralSystem::<T>::number(base, rep) == Some(val),
    ensures
        NumeralSystem::<T>::representable(base, val),
        NumeralSystem::<T>::representation(base, val) == rep,
{
    base.lemma_digits();
    lemma_write_value(base@, rep);
    T::lemma_bits(val, val, value_of(base@, rep));
}

/// Integers with the same bits are written alike, whatever their types: a
/// signed integer as the unsigned integer that has its bits.
pub proof fn lemma_encode_bits<T: Integer, U: Integer>(base: &Base, val: T, other: U)
    requires
        val.bits() == other.bits(),
    ensures
        NumeralSystem::<T>::representable(base, val) == NumeralSystem::<U>::representable(
            base,
            other,
        ),
        NumeralSystem::<T>::representation(base, val) == NumeralSystem::<U>::representation(
            base,
            other,
        ),
{
}

/// Where `rep[i]` is no digit and only digits stand before it, `decode`
/// fails with `rep[i]`, whatever follows it and whatever the integer type.
pub proof fn lemma_decode_unknown<T: Integer>(base: &Base, rep: Seq<char>, i: int)
    requires
        0 <= i < rep.len(),
        !base@.contains(rep[i]),
        forall|j: int| 0 <= j < i ==> base@.contains(#[trigger] rep[j]),
    ensures
        NumeralSystem::<T>::unknown_char(base, rep) == Some(rep[i]),
{
    lemma_unknown_at(base@, rep, i);
}

} // verus!
