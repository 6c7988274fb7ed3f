//! Positional numerals over an ordered sequence of digit characters.
//!
//! Everything here is mathematics: a numeral system is a `Seq<char>` whose
//! positions are the digit values, a representation is a `Seq<char>` read
//! with the most significant digit first, and numbers are `nat`.

use vstd::prelude::*;
use vstd::arithmetic::div_mod::{
    lemma_div_decreases, lemma_fundamental_div_mod, lemma_fundamental_div_mod_converse,
    lemma_mod_bound,
};

verus! {

/// The value of the digit `c`: its position in `digits`.
pub open spec fn digit_of(digits: Seq<char>, c: char) -> nat
    recommends
        digits.contains(c),
{
    digits.index_of(c) as nat
}

/// The leftmost character of `rep` that is no digit, if there is one.
pub open spec fn first_unknown(digits: Seq<char>, rep: Seq<char>) -> Option<char>
    decreases rep.len(),
{
    if rep.len() == 0 {
        None
    } else {
        match first_unknown(digits, rep.drop_last()) {
            Some(c) => Some(c),
            None => if digits.contains(rep.last()) {
                None
            } else {
                Some(rep.last())
            },
        }
    }
}

/// The number that `rep` denotes in radix `digits.len()`, most significant
/// digit first. The empty representation denotes 0.
pub open spec fn value_of(digits: Seq<char>, rep: Seq<char>) -> nat
    decreases rep.len(),
{
    if rep.len() == 0 {
        0
    } else {
        value_of(digits, rep.drop_last()) * digits.len() + digit_of(digits, rep.last())
    }
}

/// Whether `n` has a numeral over `digits`: the radix is at least 2, or
/// `n` is 0. With a single digit no division brings a positive number down.
pub open spec fn can_write(digits: Seq<char>, n: nat) -> bool
    recommends
        digits.len() >= 1,
{
    digits.len() >= 2 || n == 0
}

/// The numeral of `n` over `digits`: its shortest representation, which is
/// the single digit `digits[0]` for 0.
pub open spec fn numeral_of(digits: Seq<char>, n: nat) -> Seq<char>
    recommends
        digits.len() >= 1,
        can_write(digits, n),
    decreases n,
{
    let radix = digits.len();
    if radix >= 2 && n >= radix {
        proof {
            lemma_div_decreases(n as int, radix as int);
        }
        numeral_of(digits, n / radix).push(digits[(n % radix) as int])
    } else {
        seq![digits[n as int]]
    }
}

/// The empty representation holds no unknown character and denotes 0.
pub proof fn lemma_empty(digits: Seq<char>)
    ensures
        first_unknown(digits, Seq::empty()) is None,
        value_of(digits, Seq::empty()) == 0,
{
}

/// A representation has no unknown character exactly when each of its
/// characters is a digit.
pub proof fn lemma_all_known(digits: Seq<char>, rep: Seq<char>)
    ensures
        first_unknown(digits, rep) is None <==> forall|i: int|
            0 <= i < rep.len() ==> digits.contains(#[trigger] rep[i]),
    decreases rep.len(),
{
    if rep.len() > 0 {
        let init = rep.drop_last();
        lemma_all_known(digits, init);
        assert(forall|i: int| 0 <= i < init.len() ==> init[i] == rep[i]);
        if first_unknown(digits, rep) is None {
            assert forall|i: int| 0 <= i < rep.len() implies digits.contains(
                #[trigger] rep[i],
            ) by {
                if i < init.len() {
                    assert(init[i] == rep[i]);
                }
            }
        }
    }
}

/// Where `rep[i]` is no digit and every character before it is one, the
/// unknown character reported for `rep` is `rep[i]`, whatever follows it.
pub proof fn lemma_unknown_at(digits: Seq<char>, rep: Seq<char>, i: int)
    requires
        0 <= i < rep.len(),
        !digits.contains(rep[i]),
        forall|j: int| 0 <= j < i ==> digits.contains(#[trigger] rep[j]),
    ensures
        first_unknown(digits, rep) == Some(rep[i]),
    decreases rep.len(),
{
    let init = rep.drop_last();
    if i == rep.len() - 1 {
        lemma_all_known(digits, init);
    } else {
        lemma_unknown_at(digits, init, i);
    }
}

/// A representation with an unknown character has a first one: it stands
/// in `rep`, is no digit, and only digits stand before it.
pub proof fn lemma_unknown_is_first(digits: Seq<char>, rep: Seq<char>) -> (i: int)
    requires
        first_unknown(digits, rep) is Some,
    ensures
        0 <= i < rep.len(),
        first_unknown(digits, rep) == Some(rep[i]),
        !digits.contains(rep[i]),
        forall|j: int| 0 <= j < i ==> digits.contains(#[trigger] rep[j]),
    decreases rep.len(),
{
    let init = rep.drop_last();
    if first_unknown(digits, init) is Some {
        let i = lemma_unknown_is_first(digits, init);
        assert(forall|j: int| 0 <= j <= i ==> init[j] == rep[j]);
        i
    } else {
        lemma_all_known(digits, init);
        assert(forall|j: int| 0 <= j < init.len() ==> init[j] == rep[j]);
        rep.len() - 1
    }
}

/// Appending one digit multiplies the value by the radix and adds the digit.
pub proof fn lemma_value_push(digits: Seq<char>, rep: Seq<char>, c: char)
    ensures
        value_of(digits, rep.push(c)) == value_of(digits, rep) * digits.len() + digit_of(
            digits,
            c,
        ),
        first_unknown(digits, rep.push(c)) == match first_unknown(digits, rep) {
            Some(u) => Some(u),
            None => if digits.contains(c) {
                None
            } else {
                Some(c)
            },
        },
{
    assert(rep.push(c).drop_last() =~= rep);
}

/// In a sequence without duplicates the digit at position `i` has value `i`.
pub proof fn lemma_digit_of_position(digits: Seq<char>, i: int)
    requires
        digits.no_duplicates(),
        0 <= i < digits.len(),
    ensures
        digits.contains(digits[i]),
        digit_of(digits, digits[i]) == i,
{
    assert(digits.contains(digits[i]));
}

/// A known character is the digit that stands at its value.
pub proof fn lemma_digit_of_known(digits: Seq<char>, c: char)
    requires
        digits.contains(c),
    ensures
        digit_of(digits, c) < digits.len(),
        digits[digit_of(digits, c) as int] == c,
{
}

/// The numeral of 0 is the first digit alone, and no numeral is empty.
pub proof fn lemma_numeral_shape(digits: Seq<char>, n: nat)
    ensures
        numeral_of(digits, 0) == seq![digits[0]],
        numeral_of(digits, n).len() >= 1,
{
}

/// Reading the numeral of `n` gives `n` back, and meets no unknown character.
pub proof fn lemma_read_numeral(digits: Seq<char>, n: nat)
    requires
        digits.len() >= 1,
        digits.no_duplicates(),
        can_write(digits, n),
    ensures
        first_unknown(digits, numeral_of(digits, n)) is None,
        value_of(digits, numeral_of(digits, n)) == n,
    decreases n,
{
    let radix = digits.len();
    if radix >= 2 && n >= radix {
        let q = n / radix;
        let d = n % radix;
        lemma_div_decreases(n as int, radix as int);
        lemma_mod_bound(n as int, radix as int);
        lemma_fundamental_div_mod(n as int, radix as int);
        lemma_read_numeral(digits, q);
        lemma_value_push(digits, numeral_of(digits, q), digits[d as int]);
        lemma_digit_of_position(digits, d as int);
        assert(q * radix == radix * q) by (nonlinear_arith);
    } else {
        let s = seq![digits[n as int]];
        lemma_digit_of_position(digits, n as int);
        assert(s =~= Seq::<char>::empty().push(digits[n as int]));
        lemma_value_push(digits, Seq::<char>::empty(), digits[n as int]);
        assert(0 * radix == 0) by (nonlinear_arith);
    }
}

/// A representation of known digits whose first digit is not the zero digit
/// denotes a number of at least 1.
pub proof fn lemma_value_positive(digits: Seq<char>, rep: Seq<char>)
    requires
        rep.len() >= 1,
        first_unknown(digits, rep) is None,
        rep[0] != digits[0],
    ensures
        value_of(digits, rep) >= 1,
    decreases rep.len(),
{
    let radix = digits.len();
    let init = rep.drop_last();
    lemma_all_known(digits, rep);
    if rep.len() == 1 {
        lemma_digit_of_known(digits, rep[0]);
        assert(value_of(digits, init) == 0);
        assert(0 * radix == 0) by (nonlinear_arith);
    } else {
        lemma_value_positive(digits, init);
        let v = value_of(digits, init);
        assert(v * radix >= 1) by (nonlinear_arith)
            requires
                v >= 1,
                radix >= 1,
        ;
    }
}

/// Writing the number that `rep` denotes gives `rep` back, where `rep` is
/// not empty, holds digits only, and does not begin with the zero digit
/// unless it is that digit alone.
pub proof fn lemma_write_value(digits: Seq<char>, rep: Seq<char>)
    requires
        digits.no_duplicates(),
        rep.len() >= 1,
        first_unknown(digits, rep) is None,
        rep.len() == 1 || rep[0] != digits[0],
    ensures
        can_write(digits, value_of(digits, rep)),
        numeral_of(digits, value_of(digits, rep)) == rep,
    decreases rep.len(),
{
    let radix = digits.len();
    let init = rep.drop_last();
    let c = rep.last();
    let d = digit_of(digits, c);
    lemma_all_known(digits, rep);
    lemma_digit_of_known(digits, c);
    if rep.len() == 1 {
        assert(value_of(digits, init) == 0);
        assert(0 * radix == 0) by (nonlinear_arith);
        assert(value_of(digits, rep) == d);
        assert(numeral_of(digits, d) =~= rep);
    } else {
        lemma_digit_of_known(digits, rep[0]);
        assert(init[0] == rep[0]);
        lemma_write_value(digits, init);
        lemma_value_positive(digits, init);
        let v = value_of(digits, init);
        let n = value_of(digits, rep);
        assert(n == v * radix + d);
        assert(v * radix >= radix) by (nonlinear_arith)
            requires
                v >= 1,
                radix >= 1,
        ;
        assert(n == radix * v + d) by (nonlinear_arith)
            requires
                n == v * radix + d,
        ;
        lemma_fundamental_div_mod_converse(n as int, radix as int, v as int, d as int);
        assert(numeral_of(digits, n) =~= rep);
    }
}

} // verus!
