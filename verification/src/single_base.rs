//! A numeral system given by the string of its digits.

use crate::integer::{range_error, Integer};
use crate::numeral::{
    can_write, digit_of, first_unknown, lemma_all_known, lemma_unknown_at, lemma_value_push,
    numeral_of, value_of,
};
use crate::{NumeralSystem, StrError};
use std::collections::HashMap;
use std::num::TryFromIntError;
use vstd::prelude::*;
use vstd::std_specs::hash::*;

verus! {

broadcast use vstd::std_specs::hash::group_hash_axioms;

/// A numeral system with single-character digits.
///
/// The value of each digit is its position in the string that the system was
/// made from: the first character has value 0, the second has value 1, and
/// so on. The view of a `Base` is that string: it holds at least one
/// character, and none twice.
pub struct Base {
    base: Vec<char>,
    vals: HashMap<u32, usize>,
}

/// The error of making a [`Base`] from a string in which a character
/// occurs twice: the character, and the positions of its first two
/// occurrences, counted in characters from 0.
#[derive(Debug)]
pub struct DuplicateCharacterError {
    pub dup: char,
    pub first: usize,
    pub second: usize,
}

/// The error of making a [`Base`] from a string.
#[derive(Debug)]
pub enum BaseError {
    /// The string is empty: a numeral system has at least one digit.
    Empty,
    /// A character occurs twice in the string.
    DuplicateCharacter(DuplicateCharacterError),
}

/// `String::push` appends the character to the string.
pub assume_specification[ String::push ](s: &mut String, c: char)
    ensures
        final(s)@ == old(s)@.push(c),
;

/// What is still to be written in front of the digits on the stack: the
/// numeral of the quotient, or nothing once the quotient is 0.
spec fn pending(digits: Seq<char>, quotient: nat) -> Seq<char> {
    if quotient > 0 {
        numeral_of(digits, quotient)
    } else {
        Seq::empty()
    }
}

/// Two characters with the same code point are the same character.
proof fn lemma_code_point_injective(c: char, d: char)
    requires
        c as u32 == d as u32,
    ensures
        c == d,
{
}

impl DuplicateCharacterError {
    /// Whether this error names the first duplicate of `s`: `second` is the
    /// first position whose character has occurred before, `first` is
    /// where it occurred, and `dup` is the character.
    pub open spec fn is_first_duplicate(&self, s: Seq<char>) -> bool {
        &&& self.first < self.second < s.len()
        &&& s[self.first as int] == self.dup
        &&& s[self.second as int] == self.dup
        &&& s.take(self.second as int).no_duplicates()
    }
}

/// A string has at most one first duplicate.
pub proof fn lemma_first_duplicate_unique(
    s: Seq<char>,
    a: DuplicateCharacterError,
    b: DuplicateCharacterError,
)
    requires
        a.is_first_duplicate(s),
        b.is_first_duplicate(s),
    ensures
        a == b,
{
    if a.second < b.second {
        let upto = s.take(b.second as int);
        assert(upto[a.first as int] == upto[a.second as int]);
    } else if b.second < a.second {
        let upto = s.take(a.second as int);
        assert(upto[b.first as int] == upto[b.second as int]);
    } else {
        let upto = s.take(a.second as int);
        assert(upto[a.first as int] == upto[b.first as int]);
    }
}

impl View for Base {
    type V = Seq<char>;

    /// The digits of the system, in the order of their values.
    ///
    /// Every `Base` that a program holds keeps its invariant, and its view
    /// is the sequence it was made from. A specification can also speak
    /// of a value that breaks the invariant; such a value is read as the
    /// system of the one digit `0`, so that the view of every `Base` is a
    /// numeral system: see [`Base::lemma_digits`].
    closed spec fn view(&self) -> Seq<char> {
        if self.inverse() {
            self.base@
        } else {
            seq!['0']
        }
    }
}

impl std::str::FromStr for Base {
    type Err = BaseError;

    /// Parses the digits of a numeral system: the same as [`Base::new`].
    fn from_str(s: &str) -> (r: Result<Base, BaseError>)
        ensures
            r is Ok <==> s@.len() >= 1 && s@.no_duplicates(),
            match r {
                Ok(b) => b@ == s@,
                Err(BaseError::Empty) => s@.len() == 0,
                Err(BaseError::DuplicateCharacter(e)) => e.is_first_duplicate(s@),
            },
    {
        Base::new(s)
    }
}

impl Base {
    /// There is a digit, and the map from code points to digit values is
    /// the inverse of the digit sequence.
    #[verifier::type_invariant]
    spec fn inverse(&self) -> bool {
        &&& self.base@.len() >= 1
        &&& forall|i: int|
            0 <= i < self.base@.len() ==> self.vals@.contains_key(#[trigger] self.base@[i] as u32)
                && self.vals@[self.base@[i] as u32] == i
        &&& forall|k: u32| #[trigger]
            self.vals@.contains_key(k) ==> self.vals@[k] < self.base@.len()
                && self.base@[self.vals@[k] as int] as u32 == k
    }

    /// Makes the numeral system whose digits are the characters of `s`, in
    /// their order. Fails on the first character that has occurred before,
    /// and on the empty string.
    pub fn new(s: &str) -> (r: Result<Base, BaseError>)
        ensures
            r is Ok <==> s@.len() >= 1 && s@.no_duplicates(),
            match r {
                Ok(b) => b@ == s@,
                Err(BaseError::Empty) => s@.len() == 0,
                Err(BaseError::DuplicateCharacter(e)) => e.is_first_duplicate(s@),
            },
    {
        let mut base: Vec<char> = Vec::new();
        let mut vals: HashMap<u32, usize> = HashMap::new();
        for c in it: s.chars()
            invariant
                it.seq() == s@,
                0 <= it.index() <= s@.len(),
                base@ == s@.take(it.index() as int),
                base@.no_duplicates(),
                forall|i: int|
                    0 <= i < base@.len() ==> vals@.contains_key(#[trigger] base@[i] as u32)
                        && vals@[base@[i] as u32] == i,
                forall|k: u32| #[trigger]
                    vals@.contains_key(k) ==> vals@[k] < base@.len()
                        && base@[vals@[k] as int] as u32 == k,
        {
            let i: usize = base.len();
            assert(s@[i as int] == c);
            let ghost seen = vals@;
            if let Some(first) = vals.insert(c as u32, i) {
                proof {
                    assert(seen[c as u32] == first);
                    lemma_code_point_injective(base@[first as int], c);
                }
                return Err(
                    BaseError::DuplicateCharacter(
                        DuplicateCharacterError { dup: c, first, second: i },
                    ),
                );
            }
            assert forall|j: int| 0 <= j < i implies base@[j] != c by {
                assert(seen.contains_key(base@[j] as u32));
            }
            base.push(c);
            assert(base@ =~= s@.take(i + 1));
        }
        assert(base@ =~= s@);
        if base.len() == 0 {
            return Err(BaseError::Empty);
        }
        Ok(Base { base, vals })
    }

    /// The view of every `Base` is a numeral system: it holds at least one
    /// digit, and none twice.
    pub proof fn lemma_digits(&self)
        ensures
            self@.len() >= 1,
            self@.no_duplicates(),
    {
        if self.inverse() {
            self.lemma_distinct();
        }
    }

    /// The number of digits, which is the radix of the system.
    pub fn radix(&self) -> (r: usize)
        ensures
            r == self@.len(),
            r >= 1,
    {
        proof {
            use_type_invariant(self);
        }
        self.base.len()
    }

    /// Writes `val` where the system can write it: where the radix is at
    /// least 2, and 0 with a single digit.
    pub fn try_encode<T: Integer>(&self, val: T) -> (r: Option<String>)
        ensures
            r is Some <==> can_write(self@, val.bits()),
            r matches Some(s) ==> s@ == numeral_of(self@, val.bits()),
    {
        proof {
            use_type_invariant(self);
        }
        if self.base.len() >= 2 || val.to_bits() == 0 {
            match self.encode(val) {
                Ok(s) => Some(s),
                Err(_) => None,
            }
        } else {
            None
        }
    }

    /// The string that the system was made from.
    pub fn to_string(&self) -> (s: String)
        ensures
            s@ == self@,
    {
        proof {
            use_type_invariant(self);
        }
        let mut s = String::new();
        let n: usize = self.base.len();
        let mut i: usize = 0;
        while i < n
            invariant
                n == self.base@.len(),
                i <= n,
                s@ == self.base@.take(i as int),
            decreases n - i,
        {
            s.push(self.base[i]);
            i += 1;
            assert(self.base@.take(i as int) =~= self.base@.take(i - 1).push(
                self.base@[i - 1],
            ));
        }
        assert(self.base@.take(n as int) =~= self.base@);
        s
    }

    /// No digit occurs twice, and a code point is a key of the map exactly
    /// when its character is a digit.
    proof fn lemma_distinct(&self)
        requires
            self.inverse(),
        ensures
            self@.no_duplicates(),
            forall|c: char| self.vals@.contains_key(c as u32) <==> self@.contains(c),
            forall|c: char| self@.contains(c) ==> self.vals@[c as u32] == digit_of(self@, c),
    {
        let digits = self.base@;
        assert forall|i: int, j: int|
            0 <= i < digits.len() && 0 <= j < digits.len() && i != j implies digits[i]
            != digits[j] by {
            assert(self.vals@[digits[i] as u32] == i);
            assert(self.vals@[digits[j] as u32] == j);
        }
        assert forall|c: char| self.vals@.contains_key(c as u32) implies digits.contains(c) by {
            let i = self.vals@[c as u32] as int;
            lemma_code_point_injective(digits[i], c);
        }
        assert forall|c: char| digits.contains(c) implies self.vals@.contains_key(c as u32)
            && self.vals@[c as u32] == digit_of(digits, c) by {
            let i = digits.index_of(c);
            assert(self.vals@.contains_key(digits[i] as u32));
        }
    }

    /// The characters of `stack` from the last to the first, as a string.
    fn unstack(stack: &Vec<char>) -> (s: String)
        ensures
            s@ == stack@.reverse(),
    {
        let n: usize = stack.len();
        let mut s = String::new();
        let mut i: usize = n;
        while i > 0
            invariant
                n == stack@.len(),
                i <= n,
                s@ == stack@.reverse().take(n - i),
            decreases i,
        {
            i -= 1;
            s.push(stack[i]);
            assert(stack@.reverse().take(n - i) =~= stack@.reverse().take(n - i - 1).push(
                stack@[i as int],
            ));
        }
        assert(stack@.reverse().take(n as int) =~= stack@.reverse());
        s
    }

    /// One division step: the quotient `n / radix`, which is less than `n`,
    /// with the digit of `n % radix` on the stack, stands for what `n`
    /// stood for.
    proof fn lemma_stack_step(digits: Seq<char>, n: nat, stack: Seq<char>)
        requires
            n > 0,
            can_write(digits, n),
        ensures
            n / digits.len() < n,
            pending(digits, n) + stack.reverse() == pending(digits, n / digits.len())
                + stack.push(digits[(n % digits.len()) as int]).reverse(),
    {
        let radix = digits.len();
        let next = stack.push(digits[(n % radix) as int]);
        assert(n / radix < n) by (nonlinear_arith)
            requires
                n > 0,
                radix >= 2,
        ;
        if n >= radix {
            assert(n / radix > 0) by (nonlinear_arith)
                requires
                    n >= radix,
                    radix >= 2,
            ;
        } else {
            assert(n / radix == 0 && n % radix == n) by (nonlinear_arith)
                requires
                    n < radix,
            ;
        }
        assert(pending(digits, n) + stack.reverse() =~= pending(digits, n / radix)
            + next.reverse());
    }

    /// The first division step, onto the empty stack: the quotient
    /// `n / radix`, with the digit of `n % radix` on the stack, stands for
    /// the numeral of `n`.
    proof fn lemma_stack_start(digits: Seq<char>, n: nat)
        requires
            digits.len() >= 1,
            can_write(digits, n),
        ensures
            numeral_of(digits, n) == pending(digits, n / digits.len()) + Seq::<char>::empty().push(
                digits[(n % digits.len()) as int],
            ).reverse(),
    {
        let radix = digits.len();
        let none = Seq::<char>::empty();
        let first = none.push(digits[(n % radix) as int]);
        assert(none.reverse() =~= none);
        if n > 0 {
            Self::lemma_stack_step(digits, n, none);
            assert(numeral_of(digits, n) + none =~= numeral_of(digits, n));
        } else {
            assert(0int % (radix as int) == 0 && 0int / (radix as int) == 0) by (nonlinear_arith)
                requires
                    radix >= 1,
            ;
            assert(first.reverse() =~= first);
            assert(numeral_of(digits, 0) =~= none + first.reverse());
        }
    }

    /// Writes `val` by division in the pointer-sized type.
    fn encode_narrow(&self, val: usize) -> (r: Result<String, TryFromIntError>)
        requires
            can_write(self@, val as nat),
        ensures
            r matches Ok(s) && s@ == numeral_of(self@, val as nat),
    {
        proof {
            use_type_invariant(self);
        }
        let radix: usize = self.base.len();
        let mut stack: Vec<char> = Vec::new();
        let mut rem: usize = val % radix;
        let mut div: usize = val / radix;
        stack.push(self.base[rem]);
        proof {
            Self::lemma_stack_start(self@, val as nat);
        }
        while div > 0
            invariant
                radix == self@.len(),
                self.base@ == self@,
                div > 0 ==> can_write(self@, div as nat),
                numeral_of(self@, val as nat) == pending(self@, div as nat) + stack@.reverse(),
            decreases div,
        {
            proof {
                Self::lemma_stack_step(self@, div as nat, stack@);
            }
            rem = div % radix;
            div = div / radix;
            stack.push(self.base[rem]);
        }
        Ok(Self::unstack(&stack))
    }

    /// Writes `val` by division in 128 bits; only a digit's value is
    /// brought into the pointer-sized type, to find its character.
    fn encode_wide(&self, val: u128) -> (r: Result<String, TryFromIntError>)
        requires
            can_write(self@, val as nat),
        ensures
            r matches Ok(s) && s@ == numeral_of(self@, val as nat),
    {
        proof {
            use_type_invariant(self);
        }
        let radix: u128 = self.base.len() as u128;
        let mut stack: Vec<char> = Vec::new();
        let mut rem: u128 = val % radix;
        let mut div: u128 = val / radix;
        let at: usize = match usize::try_from(rem) {
            Ok(at) => at,
            Err(e) => return Err(e),
        };
        stack.push(self.base[at]);
        proof {
            Self::lemma_stack_start(self@, val as nat);
        }
        while div > 0
            invariant
                radix == self@.len(),
                self.base@ == self@,
                radix <= usize::MAX,
                div > 0 ==> can_write(self@, div as nat),
                numeral_of(self@, val as nat) == pending(self@, div as nat) + stack@.reverse(),
            decreases div,
        {
            proof {
                Self::lemma_stack_step(self@, div as nat, stack@);
            }
            rem = div % radix;
            div = div / radix;
            let at: usize = match usize::try_from(rem) {
                Ok(at) => at,
                Err(e) => return Err(e),
            };
            stack.push(self.base[at]);
        }
        Ok(Self::unstack(&stack))
    }
}

/// The next accumulator of a decoder in 128 bits: `acc * radix + digit`, or
/// `None` once that no longer fits.
fn shift_in(acc: Option<u128>, radix: u128, digit: u128) -> (r: Option<u128>)
    requires
        radix >= 1,
    ensures
        match r {
            Some(v) => acc matches Some(a) && v == a * radix + digit,
            None => acc matches Some(a) ==> a * radix + digit > u128::MAX,
        },
{
    match acc {
        None => None,
        Some(a) => match a.checked_mul(radix) {
            None => None,
            Some(m) => m.checked_add(digit),
        },
    }
}

impl Base {
    /// Reads `rep` digit by digit, from the most significant on, as a number
    /// of at most 128 bits; the empty string reads as 0. A number above
    /// `u128::MAX` is out of range, but an unknown character behind it is
    /// still found.
    pub fn read(&self, rep: &str) -> (r: Result<u128, StrError>)
        ensures
            match r {
                Ok(n) => first_unknown(self@, rep@) is None && value_of(self@, rep@) == n,
                Err(StrError::UnknownChar(c)) => first_unknown(self@, rep@) == Some(c),
                Err(StrError::Try(_)) => first_unknown(self@, rep@) is None && value_of(
                    self@,
                    rep@,
                ) > u128::MAX,
            },
    {
        proof {
            use_type_invariant(self);
            self.lemma_distinct();
        }
        let radix: u128 = self.base.len() as u128;
        let mut val: Option<u128> = Some(0);
        for c in it: rep.chars()
            invariant
                self.inverse(),
                it.seq() == rep@,
                0 <= it.index() <= rep@.len(),
                radix == self@.len(),
                first_unknown(self@, rep@.take(it.index() as int)) is None,
                match val {
                    Some(v) => v == value_of(self@, rep@.take(it.index() as int)),
                    None => value_of(self@, rep@.take(it.index() as int)) > u128::MAX,
                },
        {
            let ghost i = it.index() as int;
            let ghost read = rep@.take(i);
            proof {
                self.lemma_distinct();
                lemma_value_push(self@, read, c);
                assert(rep@.take(i + 1) =~= read.push(c));
            }
            match self.vals.get(&(c as u32)) {
                None => {
                    proof {
                        lemma_all_known(self@, read);
                        assert forall|j: int| 0 <= j < i implies self@.contains(
                            #[trigger] rep@[j],
                        ) by {
                            assert(read[j] == rep@[j]);
                        }
                        lemma_unknown_at(self@, rep@, i);
                    }
                    return Err(StrError::UnknownChar(c));
                },
                Some(v) => {
                    let ghost before = value_of(self@, read);
                    assert(before * radix + *v >= before) by (nonlinear_arith)
                        requires
                            radix >= 1,
                            before >= 0,
                            *v >= 0,
                    ;
                    val = shift_in(val, radix, *v as u128);
                },
            }
        }
        assert(rep@.take(rep@.len() as int) =~= rep@);
        match val {
            Some(v) => Ok(v),
            None => Err(StrError::Try(range_error())),
        }
    }
}

impl<T: Integer> NumeralSystem<T> for Base {
    open spec fn unknown_char(&self, rep: Seq<char>) -> Option<char> {
        first_unknown(self@, rep)
    }

    open spec fn number(&self, rep: Seq<char>) -> Option<T> {
        T::narrowed(value_of(self@, rep))
    }

    open spec fn representable(&self, val: T) -> bool {
        can_write(self@, val.bits())
    }

    open spec fn representation(&self, val: T) -> Seq<char> {
        numeral_of(self@, val.bits())
    }

    /// Reads the number in 128 bits, then narrows it to `T`.
    fn decode(&self, rep: &str) -> (r: Result<T, StrError>) {
        match self.read(rep) {
            Err(e) => {
                proof {
                    lemma_out_of_reach::<T>(value_of(self@, rep@));
                }
                Err(e)
            },
            Ok(n) => match T::narrow(n) {
                Ok(val) => Ok(val),
                Err(e) => Err(StrError::from(e)),
            },
        }
    }

    /// Writes the bits of `val` by division in the pointer-sized type where
    /// they fit it, and in 128 bits where they do not.
    ///
    /// With a single digit only 0 can be written, and the division would
    /// not end on anything else: [`Base::try_encode`] tests that first.
    fn encode(&self, val: T) -> (r: Result<String, TryFromIntError>)
        ensures
            r.unwrap()@.len() >= 1,
            val.bits() == 0 ==> r.unwrap()@ == seq![self@[0]],
    {
        let bits: u128 = val.to_bits();
        match usize::try_from(bits) {
            Ok(narrow) => self.encode_narrow(narrow),
            Err(_) => self.encode_wide(bits),
        }
    }
}

/// No integer type holds a number above 128 bits.
proof fn lemma_out_of_reach<T: Integer>(n: nat)
    ensures
        n > u128::MAX ==> T::narrowed(n) is None,
{
    if T::narrowed(n) is Some {
        let val = T::narrowed(n)->Some_0;
        T::lemma_bits(val, val, n);
    }
}

} // verus!
