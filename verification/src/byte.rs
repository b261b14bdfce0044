//! Primitive byte-level parsers: the predicate match `Satisfy` and the
//! fixed-byte match `U8`, together with a few ready-made predicates and
//! transformations.

use vstd::prelude::*;
use vstd::slice::slice_index_get;
use crate::Parser;
use crate::combinator::{Transform, prefix_stable};

verus! {

/// A predicate on a single byte, with a specification-level meaning that the
/// executable test is bound to. Callers supply the leaf predicates of a
/// grammar by implementing this trait.
pub trait BytePredicate: Sized {
    /// What the predicate accepts.
    spec fn spec_test(&self, b: u8) -> bool;

    /// Decide whether the predicate accepts `b`.
    fn test(&self, b: u8) -> (r: bool)
        ensures
            r == self.spec_test(b),
    ;
}

/// The primitive parser: succeeds by consuming exactly one byte if the
/// supplied predicate accepts it, and fails on an empty input or a rejected
/// first byte. This is the only combinator that reads the input itself.
pub struct Satisfy<F: BytePredicate> {
    pub f: F,
}

/// Construct a primitive parser from a one-byte predicate.
pub fn satisfy<F: BytePredicate>(f: F) -> (r: Satisfy<F>)
    ensures
        r.f == f,
{
    Satisfy { f }
}

impl<F: BytePredicate> Parser for Satisfy<F> {
    type Output = u8;

    open spec fn spec_parse(&self, input: Seq<u8>) -> Option<(u8, nat)> {
        if input.len() > 0 && self.f.spec_test(input[0]) {
            Some((input[0], 1 as nat))
        } else {
            None
        }
    }

    proof fn lemma_parse_length(&self, input: Seq<u8>) {
    }

    fn parse(&mut self, input: &[u8]) -> (r: Result<(u8, usize), ()>) {
        if input.len() > 0 {
            let b = *slice_index_get(input, 0);
            if self.f.test(b) {
                return Ok((b, 1));
            }
        }
        Err(())
    }
}

/// A parser that matches one fixed byte, consuming it on success.
pub struct U8 {
    pub byte: u8,
}

impl Parser for U8 {
    type Output = u8;

    open spec fn spec_parse(&self, input: Seq<u8>) -> Option<(u8, nat)> {
        if input.len() > 0 && input[0] == self.byte {
            Some((self.byte, 1 as nat))
        } else {
            None
        }
    }

    proof fn lemma_parse_length(&self, input: Seq<u8>) {
    }

    fn parse(&mut self, input: &[u8]) -> (r: Result<(u8, usize), ()>) {
        if input.len() > 0 {
            let b = *slice_index_get(input, 0);
            if b == self.byte {
                return Ok((self.byte, 1));
            }
        }
        Err(())
    }
}

/// The predicate that accepts exactly one given byte.
pub struct IsByte {
    pub byte: u8,
}

impl BytePredicate for IsByte {
    open spec fn spec_test(&self, b: u8) -> bool {
        b == self.byte
    }

    fn test(&self, b: u8) -> (r: bool) {
        b == self.byte
    }
}

/// The ASCII code of the digit zero.
pub const DIGIT_ZERO: u8 = 48;

/// The ASCII code of the digit nine.
pub const DIGIT_NINE: u8 = 57;

/// The predicate that accepts the ASCII decimal digits.
pub struct IsDigit;

impl BytePredicate for IsDigit {
    open spec fn spec_test(&self, b: u8) -> bool {
        DIGIT_ZERO <= b && b <= DIGIT_NINE
    }

    fn test(&self, b: u8) -> (r: bool) {
        DIGIT_ZERO <= b && b <= DIGIT_NINE
    }
}

/// The transformation from an ASCII digit to its numeric value. Bytes below
/// the digit zero (which no digit parser produces) are sent to zero so that
/// the transformation is total.
pub struct DigitValue;

impl Transform<u8> for DigitValue {
    type Output = u8;

    open spec fn spec_transform(&self, x: u8) -> u8 {
        if x >= DIGIT_ZERO {
            (x - DIGIT_ZERO) as u8
        } else {
            0
        }
    }

    fn transform(&self, x: u8) -> (r: u8) {
        if x >= DIGIT_ZERO {
            x - DIGIT_ZERO
        } else {
            0
        }
    }
}

/// The predicate match recognizes exactly one byte: it succeeds with the
/// first byte of the input and a consumed count of one when the input is
/// non-empty and the predicate accepts that byte, and fails otherwise.
pub proof fn lemma_satisfy_characterization<F: BytePredicate>(p: Satisfy<F>, input: Seq<u8>)
    ensures
        input.len() > 0 && p.f.spec_test(input[0]) ==> p.spec_parse(input) == Some((
            input[0],
            1 as nat,
        )),
        !(input.len() > 0 && p.f.spec_test(input[0])) ==> p.spec_parse(input) is None,
{
}

/// The predicate match reads at most the first byte, so extending the input
/// beyond a recognized prefix never changes what it recognizes.
pub proof fn lemma_satisfy_prefix_stable<F: BytePredicate>(p: Satisfy<F>)
    ensures
        prefix_stable(p),
{
    assert forall|s: Seq<u8>, ext: Seq<u8>| p.spec_parse(s) is Some implies #[trigger] p.spec_parse(
        s + ext,
    ) == p.spec_parse(s) by {
        assert((s + ext)[0] == s[0]);
    }
}

/// The fixed-byte match reads at most the first byte, so extending the input
/// beyond a recognized prefix never changes what it recognizes.
pub proof fn lemma_u8_prefix_stable(p: U8)
    ensures
        prefix_stable(p),
{
    assert forall|s: Seq<u8>, ext: Seq<u8>| p.spec_parse(s) is Some implies #[trigger] p.spec_parse(
        s + ext,
    ) == p.spec_parse(s) by {
        assert((s + ext)[0] == s[0]);
    }
}

} // verus!
