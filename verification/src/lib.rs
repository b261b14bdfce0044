//! Parser combinators over byte slices.
//!
//! A parser attempts to recognize a prefix of a byte slice, yielding a typed
//! output value together with the number of bytes consumed, or failing with no
//! diagnostic. Small primitive parsers (a one-byte predicate match) are
//! composed into larger ones by sequencing, ordered alternative, output
//! transformation and zero-or-more repetition.
//!
//! Every parser carries a specification-level meaning, `spec_parse`, and the
//! executable `parse` of every combinator is verified against it.

use vstd::prelude::*;

pub mod byte;
pub mod combinator;

pub use combinator::{Then, Or, Mapped, Many, Transform};

verus! {

/// The capability every parser implements: attempt to recognize a prefix of a
/// byte buffer, yielding a typed output and a consumed-byte count, or fail.
///
/// The meaning of a parser is its `spec_parse` function; the executable
/// `parse` is bound to it exactly, so the composition laws of the combinators
/// are stated once, over `spec_parse`, and carry over to the executable code.
pub trait Parser: Sized {
    /// The value produced by a successful parse.
    type Output: DeepView;

    /// What this parser recognizes: for a given input, either the abstract
    /// value of the output together with the number of bytes it spans, or
    /// `None` for a failed parse.
    spec fn spec_parse(&self, input: Seq<u8>) -> Option<(<Self::Output as DeepView>::V, nat)>;

    /// A successful parse never spans more bytes than the input holds.
    proof fn lemma_parse_length(&self, input: Seq<u8>)
        ensures
            self.spec_parse(input) matches Some(r) ==> r.1 <= input.len(),
    ;

    /// Attempt to recognize a prefix of `input`. On success the result holds
    /// the output value and the number of bytes consumed, counted from the
    /// start of `input`; on failure it holds the unit error.
    ///
    /// `parse` takes `&mut self` so that a single parser instance has one
    /// owner sequencing its invocations; it leaves the parser unchanged.
    fn parse(&mut self, input: &[u8]) -> (r: Result<(Self::Output, usize), ()>)
        ensures
            *final(self) == *old(self),
            (match r {
                Ok((v, n)) => old(self).spec_parse(input@) == Some((v.deep_view(), n as nat)),
                Err(()) => old(self).spec_parse(input@) is None,
            }),
    ;
}

/// The composition operations, available on every parser: sequencing, ordered
/// alternative, output transformation and zero-or-more repetition. Each
/// consumes its operands — once composed, the original standalone parsers are
/// no longer independently usable — and each returns a value whose fields are
/// exactly the operands, so the composite's meaning is fixed by the
/// combinator's own `spec_parse`.
pub trait Combine: Parser {
    /// Sequence `self` with `other`: the resulting parser runs `self`, then
    /// `other` on the remaining input, and succeeds only if both succeed.
    fn and_then<P2: Parser>(self, other: P2) -> (r: Then<Self, P2>)
        ensures
            r.p1 == self,
            r.p2 == other,
    ;

    /// Ordered alternative: the resulting parser runs `self` and, only if
    /// that fails, runs `other` on the same original input. The composite is
    /// itself a parser when both children share one output type.
    fn or<P2: Parser>(self, other: P2) -> (r: Or<Self, P2>)
        ensures
            r.p1 == self,
            r.p2 == other,
    ;

    /// Transform the output of `self` with `f`; consumed counts and failure
    /// pass through unchanged.
    fn map<F: Transform<Self::Output>>(self, f: F) -> (r: Mapped<F, Self>)
        ensures
            r.p == self,
            r.f == f,
    ;

    /// Zero-or-more repetition of `self`, collecting every successful output
    /// in order; the repetition itself never fails.
    fn many(self) -> (r: Many<Self>)
        ensures
            r.p == self,
    ;
}

impl<P: Parser> Combine for P {
    fn and_then<P2: Parser>(self, other: P2) -> (r: Then<Self, P2>) {
        Then { p1: self, p2: other }
    }

    fn or<P2: Parser>(self, other: P2) -> (r: Or<Self, P2>) {
        Or { p1: self, p2: other }
    }

    fn map<F: Transform<Self::Output>>(self, f: F) -> (r: Mapped<F, Self>) {
        Mapped { p: self, f }
    }

    fn many(self) -> (r: Many<Self>) {
        Many { p: self }
    }
}

} // verus!
