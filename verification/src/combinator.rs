//! The composite combinators: sequencing (`Then`), ordered alternative
//! (`Or`), output transformation (`Mapped`) and zero-or-more repetition
//! (`Many`). Each is defined purely in terms of its child parsers.

use vstd::prelude::*;
use vstd::slice::slice_subrange;
use crate::Parser;

verus! {

/// An output transformation with a specification-level meaning, stated over
/// the abstract values of its input and output types. Callers supply the
/// transformations of a grammar by implementing this trait.
pub trait Transform<I: DeepView>: Sized {
    /// The value produced by the transformation.
    type Output: DeepView;

    /// What the transformation computes.
    spec fn spec_transform(&self, x: <I as DeepView>::V) -> <Self::Output as DeepView>::V;

    /// Apply the transformation.
    fn transform(&self, x: I) -> (r: Self::Output)
        ensures
            r.deep_view() == self.spec_transform(x.deep_view()),
    ;
}

/// Sequential composition: runs `p1`, then `p2` on the remaining input, and
/// succeeds only if both succeed, producing the pair of their outputs and the
/// sum of their consumed counts. There is no backtracking: if `p2` fails, the
/// bytes consumed by `p1` are not refunded and the whole parse fails.
pub struct Then<P1: Parser, P2: Parser> {
    pub p1: P1,
    pub p2: P2,
}

impl<P1: Parser, P2: Parser> Parser for Then<P1, P2> {
    type Output = (P1::Output, P2::Output);

    open spec fn spec_parse(&self, input: Seq<u8>) -> Option<
        ((<P1::Output as DeepView>::V, <P2::Output as DeepView>::V), nat),
    > {
        match self.p1.spec_parse(input) {
            Some((v1, n1)) => match self.p2.spec_parse(input.skip(n1 as int)) {
                Some((v2, n2)) => Some(((v1, v2), n1 + n2)),
                None => None,
            },
            None => None,
        }
    }

    proof fn lemma_parse_length(&self, input: Seq<u8>) {
        self.p1.lemma_parse_length(input);
        if let Some((v1, n1)) = self.p1.spec_parse(input) {
            self.p2.lemma_parse_length(input.skip(n1 as int));
        }
    }

    fn parse(&mut self, input: &[u8]) -> (r: Result<((P1::Output, P2::Output), usize), ()>) {
        match self.p1.parse(input) {
            Ok((r1, c1)) => {
                proof {
                    self.p1.lemma_parse_length(input@);
                }
                let rest = slice_subrange(input, c1, input.len());
                proof {
                    assert(rest@ == input@.skip(c1 as int));
                }
                match self.p2.parse(rest) {
                    Ok((r2, c2)) => {
                        proof {
                            self.p2.lemma_parse_length(rest@);
                        }
                        Ok(((r1, r2), c1 + c2))
                    },
                    Err(()) => Err(()),
                }
            },
            Err(()) => Err(()),
        }
    }
}

/// Ordered alternative: runs `p1` and returns its success unchanged; only on
/// failure runs `p2`, on the same original input, and returns its outcome
/// verbatim. Both children produce the same output type, and `p1` is always
/// attempted first.
pub struct Or<P1: Parser, P2: Parser> {
    pub p1: P1,
    pub p2: P2,
}

impl<O, P1, P2> Parser for Or<P1, P2> where
    O: DeepView,
    P1: Parser<Output = O>,
    P2: Parser<Output = O>,
 {
    type Output = O;

    open spec fn spec_parse(&self, input: Seq<u8>) -> Option<(<O as DeepView>::V, nat)> {
        match self.p1.spec_parse(input) {
            Some(r) => Some(r),
            None => self.p2.spec_parse(input),
        }
    }

    proof fn lemma_parse_length(&self, input: Seq<u8>) {
        self.p1.lemma_parse_length(input);
        self.p2.lemma_parse_length(input);
    }

    fn parse(&mut self, input: &[u8]) -> (r: Result<(O, usize), ()>) {
        match self.p1.parse(input) {
            Ok(success) => Ok(success),
            Err(()) => self.p2.parse(input),
        }
    }
}

/// Output transformation: delegates to `p` and, on success, applies `f` to
/// the output value, leaving the consumed count unchanged; failure passes
/// through unchanged, and `f` is applied at most once per parse.
pub struct Mapped<F, P> where P: Parser, F: Transform<P::Output> {
    pub p: P,
    pub f: F,
}

impl<F, P> Parser for Mapped<F, P> where P: Parser, F: Transform<P::Output> {
    type Output = F::Output;

    open spec fn spec_parse(&self, input: Seq<u8>) -> Option<
        (<F::Output as DeepView>::V, nat),
    > {
        match self.p.spec_parse(input) {
            Some((v, n)) => Some((self.f.spec_transform(v), n)),
            None => None,
        }
    }

    proof fn lemma_parse_length(&self, input: Seq<u8>) {
        self.p.lemma_parse_length(input);
    }

    fn parse(&mut self, input: &[u8]) -> (r: Result<(F::Output, usize), ()>) {
        match self.p.parse(input) {
            Ok((v, n)) => Ok((self.f.transform(v), n)),
            Err(()) => Err(()),
        }
    }
}

/// The abstract value a parser of type `P` produces.
pub type OutV<P> = <<P as Parser>::Output as DeepView>::V;

/// The meaning of zero-or-more repetition: apply `p` greedily against the
/// shrinking remainder of `input` until it fails, collecting the outputs in
/// order and summing the consumed counts. The repetition never fails.
///
/// A successful inner parse that consumes nothing would repeat at the same
/// position forever (no combinator here produces one from the primitives, but
/// a repetition of a repetition does, and nothing in the parser contract
/// forbids one); such a step ends the run after contributing its one value,
/// so that repetition terminates on every parser.
pub open spec fn spec_parse_many<P: Parser>(p: P, input: Seq<u8>) -> (Seq<OutV<P>>, nat)
    decreases input.len(),
{
    match p.spec_parse(input) {
        Some((v, c)) => {
            if 1 <= c <= input.len() {
                let (vs, n) = spec_parse_many(p, input.skip(c as int));
                (seq![v] + vs, c + n)
            } else {
                (seq![v], c)
            }
        },
        None => (Seq::empty(), 0 as nat),
    }
}

/// A run of `p` over `input`: `os` are the outputs of successive successful
/// parses, each consuming at least one byte and applied to the remainder left
/// by the ones before it, and `n` is the sum of their consumed counts.
pub open spec fn is_parse_run<P: Parser>(p: P, input: Seq<u8>, os: Seq<OutV<P>>, n: nat) -> bool
    decreases os.len(),
{
    if os.len() == 0 {
        n == 0
    } else {
        match p.spec_parse(input) {
            Some((v, c)) => os[0] == v && 1 <= c <= n && is_parse_run(
                p,
                input.skip(c as int),
                os.skip(1),
                (n - c) as nat,
            ),
            None => false,
        }
    }
}

/// A run extends by one more successful parse of the remainder.
proof fn lemma_run_step<P: Parser>(p: P, input: Seq<u8>, os: Seq<OutV<P>>, n: nat, v: OutV<P>, c: nat)
    requires
        is_parse_run(p, input, os, n),
        n <= input.len(),
        p.spec_parse(input.skip(n as int)) == Some((v, c)),
        1 <= c,
    ensures
        is_parse_run(p, input, os.push(v), n + c),
    decreases os.len(),
{
    p.lemma_parse_length(input.skip(n as int));
    if os.len() == 0 {
        assert(input.skip(0) =~= input);
        assert(os.push(v).skip(1) =~= Seq::<OutV<P>>::empty());
        assert(is_parse_run(p, input.skip(c as int), Seq::<OutV<P>>::empty(), 0 as nat));
    } else {
        match p.spec_parse(input) {
            Some((v0, c0)) => {
                assert(input.skip(c0 as int).skip((n - c0) as int) =~= input.skip(n as int));
                lemma_run_step(p, input.skip(c0 as int), os.skip(1), (n - c0) as nat, v, c);
                assert(os.push(v).skip(1) =~= os.skip(1).push(v));
            },
            None => {},
        }
    }
}

/// Repetition returns the maximal greedy run: a run whose remainder `p` fails
/// on is exactly what `spec_parse_many` yields, outputs and consumed count
/// alike.
pub proof fn lemma_many_greedy_run<P: Parser>(p: P, input: Seq<u8>, os: Seq<OutV<P>>, n: nat)
    requires
        is_parse_run(p, input, os, n),
        n <= input.len(),
        p.spec_parse(input.skip(n as int)) is None,
    ensures
        spec_parse_many(p, input).0 == os,
        spec_parse_many(p, input).1 == n,
    decreases os.len(),
{
    if os.len() == 0 {
        assert(input.skip(0) =~= input);
        assert(os =~= Seq::<OutV<P>>::empty());
    } else {
        match p.spec_parse(input) {
            Some((v0, c0)) => {
                p.lemma_parse_length(input);
                assert(input.skip(c0 as int).skip((n - c0) as int) =~= input.skip(n as int));
                lemma_many_greedy_run(p, input.skip(c0 as int), os.skip(1), (n - c0) as nat);
                assert(seq![v0] + os.skip(1) =~= os);
            },
            None => {},
        }
    }
}

/// A run whose remainder `p` parses without consuming anything ends the
/// repetition after that one more value.
proof fn lemma_run_zero_width_end<P: Parser>(
    p: P,
    input: Seq<u8>,
    os: Seq<OutV<P>>,
    n: nat,
    v: OutV<P>,
)
    requires
        is_parse_run(p, input, os, n),
        n <= input.len(),
        p.spec_parse(input.skip(n as int)) == Some((v, 0 as nat)),
    ensures
        spec_parse_many(p, input).0 == os.push(v),
        spec_parse_many(p, input).1 == n,
    decreases os.len(),
{
    if os.len() == 0 {
        assert(input.skip(0) =~= input);
        assert(seq![v] =~= os.push(v));
    } else {
        match p.spec_parse(input) {
            Some((v0, c0)) => {
                p.lemma_parse_length(input);
                assert(input.skip(c0 as int).skip((n - c0) as int) =~= input.skip(n as int));
                lemma_run_zero_width_end(p, input.skip(c0 as int), os.skip(1), (n - c0) as nat, v);
                assert(seq![v0] + os.skip(1).push(v) =~= os.push(v));
            },
            None => {},
        }
    }
}

/// Repetition consumes no more bytes than the input holds.
pub proof fn lemma_many_consumed_bound<P: Parser>(p: P, input: Seq<u8>)
    ensures
        spec_parse_many(p, input).1 <= input.len(),
    decreases input.len(),
{
    p.lemma_parse_length(input);
    match p.spec_parse(input) {
        Some((v, c)) => {
            if 1 <= c <= input.len() {
                lemma_many_consumed_bound(p, input.skip(c as int));
            }
        },
        None => {},
    }
}

/// Zero-or-more repetition: applies `p` repeatedly against the shrinking
/// remainder until it fails, collecting every successful output into an
/// ordered sequence; the repetition itself never fails, and the failed final
/// attempt contributes nothing. A successful inner parse that consumes
/// nothing also ends the repetition, after contributing its value (see
/// [`spec_parse_many`]).
pub struct Many<P: Parser> {
    pub p: P,
}

impl<P: Parser> Parser for Many<P> {
    type Output = Vec<P::Output>;

    open spec fn spec_parse(&self, input: Seq<u8>) -> Option<(Seq<OutV<P>>, nat)> {
        Some(spec_parse_many(self.p, input))
    }

    proof fn lemma_parse_length(&self, input: Seq<u8>) {
        lemma_many_consumed_bound(self.p, input);
    }

    #[verifier::loop_isolation(false)]
    fn parse(&mut self, input: &[u8]) -> (r: Result<(Vec<P::Output>, usize), ()>) {
        let mut parsed: Vec<P::Output> = Vec::new();
        let mut consumed: usize = 0;
        proof {
            assert(parsed.deep_view() =~= Seq::<OutV<P>>::empty());
        }
        loop
            invariant
                consumed <= input@.len(),
                is_parse_run(self.p, input@, parsed.deep_view(), consumed as nat),
                *self == *old(self),
            decreases input@.len() - consumed,
        {
            let rest = slice_subrange(input, consumed, input.len());
            proof {
                assert(rest@ == input@.skip(consumed as int));
            }
            match self.p.parse(rest) {
                Ok((item, c)) => {
                    let ghost previous = parsed;
                    let ghost item_value = item;
                    if c == 0 {
                        proof {
                            lemma_run_zero_width_end(
                                self.p,
                                input@,
                                parsed.deep_view(),
                                consumed as nat,
                                item.deep_view(),
                            );
                        }
                        parsed.push(item);
                        proof {
                            lemma_deep_view_push(previous, parsed, item_value);
                        }
                        return Ok((parsed, consumed));
                    }
                    proof {
                        self.p.lemma_parse_length(rest@);
                        lemma_run_step(
                            self.p,
                            input@,
                            parsed.deep_view(),
                            consumed as nat,
                            item.deep_view(),
                            c as nat,
                        );
                    }
                    parsed.push(item);
                    proof {
                        lemma_deep_view_push(previous, parsed, item_value);
                    }
                    consumed = consumed + c;
                },
                Err(()) => {
                    proof {
                        lemma_many_greedy_run(
                            self.p,
                            input@,
                            parsed.deep_view(),
                            consumed as nat,
                        );
                    }
                    return Ok((parsed, consumed));
                },
            }
        }
    }
}

/// Repetition never fails: on every input its outcome is a success, with the
/// empty sequence and a consumed count of zero when the very first attempt of
/// the inner parser fails.
pub proof fn lemma_many_total<P: Parser>(m: Many<P>, input: Seq<u8>)
    ensures
        m.spec_parse(input) is Some,
        m.p.spec_parse(input) is None ==> m.spec_parse(input) == Some((
            Seq::<OutV<P>>::empty(),
            0 as nat,
        )),
{
}

/// A parser is prefix-stable when extending the input beyond a recognized
/// prefix never changes what it recognizes. The predicate match is such a
/// parser (it reads one byte at most), and sequencing and transformation
/// preserve the property. Ordered alternative does not: an extension can wake
/// its first child on an input where the second had answered. Neither does
/// repetition, which always succeeds and can recognize more of a longer
/// input.
pub open spec fn prefix_stable<P: Parser>(p: P) -> bool {
    forall|s: Seq<u8>, ext: Seq<u8>|
        p.spec_parse(s) is Some ==> #[trigger] p.spec_parse(s + ext) == p.spec_parse(s)
}

/// Sequencing two prefix-stable parsers is prefix-stable.
pub proof fn lemma_then_prefix_stable<P1: Parser, P2: Parser>(t: Then<P1, P2>)
    requires
        prefix_stable(t.p1),
        prefix_stable(t.p2),
    ensures
        prefix_stable(t),
{
    assert forall|s: Seq<u8>, ext: Seq<u8>| t.spec_parse(s) is Some implies #[trigger] t.spec_parse(
        s + ext,
    ) == t.spec_parse(s) by {
        match t.p1.spec_parse(s) {
            Some((v1, n1)) => {
                t.p1.lemma_parse_length(s);
                assert(t.p1.spec_parse(s + ext) == t.p1.spec_parse(s));
                assert((s + ext).skip(n1 as int) =~= s.skip(n1 as int) + ext);
                assert(t.p2.spec_parse(s.skip(n1 as int) + ext) == t.p2.spec_parse(
                    s.skip(n1 as int),
                ));
            },
            None => {},
        }
    }
}

/// Transforming a prefix-stable parser is prefix-stable.
pub proof fn lemma_mapped_prefix_stable<F, P>(m: Mapped<F, P>)where
    P: Parser,
    F: Transform<P::Output>,

    requires
        prefix_stable(m.p),
    ensures
        prefix_stable(m),
{
    assert forall|s: Seq<u8>, ext: Seq<u8>| m.spec_parse(s) is Some implies #[trigger] m.spec_parse(
        s + ext,
    ) == m.spec_parse(s) by {
        assert(m.p.spec_parse(s + ext) == m.p.spec_parse(s));
    }
}

/// For a prefix-stable inner parser, the consumed count of repetition is
/// non-decreasing across longer inputs sharing a prefix: every step of the
/// greedy run over the shorter input recurs unchanged over the longer one,
/// which can only run on further.
pub proof fn lemma_many_consumed_monotone<P: Parser>(p: P, s: Seq<u8>, ext: Seq<u8>)
    requires
        prefix_stable(p),
    ensures
        spec_parse_many(p, s).1 <= spec_parse_many(p, s + ext).1,
    decreases s.len(),
{
    p.lemma_parse_length(s);
    match p.spec_parse(s) {
        Some((v, c)) => {
            assert(p.spec_parse(s + ext) == p.spec_parse(s));
            if 1 <= c <= s.len() {
                assert((s + ext).skip(c as int) =~= s.skip(c as int) + ext);
                lemma_many_consumed_monotone(p, s.skip(c as int), ext);
            }
        },
        None => {},
    }
}

/// Pushing onto a vector pushes the element's abstract value onto the
/// vector's abstract value.
proof fn lemma_deep_view_push<T: DeepView>(v1: Vec<T>, v2: Vec<T>, x: T)
    requires
        v2@ == v1@.push(x),
    ensures
        v2.deep_view() == v1.deep_view().push(x.deep_view()),
{
    assert forall|i: int| 0 <= i < v2.deep_view().len() implies v2.deep_view()[i]
        == v1.deep_view().push(x.deep_view())[i] by {
        if i < v1@.len() {
            assert(v2@[i] == v1@[i]);
        }
    }
    assert(v2.deep_view() =~= v1.deep_view().push(x.deep_view()));
}

/// Sequencing succeeds exactly when the first child succeeds and the second
/// succeeds on the suffix starting at the first child's consumed offset; the
/// result pairs the outputs in order and adds the consumed counts. A failure
/// of either child is the failure of the whole.
pub proof fn lemma_then_characterization<P1: Parser, P2: Parser>(
    t: Then<P1, P2>,
    input: Seq<u8>,
)
    ensures
        t.p1.spec_parse(input) is None ==> t.spec_parse(input) is None,
        t.p1.spec_parse(input) matches Some((v1, n1)) ==> (match t.p2.spec_parse(
            input.skip(n1 as int),
        ) {
            Some((v2, n2)) => t.spec_parse(input) == Some(((v1, v2), (n1 + n2) as nat)),
            None => t.spec_parse(input) is None,
        }),
{
}

/// The ordered alternative is its first child's outcome whenever that child
/// succeeds, and otherwise its second child's outcome on the same original
/// input.
pub proof fn lemma_or_characterization<O, P1, P2>(o: Or<P1, P2>, input: Seq<u8>)where
    O: DeepView,
    P1: Parser<Output = O>,
    P2: Parser<Output = O>,

    ensures
        o.p1.spec_parse(input) is Some ==> o.spec_parse(input) == o.p1.spec_parse(input),
        o.p1.spec_parse(input) is None ==> o.spec_parse(input) == o.p2.spec_parse(input),
{
}

/// Transformation succeeds exactly when its child succeeds, with the
/// transformed output and an identical consumed count, and fails exactly when
/// its child fails.
pub proof fn lemma_mapped_characterization<F, P>(m: Mapped<F, P>, input: Seq<u8>)where
    P: Parser,
    F: Transform<P::Output>,

    ensures
        m.spec_parse(input) is Some <==> m.p.spec_parse(input) is Some,
        m.p.spec_parse(input) matches Some((v, n)) ==> m.spec_parse(input) == Some((
            m.f.spec_transform(v),
            n,
        )),
{
}

} // verus!
