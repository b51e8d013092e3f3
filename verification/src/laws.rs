//! What holds of the combinators and primitives for every input.

use crate::parser::{
    halts, maybe_outcome, one_or_more_outcome, pair_outcome, steps, zero_or_more_outcome, Input,
};
use crate::primitives::{literal_outcome, starts_with};
use vstd::prelude::*;

verus! {

/// A literal parser succeeds on the literal followed by any text `tail`, and
/// leaves exactly `tail`; on an input that does not begin with the literal it
/// fails and hands the input back as the error.
pub proof fn lemma_literal_consumes_itself<'a>(
    literal: Seq<char>,
    tail: Seq<char>,
    input: &'a str,
    r: Result<(&'a str, ()), &'a str>,
)
    requires
        literal_outcome(literal, input, r),
    ensures
        input@ == literal + tail ==> (r matches Ok((rest, _)) && rest@ == tail),
        !starts_with(input@, literal) ==> r == Err::<(&'a str, ()), &'a str>(input),
{
    if input@ == literal + tail {
        assert(input@.take(literal.len() as int) =~= literal);
        assert(input@.skip(literal.len() as int) =~= tail);
    }
}

/// A parser made optional never fails. Where every run of the parser on
/// `input` fails, the result is the input untouched with a default output;
/// where the parser can only return `found`, the result is `found`.
pub proof fn lemma_maybe_never_fails<F, I, O, E>(parser: F, input: I, r: Result<(I, O), E>) where
    F: Fn(I) -> Result<(I, O), E>,
    O: Default,

    requires
        maybe_outcome(parser, input, r),
    ensures
        r is Ok,
        (forall|r1: Result<(I, O), E>| call_ensures(parser, (input,), r1) ==> r1 is Err) ==> (
        r matches Ok((rest, out)) && rest == input && call_ensures(O::default, (), out)),
        forall|found: (I, O)|
            (forall|r1: Result<(I, O), E>| #[trigger]
                call_ensures(parser, (input,), r1) ==> r1 == Ok::<(I, O), E>(found)) ==> r == Ok::<
                (I, O),
                E,
            >(found),
{
}

/// Each recorded run of a repetition leaves strictly less input, so the
/// input left after `k` runs is at least `k` short of the start.
pub proof fn lemma_steps_shrink<F, I, O, E>(parser: F, trace: Seq<I>, outs: Seq<O>, k: int) where
    F: Fn(I) -> Result<(I, O), E>,
    I: Input,

    requires
        steps(parser, trace, outs),
        0 <= k <= outs.len(),
    ensures
        trace[k].remaining() + k <= trace[0].remaining(),
    decreases k,
{
    if k > 0 {
        lemma_steps_shrink(parser, trace, outs, k - 1);
        let _ = outs[k - 1];
    }
}

/// A repetition never fails, never leaves more input than it was given,
/// yields no more outputs than the input shrank by, and stops only where a
/// further run of the parser may fail or make no progress.
pub proof fn lemma_repetition_is_greedy<F, I, O, E>(
    parser: F,
    input: I,
    r: Result<(I, Vec<O>), E>,
) where F: Fn(I) -> Result<(I, O), E>, I: Input
    requires
        zero_or_more_outcome(parser, input, r),
    ensures
        r matches Ok((rest, outs)) && rest.remaining() + outs@.len() <= input.remaining() && halts(
            parser,
            rest,
        ),
{
    match r {
        Ok((rest, outs)) => {
            let trace = choose|trace: Seq<I>| #[trigger]
                steps(parser, trace, outs@) && trace[0] == input && trace.last() == rest && halts(
                    parser,
                    rest,
                );
            lemma_steps_shrink(parser, trace, outs@, outs@.len() as int);
        },
        Err(_) => {},
    }
}

/// Where no run of the parser on `input` both succeeds and leaves strictly
/// less input, be it because every run fails or because the parser matches
/// without consuming anything, the repetition yields no output and leaves the
/// input untouched.
pub proof fn lemma_repetition_without_progress<F, I, O, E>(
    parser: F,
    input: I,
    r: Result<(I, Vec<O>), E>,
) where F: Fn(I) -> Result<(I, O), E>, I: Input
    requires
        zero_or_more_outcome(parser, input, r),
        forall|rest: I, out: O| #[trigger]
            call_ensures(parser, (input,), Ok::<(I, O), E>((rest, out))) ==> rest.remaining()
                >= input.remaining(),
    ensures
        r matches Ok((rest, outs)) && rest == input && outs@.len() == 0,
{
    match r {
        Ok((rest, outs)) => {
            let trace = choose|trace: Seq<I>| #[trigger]
                steps(parser, trace, outs@) && trace[0] == input && trace.last() == rest && halts(
                    parser,
                    rest,
                );
            if outs@.len() > 0 {
                let _ = outs@[0];
                assert(call_ensures(parser, (trace[0],), Ok::<(I, O), E>((trace[1], outs@[0]))));
            }
        },
        Err(_) => {},
    }
}

/// A non-empty repetition is the parser followed by its repetition, with the
/// first output put in front: whatever `first_then_rest` may be returned by
/// running the parser and then a function `repeat` that repeats it, the same
/// with the head prepended is a result of the non-empty repetition.
pub proof fn lemma_one_or_more_is_pair<F, Z, I, O, E>(
    parser: F,
    repeat: Z,
    input: I,
    first_then_rest: Result<(I, (O, Vec<O>)), E>,
    r: Result<(I, Vec<O>), E>,
) where
    F: Fn(I) -> Result<(I, O), E>,
    Z: Fn(I) -> Result<(I, Vec<O>), E>,
    I: Input,

    requires
        forall|at: I, rz: Result<(I, Vec<O>), E>| #[trigger]
            call_ensures(repeat, (at,), rz) ==> zero_or_more_outcome(parser, at, rz),
        pair_outcome(parser, repeat, input, first_then_rest),
        match first_then_rest {
            Err(e) => r == Err::<(I, Vec<O>), E>(e),
            Ok((end, (head, others))) => r matches Ok((rest, all)) && rest == end && all@
                == seq![head] + others@,
        },
    ensures
        one_or_more_outcome(parser, input, r),
{
    let r1 = choose|r1: Result<(I, O), E>| #[trigger]
        call_ensures(parser, (input,), r1) && match r1 {
            Err(e) => first_then_rest == Err::<(I, (O, Vec<O>)), E>(e),
            Ok((rest, left)) => exists|r2: Result<(I, Vec<O>), E>| #[trigger]
                call_ensures(repeat, (rest,), r2) && match r2 {
                    Err(e) => first_then_rest == Err::<(I, (O, Vec<O>)), E>(e),
                    Ok((end, right)) => first_then_rest == Ok::<(I, (O, Vec<O>)), E>(
                        (end, (left, right)),
                    ),
                },
        };
    match r1 {
        Err(e) => {},
        Ok((mid, head)) => {
            let r2 = choose|r2: Result<(I, Vec<O>), E>| #[trigger]
                call_ensures(repeat, (mid,), r2) && match r2 {
                    Err(e) => first_then_rest == Err::<(I, (O, Vec<O>)), E>(e),
                    Ok((end, right)) => first_then_rest == Ok::<(I, (O, Vec<O>)), E>(
                        (end, (head, right)),
                    ),
                };
            assert(zero_or_more_outcome(parser, mid, r2));
            match (r2, r) {
                (Ok((end, right)), Ok((rest, all))) => {
                    assert(all@.skip(1) =~= right@);
                },
                _ => {},
            }
        },
    }
}

/// Where every run of the parser on `input` fails, the non-empty repetition
/// fails with an error that the parser gave; where every run succeeds, the
/// non-empty repetition succeeds with at least one output, the first of
/// which the parser gave on `input`.
pub proof fn lemma_one_or_more_follows_first_run<F, I, O, E>(
    parser: F,
    input: I,
    r: Result<(I, Vec<O>), E>,
) where F: Fn(I) -> Result<(I, O), E>, I: Input
    requires
        one_or_more_outcome(parser, input, r),
    ensures
        (forall|r1: Result<(I, O), E>| call_ensures(parser, (input,), r1) ==> r1 is Err) ==> (
        r matches Err(e) && call_ensures(parser, (input,), Err::<(I, O), E>(e))),
        (forall|r1: Result<(I, O), E>| call_ensures(parser, (input,), r1) ==> r1 is Ok) ==> (
        r matches Ok((rest, outs)) && outs@.len() >= 1 && exists|mid: I|
            call_ensures(parser, (input,), Ok::<(I, O), E>((mid, outs@[0])))),
{
}

} // verus!
