//! The parser type and its combinators.
//!
//! The behaviour of a parser is the contract of the function it wraps:
//! `accepts` is its precondition and `yields` relates an input to each result
//! that a call may return. A combinator states, for every input, which results
//! the combined parser may return, given what its parts may return. Where the
//! parts pin their results, so does the combination.

use vstd::prelude::*;

verus! {

/// A parsing step: a function from the remaining input to `Ok` of what is
/// left and an output, or `Err`.
pub struct Parser<F, I, O, E> {
    /// The parsing function.
    pub parser: F,
    /// Ties the types of input, output and error to the parser.
    pub phantom: core::marker::PhantomData<(I, O, E)>,
}

impl<F: Copy, I, O, E> Clone for Parser<F, I, O, E> {
    fn clone(&self) -> (copy: Self)
        ensures
            copy.parser == self.parser,
    {
        Parser { parser: self.parser, phantom: core::marker::PhantomData }
    }
}

impl<F: Copy, I, O, E> Copy for Parser<F, I, O, E> {

}

/// The results that running `first` and then, on what it leaves, `second`
/// may give on `input`: the error of whichever fails first, or else what
/// `second` leaves together with both outputs.
pub open spec fn pair_outcome<F1, F2, I, O1, O2, E>(
    first: F1,
    second: F2,
    input: I,
    r: Result<(I, (O1, O2)), E>,
) -> bool where F1: Fn(I) -> Result<(I, O1), E>, F2: Fn(I) -> Result<(I, O2), E> {
    exists|r1: Result<(I, O1), E>| #[trigger]
        call_ensures(first, (input,), r1) && match r1 {
            Err(e) => r == Err::<(I, (O1, O2)), E>(e),
            Ok((rest, left)) => exists|r2: Result<(I, O2), E>| #[trigger]
                call_ensures(second, (rest,), r2) && match r2 {
                    Err(e) => r == Err::<(I, (O1, O2)), E>(e),
                    Ok((end, right)) => r == Ok::<(I, (O1, O2)), E>((end, (left, right))),
                },
        }
}

/// The inputs on which `first` may be run and then `second` on whatever
/// `first` leaves.
pub open spec fn pair_accepts<F1, F2, I, O1, O2, E>(first: F1, second: F2, input: I) -> bool where
    F1: Fn(I) -> Result<(I, O1), E>,
    F2: Fn(I) -> Result<(I, O2), E>,
 {
    &&& call_requires(first, (input,))
    &&& forall|rest: I, left: O1| #[trigger]
        call_ensures(first, (input,), Ok::<(I, O1), E>((rest, left))) ==> call_requires(
            second,
            (rest,),
        )
}

/// The results that running `parser` and passing its output through `map_fn`
/// may give on `input`: the parser's error unchanged, or what it leaves
/// together with the transformed output.
pub open spec fn map_outcome<F, M, I, O, O2, E>(
    parser: F,
    map_fn: M,
    input: I,
    r: Result<(I, O2), E>,
) -> bool where F: Fn(I) -> Result<(I, O), E>, M: Fn(O) -> O2 {
    exists|r1: Result<(I, O), E>| #[trigger]
        call_ensures(parser, (input,), r1) && match r1 {
            Err(e) => r == Err::<(I, O2), E>(e),
            Ok((rest, out)) => exists|mapped: O2| #[trigger]
                call_ensures(map_fn, (out,), mapped) && r == Ok::<(I, O2), E>((rest, mapped)),
        }
}

/// The inputs on which `parser` may be run and `map_fn` applied to whatever
/// it outputs.
pub open spec fn map_accepts<F, M, I, O, O2, E>(parser: F, map_fn: M, input: I) -> bool where
    F: Fn(I) -> Result<(I, O), E>,
    M: Fn(O) -> O2,
 {
    &&& call_requires(parser, (input,))
    &&& forall|rest: I, out: O| #[trigger]
        call_ensures(parser, (input,), Ok::<(I, O), E>((rest, out))) ==> call_requires(
            map_fn,
            (out,),
        )
}

impl<F, I, O, E> Parser<F, I, O, E> where F: Fn(I) -> Result<(I, O), E> + Copy {
    /// Whether the parser may be run on `input`.
    #[verifier::inline]
    pub open spec fn accepts(&self, input: I) -> bool {
        call_requires(self.parser, (input,))
    }

    /// Whether running the parser on `input` may return `r`.
    #[verifier::inline]
    pub open spec fn yields(&self, input: I, r: Result<(I, O), E>) -> bool {
        call_ensures(self.parser, (input,), r)
    }

    /// Wraps a parsing function.
    pub fn new(f: F) -> (p: Self)
        ensures
            p.parser == f,
    {
        Parser { parser: f, phantom: core::marker::PhantomData }
    }

    /// Runs the parser on `input`.
    pub fn parse(&self, input: I) -> (r: Result<(I, O), E>)
        requires
            self.accepts(input),
        ensures
            self.yields(input, r),
    {
        (self.parser)(input)
    }

    /// Sequencing: runs `self`, then `other` on what `self` leaves.
    pub fn pair<F2, O2>(self, other: F2) -> (p: Parser<
        impl Fn(I) -> Result<(I, (O, O2)), E> + Copy,
        I,
        (O, O2),
        E,
    >) where F2: Fn(I) -> Result<(I, O2), E> + Copy
        ensures
            forall|input: I|
                pair_accepts(self.parser, other, input) ==> #[trigger] p.accepts(input),
            forall|input: I, r: Result<(I, (O, O2)), E>| #[trigger]
                p.yields(input, r) ==> pair_outcome(self.parser, other, input, r),
    {
        let run = move |input: I| -> (r: Result<(I, (O, O2)), E>)
            requires
                pair_accepts(self.parser, other, input),
            ensures
                pair_outcome(self.parser, other, input, r)
            {
                match self.parse(input) {
                    Ok((rest, left)) => match other(rest) {
                        Ok((end, right)) => Ok((end, (left, right))),
                        Err(e) => Err(e),
                    },
                    Err(e) => Err(e),
                }
            };
        Parser::new(run)
    }

    /// Transformation: runs `self` and passes its output through `map_fn`.
    pub fn map<M, O2>(self, map_fn: M) -> (p: Parser<impl Fn(I) -> Result<(I, O2), E> + Copy, I, O2, E>) where
        M: Fn(O) -> O2 + Copy,

        ensures
            forall|input: I|
                map_accepts(self.parser, map_fn, input) ==> #[trigger] p.accepts(input),
            forall|input: I, r: Result<(I, O2), E>| #[trigger]
                p.yields(input, r) ==> map_outcome(self.parser, map_fn, input, r),
    {
        let run = move |input: I| -> (r: Result<(I, O2), E>)
            requires
                map_accepts(self.parser, map_fn, input),
            ensures
                map_outcome(self.parser, map_fn, input, r)
            {
                match self.parse(input) {
                    Ok((rest, out)) => Ok((rest, map_fn(out))),
                    Err(e) => Err(e),
                }
            };
        Parser::new(run)
    }
}

/// An input of which a parser can tell how much is left.
pub trait Input: Copy {
    /// How much of the input is left to read.
    spec fn remaining(&self) -> nat;

    /// Whether less is left of `self` than of `other`.
    fn is_shorter_than(&self, other: &Self) -> (b: bool)
        ensures
            b == (self.remaining() < other.remaining()),
    ;
}

/// Whether a repetition of `parser` stops at `at`: a run there may fail, or
/// succeed without leaving less input than it was given.
pub open spec fn halts<F, I, O, E>(parser: F, at: I) -> bool where
    F: Fn(I) -> Result<(I, O), E>,
    I: Input,
 {
    exists|r: Result<(I, O), E>| #[trigger]
        call_ensures(parser, (at,), r) && match r {
            Err(_) => true,
            Ok((rest, _)) => rest.remaining() >= at.remaining(),
        }
}

/// Whether `trace` and `outs` record successive runs of `parser`: each run
/// starts where the one before ended, gives the next output and leaves
/// strictly less input.
pub open spec fn steps<F, I, O, E>(parser: F, trace: Seq<I>, outs: Seq<O>) -> bool where
    F: Fn(I) -> Result<(I, O), E>,
    I: Input,
 {
    &&& trace.len() == outs.len() + 1
    &&& forall|k: int|
        0 <= k < outs.len() ==> call_ensures(
            parser,
            (trace[k],),
            Ok::<(I, O), E>((trace[k + 1], #[trigger] outs[k])),
        ) && trace[k + 1].remaining() < trace[k].remaining()
}

/// Whether repeating `parser` from `input` may give the outputs `outs` and
/// leave `rest`: successive runs that each make progress lead from `input`
/// to `rest`, where the repetition stops.
pub open spec fn repetition<F, I, O, E>(parser: F, input: I, rest: I, outs: Seq<O>) -> bool where
    F: Fn(I) -> Result<(I, O), E>,
    I: Input,
 {
    exists|trace: Seq<I>| #[trigger]
        steps(parser, trace, outs) && trace[0] == input && trace.last() == rest && halts(
            parser,
            rest,
        )
}

/// The inputs from which `parser` may be repeated: it may be run wherever no
/// more is left than of `input`.
pub open spec fn repetition_accepts<F, I, O, E>(parser: F, input: I) -> bool where
    F: Fn(I) -> Result<(I, O), E>,
    I: Input,
 {
    forall|at: I| at.remaining() <= input.remaining() ==> #[trigger] call_requires(parser, (at,))
}

/// The results that repeating `parser` may give on `input`: never an error.
pub open spec fn zero_or_more_outcome<F, I, O, E>(
    parser: F,
    input: I,
    r: Result<(I, Vec<O>), E>,
) -> bool where F: Fn(I) -> Result<(I, O), E>, I: Input {
    match r {
        Ok((rest, outs)) => repetition(parser, input, rest, outs@),
        Err(_) => false,
    }
}

/// The inputs from which `parser` may be run once and then repeated from
/// whatever the first run leaves.
pub open spec fn one_or_more_accepts<F, I, O, E>(parser: F, input: I) -> bool where
    F: Fn(I) -> Result<(I, O), E>,
    I: Input,
 {
    &&& call_requires(parser, (input,))
    &&& forall|rest: I, head: O| #[trigger]
        call_ensures(parser, (input,), Ok::<(I, O), E>((rest, head))) ==> repetition_accepts(
            parser,
            rest,
        )
}

/// The results that one run of `parser` followed by a repetition may give on
/// `input`: the error of the first run, or its output in front of those of
/// the repetition.
pub open spec fn one_or_more_outcome<F, I, O, E>(
    parser: F,
    input: I,
    r: Result<(I, Vec<O>), E>,
) -> bool where F: Fn(I) -> Result<(I, O), E>, I: Input {
    exists|r1: Result<(I, O), E>| #[trigger]
        call_ensures(parser, (input,), r1) && match r1 {
            Err(e) => r == Err::<(I, Vec<O>), E>(e),
            Ok((mid, head)) => match r {
                Ok((rest, outs)) => outs@.len() >= 1 && outs@[0] == head && repetition(
                    parser,
                    mid,
                    rest,
                    outs@.skip(1),
                ),
                Err(_) => false,
            },
        }
}

impl<F, I, O, E> Parser<F, I, O, E> where F: Fn(I) -> Result<(I, O), E> + Copy, I: Input {
    /// Repetition: runs `self` again and again on what the last run left,
    /// and collects the outputs in order. It stops at the first run that
    /// fails or that does not leave strictly less input than it was given;
    /// what that run returned is discarded. The result is always `Ok`.
    pub fn zero_or_more(self) -> (p: Parser<impl Fn(I) -> Result<(I, Vec<O>), E> + Copy, I, Vec<O>, E>)
        ensures
            forall|input: I|
                repetition_accepts(self.parser, input) ==> #[trigger] p.accepts(input),
            forall|input: I, r: Result<(I, Vec<O>), E>| #[trigger]
                p.yields(input, r) ==> zero_or_more_outcome(self.parser, input, r),
    {
        let run = move |input: I| -> (r: Result<(I, Vec<O>), E>)
            requires
                repetition_accepts(self.parser, input)
            ensures
                zero_or_more_outcome(self.parser, input, r)
            {
                let mut at = input;
                let mut outs: Vec<O> = Vec::new();
                let ghost mut trace: Seq<I> = seq![input];
                loop
                    invariant
                        repetition_accepts(self.parser, input),
                        at.remaining() <= input.remaining(),
                        steps(self.parser, trace, outs@),
                        trace[0] == input,
                        trace.last() == at,
                    ensures
                        halts(self.parser, at),
                    decreases at.remaining(),
                {
                    match self.parse(at) {
                        Ok((rest, out)) => {
                            if rest.is_shorter_than(&at) {
                                proof {
                                    trace = trace.push(rest);
                                }
                                outs.push(out);
                                at = rest;
                            } else {
                                break ;
                            }
                        },
                        Err(_) => {
                            break ;
                        },
                    }
                }
                Ok((at, outs))
            };
        Parser::new(run)
    }
}

impl<F, I, O, E> Parser<F, I, O, E> where F: Fn(I) -> Result<(I, O), E> + Copy, I: Input {
    /// Non-empty repetition: one run of `self`, whose failure is the
    /// result's, followed by `zero_or_more` of it, with the first output put
    /// in front of the others.
    pub fn one_or_more(self) -> (p: Parser<
        impl Fn(I) -> Result<(I, Vec<O>), E> + Copy,
        I,
        Vec<O>,
        E,
    >)
        ensures
            forall|input: I|
                one_or_more_accepts(self.parser, input) ==> #[trigger] p.accepts(input),
            forall|input: I, r: Result<(I, Vec<O>), E>| #[trigger]
                p.yields(input, r) ==> one_or_more_outcome(self.parser, input, r),
    {
        let tail = self.zero_or_more();
        let both = self.pair(tail.parser);
        let prepend = |found: (O, Vec<O>)| -> (all: Vec<O>)
            ensures
                all@ =~= seq![found.0] + found.1@
            {
                let (head, mut others) = found;
                others.insert(0, head);
                others
            };
        let p = both.map(prepend);
        proof {
            assert forall|input: I| one_or_more_accepts(self.parser, input) implies #[trigger]
                p.accepts(input) by {
                assert forall|rest: I, left: O| #[trigger]
                    call_ensures(self.parser, (input,), Ok::<(I, O), E>((rest, left))) implies
                    call_requires(tail.parser, (rest,)) by {
                    assert(repetition_accepts(self.parser, rest));
                    assert(tail.accepts(rest));
                }
                assert(pair_accepts(self.parser, tail.parser, input));
                assert(both.accepts(input));
                assert(map_accepts(both.parser, prepend, input));
            }
            assert forall|input: I, r: Result<(I, Vec<O>), E>| #[trigger]
                p.yields(input, r) implies one_or_more_outcome(self.parser, input, r) by {
                assert(map_outcome(both.parser, prepend, input, r));
                let r0 = choose|r0: Result<(I, (O, Vec<O>)), E>| #[trigger]
                    call_ensures(both.parser, (input,), r0) && match r0 {
                        Err(e) => r == Err::<(I, Vec<O>), E>(e),
                        Ok((rest, out)) => exists|mapped: Vec<O>| #[trigger]
                            call_ensures(prepend, (out,), mapped) && r == Ok::<(I, Vec<O>), E>(
                                (rest, mapped),
                            ),
                    };
                assert(both.yields(input, r0));
                assert(pair_outcome(self.parser, tail.parser, input, r0));
                let r1 = choose|r1: Result<(I, O), E>| #[trigger]
                    call_ensures(self.parser, (input,), r1) && match r1 {
                        Err(e) => r0 == Err::<(I, (O, Vec<O>)), E>(e),
                        Ok((rest, left)) => exists|r2: Result<(I, Vec<O>), E>| #[trigger]
                            call_ensures(tail.parser, (rest,), r2) && match r2 {
                                Err(e) => r0 == Err::<(I, (O, Vec<O>)), E>(e),
                                Ok((end, right)) => r0 == Ok::<(I, (O, Vec<O>)), E>(
                                    (end, (left, right)),
                                ),
                            },
                    };
                match r1 {
                    Err(e) => {},
                    Ok((mid, head)) => {
                        let r2 = choose|r2: Result<(I, Vec<O>), E>| #[trigger]
                            call_ensures(tail.parser, (mid,), r2) && match r2 {
                                Err(e) => r0 == Err::<(I, (O, Vec<O>)), E>(e),
                                Ok((end, right)) => r0 == Ok::<(I, (O, Vec<O>)), E>(
                                    (end, (head, right)),
                                ),
                            };
                        assert(tail.yields(mid, r2));
                        assert(zero_or_more_outcome(self.parser, mid, r2));
                        match r2 {
                            Err(e) => {},
                            Ok((end, right)) => {
                                let mapped = choose|mapped: Vec<O>| #[trigger]
                                    call_ensures(prepend, ((head, right),), mapped) && r == Ok::<
                                        (I, Vec<O>),
                                        E,
                                    >((end, mapped));
                                assert(mapped@ == seq![head] + right@);
                                assert(mapped@.skip(1) =~= right@);
                            },
                        }
                    },
                }
            }
        }
        p
    }
}

/// The results that running `parser` with a fallback may give on `input`:
/// what the parser returns where it succeeds, and otherwise the whole input
/// together with the default value of the output type. Never an error.
pub open spec fn maybe_outcome<F, I, O, E>(parser: F, input: I, r: Result<(I, O), E>) -> bool where
    F: Fn(I) -> Result<(I, O), E>,
    O: Default,
 {
    exists|r1: Result<(I, O), E>| #[trigger]
        call_ensures(parser, (input,), r1) && match r1 {
            Ok(found) => r == Ok::<(I, O), E>(found),
            Err(_) => exists|fallback: O| #[trigger]
                call_ensures(O::default, (), fallback) && r == Ok::<(I, O), E>((input, fallback)),
        }
}

impl<F, I, O, E> Parser<F, I, O, E> where
    F: Fn(I) -> Result<(I, O), E> + Copy,
    I: Copy,
    O: Default,
 {
    /// Optional with default: runs `self`; where it fails, succeeds instead
    /// with the input untouched and the default value as output.
    pub fn maybe(self) -> (p: Parser<impl Fn(I) -> Result<(I, O), E> + Copy, I, O, E>)
        ensures
            forall|input: I| self.accepts(input) ==> #[trigger] p.accepts(input),
            forall|input: I, r: Result<(I, O), E>| #[trigger]
                p.yields(input, r) ==> r is Ok && maybe_outcome(self.parser, input, r),
    {
        let run = move |input: I| -> (r: Result<(I, O), E>)
            requires
                self.accepts(input)
            ensures
                r is Ok,
                maybe_outcome(self.parser, input, r)
            {
                match self.parse(input) {
                    Ok(found) => Ok(found),
                    Err(_) => Ok((input, O::default())),
                }
            };
        Parser::new(run)
    }
}

/// A container onto whose end the elements of a `Tail` can be put.
pub trait Append<Tail>: Sized {
    /// Whether `whole` is `self` followed by the elements of `tail`.
    spec fn appended(self, tail: Tail, whole: Self) -> bool;

    /// Puts the elements of `tail` onto the end of `self`.
    fn append_all(self, tail: Tail) -> (whole: Self)
        ensures
            self.appended(tail, whole),
    ;
}

impl<T> Append<Vec<T>> for Vec<T> {
    open spec fn appended(self, tail: Vec<T>, whole: Self) -> bool {
        whole@ == self@ + tail@
    }

    fn append_all(self, tail: Vec<T>) -> (whole: Self) {
        let mut whole = self;
        let mut tail = tail;
        whole.append(&mut tail);
        whole
    }
}

/// The results that running `first` and `second` in sequence and merging
/// their outputs may give on `input`: the error of whichever fails first, or
/// what `second` leaves together with the output of `first` followed by the
/// elements that `second` gave.
pub open spec fn extend_outcome<F1, F2, I, O, O2, E>(
    first: F1,
    second: F2,
    input: I,
    r: Result<(I, O), E>,
) -> bool where
    F1: Fn(I) -> Result<(I, O), E>,
    F2: Fn(I) -> Result<(I, O2), E>,
    O: Append<O2>,
 {
    exists|r1: Result<(I, (O, O2)), E>| #[trigger]
        pair_outcome(first, second, input, r1) && match r1 {
            Err(e) => r == Err::<(I, O), E>(e),
            Ok((end, (left, right))) => match r {
                Ok((rest, whole)) => rest == end && left.appended(right, whole),
                Err(_) => false,
            },
        }
}

impl<F, I, O, E> Parser<F, I, O, E> where F: Fn(I) -> Result<(I, O), E> + Copy {
    /// Concatenation: runs `self`, then `other` on what `self` leaves, and
    /// puts the elements that `other` gave onto the end of the output of
    /// `self`.
    pub fn extend<F2, O2>(self, other: F2) -> (p: Parser<
        impl Fn(I) -> Result<(I, O), E> + Copy,
        I,
        O,
        E,
    >) where F2: Fn(I) -> Result<(I, O2), E> + Copy, O: Append<O2>
        ensures
            forall|input: I|
                pair_accepts(self.parser, other, input) ==> #[trigger] p.accepts(input),
            forall|input: I, r: Result<(I, O), E>| #[trigger]
                p.yields(input, r) ==> extend_outcome(self.parser, other, input, r),
    {
        let both = self.pair(other);
        let merge = |found: (O, O2)| -> (whole: O)
            ensures
                found.0.appended(found.1, whole)
            {
                let (left, right) = found;
                left.append_all(right)
            };
        let p = both.map(merge);
        proof {
            assert forall|input: I| pair_accepts(self.parser, other, input) implies #[trigger]
                p.accepts(input) by {
                assert(both.accepts(input));
                assert(map_accepts(both.parser, merge, input));
            }
            assert forall|input: I, r: Result<(I, O), E>| #[trigger]
                p.yields(input, r) implies extend_outcome(self.parser, other, input, r) by {
                assert(map_outcome(both.parser, merge, input, r));
                let r1 = choose|r1: Result<(I, (O, O2)), E>| #[trigger]
                    call_ensures(both.parser, (input,), r1) && match r1 {
                        Err(e) => r == Err::<(I, O), E>(e),
                        Ok((rest, out)) => exists|mapped: O| #[trigger]
                            call_ensures(merge, (out,), mapped) && r == Ok::<(I, O), E>(
                                (rest, mapped),
                            ),
                    };
                assert(both.yields(input, r1));
                assert(pair_outcome(self.parser, other, input, r1));
            }
        }
        p
    }
}

} // verus!
