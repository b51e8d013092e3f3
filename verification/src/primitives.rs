//! Parsers that read the text itself: a fixed literal, a letter, an
//! identifier, a word, and the text up to a delimiter.
//!
//! Input, remainder and error are string slices of one buffer. A contract
//! speaks of a slice through its view, the sequence of its characters. On
//! failure the error is the very input that was given.

use crate::parser::{Append, Input, Parser};
use crate::text::{first_char, lemma_skip_shrinks};
use vstd::prelude::*;
use vstd::string::StringExecFns;

verus! {

/// Whether `c` is alphabetic, as `char::is_alphabetic` decides it.
pub uninterp spec fn is_alphabetic(c: char) -> bool;

/// Whether `c` is alphabetic or numeric, as `char::is_alphanumeric` decides
/// it.
pub uninterp spec fn is_alphanumeric(c: char) -> bool;

/// Calls `char::is_alphabetic`. The result is taken on trust to be a fixed
/// property of the character, named `is_alphabetic`.
#[verifier::external_body]
fn char_is_alphabetic(c: char) -> (b: bool)
    ensures
        b == is_alphabetic(c),
{
    c.is_alphabetic()
}

/// Calls `char::is_alphanumeric`. The result is taken on trust to be a fixed
/// property of the character, named `is_alphanumeric`.
#[verifier::external_body]
fn char_is_alphanumeric(c: char) -> (b: bool)
    ensures
        b == is_alphanumeric(c),
{
    c.is_alphanumeric()
}

/// Calls `String::push`, which is taken on trust to put `c` at the end of
/// the string and leave the rest as it was.
#[verifier::external_body]
fn push_char(s: &mut String, c: char)
    ensures
        final(s)@ == old(s)@.push(c),
{
    s.push(c)
}

/// Whether `c` is one of the letters `a` to `z` or `A` to `Z`.
pub open spec fn is_ascii_letter(c: char) -> bool {
    ('a' <= c && c <= 'z') || ('A' <= c && c <= 'Z')
}

/// Whether `c` may follow the first character of an identifier.
pub open spec fn is_identifier_char(c: char) -> bool {
    is_alphanumeric(c) || c == '-'
}

/// Whether `text` begins with `prefix`.
pub open spec fn starts_with(text: Seq<char>, prefix: Seq<char>) -> bool {
    prefix.len() <= text.len() && text.take(prefix.len() as int) == prefix
}

/// Whether `needle` stands in `text` at offset `i`.
pub open spec fn occurs_at(text: Seq<char>, needle: Seq<char>, i: int) -> bool {
    0 <= i && i + needle.len() <= text.len() && text.subrange(i, i + needle.len()) == needle
}

/// Whether `needle` occurs anywhere in `text`.
pub open spec fn occurs(text: Seq<char>, needle: Seq<char>) -> bool {
    exists|i: int| occurs_at(text, needle, i)
}

/// Whether `i` is the offset of the first occurrence of `needle` in `text`.
pub open spec fn first_occurrence(text: Seq<char>, needle: Seq<char>, i: int) -> bool {
    occurs_at(text, needle, i) && forall|j: int| 0 <= j < i ==> !occurs_at(text, needle, j)
}

impl<'a> Input for &'a str {
    /// The number of bytes left.
    open spec fn remaining(&self) -> nat {
        vstd::utf8::encode_utf8(self@).len()
    }

    fn is_shorter_than(&self, other: &Self) -> (b: bool) {
        self.as_bytes().len() < other.as_bytes().len()
    }
}

/// Of a slice that is what remains of another after `k` characters, no more
/// is left than of the other, and less exactly where `k` is positive.
pub proof fn lemma_suffix_remaining(whole: &str, part: &str, k: int)
    requires
        0 <= k <= whole@.len(),
        part@ == whole@.skip(k),
    ensures
        part.remaining() <= whole.remaining(),
        part.remaining() < whole.remaining() <==> k > 0,
{
    lemma_skip_shrinks(whole@, k);
}

impl Append<Vec<char>> for String {
    open spec fn appended(self, tail: Vec<char>, whole: Self) -> bool {
        whole@ == self@ + tail@
    }

    fn append_all(self, tail: Vec<char>) -> (whole: Self) {
        let mut whole = self;
        let mut i: usize = 0;
        while i < tail.len()
            invariant
                0 <= i <= tail.len(),
                whole@ == self@ + tail@.take(i as int),
            decreases tail.len() - i,
        {
            push_char(&mut whole, tail[i]);
            proof {
                assert(tail@.take(i + 1) =~= tail@.take(i as int).push(tail@[i as int]));
                assert(whole@ =~= self@ + tail@.take(i + 1));
            }
            i += 1;
        }
        proof {
            assert(tail@.take(tail.len() as int) =~= tail@);
        }
        whole
    }
}

impl Append<String> for String {
    open spec fn appended(self, tail: String, whole: Self) -> bool {
        whole@ == self@ + tail@
    }

    fn append_all(self, tail: String) -> (whole: Self) {
        let mut whole = self;
        whole.append(tail.as_str());
        whole
    }
}

fn is_ascii_letter_exec(c: char) -> (b: bool)
    ensures
        b == is_ascii_letter(c),
{
    ('a' <= c && c <= 'z') || ('A' <= c && c <= 'Z')
}

/// Removes `prefix` from the front of `input`; `None` where `input` does not
/// begin with it.
pub fn strip_prefix<'a>(input: &'a str, prefix: &str) -> (r: Option<&'a str>)
    ensures
        starts_with(input@, prefix@) ==> (r matches Some(rest) && rest@ == input@.skip(
            prefix@.len() as int,
        )),
        !starts_with(input@, prefix@) ==> r is None,
{
    let mut text = input;
    let mut want = prefix;
    let ghost mut k: int = 0;
    loop
        invariant
            0 <= k <= input@.len(),
            k <= prefix@.len(),
            text@ == input@.skip(k),
            want@ == prefix@.skip(k),
            input@.take(k) == prefix@.take(k),
        decreases want@.len(),
    {
        match first_char(want) {
            None => {
                proof {
                    assert(prefix@.take(k) =~= prefix@);
                }
                return Some(text);
            },
            Some((expected, want_rest)) => {
                match first_char(text) {
                    None => {
                        return None;
                    },
                    Some((found, text_rest)) => {
                        if found != expected {
                            proof {
                                if starts_with(input@, prefix@) {
                                    assert(input@.take(prefix@.len() as int)[k] == prefix@[k]);
                                }
                            }
                            return None;
                        }
                        proof {
                            assert(input@.take(k + 1) =~= input@.take(k).push(input@[k]));
                            assert(prefix@.take(k + 1) =~= prefix@.take(k).push(prefix@[k]));
                            assert(text_rest@ =~= input@.skip(k + 1));
                            assert(want_rest@ =~= prefix@.skip(k + 1));
                            k = k + 1;
                        }
                        text = text_rest;
                        want = want_rest;
                    },
                }
            },
        }
    }
}

/// What matching the literal `expected` gives on `input`: where the input
/// begins with it, what follows it; otherwise the input as the error.
pub open spec fn literal_outcome<'a>(
    expected: Seq<char>,
    input: &'a str,
    r: Result<(&'a str, ()), &'a str>,
) -> bool {
    if starts_with(input@, expected) {
        r matches Ok((rest, _)) && rest@ == input@.skip(expected.len() as int)
    } else {
        r == Err::<(&'a str, ()), &'a str>(input)
    }
}

/// A parser that succeeds where the input begins with `expected`, and then
/// consumes exactly that.
pub fn match_literal<'a, 'b: 'a>(expected: &'b str) -> (p: Parser<
    impl Fn(&'a str) -> Result<(&'a str, ()), &'a str> + Copy,
    &'a str,
    (),
    &'a str,
>)
    ensures
        forall|input: &'a str| #[trigger] p.accepts(input),
        forall|input: &'a str, r: Result<(&'a str, ()), &'a str>| #[trigger]
            p.yields(input, r) ==> literal_outcome(expected@, input, r),
{
    let run = move |input: &'a str| -> (r: Result<(&'a str, ()), &'a str>)
        ensures
            literal_outcome(expected@, input, r)
        {
            match strip_prefix(input, expected) {
                Some(rest) => Ok((rest, ())),
                None => Err(input),
            }
        };
    Parser::new(run)
}

/// What reading one letter gives on `input`: where the input begins with a
/// letter `a` to `z` or `A` to `Z`, that letter and what follows it;
/// otherwise the input as the error.
pub open spec fn letter_outcome<'a>(input: &'a str, r: Result<(&'a str, char), &'a str>) -> bool {
    if input@.len() > 0 && is_ascii_letter(input@[0]) {
        r matches Ok((rest, c)) && c == input@[0] && rest@ == input@.skip(1)
    } else {
        r == Err::<(&'a str, char), &'a str>(input)
    }
}

/// A parser that reads one ASCII letter.
pub fn first_letter<'a>() -> (p: Parser<
    impl Fn(&'a str) -> Result<(&'a str, char), &'a str> + Copy,
    &'a str,
    char,
    &'a str,
>)
    ensures
        forall|input: &'a str| #[trigger] p.accepts(input),
        forall|input: &'a str, r: Result<(&'a str, char), &'a str>| #[trigger]
            p.yields(input, r) ==> letter_outcome(input, r),
{
    let run = move |input: &'a str| -> (r: Result<(&'a str, char), &'a str>)
        ensures
            letter_outcome(input, r)
        {
            match first_char(input) {
                Some((c, rest)) => {
                    if is_ascii_letter_exec(c) {
                        Ok((rest, c))
                    } else {
                        Err(input)
                    }
                },
                None => Err(input),
            }
        };
    Parser::new(run)
}

/// Whether the first `n` characters of `text` are its longest leading run
/// of identifier characters.
pub open spec fn is_identifier_run(text: Seq<char>, n: int) -> bool {
    &&& 0 <= n <= text.len()
    &&& forall|i: int| 0 <= i < n ==> is_identifier_char(#[trigger] text[i])
    &&& n < text.len() ==> !is_identifier_char(text[n])
}

/// Whether the first `n` characters of `text` are its longest leading run
/// of ASCII letters.
pub open spec fn is_letter_run(text: Seq<char>, n: int) -> bool {
    &&& 0 <= n <= text.len()
    &&& forall|i: int| 0 <= i < n ==> is_ascii_letter(#[trigger] text[i])
    &&& n < text.len() ==> !is_ascii_letter(text[n])
}

/// What reading an identifier gives on `input`: where the input begins with
/// an alphabetic character, that character with the longest run of
/// identifier characters behind it, and what follows them; otherwise the
/// input as the error.
pub open spec fn identifier_outcome<'a>(
    input: &'a str,
    r: Result<(&'a str, String), &'a str>,
) -> bool {
    if input@.len() > 0 && is_alphabetic(input@[0]) {
        r matches Ok((rest, name)) && name@.len() >= 1 && is_identifier_run(
            input@.skip(1),
            name@.len() - 1,
        ) && name@ == input@.take(name@.len() as int) && rest@ == input@.skip(name@.len() as int)
    } else {
        r == Err::<(&'a str, String), &'a str>(input)
    }
}

/// Reads an identifier: an alphabetic character, then as many alphanumeric
/// characters or hyphens as follow.
pub fn identifier<'a>(input: &'a str) -> (r: Result<(&'a str, String), &'a str>)
    ensures
        identifier_outcome(input, r),
{
    let mut matched = String::new();
    let mut rest = input;
    match first_char(input) {
        Some((c, after)) => {
            if char_is_alphabetic(c) {
                push_char(&mut matched, c);
                rest = after;
            } else {
                return Err(input);
            }
        },
        None => {
            return Err(input);
        },
    }
    proof {
        assert(matched@ =~= input@.take(1));
        assert(rest@ =~= input@.skip(1));
    }
    loop
        invariant
            input@.len() > 0,
            is_alphabetic(input@[0]),
            1 <= matched@.len() <= input@.len(),
            matched@ == input@.take(matched@.len() as int),
            rest@ == input@.skip(matched@.len() as int),
            forall|i: int|
                0 <= i < matched@.len() - 1 ==> is_identifier_char(#[trigger] input@.skip(1)[i]),
        ensures
            1 <= matched@.len() <= input@.len(),
            matched@ == input@.take(matched@.len() as int),
            rest@ == input@.skip(matched@.len() as int),
            is_identifier_run(input@.skip(1), matched@.len() - 1),
        decreases rest@.len(),
    {
        let ghost n = matched@.len() as int;
        match first_char(rest) {
            Some((c, after)) => {
                if char_is_alphanumeric(c) || c == '-' {
                    push_char(&mut matched, c);
                    proof {
                        assert(input@.skip(1)[n - 1] == c);
                        assert(matched@ =~= input@.take(n + 1));
                        assert(after@ =~= input@.skip(n + 1));
                    }
                    rest = after;
                } else {
                    proof {
                        assert(input@.skip(1)[n - 1] == c);
                    }
                    break ;
                }
            },
            None => {
                break ;
            },
        }
    }
    Ok((rest, matched))
}

/// What reading a word gives on `input`: the longest leading run of ASCII
/// letters, which may be empty, and what follows it. Never an error.
pub open spec fn word_outcome<'a>(input: &'a str, r: Result<(&'a str, String), &'a str>) -> bool {
    r matches Ok((rest, word)) && is_letter_run(input@, word@.len() as int) && word@ == input@.take(
        word@.len() as int,
    ) && rest@ == input@.skip(word@.len() as int)
}

/// Reads a word: as many ASCII letters as the input begins with.
pub fn bare_word<'a>(input: &'a str) -> (r: Result<(&'a str, String), &'a str>)
    ensures
        word_outcome(input, r),
{
    let mut matched = String::new();
    let mut rest = input;
    proof {
        assert(matched@ =~= input@.take(0));
        assert(rest@ =~= input@.skip(0));
    }
    loop
        invariant
            matched@.len() <= input@.len(),
            matched@ == input@.take(matched@.len() as int),
            rest@ == input@.skip(matched@.len() as int),
            forall|i: int| 0 <= i < matched@.len() ==> is_ascii_letter(#[trigger] input@[i]),
        ensures
            matched@ == input@.take(matched@.len() as int),
            rest@ == input@.skip(matched@.len() as int),
            is_letter_run(input@, matched@.len() as int),
        decreases rest@.len(),
    {
        let ghost n = matched@.len() as int;
        match first_char(rest) {
            Some((c, after)) => {
                if is_ascii_letter_exec(c) {
                    push_char(&mut matched, c);
                    proof {
                        assert(matched@ =~= input@.take(n + 1));
                        assert(after@ =~= input@.skip(n + 1));
                    }
                    rest = after;
                } else {
                    break ;
                }
            },
            None => {
                break ;
            },
        }
    }
    Ok((rest, matched))
}

/// What splitting at `delimiter` gives on `input`: where the delimiter
/// occurs, the text before its first occurrence as output and the text
/// behind that occurrence as what is left; otherwise the input as the error.
pub open spec fn split_outcome<'a>(
    delimiter: Seq<char>,
    input: &'a str,
    r: Result<(&'a str, String), &'a str>,
) -> bool {
    if occurs(input@, delimiter) {
        r matches Ok((rest, before)) && first_occurrence(input@, delimiter, before@.len() as int)
            && before@ == input@.take(before@.len() as int) && rest@ == input@.skip(
            (before@.len() + delimiter.len()) as int,
        )
    } else {
        r == Err::<(&'a str, String), &'a str>(input)
    }
}

/// A parser that looks for the first occurrence of `delimiter`, gives the
/// text before it, and leaves the text behind it.
pub fn split_at<'a, 'b: 'a>(delimiter: &'b str) -> (p: Parser<
    impl Fn(&'a str) -> Result<(&'a str, String), &'a str> + Copy,
    &'a str,
    String,
    &'a str,
>)
    ensures
        forall|input: &'a str| #[trigger] p.accepts(input),
        forall|input: &'a str, r: Result<(&'a str, String), &'a str>| #[trigger]
            p.yields(input, r) ==> split_outcome(delimiter@, input, r),
{
    let run = move |input: &'a str| -> (r: Result<(&'a str, String), &'a str>)
        ensures
            split_outcome(delimiter@, input, r)
        {
            let mut before = String::new();
            let mut at = input;
            proof {
                assert(before@ =~= input@.take(0));
                assert(at@ =~= input@.skip(0));
            }
            loop
                invariant
                    before@.len() <= input@.len(),
                    before@ == input@.take(before@.len() as int),
                    at@ == input@.skip(before@.len() as int),
                    forall|j: int| 0 <= j < before@.len() ==> !occurs_at(input@, delimiter@, j),
                decreases at@.len(),
            {
                let ghost n = before@.len() as int;
                proof {
                    assert(starts_with(at@, delimiter@) <==> occurs_at(input@, delimiter@, n)) by {
                        if n + delimiter@.len() <= input@.len() {
                            assert(at@.take(delimiter@.len() as int) =~= input@.subrange(
                                n,
                                n + delimiter@.len(),
                            ));
                        }
                    }
                }
                match strip_prefix(at, delimiter) {
                    Some(rest) => {
                        proof {
                            assert(rest@ =~= input@.skip(n + delimiter@.len()));
                        }
                        return Ok((rest, before));
                    },
                    None => {},
                }
                match first_char(at) {
                    Some((c, after)) => {
                        push_char(&mut before, c);
                        proof {
                            assert(before@ =~= input@.take(n + 1));
                            assert(after@ =~= input@.skip(n + 1));
                        }
                        at = after;
                    },
                    None => {
                        proof {
                            assert forall|i: int| !occurs_at(input@, delimiter@, i) by {
                                if occurs_at(input@, delimiter@, i) {
                                    assert(i <= input@.len());
                                    assert(i == n);
                                }
                            }
                        }
                        return Err(input);
                    },
                }
            }
        };
    Parser::new(run)
}

} // verus!
