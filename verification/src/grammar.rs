//! The grammar of a command's help text, and the record it is read into.
//!
//! A help text is a command name, a description, any number of blocks that
//! each hold an argument list and a result list, and examples:
//!
//! ```text
//! [z_]<word><description>
//! Arguments:<arguments>Result:<results>      (any number of times)
//! Examples:<examples>
//! ```
//!
//! The description ends at the first `Arguments:`. An argument list ends at
//! the next `Result:`; a result list ends at the next `Arguments:` if there is
//! one ahead, and at `Examples:` otherwise. A text without any `Arguments:`
//! has no blocks, and its description ends at `Examples:`. The examples are
//! whatever follows that marker. Nothing is trimmed: each text is taken as it
//! stands between the name or a marker and the next marker.

use crate::parser::{
    extend_outcome, halts, map_outcome, maybe_outcome, pair_outcome, steps, Append, Input, Parser,
};
use crate::primitives::{
    bare_word, first_occurrence, is_letter_run, lemma_suffix_remaining, literal_outcome,
    match_literal, occurs, occurs_at, split_at, split_outcome, starts_with, word_outcome,
};
use vstd::prelude::*;
use vstd::string::StringExecFns;

verus! {

/// The prefix that a command name may begin with.
pub open spec fn name_prefix() -> Seq<char> {
    "z_"@
}

/// The marker in front of an argument list.
pub open spec fn arguments_marker() -> Seq<char> {
    "Arguments:"@
}

/// The marker in front of a result list.
pub open spec fn result_marker() -> Seq<char> {
    "Result:"@
}

/// The marker in front of the examples.
pub open spec fn examples_marker() -> Seq<char> {
    "Examples:"@
}

/// The offset of the first occurrence of `needle` in `text`.
pub open spec fn find(text: Seq<char>, needle: Seq<char>) -> Option<int> {
    if occurs(text, needle) {
        Some(choose|i: int| first_occurrence(text, needle, i))
    } else {
        None
    }
}

/// The text before the first occurrence of `needle` in `text`, and the text
/// behind that occurrence.
pub open spec fn split_text(text: Seq<char>, needle: Seq<char>) -> Option<(Seq<char>, Seq<char>)> {
    match find(text, needle) {
        Some(i) => Some((text.take(i), text.skip(i + needle.len()))),
        None => None,
    }
}

/// The texts before the first `first` and between it and the next `second`,
/// and the text behind that; where a marker is missing, the text in which it
/// was looked for.
pub open spec fn split_pair(text: Seq<char>, first: Seq<char>, second: Seq<char>) -> Result<
    (Seq<char>, Seq<char>, Seq<char>),
    Seq<char>,
> {
    match split_text(text, first) {
        None => Err(text),
        Some((head, middle)) => match split_text(middle, second) {
            None => Err(middle),
            Some((body, rest)) => Ok((head, body, rest)),
        },
    }
}

/// The length of the longest leading run of ASCII letters in `text`.
pub open spec fn word_length(text: Seq<char>) -> int {
    choose|n: int| is_letter_run(text, n)
}

/// The command name that `text` begins with, and the text behind it: the
/// prefix, where the text begins with it, and the letters that follow.
pub open spec fn split_name(text: Seq<char>) -> (Seq<char>, Seq<char>) {
    let prefix = if starts_with(text, name_prefix()) {
        name_prefix()
    } else {
        Seq::<char>::empty()
    };
    let behind = text.skip(prefix.len() as int);
    let n = word_length(behind);
    (prefix + behind.take(n), behind.skip(n))
}

/// A needle that occurs in a text has a first occurrence there, which is
/// where `find` says.
pub proof fn lemma_find_is_first(text: Seq<char>, needle: Seq<char>, i: int)
    requires
        occurs_at(text, needle, i),
    ensures
        find(text, needle) matches Some(j) && first_occurrence(text, needle, j) && j <= i,
    decreases i,
{
    if forall|j: int| 0 <= j < i ==> !occurs_at(text, needle, j) {
        assert(first_occurrence(text, needle, i));
        lemma_find(text, needle, i);
    } else {
        let j = choose|j: int| 0 <= j < i && occurs_at(text, needle, j);
        lemma_find_is_first(text, needle, j);
    }
}

/// The first occurrence of a needle is at one offset only, which `find`
/// gives.
pub proof fn lemma_find(text: Seq<char>, needle: Seq<char>, i: int)
    requires
        first_occurrence(text, needle, i),
    ensures
        find(text, needle) == Some(i),
        split_text(text, needle) == Some((text.take(i), text.skip(i + needle.len()))),
{
    assert(occurs_at(text, needle, i));
    let j = choose|j: int| first_occurrence(text, needle, j);
    assert(first_occurrence(text, needle, j));
    if j < i {
        assert(!occurs_at(text, needle, j));
    }
    if i < j {
        assert(!occurs_at(text, needle, i));
    }
}

/// Every text has a longest leading run of letters, and `word_length` is its
/// length. `k` is a number of leading letters already known.
pub proof fn lemma_word_exists(text: Seq<char>, k: int)
    requires
        0 <= k <= text.len(),
        forall|i: int| 0 <= i < k ==> crate::primitives::is_ascii_letter(#[trigger] text[i]),
    ensures
        is_letter_run(text, word_length(text)),
    decreases text.len() - k,
{
    if k < text.len() && crate::primitives::is_ascii_letter(text[k]) {
        lemma_word_exists(text, k + 1);
    } else {
        assert(is_letter_run(text, k));
    }
}

/// The longest leading run of letters has one length only, which
/// `word_length` gives.
pub proof fn lemma_word_length(text: Seq<char>, n: int)
    requires
        is_letter_run(text, n),
    ensures
        word_length(text) == n,
{
    let m = choose|m: int| is_letter_run(text, m);
    assert(is_letter_run(text, m));
    if m < n {
        let _ = text[m];
    }
    if n < m {
        let _ = text[n];
    }
}

/// What reading two marked texts gives on `input`, in terms of `split_pair`:
/// the two texts and what is left, or as the error the text in which a
/// marker was missing.
pub open spec fn section_outcome<'a>(
    first: Seq<char>,
    second: Seq<char>,
    input: &'a str,
    r: Result<(&'a str, (String, String)), &'a str>,
) -> bool {
    match split_pair(input@, first, second) {
        Ok((head, body, rest)) => r matches Ok((left, (x, y))) && x@ == head && y@ == body && left@
            == rest,
        Err(e) => r matches Err(at) && at@ == e,
    }
}

/// A parser that gives the text up to the first `first` and the text from
/// there to the next `second`, and leaves what follows.
pub fn section<'a, 'b: 'a>(first: &'b str, second: &'b str) -> (p: Parser<
    impl Fn(&'a str) -> Result<(&'a str, (String, String)), &'a str> + Copy,
    &'a str,
    (String, String),
    &'a str,
>)
    ensures
        forall|input: &'a str| #[trigger] p.accepts(input),
        forall|input: &'a str, r: Result<(&'a str, (String, String)), &'a str>| #[trigger]
            p.yields(input, r) ==> section_outcome(first@, second@, input, r),
{
    let head = split_at(first);
    let body = split_at(second);
    let p = head.pair(body.parser);
    proof {
        assert forall|input: &'a str| #[trigger] p.accepts(input) by {
            assert(crate::parser::pair_accepts(head.parser, body.parser, input));
        }
        assert forall|input: &'a str, r: Result<(&'a str, (String, String)), &'a str>| #[trigger]
            p.yields(input, r) implies section_outcome(first@, second@, input, r) by {
            assert(pair_outcome(head.parser, body.parser, input, r));
            let r1 = choose|r1: Result<(&'a str, String), &'a str>| #[trigger]
                call_ensures(head.parser, (input,), r1) && match r1 {
                    Err(e) => r == Err::<(&'a str, (String, String)), &'a str>(e),
                    Ok((rest, left)) => exists|r2: Result<(&'a str, String), &'a str>| #[trigger]
                        call_ensures(body.parser, (rest,), r2) && match r2 {
                            Err(e) => r == Err::<(&'a str, (String, String)), &'a str>(e),
                            Ok((end, right)) => r == Ok::<
                                (&'a str, (String, String)),
                                &'a str,
                            >((end, (left, right))),
                        },
                };
            assert(split_outcome(first@, input, r1));
            match r1 {
                Err(e) => {},
                Ok((middle, left)) => {
                    lemma_find(input@, first@, left@.len() as int);
                    let r2 = choose|r2: Result<(&'a str, String), &'a str>| #[trigger]
                        call_ensures(body.parser, (middle,), r2) && match r2 {
                            Err(e) => r == Err::<(&'a str, (String, String)), &'a str>(e),
                            Ok((end, right)) => r == Ok::<
                                (&'a str, (String, String)),
                                &'a str,
                            >((end, (left, right))),
                        };
                    assert(split_outcome(second@, middle, r2));
                    match r2 {
                        Err(e) => {},
                        Ok((end, right)) => {
                            lemma_find(middle@, second@, right@.len() as int);
                        },
                    }
                },
            }
        }
    }
    p
}

/// What reading a command name gives on `input`: the name and what follows
/// it, as `split_name` gives them. Never an error.
pub open spec fn name_outcome<'a>(input: &'a str, r: Result<(&'a str, String), &'a str>) -> bool {
    r matches Ok((rest, name)) && name@ == split_name(input@).0 && rest@ == split_name(input@).1
}

fn prefix_text(_found: ()) -> (s: String)
    ensures
        s@ == name_prefix(),
{
    String::from_str("z_")
}

/// A parser that reads a command name: the prefix `z_` where it is there,
/// and the word behind it.
pub fn rpc_name<'a>() -> (p: Parser<
    impl Fn(&'a str) -> Result<(&'a str, String), &'a str> + Copy,
    &'a str,
    String,
    &'a str,
>)
    ensures
        forall|input: &'a str| #[trigger] p.accepts(input),
        forall|input: &'a str, r: Result<(&'a str, String), &'a str>| #[trigger]
            p.yields(input, r) ==> name_outcome(input, r),
{
    let literal = match_literal("z_");
    let named = literal.map(prefix_text);
    let prefix = named.maybe();
    let p = prefix.extend(bare_word);
    proof {
        assert forall|input: &'a str| #[trigger] p.accepts(input) by {
            assert(crate::parser::map_accepts(literal.parser, prefix_text, input));
            assert(named.accepts(input));
            assert(prefix.accepts(input));
            assert(crate::parser::pair_accepts(prefix.parser, bare_word, input));
        }
        assert forall|input: &'a str, r: Result<(&'a str, String), &'a str>| #[trigger]
            p.yields(input, r) implies name_outcome(input, r) by {
            assert(extend_outcome(prefix.parser, bare_word, input, r));
            let both = choose|both: Result<(&'a str, (String, String)), &'a str>| #[trigger]
                pair_outcome(prefix.parser, bare_word, input, both) && match both {
                    Err(e) => r == Err::<(&'a str, String), &'a str>(e),
                    Ok((end, (left, right))) => match r {
                        Ok((rest, whole)) => rest == end && left.appended(right, whole),
                        Err(_) => false,
                    },
                };
            let r1 = choose|r1: Result<(&'a str, String), &'a str>| #[trigger]
                call_ensures(prefix.parser, (input,), r1) && match r1 {
                    Err(e) => both == Err::<(&'a str, (String, String)), &'a str>(e),
                    Ok((rest, left)) => exists|r2: Result<(&'a str, String), &'a str>| #[trigger]
                        call_ensures(bare_word, (rest,), r2) && match r2 {
                            Err(e) => both == Err::<(&'a str, (String, String)), &'a str>(e),
                            Ok((end, right)) => both == Ok::<
                                (&'a str, (String, String)),
                                &'a str,
                            >((end, (left, right))),
                        },
                };
            assert(r1 is Ok && maybe_outcome(named.parser, input, r1));
            let r0 = choose|r0: Result<(&'a str, String), &'a str>| #[trigger]
                call_ensures(named.parser, (input,), r0) && match r0 {
                    Ok(found) => r1 == Ok::<(&'a str, String), &'a str>(found),
                    Err(_) => exists|fallback: String| #[trigger]
                        call_ensures(String::default, (), fallback) && r1 == Ok::<
                            (&'a str, String),
                            &'a str,
                        >((input, fallback)),
                };
            assert(map_outcome(literal.parser, prefix_text, input, r0));
            let rl = choose|rl: Result<(&'a str, ()), &'a str>| #[trigger]
                call_ensures(literal.parser, (input,), rl) && match rl {
                    Err(e) => r0 == Err::<(&'a str, String), &'a str>(e),
                    Ok((rest, out)) => exists|mapped: String| #[trigger]
                        call_ensures(prefix_text, (out,), mapped) && r0 == Ok::<
                            (&'a str, String),
                            &'a str,
                        >((rest, mapped)),
                };
            assert(literal_outcome("z_"@, input, rl));
            match r1 {
                Err(e) => {},
                Ok((behind, left)) => {
                    let r2 = choose|r2: Result<(&'a str, String), &'a str>| #[trigger]
                        call_ensures(bare_word, (behind,), r2) && match r2 {
                            Err(e) => both == Err::<(&'a str, (String, String)), &'a str>(e),
                            Ok((end, right)) => both == Ok::<
                                (&'a str, (String, String)),
                                &'a str,
                            >((end, (left, right))),
                        };
                    assert(word_outcome(behind, r2));
                    match r2 {
                        Err(e) => {},
                        Ok((end, right)) => {
                            lemma_word_length(behind@, right@.len() as int);
                            if starts_with(input@, name_prefix()) {
                                assert(left@ == name_prefix());
                                assert(behind@ == input@.skip(name_prefix().len() as int));
                            } else {
                                assert(left@ == Seq::<char>::empty());
                                assert(behind@ =~= input@.skip(0));
                            }
                        },
                    }
                },
            }
        }
    }
    p
}

/// What a command's help text holds.
#[derive(Debug, PartialEq, Eq)]
pub struct HelpRecord {
    pub name: String,
    pub description: String,
    pub arguments: Vec<String>,
    pub results: Vec<String>,
    pub examples: String,
}

/// A help record as plain texts.
pub struct HelpText {
    pub name: Seq<char>,
    pub description: Seq<char>,
    pub arguments: Seq<Seq<char>>,
    pub results: Seq<Seq<char>>,
    pub examples: Seq<char>,
}

/// The texts that a list of strings holds.
pub open spec fn texts(strings: Seq<String>) -> Seq<Seq<char>> {
    Seq::new(strings.len(), |i: int| strings[i]@)
}

impl View for HelpRecord {
    type V = HelpText;

    open spec fn view(&self) -> HelpText {
        HelpText {
            name: self.name@,
            description: self.description@,
            arguments: texts(self.arguments@),
            results: texts(self.results@),
            examples: self.examples@,
        }
    }
}

/// The blocks that `text` begins with, each an argument list that ends at
/// `Result:` and a result list that ends at `Arguments:`, and the text behind
/// the last of them.
pub open spec fn split_blocks(text: Seq<char>) -> (Seq<(Seq<char>, Seq<char>)>, Seq<char>)
    decreases text.len(),
{
    match split_pair(text, result_marker(), arguments_marker()) {
        Ok((arguments, results, rest)) => if rest.len() < text.len() {
            let (more, end) = split_blocks(rest);
            (seq![(arguments, results)] + more, end)
        } else {
            (Seq::empty(), text)
        },
        Err(_) => (Seq::empty(), text),
    }
}

/// The record that `text` holds, or the text in which a marker was missing.
pub open spec fn parse_text(text: Seq<char>) -> Result<HelpText, Seq<char>> {
    let (name, behind) = split_name(text);
    match split_text(behind, arguments_marker()) {
        Some((description, body)) => {
            let (blocks, last) = split_blocks(body);
            match split_pair(last, result_marker(), examples_marker()) {
                Ok((arguments, results, examples)) => Ok(
                    HelpText {
                        name,
                        description,
                        arguments: Seq::new(blocks.len(), |i: int| blocks[i].0).push(arguments),
                        results: Seq::new(blocks.len(), |i: int| blocks[i].1).push(results),
                        examples,
                    },
                ),
                Err(at) => Err(at),
            }
        },
        None => match split_text(behind, examples_marker()) {
            Some((description, examples)) => Ok(
                HelpText {
                    name,
                    description,
                    arguments: Seq::empty(),
                    results: Seq::empty(),
                    examples,
                },
            ),
            None => Err(behind),
        },
    }
}

/// The texts of the blocks that a repetition has read.
pub open spec fn block_texts(blocks: Seq<(String, String)>) -> Seq<(Seq<char>, Seq<char>)> {
    Seq::new(blocks.len(), |i: int| (blocks[i].0@, blocks[i].1@))
}

/// Where both markers are found, what is left is what remains of the text
/// after a positive number of characters.
pub proof fn lemma_split_pair_consumes(text: Seq<char>, first: Seq<char>, second: Seq<char>)
    requires
        first.len() + second.len() > 0,
    ensures
        split_pair(text, first, second) matches Ok((_, _, rest)) ==> exists|n: int|
            0 < n <= text.len() && rest == #[trigger] text.skip(n),
{
    match split_text(text, first) {
        None => {},
        Some((head, middle)) => {
            let i = find(text, first)->0;
            lemma_find_is_first(text, first, choose|w: int| occurs_at(text, first, w));
            match split_text(middle, second) {
                None => {},
                Some((body, rest)) => {
                    let j = find(middle, second)->0;
                    lemma_find_is_first(middle, second, choose|w: int| occurs_at(middle, second, w));
                    let n = i + first.len() + j + second.len();
                    assert(rest =~= text.skip(n));
                },
            }
        },
    }
}

/// A repetition of a parser that reads one block gives, from the input
/// after `k` runs, the blocks that `split_blocks` finds there, and stops
/// where it says.
proof fn lemma_blocks<'a, F>(
    block: F,
    trace: Seq<&'a str>,
    outs: Seq<(String, String)>,
    k: int,
) where F: Fn(&'a str) -> Result<(&'a str, (String, String)), &'a str>
    requires
        forall|input: &'a str, r: Result<(&'a str, (String, String)), &'a str>| #[trigger]
            call_ensures(block, (input,), r) ==> section_outcome(
                result_marker(),
                arguments_marker(),
                input,
                r,
            ),
        steps(block, trace, outs),
        halts(block, trace.last()),
        0 <= k <= outs.len(),
    ensures
        split_blocks(trace[k]@) == (block_texts(outs.skip(k)), trace.last()@),
    decreases outs.len() - k,
{
    reveal_strlit("Result:");
    reveal_strlit("Arguments:");
    let at = trace[k];
    lemma_split_pair_consumes(at@, result_marker(), arguments_marker());
    if k == outs.len() {
        let r = choose|r: Result<(&'a str, (String, String)), &'a str>| #[trigger]
            call_ensures(block, (at,), r) && match r {
                Err(_) => true,
                Ok((rest, _)) => rest.remaining() >= at.remaining(),
            };
        assert(section_outcome(result_marker(), arguments_marker(), at, r));
        match r {
            Err(_) => {},
            Ok((rest, _)) => {
                let n = choose|n: int| 0 < n <= at@.len() && rest@ == #[trigger] at@.skip(n);
                lemma_suffix_remaining(at, rest, n);
            },
        }
        assert(block_texts(outs.skip(k)) =~= Seq::empty());
    } else {
        let next = trace[k + 1];
        let out = outs[k];
        assert(call_ensures(
            block,
            (at,),
            Ok::<(&'a str, (String, String)), &'a str>((next, out)),
        ));
        assert(section_outcome(
            result_marker(),
            arguments_marker(),
            at,
            Ok::<(&'a str, (String, String)), &'a str>((next, out)),
        ));
        lemma_blocks(block, trace, outs, k + 1);
        assert(block_texts(outs.skip(k)) =~= seq![(out.0@, out.1@)] + block_texts(
            outs.skip(k + 1),
        ));
    }
}

/// What reading a help text gives on `input`: the record that `parse_text`
/// finds in it, or as the error the part of the input in which a marker was
/// missing.
pub open spec fn help_outcome<'a>(input: &'a str, r: Result<HelpRecord, &'a str>) -> bool {
    match parse_text(input@) {
        Ok(record) => r matches Ok(found) && found@ == record,
        Err(at) => r matches Err(e) && e@ == at,
    }
}

/// Reads one command's help text into a record. Where a marker is missing
/// there is no record, and the error is the part of the input in which the
/// marker was looked for.
pub fn parse_help<'a>(input: &'a str) -> (r: Result<HelpRecord, &'a str>)
    ensures
        help_outcome(input, r),
{
    let (behind, name) = match rpc_name().parse(input) {
        Ok(found) => found,
        Err(e) => {
            return Err(e);
        },
    };
    match split_at("Arguments:").parse(behind) {
        Ok((body, description)) => {
            proof {
                lemma_find(behind@, arguments_marker(), description@.len() as int);
            }
            let block = section("Result:", "Arguments:");
            let (last, blocks) = match block.zero_or_more().parse(body) {
                Ok(found) => found,
                Err(e) => {
                    return Err(e);
                },
            };
            proof {
                let trace = choose|trace: Seq<&'a str>| #[trigger]
                    steps(block.parser, trace, blocks@) && trace[0] == body && trace.last() == last
                        && halts(block.parser, last);
                lemma_blocks(block.parser, trace, blocks@, 0);
                assert(blocks@.skip(0) =~= blocks@);
            }
            match section("Result:", "Examples:").parse(last) {
                Ok((rest, (arguments, results))) => {
                    let mut all_arguments: Vec<String> = Vec::new();
                    let mut all_results: Vec<String> = Vec::new();
                    let mut i: usize = 0;
                    while i < blocks.len()
                        invariant
                            0 <= i <= blocks.len(),
                            all_arguments@.len() == i,
                            all_results@.len() == i,
                            forall|j: int|
                                0 <= j < i ==> (#[trigger] all_arguments@[j])@ == blocks@[j].0@,
                            forall|j: int|
                                0 <= j < i ==> (#[trigger] all_results@[j])@ == blocks@[j].1@,
                        decreases blocks.len() - i,
                    {
                        all_arguments.push(blocks[i].0.clone());
                        all_results.push(blocks[i].1.clone());
                        i += 1;
                    }
                    all_arguments.push(arguments);
                    all_results.push(results);
                    let record = HelpRecord {
                        name,
                        description,
                        arguments: all_arguments,
                        results: all_results,
                        examples: String::from_str(rest),
                    };
                    proof {
                        let found = split_blocks(body@).0;
                        assert(found == block_texts(blocks@));
                        assert(record@.arguments =~= Seq::new(found.len(), |i: int| found[i].0).push(
                            arguments@,
                        ));
                        assert(record@.results =~= Seq::new(found.len(), |i: int| found[i].1).push(
                            results@,
                        ));
                    }
                    Ok(record)
                },
                Err(e) => Err(e),
            }
        },
        Err(_) => match split_at("Examples:").parse(behind) {
            Ok((rest, description)) => {
                proof {
                    lemma_find(behind@, examples_marker(), description@.len() as int);
                }
                let record = HelpRecord {
                    name,
                    description,
                    arguments: Vec::new(),
                    results: Vec::new(),
                    examples: String::from_str(rest),
                };
                proof {
                    assert(record@.arguments =~= Seq::empty());
                    assert(record@.results =~= Seq::empty());
                }
                Ok(record)
            },
            Err(e) => Err(e),
        },
    }
}

/// Whether `input` is a well-formed help text: whether `parse_help` finds a
/// record in it.
pub fn is_well_formed(input: &str) -> (b: bool)
    ensures
        b == parse_text(input@) is Ok,
{
    parse_help(input).is_ok()
}

/// Whether `part` is what remains of `text` after some of its characters.
pub open spec fn is_suffix(part: Seq<char>, text: Seq<char>) -> bool {
    exists|k: int| 0 <= k <= text.len() && part == #[trigger] text.skip(k)
}

/// A needle that occurs in what remains of a text occurs in the text.
pub proof fn lemma_occurs_in_suffix(part: Seq<char>, text: Seq<char>, needle: Seq<char>)
    requires
        is_suffix(part, text),
        occurs(part, needle),
    ensures
        occurs(text, needle),
{
    let k = choose|k: int| 0 <= k <= text.len() && part == #[trigger] text.skip(k);
    let i = choose|i: int| occurs_at(part, needle, i);
    assert(text.subrange(k + i, k + i + needle.len()) =~= part.subrange(i, i + needle.len()));
    assert(occurs_at(text, needle, k + i));
}

/// What is left behind the first occurrence of a needle remains of the text.
pub proof fn lemma_split_text_suffix(text: Seq<char>, needle: Seq<char>)
    ensures
        split_text(text, needle) matches Some((_, rest)) ==> is_suffix(rest, text),
{
    if occurs(text, needle) {
        lemma_find_is_first(text, needle, choose|w: int| occurs_at(text, needle, w));
        let i = find(text, needle)->0;
        assert(split_text(text, needle).unwrap().1 == text.skip(i + needle.len()));
    }
}

/// What remains of what remains of a text remains of the text.
pub proof fn lemma_suffix_of_suffix(inner: Seq<char>, middle: Seq<char>, text: Seq<char>)
    requires
        is_suffix(inner, middle),
        is_suffix(middle, text),
    ensures
        is_suffix(inner, text),
{
    let k = choose|k: int| 0 <= k <= text.len() && middle == #[trigger] text.skip(k);
    let j = choose|j: int| 0 <= j <= middle.len() && inner == #[trigger] middle.skip(j);
    assert(inner =~= text.skip(k + j));
}

/// What is left behind the blocks of a text remains of the text.
pub proof fn lemma_split_blocks_suffix(text: Seq<char>)
    ensures
        is_suffix(split_blocks(text).1, text),
    decreases text.len(),
{
    assert(text =~= text.skip(0));
    match split_pair(text, result_marker(), arguments_marker()) {
        Ok((arguments, results, rest)) => {
            if rest.len() < text.len() {
                let middle = split_text(text, result_marker()).unwrap().1;
                lemma_split_text_suffix(text, result_marker());
                lemma_split_text_suffix(middle, arguments_marker());
                lemma_suffix_of_suffix(rest, middle, text);
                lemma_split_blocks_suffix(rest);
                lemma_suffix_of_suffix(split_blocks(rest).1, rest, text);
            }
        },
        Err(_) => {},
    }
}

/// A text in which `Examples:` does not occur holds no record.
pub proof fn lemma_no_record_without_examples(text: Seq<char>)
    requires
        !occurs(text, examples_marker()),
    ensures
        parse_text(text) is Err,
{
    let (name, behind) = split_name(text);
    let prefix_len = if starts_with(text, name_prefix()) {
        name_prefix().len() as int
    } else {
        0
    };
    let after_prefix = text.skip(prefix_len);
    let n = word_length(after_prefix);
    lemma_word_exists(after_prefix, 0);
    assert(behind =~= text.skip(prefix_len + n));
    assert(is_suffix(behind, text));
    if parse_text(text) is Ok {
        match split_text(behind, arguments_marker()) {
            Some((description, body)) => {
                lemma_split_text_suffix(behind, arguments_marker());
                lemma_suffix_of_suffix(body, behind, text);
                let last = split_blocks(body).1;
                lemma_split_blocks_suffix(body);
                lemma_suffix_of_suffix(last, body, text);
                let middle = split_text(last, result_marker()).unwrap().1;
                lemma_split_text_suffix(last, result_marker());
                lemma_suffix_of_suffix(middle, last, text);
                assert(occurs(middle, examples_marker()));
                lemma_occurs_in_suffix(middle, text, examples_marker());
            },
            None => {
                assert(occurs(behind, examples_marker()));
                lemma_occurs_in_suffix(behind, text, examples_marker());
            },
        }
    }
}

} // verus!
