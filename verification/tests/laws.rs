use help_parser::{first_letter, identifier, match_literal, split_at, Input, Parser};

#[test]
fn map_keeps_success_and_failure() {
    let parser = match_literal("ab").map(|_| 7u32);
    assert_eq!(Ok(("c", 7)), parser.parse("abc"));
    assert_eq!(Err("xbc"), parser.parse("xbc"));
    let shout = Parser::new(identifier).map(|name: String| name.to_uppercase());
    assert_eq!(Ok((" b", "A-1".to_string())), shout.parse("a-1 b"));
    assert_eq!(Err("1"), shout.parse("1"));
}

#[test]
fn pair_reports_the_error_of_the_part_that_failed() {
    let parser = match_literal("ab").pair(match_literal("cd").parser);
    assert_eq!(Ok(("e", ((), ()))), parser.parse("abcde"));
    assert_eq!(Err("xbcd"), parser.parse("xbcd"));
    assert_eq!(Err("xd"), parser.parse("abxd"));
}

#[test]
fn maybe_never_fails() {
    let parser = match_literal("z_").map(|_| "z_").maybe();
    assert_eq!(Ok(("getinfo", "z_")), parser.parse("z_getinfo"));
    assert_eq!(Ok(("getinfo", "")), parser.parse("getinfo"));
    assert_eq!(Ok(("", "")), parser.parse(""));
    let count = first_letter().map(|_| 1u8).maybe();
    assert_eq!(Ok(("b", 1)), count.parse("ab"));
    assert_eq!(Ok(("1b", 0)), count.parse("1b"));
}

#[test]
fn maybe_of_a_parser_that_succeeds_is_that_parser() {
    let plain = Parser::new(identifier);
    let optional = Parser::new(identifier).maybe();
    for input in ["abc def", "a", "x-1=2"] {
        assert_eq!(plain.parse(input), optional.parse(input));
    }
}

#[test]
fn extend_puts_the_second_output_behind_the_first() {
    let parser = match_literal("z_")
        .map(|_| "z_".to_string())
        .maybe()
        .extend(first_letter().one_or_more().parser);
    assert_eq!(
        Ok((" 1", "z_getoperationresult".to_string())),
        parser.parse("z_getoperationresult 1")
    );
    assert_eq!(Ok((" 1", "settxfee".to_string())), parser.parse("settxfee 1"));
    assert_eq!(Err("_x"), parser.parse("z__x"));
    assert_eq!(Err("9"), parser.parse("9"));
}

#[test]
fn extend_joins_vectors() {
    let parser = first_letter()
        .one_or_more()
        .extend(match_literal("-").map(|_| vec!['-']).parser);
    assert_eq!(Ok(("b", vec!['a', '-'])), parser.parse("a-b"));
    assert_eq!(Ok(("", vec!['a', 'b', '-'])), parser.parse("ab-"));
    assert_eq!(Err(""), parser.parse("ab"));
    assert_eq!(Err("1"), parser.parse("ab1"));
}

#[test]
fn zero_or_more_where_the_parser_fails_at_once() {
    let parser = first_letter().zero_or_more();
    assert_eq!(Ok(("123", vec![])), parser.parse("123"));
    assert_eq!(Ok(("", vec![])), parser.parse(""));
}

#[test]
fn zero_or_more_goes_as_far_as_the_parser_does() {
    let parser = first_letter().zero_or_more();
    assert_eq!(Ok(("1c", vec!['a', 'b'])), parser.parse("ab1c"));
    assert_eq!(Ok(("", vec!['a', 'b', 'c'])), parser.parse("abc"));
    let again = first_letter();
    for input in ["ab1c", "abc", "", "9"] {
        let (rest, _) = parser.parse(input).unwrap();
        assert!(again.parse(rest).is_err());
    }
}

#[test]
fn zero_or_more_stops_on_a_match_of_nothing() {
    let empty = match_literal("").zero_or_more();
    assert_eq!(Ok(("abc", vec![])), empty.parse("abc"));
    assert_eq!(Ok(("", vec![])), empty.parse(""));
    let nothing = split_at("").zero_or_more();
    assert_eq!(Ok(("abc", vec![])), nothing.parse("abc"));
}

#[test]
fn one_or_more_stops_on_a_match_of_nothing() {
    let parser = match_literal("").one_or_more();
    assert_eq!(Ok(("abc", vec![()])), parser.parse("abc"));
}

#[test]
fn one_or_more_is_the_parser_then_its_repetition() {
    let letters = first_letter().one_or_more();
    let by_hand = first_letter()
        .pair(first_letter().zero_or_more().parser)
        .map(|(head, mut rest): (char, Vec<char>)| {
            rest.insert(0, head);
            rest
        });
    for input in ["abc", "a", "ab1", "1ab", ""] {
        assert_eq!(by_hand.parse(input), letters.parse(input));
    }
    assert_eq!(Ok(("1", vec!['a', 'b'])), letters.parse("ab1"));
    assert_eq!(Err("1ab"), letters.parse("1ab"));
}

#[test]
fn one_or_more_fails_as_the_parser_does() {
    let single = split_at(";");
    let many = split_at(";").one_or_more();
    assert_eq!(single.parse("abc").unwrap_err(), many.parse("abc").unwrap_err());
    assert_eq!(
        Ok(("c", vec!["a".to_string(), "b".to_string()])),
        many.parse("a;b;c")
    );
}

#[test]
fn a_slice_is_shorter_than_one_it_is_a_proper_part_of() {
    let whole = "début";
    let part = &whole[3..];
    assert!(part.is_shorter_than(&whole));
    assert!(!whole.is_shorter_than(&part));
    assert!(!whole.is_shorter_than(&whole));
    assert!("".is_shorter_than(&"é"));
}

#[test]
fn parsers_can_be_copied_and_used_again() {
    let parser = match_literal("ha");
    let copy = parser;
    let twice = parser.pair(copy.parser);
    assert_eq!(Ok(("!", ((), ()))), twice.parse("haha!"));
    assert_eq!(Ok(("ha!", ())), parser.parse("haha!"));
    assert_eq!(Ok(("ha!", ())), parser.clone().parse("haha!"));
}
