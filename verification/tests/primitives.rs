use help_parser::{
    bare_word, first_char, first_letter, identifier, match_literal, split_at, strip_prefix,
};

#[test]
fn first_char_splits_off_one_character() {
    assert_eq!(Some(('a', "bc")), first_char("abc"));
    assert_eq!(Some(('x', "")), first_char("x"));
    assert_eq!(None, first_char(""));
}

#[test]
fn first_char_handles_wide_characters() {
    assert_eq!(Some(('é', "té")), first_char("été"));
    assert_eq!(Some(('日', "本")), first_char("日本"));
    assert_eq!(Some(('🦀', "!")), first_char("🦀!"));
}

#[test]
fn strip_prefix_removes_exactly_the_prefix() {
    assert_eq!(Some("bar"), strip_prefix("foobar", "foo"));
    assert_eq!(Some("foobar"), strip_prefix("foobar", ""));
    assert_eq!(Some(""), strip_prefix("foo", "foo"));
    assert_eq!(None, strip_prefix("fo", "foo"));
    assert_eq!(None, strip_prefix("fxo", "foo"));
    assert_eq!(None, strip_prefix("", "foo"));
}

#[test]
fn literal_consumes_itself_and_leaves_the_tail() {
    let literals = ["", "a", "Result:", "été", "<"];
    let tails = ["", "a", " rest of it", "Result:", "日本"];
    for literal in literals {
        for tail in tails {
            let input = format!("{}{}", literal, tail);
            let parser = match_literal(literal);
            assert_eq!(Ok((tail, ())), parser.parse(&input));
        }
    }
}

#[test]
fn literal_fails_with_the_input_untouched() {
    let parser = match_literal("Result:");
    assert_eq!(Err("Results"), parser.parse("Results"));
    assert_eq!(Err("Resul"), parser.parse("Resul"));
    assert_eq!(Err(" Result:"), parser.parse(" Result:"));
    assert_eq!(Err(""), parser.parse(""));
}

#[test]
fn literal_does_not_match_inside_a_wide_character() {
    let parser = match_literal("e");
    assert_eq!(Err("é"), parser.parse("é"));
}

#[test]
fn first_letter_reads_one_ascii_letter() {
    let parser = first_letter();
    assert_eq!(Ok(("bc", 'a')), parser.parse("abc"));
    assert_eq!(Ok(("", 'Z')), parser.parse("Z"));
    assert_eq!(Err("1abc"), parser.parse("1abc"));
    assert_eq!(Err("_a"), parser.parse("_a"));
    assert_eq!(Err("été"), parser.parse("été"));
    assert_eq!(Err(""), parser.parse(""));
}

#[test]
fn first_letter_bounds_of_the_alphabet() {
    let parser = first_letter();
    assert_eq!(Ok(("", 'a')), parser.parse("a"));
    assert_eq!(Ok(("", 'z')), parser.parse("z"));
    assert_eq!(Ok(("", 'A')), parser.parse("A"));
    assert_eq!(Err("@"), parser.parse("@"));
    assert_eq!(Err("["), parser.parse("["));
    assert_eq!(Err("`"), parser.parse("`"));
    assert_eq!(Err("{"), parser.parse("{"));
}

#[test]
fn identifier_takes_letters_digits_and_hyphens() {
    assert_eq!(Ok(("", "a".to_string())), identifier("a"));
    assert_eq!(Ok(("", "a1-b2".to_string())), identifier("a1-b2"));
    assert_eq!(Ok(("_x", "a".to_string())), identifier("a_x"));
    assert_eq!(Ok((" b", "a--".to_string())), identifier("a-- b"));
    assert_eq!(Ok(("=1", "été".to_string())), identifier("été=1"));
}

#[test]
fn identifier_needs_an_alphabetic_start() {
    assert_eq!(Err("1abc"), identifier("1abc"));
    assert_eq!(Err("-abc"), identifier("-abc"));
    assert_eq!(Err(" abc"), identifier(" abc"));
    assert_eq!(Err(""), identifier(""));
}

#[test]
fn bare_word_takes_the_leading_letters() {
    assert_eq!(Ok((" world", "hello".to_string())), bare_word("hello world"));
    assert_eq!(Ok(("", "hello".to_string())), bare_word("hello"));
    assert_eq!(Ok(("_b", "a".to_string())), bare_word("a_b"));
    assert_eq!(Ok(("1", "settxfee".to_string())), bare_word("settxfee1"));
}

#[test]
fn bare_word_never_fails() {
    assert_eq!(Ok(("", String::new())), bare_word(""));
    assert_eq!(Ok(("123", String::new())), bare_word("123"));
    assert_eq!(Ok((" a", String::new())), bare_word(" a"));
    assert_eq!(Ok(("été", String::new())), bare_word("été"));
}

#[test]
fn split_at_cuts_at_the_first_occurrence() {
    let parser = split_at("Result:");
    assert_eq!(
        Ok(("\ntwo\nResult:\nthree", "one\n".to_string())),
        parser.parse("one\nResult:\ntwo\nResult:\nthree")
    );
    assert_eq!(Ok(("", String::new())), parser.parse("Result:"));
    assert_eq!(Ok(("x", "Resul".to_string())), parser.parse("ResulResult:x"));
}

#[test]
fn split_at_fails_where_the_delimiter_is_missing() {
    let parser = split_at("Result:");
    assert_eq!(Err("no marker here"), parser.parse("no marker here"));
    assert_eq!(Err("Resul"), parser.parse("Resul"));
    assert_eq!(Err("result:"), parser.parse("result:"));
    assert_eq!(Err(""), parser.parse(""));
}

#[test]
fn split_at_an_empty_delimiter_consumes_nothing() {
    let parser = split_at("");
    assert_eq!(Ok(("abc", String::new())), parser.parse("abc"));
    assert_eq!(Ok(("", String::new())), parser.parse(""));
}

#[test]
fn split_at_counts_characters_not_bytes() {
    let parser = split_at("→");
    assert_eq!(Ok(("fin", "début".to_string())), parser.parse("début→fin"));
}
