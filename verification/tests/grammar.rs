use help_parser::{is_well_formed, parse_help, rpc_name, section};

#[test]
fn rpc_name_with_and_without_prefix() {
    let parser = rpc_name();
    assert_eq!(
        Ok((" Retrieve", "z_getoperationresult".to_string())),
        parser.parse("z_getoperationresult Retrieve")
    );
    assert_eq!(
        Ok((" amount", "settxfee".to_string())),
        parser.parse("settxfee amount")
    );
    assert_eq!(Ok(("", "z_".to_string())), parser.parse("z_"));
    assert_eq!(Ok(("", "z_x".to_string())), parser.parse("z_x"));
    assert_eq!(Ok(("-x", "z".to_string())), parser.parse("z-x"));
    assert_eq!(Ok(("_z_a", "z_z".to_string())), parser.parse("z_z_z_a"));
    assert_eq!(Ok(("1", String::new())), parser.parse("1"));
    assert_eq!(Ok(("", String::new())), parser.parse(""));
}

#[test]
fn section_reads_two_marked_texts() {
    let parser = section("Result:", "Examples:");
    assert_eq!(
        Ok(("c", ("a".to_string(), "b".to_string()))),
        parser.parse("aResult:bExamples:c")
    );
    assert_eq!(Err("a b c"), parser.parse("a b c"));
    assert_eq!(Err("b c"), parser.parse("aResult:b c"));
}

#[test]
fn help_with_one_block() {
    let text = "z_getoperationresult Retrieve the result and status of an operation.\n\
                \nArguments:\n1. \"operationid\" (array, optional) A list of operation ids.\n\
                \nResult:\n\"    [object, ...]\" (array) A list of JSON objects\n\
                \nExamples:\n> zcash-cli z_getoperationresult '[\"operationid\", ... ]'\n";
    let record = parse_help(text).unwrap();
    assert_eq!("z_getoperationresult", record.name);
    assert_eq!(
        " Retrieve the result and status of an operation.\n\n",
        record.description
    );
    assert_eq!(
        vec!["\n1. \"operationid\" (array, optional) A list of operation ids.\n\n".to_string()],
        record.arguments
    );
    assert_eq!(
        vec!["\n\"    [object, ...]\" (array) A list of JSON objects\n\n".to_string()],
        record.results
    );
    assert_eq!(
        "\n> zcash-cli z_getoperationresult '[\"operationid\", ... ]'\n",
        record.examples
    );
    assert!(is_well_formed(text));
}

#[test]
fn help_with_several_blocks() {
    let text = "settxfee amount\nArguments:\nA1\nResult:\nR1\nArguments:\nA2\nResult:\nR2\n\
                Arguments:\nA3\nResult:\nR3\nExamples:\nE";
    let record = parse_help(text).unwrap();
    assert_eq!("settxfee", record.name);
    assert_eq!(" amount\n", record.description);
    assert_eq!(vec!["\nA1\n", "\nA2\n", "\nA3\n"], record.arguments);
    assert_eq!(vec!["\nR1\n", "\nR2\n", "\nR3\n"], record.results);
    assert_eq!("\nE", record.examples);
}

#[test]
fn help_without_blocks() {
    let record = parse_help("getinfo Returns general information.\nExamples:\n> getinfo").unwrap();
    assert_eq!("getinfo", record.name);
    assert_eq!(" Returns general information.\n", record.description);
    assert!(record.arguments.is_empty());
    assert!(record.results.is_empty());
    assert_eq!("\n> getinfo", record.examples);
}

#[test]
fn help_keeps_everything_behind_the_examples_marker() {
    let record = parse_help("a bArguments:cResult:dExamples:e Examples: f Result: g").unwrap();
    assert_eq!("e Examples: f Result: g", record.examples);
    assert_eq!(vec!["c"], record.arguments);
    assert_eq!(vec!["d"], record.results);
}

#[test]
fn help_without_examples_fails() {
    let text = "z_getoperationresult Retrieve\nArguments:\n1. id\nResult:\nobjects\n";
    assert_eq!(Err("\nobjects\n"), parse_help(text).map(|_| ()));
    assert!(!is_well_formed(text));
    assert_eq!(Err(" nothing here"), parse_help("getinfo nothing here").map(|_| ()));
    assert!(!is_well_formed("getinfo nothing here"));
    assert!(!is_well_formed(""));
}

#[test]
fn help_without_result_fails() {
    let text = "getinfo x\nArguments:\nnone\nExamples:\n> getinfo";
    assert_eq!(Err("\nnone\nExamples:\n> getinfo"), parse_help(text).map(|_| ()));
    assert!(!is_well_formed(text));
}

#[test]
fn help_with_an_empty_name() {
    let record = parse_help(" xExamples:y").unwrap();
    assert_eq!("", record.name);
    assert_eq!(" x", record.description);
    assert_eq!("y", record.examples);
    assert_eq!(Err(":"), parse_help("Examples:").map(|_| ()));
    assert_eq!(Err("1Examples"), parse_help("1Examples").map(|_| ()));
}
