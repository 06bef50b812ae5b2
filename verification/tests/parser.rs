use csvline::parser::LineError;
use csvline::parser::ParseError;
use csvline::parser::extract_field;
use csvline::parser::parse_line;

#[test]
fn valid_input() {
    let lines = vec![
        "foo,\"bar,baz\"",
        "\"aaa\",\"b\"\"bb\",\"ccc\"",
        "\"aaa\",,,\"b\"\",\"\"bb\",ccc",
    ];
    let expected = vec![
        vec!["foo".to_string(), "bar,baz".to_string()],
        vec!["aaa".to_string(), "b\"bb".to_string(), "ccc".to_string()],
        vec![
            "aaa".to_string(),
            "".to_string(),
            "".to_string(),
            "b\",\"bb".to_string(),
            "ccc".to_string(),
        ],
    ];

    lines
        .iter()
        .zip(expected.into_iter())
        .enumerate()
        .for_each(|(i, (line, ans))| assert_eq!(parse_line(i + 1, line).ok(), Some(ans)))
}

#[test]
fn invalid_input() {
    let lines = vec!["foo,\"bar\",\"baz\"\"", "\"aaa\",bbb,\"c\"cc\""];
    let expected = vec![
        "invalid character at line 1 column 16".to_string(),
        "invalid character at line 2 column 13".to_string(),
    ];

    for (i, (line, ans)) in lines.iter().zip(expected.into_iter()).enumerate() {
        let res = parse_line(i + 1, line).err().map(|e| e.message());
        assert_eq!(res, Some(ans));
    }
}

#[test]
fn top_level_split_concrete() {
    // Splitting `x,"y,z",w` at its two top-level commas and decoding each
    // segment gives exactly the parsed fields.
    let fields = parse_line(1, "x,\"y,z\",w").unwrap();
    assert_eq!(fields, vec!["x".to_string(), "y,z".to_string(), "w".to_string()]);
}

#[test]
fn reparse_is_deterministic() {
    let line = "\"aaa\",,,\"b\"\",\"\"bb\",ccc";
    assert_eq!(parse_line(7, line), parse_line(7, line));
    let bad = "\"aaa\",bbb,\"c\"cc\"";
    assert_eq!(parse_line(7, bad), parse_line(7, bad));
}

#[test]
fn escaped_quote_round_trip() {
    assert_eq!(parse_line(1, "\"a\"\"b\"").unwrap(), vec!["a\"b".to_string()]);
}

#[test]
fn empty_fields_preserved() {
    assert_eq!(
        parse_line(1, "\"aaa\",,,\"b\"\",\"\"bb\",ccc").unwrap(),
        vec![
            "aaa".to_string(),
            "".to_string(),
            "".to_string(),
            "b\",\"bb".to_string(),
            "ccc".to_string(),
        ]
    );
}

#[test]
fn comma_inside_quotes() {
    assert_eq!(
        parse_line(1, "foo,\"bar,baz\"").unwrap(),
        vec!["foo".to_string(), "bar,baz".to_string()]
    );
}

#[test]
fn malformed_trailing_quote() {
    let err = parse_line(1, "foo,\"bar\",\"baz\"\"").unwrap_err();
    assert_eq!(err, LineError { line: 1, column: 16 });
    assert_eq!(err.message(), "invalid character at line 1 column 16".to_string());
}

#[test]
fn malformed_mid_field_quote() {
    let err = parse_line(2, "\"aaa\",bbb,\"c\"cc\"").unwrap_err();
    assert_eq!(err, LineError { line: 2, column: 13 });
    assert_eq!(err.message(), "invalid character at line 2 column 13".to_string());
}

#[test]
fn empty_line_yields_no_fields() {
    assert_eq!(parse_line(1, "").unwrap(), Vec::<String>::new());
}

#[test]
fn trailing_comma_is_consumed_by_last_field() {
    // The comma is consumed by the field before it, and the following
    // extraction at the end of the line consumes nothing, which ends the
    // loop: no further empty field is appended.
    assert_eq!(parse_line(1, "a,").unwrap(), vec!["a".to_string()]);
    assert_eq!(parse_line(1, ",").unwrap(), vec!["".to_string()]);
}

#[test]
fn extract_single_fields() {
    assert_eq!(extract_field("foo,bar", 0).unwrap(), ("foo".to_string(), 4));
    assert_eq!(extract_field("foo,bar", 4).unwrap(), ("bar".to_string(), 3));
    assert_eq!(extract_field("foo,bar", 7).unwrap(), ("".to_string(), 0));
    assert_eq!(extract_field(",x", 0).unwrap(), ("".to_string(), 1));
    assert_eq!(extract_field("\"a\"\"b\",x", 0).unwrap(), ("a\"b".to_string(), 7));
}

#[test]
fn extract_reports_offset_past_last_examined() {
    // The closing quote at position 2 is followed by `c`: the error points
    // one past the quote.
    assert_eq!(extract_field("\"a\"cc", 0).unwrap_err(), ParseError { offset: 3 });
    // The line runs out while still inside quotes.
    assert_eq!(extract_field("\"abc", 0).unwrap_err(), ParseError { offset: 4 });
    // The same failures found when extraction starts mid-line.
    assert_eq!(extract_field("xx,\"a\"cc", 3).unwrap_err(), ParseError { offset: 6 });
}

#[test]
fn quote_after_start_of_unquoted_field_opens_a_region() {
    // A quote after the first character of an unquoted field starts a quoted
    // region; the region still has to close properly.
    assert_eq!(parse_line(1, "ab\"cd\"").unwrap(), vec!["abcd".to_string()]);
    assert_eq!(parse_line(1, "ab\"c,d\",e").unwrap(), vec!["abc,d".to_string(), "e".to_string()]);
    let err = parse_line(1, "ab\"cd").unwrap_err();
    assert_eq!(err, LineError { line: 1, column: 5 });
}

#[test]
fn multi_character_line_and_column_numbers() {
    let err = LineError { line: 105, column: 9876 };
    assert_eq!(err.message(), "invalid character at line 105 column 9876".to_string());
    let zero = LineError { line: 0, column: 0 };
    assert_eq!(zero.message(), "invalid character at line 0 column 0".to_string());
}

#[test]
fn columns_count_characters_not_bytes() {
    assert_eq!(
        parse_line(1, "héllo,wörld").unwrap(),
        vec!["héllo".to_string(), "wörld".to_string()]
    );
    // The closing quote sits at character position 3; the error points one
    // past it, even though `é` takes two bytes.
    let err = parse_line(1, "\"aé\"x").unwrap_err();
    assert_eq!(err, LineError { line: 1, column: 4 });
}
