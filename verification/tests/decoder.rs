use resp_parser::extract;
use resp_parser::extract_array_entries;
use resp_parser::extract_int_value;
use resp_parser::extract_string_value;
use resp_parser::ArrayEntry;
use resp_parser::ParseNode;
use resp_parser::RESPParser;
use resp_parser::Rule;

#[test]
fn can_parse_int() {
    let input = ":123\r\n";
    let expected = 123;
    let actual = RESPParser::parse(Rule::Integer, input).expect("failed to parse input");

    assert_eq!(
        extract_int_value(&actual).expect("failed to parse number"),
        expected
    );
}

#[test]
fn can_parse_string() {
    let input = "$3\r\nhey\r\n";
    let expected = "hey";
    let actual = RESPParser::parse(Rule::BulkString, input).expect("failed to parse input");

    assert_eq!(extract_string_value(&actual), expected);
}

#[test]
fn can_parse_array() {
    let input = "*2\r\n:2\r\n$5\r\nthree\r\n";
    let expected = vec![ArrayEntry::Int(2), ArrayEntry::Text("three".to_string())];
    let actual = RESPParser::parse(Rule::Array, input).expect("failed to parse input");

    let entries = extract_array_entries(&actual).expect("failed to extract entries");

    assert_eq!(entries, expected);
}

#[test]
fn can_parse_array_recursively() {
    let input = "*2\r\n:2\r\n$5\r\nthree\r\n*1\r\n:4\r\n";
    let expected = vec![
        ArrayEntry::Int(2),
        ArrayEntry::Text("three".to_string()),
        ArrayEntry::Array(vec![ArrayEntry::Int(4)]),
    ];
    let actual = RESPParser::parse(Rule::Array, input).expect("failed to parse input");

    let entries = extract_array_entries(&actual).expect("failed to extract entries");

    assert_eq!(entries, expected);
}

#[test]
fn negative_integer_round_trips() {
    let actual = RESPParser::parse(Rule::Integer, ":-42\r\n").expect("failed to parse input");
    assert_eq!(extract_int_value(&actual).unwrap(), -42);
}

#[test]
fn extreme_integers_round_trip() {
    let max = RESPParser::parse(Rule::Integer, ":2147483647\r\n").expect("failed to parse input");
    assert_eq!(extract_int_value(&max).unwrap(), i32::MAX);

    let min = RESPParser::parse(Rule::Integer, ":-2147483648\r\n").expect("failed to parse input");
    assert_eq!(extract_int_value(&min).unwrap(), i32::MIN);
}

#[test]
fn leading_zeros_are_read_as_decimal() {
    let actual = RESPParser::parse(Rule::Integer, ":007\r\n").expect("failed to parse input");
    assert_eq!(extract_int_value(&actual).unwrap(), 7);
}

#[test]
fn too_wide_integer_is_a_conversion_error() {
    // Syntactically fine, one past the 32-bit maximum: the grammar accepts,
    // the extraction refuses.
    let actual = RESPParser::parse(Rule::Integer, ":2147483648\r\n").expect("failed to parse input");
    assert!(extract_int_value(&actual).is_err());

    let low = RESPParser::parse(Rule::Integer, ":-2147483649\r\n").expect("failed to parse input");
    assert!(extract_int_value(&low).is_err());
}

#[test]
fn payload_with_embedded_crlf_is_kept_whole() {
    let input = "$7\r\nab\r\ncd!\r\n";
    let actual = RESPParser::parse(Rule::BulkString, input).expect("failed to parse input");
    assert_eq!(extract_string_value(&actual), "ab\r\ncd!");
}

#[test]
fn empty_payload_round_trips() {
    let actual = RESPParser::parse(Rule::BulkString, "$0\r\n\r\n").expect("failed to parse input");
    assert_eq!(extract_string_value(&actual), "");
}

#[test]
fn rejects_non_numeric_integer() {
    assert!(RESPParser::parse(Rule::Integer, ":abc\r\n").is_err());
}

#[test]
fn rejects_payload_shorter_than_declared() {
    assert!(RESPParser::parse(Rule::BulkString, "$3\r\nhe\r\n").is_err());
}

#[test]
fn rejects_array_with_missing_elements() {
    assert!(RESPParser::parse(Rule::Array, "*1\r\n").is_err());
}

#[test]
fn rejects_negative_bulk_length() {
    // A negative declared length, the null bulk string of other dialects
    // included, is a syntax error here.
    assert!(RESPParser::parse(Rule::BulkString, "$-1\r\n").is_err());
}

#[test]
fn rejects_missing_terminator() {
    assert!(RESPParser::parse(Rule::Integer, ":123").is_err());
    assert!(RESPParser::parse(Rule::Integer, ":123\r").is_err());
}

#[test]
fn rejects_wrong_sigil_for_rule() {
    assert!(RESPParser::parse(Rule::Integer, "$3\r\nhey\r\n").is_err());
}

#[test]
fn empty_array_is_allowed() {
    let actual = RESPParser::parse(Rule::Array, "*0\r\n").expect("failed to parse input");
    let entries = extract_array_entries(&actual).expect("failed to extract entries");
    assert_eq!(entries, Vec::<ArrayEntry>::new());
}

#[test]
fn array_keeps_elements_beyond_declared_count() {
    // The declared count is a lower bound: elements are taken greedily.
    let actual = RESPParser::parse(Rule::Array, "*1\r\n:1\r\n:2\r\n").expect("failed to parse input");
    let entries = extract_array_entries(&actual).expect("failed to extract entries");
    assert_eq!(entries, vec![ArrayEntry::Int(1), ArrayEntry::Int(2)]);
}

#[test]
fn trailing_input_is_ignored() {
    let actual = RESPParser::parse(Rule::Integer, ":1\r\n:2\r\n").expect("failed to parse input");
    assert_eq!(extract_int_value(&actual).unwrap(), 1);
}

#[test]
fn reparse_yields_identical_values() {
    let input = "*2\r\n:2\r\n$5\r\nthree\r\n*1\r\n:4\r\n";
    let first = RESPParser::parse(Rule::Array, input).expect("failed to parse input");
    let second = RESPParser::parse(Rule::Array, input).expect("failed to parse input");
    assert_eq!(first, second);
    let entries_first = extract_array_entries(&first).expect("failed to extract entries");
    let entries_second = extract_array_entries(&second).expect("failed to extract entries");
    assert_eq!(entries_first, entries_second);
}

#[test]
fn extract_dispatches_on_node_kind() {
    let node = RESPParser::parse(Rule::Integer, ":5\r\n").expect("failed to parse input");
    assert_eq!(extract(&node).unwrap(), ArrayEntry::Int(5));

    let node = RESPParser::parse(Rule::BulkString, "$2\r\nok\r\n").expect("failed to parse input");
    assert_eq!(extract(&node).unwrap(), ArrayEntry::Text("ok".to_string()));

    let node = RESPParser::parse(Rule::Array, "*1\r\n:4\r\n").expect("failed to parse input");
    assert_eq!(
        extract(&node).unwrap(),
        ArrayEntry::Array(vec![ArrayEntry::Int(4)])
    );
}

#[test]
fn separators_are_skipped_without_a_gap() {
    // A tree with a structural separator among the children: the extractor
    // skips it and the result stays dense.
    let node = ParseNode::Array {
        elems: vec![
            ParseNode::Integer {
                literal: "8".to_string(),
            },
            ParseNode::Separator,
            ParseNode::BulkString {
                text: "ok".to_string(),
            },
        ],
    };
    let entries = extract_array_entries(&node).expect("failed to extract entries");
    assert_eq!(
        entries,
        vec![ArrayEntry::Int(8), ArrayEntry::Text("ok".to_string())]
    );
}
