use json_decoder::error::{ErrorKind, JsonError};
use json_decoder::grammar::MAX_DEPTH;
use json_decoder::parser::{classify_char, hex_digit, parse, JsonParser};
use json_decoder::source::ByteSource;
use json_decoder::token::Token;
use json_decoder::value::JsonValue;

fn store(text: &str) -> ByteSource {
    ByteSource::new(text.as_bytes().to_vec())
}

fn decode(text: &str) -> Result<JsonValue, JsonError> {
    parse(&store(text))
}

fn fails(text: &str, kind: ErrorKind, line: usize, offset: usize) {
    let found = text.as_bytes().get(offset).map(|byte| char::from(*byte));
    assert_eq!(decode(text).unwrap_err(), JsonError { kind, line, offset, found }, "{:?}", text);
}

fn number_text(value: &JsonValue) -> String {
    match value {
        JsonValue::Number(text) => text.clone(),
        other => panic!("not a number: {:?}", other),
    }
}

fn string_text(value: &JsonValue) -> String {
    match value {
        JsonValue::JsonString(text) => text.clone(),
        other => panic!("not a string: {:?}", other),
    }
}

#[test]
fn empty_object_and_empty_array() {
    match decode("{}").unwrap() {
        JsonValue::Object(members) => assert_eq!(members.len(), 0),
        other => panic!("not an object: {:?}", other),
    }
    match decode("[]").unwrap() {
        JsonValue::Array(elements) => assert!(elements.is_empty()),
        other => panic!("not an array: {:?}", other),
    }
    match decode(" { \t\r\n } ").unwrap() {
        JsonValue::Object(members) => assert_eq!(members.len(), 0),
        other => panic!("not an object: {:?}", other),
    }
}

#[test]
fn later_member_replaces_earlier_one_of_same_key() {
    match decode("{\"a\":1,\"a\":2}").unwrap() {
        JsonValue::Object(members) => {
            assert_eq!(members.len(), 1);
            let value = members.get(&"a".to_string()).unwrap();
            assert_eq!(number_text(value), "2");
        },
        other => panic!("not an object: {:?}", other),
    }
}

#[test]
fn unicode_escape_gives_the_character() {
    assert_eq!(string_text(&decode("\"\\u0041\"").unwrap()), "A");
    assert_eq!(string_text(&decode("\"\\u00e9\\u00E9\"").unwrap()), "éé");
    assert_eq!(string_text(&decode("\"\\u20AC\"").unwrap()), "€");
    assert_eq!(string_text(&decode("\"\\uffff\"").unwrap()), "\u{ffff}");
    assert_eq!(string_text(&decode("\"\\u0000\"").unwrap()), "\0");
}

#[test]
fn array_keeps_the_order_of_its_elements() {
    match decode("[1, 2, 3]").unwrap() {
        JsonValue::Array(elements) => {
            let texts: Vec<String> = elements.iter().map(number_text).collect();
            assert_eq!(texts, vec!["1", "2", "3"]);
        },
        other => panic!("not an array: {:?}", other),
    }
}

#[test]
fn missing_value_is_a_syntax_error_at_the_closing_brace() {
    assert_eq!(
        decode("{\"a\":}").unwrap_err(),
        JsonError { kind: ErrorKind::SyntaxError, line: 0, offset: 5, found: Some('}') }
    );
}

#[test]
fn leading_zero_before_a_digit_is_a_syntax_error() {
    assert_eq!(
        decode("01").unwrap_err(),
        JsonError { kind: ErrorKind::SyntaxError, line: 0, offset: 1, found: Some('1') }
    );
    fails("-01", ErrorKind::SyntaxError, 0, 2);
    fails("[00]", ErrorKind::SyntaxError, 0, 2);
}

#[test]
fn truncated_input_is_an_io_error_at_its_end() {
    assert_eq!(
        decode("{\"a\":").unwrap_err(),
        JsonError { kind: ErrorKind::IoError, line: 0, offset: 5, found: None }
    );
    fails("", ErrorKind::IoError, 0, 0);
    fails("  \n ", ErrorKind::IoError, 1, 4);
    fails("[1,", ErrorKind::IoError, 0, 3);
    fails("[1", ErrorKind::IoError, 0, 2);
    fails("{", ErrorKind::IoError, 0, 1);
    fails("{\"a\"", ErrorKind::IoError, 0, 4);
    fails("{\"a\":1", ErrorKind::IoError, 0, 6);
}

#[test]
fn keywords_are_values() {
    assert!(matches!(decode("true").unwrap(), JsonValue::Bool(true)));
    assert!(matches!(decode("false").unwrap(), JsonValue::Bool(false)));
    assert!(matches!(decode("null").unwrap(), JsonValue::Null));
    assert!(matches!(decode("\n\ttrue \r\n").unwrap(), JsonValue::Bool(true)));
}

#[test]
fn a_letter_that_begins_no_keyword_in_full_is_unrecognized() {
    fails("tru", ErrorKind::UnrecognizedTokenError, 0, 0);
    fails("nul", ErrorKind::UnrecognizedTokenError, 0, 0);
    fails("fals", ErrorKind::UnrecognizedTokenError, 0, 0);
    fails("trux", ErrorKind::UnrecognizedTokenError, 0, 0);
    fails("[t]", ErrorKind::UnrecognizedTokenError, 0, 1);
    fails("x", ErrorKind::UnrecognizedTokenError, 0, 0);
    fails("[1 ? 2]", ErrorKind::UnrecognizedTokenError, 0, 3);
    fails("{\"a\" = 1}", ErrorKind::UnrecognizedTokenError, 0, 5);
    fails("u", ErrorKind::UnrecognizedTokenError, 0, 0);
}

#[test]
fn a_token_in_the_wrong_place_is_a_syntax_error() {
    fails("}", ErrorKind::SyntaxError, 0, 0);
    fails(":", ErrorKind::SyntaxError, 0, 0);
    fails("+1", ErrorKind::SyntaxError, 0, 0);
    fails(".5", ErrorKind::SyntaxError, 0, 0);
    fails("[1 2]", ErrorKind::SyntaxError, 0, 3);
    fails("[,]", ErrorKind::SyntaxError, 0, 1);
    fails("{\"a\" 1}", ErrorKind::SyntaxError, 0, 5);
    fails("{1:2}", ErrorKind::SyntaxError, 0, 1);
    fails("{\"a\":1 \"b\":2}", ErrorKind::SyntaxError, 0, 7);
    fails("{\"a\":1]", ErrorKind::SyntaxError, 0, 6);
    fails("[1}", ErrorKind::SyntaxError, 0, 2);
    fails("[true false]", ErrorKind::SyntaxError, 0, 6);
}

#[test]
fn a_trailing_comma_is_a_syntax_error() {
    fails("{\"a\":1,}", ErrorKind::SyntaxError, 0, 7);
    fails("[1,]", ErrorKind::SyntaxError, 0, 3);
    fails("[1 , \n ]", ErrorKind::SyntaxError, 1, 7);
}

#[test]
fn anything_after_the_document_is_a_syntax_error() {
    fails("{} x", ErrorKind::SyntaxError, 0, 3);
    fails("1 2", ErrorKind::SyntaxError, 0, 2);
    fails("truex", ErrorKind::SyntaxError, 0, 4);
    fails("[]\n[]", ErrorKind::SyntaxError, 1, 3);
    fails("\"a\"\"b\"", ErrorKind::SyntaxError, 0, 3);
    fails("12a", ErrorKind::SyntaxError, 0, 2);
    fails("1.5.2", ErrorKind::SyntaxError, 0, 3);
}

#[test]
fn numbers_keep_their_text() {
    for text in [
        "0", "-0", "7", "-7", "10", "1234567890", "0.5", "-0.25", "1.0", "1e5", "1E5", "1e+5",
        "1e-5", "0e0", "12.34e56", "-12.34E-56", "0.0e+00",
        "123456789012345678901234567890.123456789012345678901234567890e123456789",
    ] {
        assert_eq!(number_text(&decode(text).unwrap()), text);
        let padded = format!("  {} ", text);
        assert_eq!(number_text(&decode(&padded).unwrap()), text);
    }
}

#[test]
fn a_number_that_stops_short_is_a_syntax_error() {
    fails("-", ErrorKind::SyntaxError, 0, 1);
    fails("-x", ErrorKind::SyntaxError, 0, 1);
    fails("- 1", ErrorKind::SyntaxError, 0, 1);
    fails("1.", ErrorKind::SyntaxError, 0, 2);
    fails("1.e5", ErrorKind::SyntaxError, 0, 2);
    fails("1e", ErrorKind::SyntaxError, 0, 2);
    fails("1e+", ErrorKind::SyntaxError, 0, 3);
    fails("1E-x", ErrorKind::SyntaxError, 0, 3);
    fails("[1.]", ErrorKind::SyntaxError, 0, 3);
    fails("[-]", ErrorKind::SyntaxError, 0, 2);
    fails("\n\n1e", ErrorKind::SyntaxError, 2, 4);
}

#[test]
fn a_number_ends_before_whitespace() {
    fails("1 .5", ErrorKind::SyntaxError, 0, 2);
    fails("1 e5", ErrorKind::SyntaxError, 0, 2);
    match decode("[1 ,2\n]").unwrap() {
        JsonValue::Array(elements) => {
            assert_eq!(number_text(&elements[0]), "1");
            assert_eq!(number_text(&elements[1]), "2");
        },
        other => panic!("not an array: {:?}", other),
    }
}

#[test]
fn two_character_escapes_are_decoded() {
    assert_eq!(
        string_text(&decode("\"\\\"\\\\\\/\\b\\f\\n\\r\\t\"").unwrap()),
        "\"\\/\u{8}\u{c}\n\r\t"
    );
    assert_eq!(string_text(&decode("\"\"").unwrap()), "");
    assert_eq!(string_text(&decode("\"a b\"").unwrap()), "a b");
    assert_eq!(string_text(&decode("\" { [ , : \"").unwrap()), " { [ , : ");
    assert_eq!(string_text(&decode("\"a\\\\\"").unwrap()), "a\\");
    assert_eq!(string_text(&decode("\"true\"").unwrap()), "true");
}

#[test]
fn bytes_of_a_string_are_kept_one_character_each() {
    let source = ByteSource::new(vec![b'"', 0xE9, 0x01, b'\n', 0xFF, b'"']);
    assert_eq!(string_text(&parse(&source).unwrap()), "\u{e9}\u{1}\n\u{ff}");
}

#[test]
fn a_character_that_is_no_hexadecimal_digit_is_named_by_the_error() {
    assert_eq!(
        decode("\"\\u00G1\"").unwrap_err(),
        JsonError { kind: ErrorKind::SyntaxError, line: 0, offset: 5, found: Some('G') }
    );
    assert_eq!(
        decode("\"\\u00").unwrap_err(),
        JsonError { kind: ErrorKind::SyntaxError, line: 0, offset: 5, found: None }
    );
    assert_eq!(
        decode("\"\\q\"").unwrap_err(),
        JsonError { kind: ErrorKind::SyntaxError, line: 0, offset: 2, found: Some('q') }
    );
    assert_eq!(
        decode("[1 ?").unwrap_err(),
        JsonError { kind: ErrorKind::UnrecognizedTokenError, line: 0, offset: 3, found: Some('?') }
    );
    assert_eq!(
        decode("1.x").unwrap_err(),
        JsonError { kind: ErrorKind::SyntaxError, line: 0, offset: 2, found: Some('x') }
    );
    assert_eq!(
        decode("\"\\ud800\"").unwrap_err(),
        JsonError { kind: ErrorKind::SyntaxError, line: 0, offset: 3, found: Some('d') }
    );
}

#[test]
fn an_escape_that_is_none_is_a_syntax_error() {
    fails("\"\\x\"", ErrorKind::SyntaxError, 0, 2);
    fails("\"\\U0041\"", ErrorKind::SyntaxError, 0, 2);
    fails("\"ab\\ \"", ErrorKind::SyntaxError, 0, 4);
    fails("\"\\u004G\"", ErrorKind::SyntaxError, 0, 6);
    fails("\"\\u00\"", ErrorKind::SyntaxError, 0, 5);
    fails("\"\\u", ErrorKind::SyntaxError, 0, 3);
    fails("\"\\u12", ErrorKind::SyntaxError, 0, 5);
    fails("\"\\", ErrorKind::SyntaxError, 0, 2);
    fails("\"\\\n\"", ErrorKind::SyntaxError, 0, 2);
}

#[test]
fn a_surrogate_code_point_is_a_syntax_error_at_its_first_digit() {
    fails("\"\\ud800\"", ErrorKind::SyntaxError, 0, 3);
    fails("\"\\uDFFF\"", ErrorKind::SyntaxError, 0, 3);
    fails("\"\\uD83D\\uDE00\"", ErrorKind::SyntaxError, 0, 3);
    assert_eq!(string_text(&decode("\"\\ud7ff\\ue000\"").unwrap()), "\u{d7ff}\u{e000}");
}

#[test]
fn a_string_without_its_closing_quote_is_a_syntax_error_at_the_end() {
    fails("\"abc", ErrorKind::SyntaxError, 0, 4);
    fails("\"", ErrorKind::SyntaxError, 0, 1);
    fails("{\"a", ErrorKind::SyntaxError, 0, 3);
    fails("\"a\nb", ErrorKind::SyntaxError, 1, 4);
    fails("\"a\\\"", ErrorKind::SyntaxError, 0, 4);
}

#[test]
fn errors_name_the_line_of_the_fault() {
    fails("{\n  \"a\": 1,\n  \"b\": }\n", ErrorKind::SyntaxError, 2, 19);
    fails("[\n\n\n?", ErrorKind::UnrecognizedTokenError, 3, 4);
    fails("[\"a\nb\" x", ErrorKind::UnrecognizedTokenError, 1, 7);
}

#[test]
fn nested_documents_are_decoded() {
    let text = "{\"name\": \"x\", \"tags\": [\"a\", {\"k\": [null, true, -1.5e3]}], \"n\": {}}";
    let root = match decode(text).unwrap() {
        JsonValue::Object(members) => members,
        other => panic!("not an object: {:?}", other),
    };
    assert_eq!(root.len(), 3);
    assert_eq!(root.key_at(0), "name");
    assert_eq!(root.key_at(1), "tags");
    assert_eq!(root.key_at(2), "n");
    assert_eq!(string_text(root.get(&"name".to_string()).unwrap()), "x");
    assert!(root.get(&"missing".to_string()).is_none());
    let tags = match root.value_at(1) {
        JsonValue::Array(elements) => elements,
        other => panic!("not an array: {:?}", other),
    };
    assert_eq!(tags.len(), 2);
    assert_eq!(string_text(&tags[0]), "a");
    let inner = match &tags[1] {
        JsonValue::Object(members) => members,
        other => panic!("not an object: {:?}", other),
    };
    match inner.get(&"k".to_string()).unwrap() {
        JsonValue::Array(elements) => {
            assert!(matches!(elements[0], JsonValue::Null));
            assert!(matches!(elements[1], JsonValue::Bool(true)));
            assert_eq!(number_text(&elements[2]), "-1.5e3");
        },
        other => panic!("not an array: {:?}", other),
    }
    match root.value_at(2) {
        JsonValue::Object(members) => assert_eq!(members.len(), 0),
        other => panic!("not an object: {:?}", other),
    }
}

#[test]
fn a_replaced_member_keeps_its_first_place() {
    match decode("{\"a\":1,\"b\":2,\"a\":[3]}").unwrap() {
        JsonValue::Object(members) => {
            assert_eq!(members.len(), 2);
            assert_eq!(members.key_at(0), "a");
            assert_eq!(members.key_at(1), "b");
            assert!(matches!(members.value_at(0), JsonValue::Array(_)));
            assert_eq!(number_text(members.value_at(1)), "2");
        },
        other => panic!("not an object: {:?}", other),
    }
}

fn nested(depth: usize) -> String {
    let mut text = String::new();
    for _ in 0..depth {
        text.push('[');
    }
    for _ in 0..depth {
        text.push(']');
    }
    text
}

#[test]
fn nesting_up_to_the_limit_is_decoded() {
    let mut value = decode(&nested(MAX_DEPTH)).unwrap();
    let mut depth = 0;
    loop {
        match value {
            JsonValue::Array(mut elements) => {
                depth += 1;
                match elements.pop() {
                    Some(inner) => value = inner,
                    None => break,
                }
            },
            other => panic!("not an array: {:?}", other),
        }
    }
    assert_eq!(depth, MAX_DEPTH);
}

#[test]
fn nesting_beyond_the_limit_is_an_error_at_the_bracket_too_many() {
    fails(&nested(MAX_DEPTH + 1), ErrorKind::NestingTooDeepError, 0, MAX_DEPTH);
    let mut objects = String::new();
    for _ in 0..=MAX_DEPTH {
        objects.push_str("{\"a\":");
    }
    fails(&objects, ErrorKind::NestingTooDeepError, 0, 5 * MAX_DEPTH);
    fails(&nested(100_000), ErrorKind::NestingTooDeepError, 0, MAX_DEPTH);
}

#[test]
fn siblings_do_not_add_to_the_depth() {
    let mut text = String::from("[");
    for _ in 0..1000 {
        text.push_str("[[]],{\"a\":{}},");
    }
    text.push_str("0]");
    match decode(&text).unwrap() {
        JsonValue::Array(elements) => assert_eq!(elements.len(), 2001),
        other => panic!("not an array: {:?}", other),
    }
}

#[test]
fn next_token_is_read_one_at_a_time() {
    let source = store(" { \"k\" : [ true , false , null , -1.5E+2 ] } ");
    let mut parser = JsonParser::new(&source);
    assert_eq!(parser.curr_token(), Token::NONE0);
    let mut tokens = Vec::new();
    loop {
        match parser.get_next_token() {
            Ok(token) => {
                assert_eq!(parser.curr_token(), token);
                tokens.push(token);
            },
            Err(error) => {
                assert_eq!(error, JsonError { kind: ErrorKind::IoError, line: 0, offset: 45, found: None });
                break;
            },
        }
    }
    assert_eq!(
        tokens,
        vec![
            Token::LBRACE, Token::DQUOTE, Token::NONE1, Token::DQUOTE, Token::COLON, Token::LBRAC,
            Token::TRUE, Token::COMMA, Token::FALSE, Token::COMMA, Token::NULL, Token::COMMA,
            Token::DASH, Token::ONE, Token::PER, Token::FIVE, Token::UE, Token::PLUS, Token::TWO,
            Token::RBRAC, Token::RBRACE,
        ]
    );
}

#[test]
fn a_keyword_token_consumes_the_whole_keyword() {
    let source = store("true,false,null,t");
    let mut parser = JsonParser::new(&source);
    assert_eq!(parser.get_next_token(), Ok(Token::TRUE));
    assert_eq!(parser.offset(), 4);
    assert_eq!(parser.get_next_token(), Ok(Token::COMMA));
    assert_eq!(parser.get_next_token(), Ok(Token::FALSE));
    assert_eq!(parser.offset(), 10);
    assert_eq!(parser.get_next_token(), Ok(Token::COMMA));
    assert_eq!(parser.get_next_token(), Ok(Token::NULL));
    assert_eq!(parser.offset(), 15);
    assert_eq!(parser.get_next_token(), Ok(Token::COMMA));
    assert_eq!(parser.get_next_token(), Ok(Token::NONE1));
    assert_eq!(parser.offset(), 17);
}

#[test]
fn the_reader_of_a_decoder_tells_where_it_stands() {
    let source = store("[\n1");
    let mut parser = JsonParser::new(&source);
    assert_eq!(parser.reader().offset(), 0);
    parser.get_next_token().unwrap();
    parser.get_next_token().unwrap();
    assert_eq!(parser.reader().offset(), 3);
    assert_eq!(parser.reader().line(), 1);
    assert_eq!(parser.reader().curr_char(), '1');
    assert_eq!(parser.reader().prev_char(), '\n');
    assert!(parser.get_next_token().is_err());
    assert_eq!(parser.curr_token(), Token::ONE);
    assert_eq!(parser.offset(), 3);
}

#[test]
fn whitespace_is_consumed_up_to_the_next_token() {
    let source = store(" \t\r\n x");
    let mut parser = JsonParser::new(&source);
    parser.whitespace();
    assert_eq!(parser.offset(), 5);
    parser.whitespace();
    assert_eq!(parser.offset(), 5);
    assert!(!parser.at_end());
    assert_eq!(parser.get_next_token(), Ok(Token::NONE1));
    assert!(parser.at_end());
    assert_eq!(parser.offset(), 6);
}

#[test]
fn accept_compares_and_expect_demands() {
    let source = store("[ x");
    let mut parser = JsonParser::new(&source);
    assert_eq!(parser.accept(Token::NONE0, false), Ok(true));
    assert_eq!(
        parser.expect(Token::LBRAC),
        Err(JsonError { kind: ErrorKind::UnrecognizedTokenError, line: 0, offset: 0, found: Some('[') })
    );
    assert_eq!(parser.accept(Token::LBRAC, false), Ok(false));
    assert_eq!(parser.accept(Token::LBRAC, true), Ok(true));
    assert_eq!(parser.offset(), 1);
    assert_eq!(parser.expect(Token::LBRAC), Ok(true));
    assert_eq!(
        parser.expect(Token::LBRACE),
        Err(JsonError { kind: ErrorKind::SyntaxError, line: 0, offset: 0, found: Some('[') })
    );
    assert_eq!(parser.accept(Token::COMMA, true), Ok(false));
    assert_eq!(
        parser.expect(Token::COMMA),
        Err(JsonError {
            kind: ErrorKind::UnrecognizedTokenError,
            line: 0,
            offset: 2,
            found: Some('x'),
        })
    );
    assert_eq!(
        parser.accept(Token::COMMA, true),
        Err(JsonError { kind: ErrorKind::IoError, line: 0, offset: 3, found: None })
    );
}

#[test]
fn a_value_leaves_what_follows_it_unread() {
    let source = store("[1,2] \"rest\"");
    let mut parser = JsonParser::new(&source);
    parser.get_next_token().unwrap();
    assert!(matches!(parser.value().unwrap(), JsonValue::Array(_)));
    assert_eq!(parser.offset(), 5);
    parser.get_next_token().unwrap();
    assert_eq!(parser.string().unwrap(), "rest");
    assert_eq!(parser.offset(), 12);
}

#[test]
fn productions_demand_their_first_token() {
    let source = store("[ { 1 \"");
    let mut parser = JsonParser::new(&source);
    parser.get_next_token().unwrap();
    let at_bracket =
        JsonError { kind: ErrorKind::SyntaxError, line: 0, offset: 0, found: Some('[') };
    assert_eq!(parser.object().unwrap_err(), at_bracket);
    assert_eq!(parser.string().unwrap_err(), at_bracket);
    assert_eq!(parser.number().unwrap_err(), at_bracket);
    parser.get_next_token().unwrap();
    let at_brace =
        JsonError { kind: ErrorKind::SyntaxError, line: 0, offset: 2, found: Some('{') };
    assert_eq!(parser.array().unwrap_err(), at_brace);
    assert_eq!(parser.member().unwrap_err(), at_brace);
    parser.get_next_token().unwrap();
    assert_eq!(parser.number().unwrap(), "1");
}

#[test]
fn separator_tells_the_end_from_another_item() {
    let source = store(" , 7 ] }");
    let mut parser = JsonParser::new(&source);
    assert_eq!(parser.separator(Token::RBRAC), Ok(true));
    assert_eq!(parser.curr_token(), Token::SEVEN);
    assert_eq!(parser.separator(Token::RBRAC), Ok(false));
    assert_eq!(parser.curr_token(), Token::RBRAC);
    assert_eq!(
        parser.separator(Token::RBRAC),
        Err(JsonError { kind: ErrorKind::SyntaxError, line: 0, offset: 7, found: Some('}') })
    );
}

#[test]
fn member_reads_key_colon_and_value() {
    let source = store("\"k\" : [1] ,");
    let mut parser = JsonParser::new(&source);
    parser.get_next_token().unwrap();
    let (key, value) = parser.member().unwrap();
    assert_eq!(key, "k");
    assert!(matches!(value, JsonValue::Array(_)));
    assert_eq!(parser.offset(), 9);
}

#[test]
fn classify_char_knows_the_marks_of_the_grammar() {
    assert_eq!(classify_char('{'), Token::LBRACE);
    assert_eq!(classify_char('9'), Token::NINE);
    assert_eq!(classify_char('e'), Token::E);
    assert_eq!(classify_char('.'), Token::PER);
    assert_eq!(classify_char('/'), Token::FWDSLASH);
    for c in ['t', 'n', 'f', 'u', 'r', 'b', 'x', ' ', '\0', 'é', '€', '\u{10ffff}'] {
        assert_eq!(classify_char(c), Token::NONE1);
    }
}

#[test]
fn hex_digit_takes_both_cases() {
    assert_eq!(hex_digit('0'), Some(0));
    assert_eq!(hex_digit('9'), Some(9));
    assert_eq!(hex_digit('a'), Some(10));
    assert_eq!(hex_digit('f'), Some(15));
    assert_eq!(hex_digit('A'), Some(10));
    assert_eq!(hex_digit('F'), Some(15));
    assert_eq!(hex_digit('g'), None);
    assert_eq!(hex_digit('G'), None);
    assert_eq!(hex_digit(' '), None);
    assert_eq!(hex_digit('٣'), None);
}
