use json_decoder::parser::parse;
use json_decoder::source::ByteSource;
use json_decoder::value::JsonValue;

fn decode(text: &str) -> JsonValue {
    parse(&ByteSource::new(text.as_bytes().to_vec())).unwrap()
}

fn spell_string(text: &str, out: &mut Vec<u8>) {
    out.push(b'"');
    for c in text.chars() {
        let code = c as u32;
        if c == '"' || c == '\\' {
            out.push(b'\\');
            out.push(code as u8);
        } else if code < 0x100 {
            out.push(code as u8);
        } else {
            assert!(code <= 0xFFFF);
            out.extend_from_slice(format!("\\u{:04x}", code).as_bytes());
        }
    }
    out.push(b'"');
}

fn spell(value: &JsonValue, out: &mut Vec<u8>) {
    match value {
        JsonValue::Null => out.extend_from_slice(b"null"),
        JsonValue::Bool(true) => out.extend_from_slice(b"true"),
        JsonValue::Bool(false) => out.extend_from_slice(b"false"),
        JsonValue::Number(text) => out.extend_from_slice(text.as_bytes()),
        JsonValue::JsonString(text) => spell_string(text, out),
        JsonValue::Array(elements) => {
            out.push(b'[');
            for (i, element) in elements.iter().enumerate() {
                if i > 0 {
                    out.push(b',');
                }
                spell(element, out);
            }
            out.push(b']');
        },
        JsonValue::Object(members) => {
            out.push(b'{');
            for i in 0..members.len() {
                if i > 0 {
                    out.push(b',');
                }
                spell_string(members.key_at(i), out);
                out.push(b':');
                spell(members.value_at(i), out);
            }
            out.push(b'}');
        },
    }
}

const DOCUMENTS: [&str; 14] = [
    "null",
    " true",
    "false ",
    "0",
    "-12.5e-3",
    "\"\"",
    "\"a\\\"b\\\\c\\/d\\b\\f\\n\\r\\t\\u0041\\u00e9\\u20ac\\uFFFF\\u0000\"",
    "[]",
    "{}",
    "[1, 2, 3]",
    "[[[]], [{}], {\"a\": []}]",
    "{\"a\":1,\"a\":2}",
    "{\"k\": \"v\", \"n\": null, \"list\": [true, false, {\"x\": -0.0E+0}], \"\": {\"\": \"\"}}",
    "\n{ \"b\" : [ 1 , 2 ] ,\r\n\t\"a\" : { \"c\" : \"\\u0022\" } }\n",
];

#[test]
fn spelling_a_decoded_document_and_decoding_it_again_gives_an_equal_document() {
    for text in DOCUMENTS {
        let first = decode(text);
        let mut spelled = Vec::new();
        spell(&first, &mut spelled);
        let second = parse(&ByteSource::new(spelled.clone())).unwrap();
        assert!(first.equals(&second), "{:?} spelled as {:?}", text, spelled);
        let mut again = Vec::new();
        spell(&second, &mut again);
        assert_eq!(spelled, again);
    }
}

#[test]
fn the_spelling_has_no_whitespace_and_keeps_the_order_of_members() {
    let mut spelled = Vec::new();
    spell(&decode(" { \"b\" : [ 1 , \"\\u00e9\\u0100\" ] , \"a\" : null } "), &mut spelled);
    let mut expected = b"{\"b\":[1,\"".to_vec();
    expected.push(0xE9);
    expected.extend_from_slice(b"\\u0100\"],\"a\":null}");
    assert_eq!(spelled, expected);
}

#[test]
fn two_decoders_over_one_source_give_equal_documents() {
    for text in DOCUMENTS {
        let source = ByteSource::new(text.as_bytes().to_vec());
        let first = parse(&source).unwrap();
        let second = parse(&source).unwrap();
        assert!(first.equals(&second));
        assert!(second.equals(&first));
    }
}

#[test]
fn two_decoders_over_one_source_give_the_same_error() {
    for text in ["", "{\"a\":}", "01", "{\"a\":", "[1,]", "\"\\x\"", "tru", "[[1] 2]"] {
        let source = ByteSource::new(text.as_bytes().to_vec());
        let first = parse(&source).unwrap_err();
        let second = parse(&source).unwrap_err();
        assert_eq!(first, second);
    }
}

#[test]
fn documents_that_differ_in_spelling_only_are_equal() {
    assert!(decode("{\"a\":1,\"b\":[true]}").equals(&decode(" { \"b\" : [ true ] , \"a\" : 1 } ")));
    assert!(decode("\"A\"").equals(&decode("\"\\u0041\"")));
    assert!(decode("\"/\"").equals(&decode("\"\\/\"")));
    assert!(decode("{\"a\":1,\"a\":2}").equals(&decode("{\"a\":2}")));
    assert!(!decode("1.0").equals(&decode("1")));
    assert!(!decode("[1,2]").equals(&decode("[2,1]")));
}
