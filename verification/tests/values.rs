use json_decoder::value::{JsonObject, JsonValue};

fn number(text: &str) -> JsonValue {
    JsonValue::Number(text.to_string())
}

fn string(text: &str) -> JsonValue {
    JsonValue::JsonString(text.to_string())
}

fn object(entries: Vec<(&str, JsonValue)>) -> JsonValue {
    JsonValue::from_set(entries.into_iter().map(|(key, value)| (key.to_string(), value)).collect())
}

#[test]
fn from_int_gives_the_decimal_text() {
    for (value, text) in [
        (0, "0"),
        (7, "7"),
        (-7, "-7"),
        (10, "10"),
        (42, "42"),
        (-100, "-100"),
        (1234567890, "1234567890"),
        (i32::MAX, "2147483647"),
        (i32::MIN, "-2147483648"),
    ] {
        match JsonValue::from_int(value) {
            JsonValue::Number(found) => assert_eq!(found, text),
            other => panic!("not a number: {:?}", other),
        }
    }
}

#[test]
fn from_str_keeps_the_string() {
    match JsonValue::from_str("a \"b\"\n".to_string()) {
        JsonValue::JsonString(found) => assert_eq!(found, "a \"b\"\n"),
        other => panic!("not a string: {:?}", other),
    }
}

#[test]
fn from_bool_keeps_the_truth_value() {
    assert!(matches!(JsonValue::from_bool(true), JsonValue::Bool(true)));
    assert!(matches!(JsonValue::from_bool(false), JsonValue::Bool(false)));
}

#[test]
fn from_vec_keeps_the_elements_in_order() {
    match JsonValue::from_vec(vec![number("1"), string("x"), JsonValue::Null]) {
        JsonValue::Array(elements) => {
            assert_eq!(elements.len(), 3);
            assert!(elements[0].equals(&number("1")));
            assert!(elements[1].equals(&string("x")));
            assert!(elements[2].equals(&JsonValue::Null));
        },
        other => panic!("not an array: {:?}", other),
    }
    assert!(matches!(JsonValue::from_vec(Vec::new()), JsonValue::Array(elements) if elements.is_empty()));
}

#[test]
fn from_set_keeps_the_last_member_of_a_key() {
    let built = object(vec![
        ("a", number("1")),
        ("b", number("2")),
        ("a", number("3")),
        ("c", JsonValue::Null),
        ("b", string("x")),
    ]);
    let members = match built {
        JsonValue::Object(members) => members,
        other => panic!("not an object: {:?}", other),
    };
    assert_eq!(members.len(), 3);
    assert!(members.get(&"a".to_string()).unwrap().equals(&number("3")));
    assert!(members.get(&"b".to_string()).unwrap().equals(&string("x")));
    assert!(members.get(&"c".to_string()).unwrap().equals(&JsonValue::Null));
    assert_eq!(members.key_at(0), "a");
    assert_eq!(members.key_at(1), "b");
    assert_eq!(members.key_at(2), "c");
    assert!(matches!(object(Vec::new()), JsonValue::Object(members) if members.len() == 0));
}

#[test]
fn insert_replaces_the_member_of_the_same_key() {
    let mut members = JsonObject::new();
    assert_eq!(members.len(), 0);
    assert!(members.get(&"k".to_string()).is_none());
    members.insert("k".to_string(), number("1"));
    members.insert("l".to_string(), number("2"));
    assert_eq!(members.len(), 2);
    members.insert("k".to_string(), JsonValue::Bool(true));
    assert_eq!(members.len(), 2);
    assert!(members.get(&"k".to_string()).unwrap().equals(&JsonValue::Bool(true)));
    assert!(members.get(&"l".to_string()).unwrap().equals(&number("2")));
    assert!(members.get(&"K".to_string()).is_none());
    assert!(members.get(&"".to_string()).is_none());
    assert_eq!(members.key_at(0), "k");
    assert!(members.value_at(0).equals(&JsonValue::Bool(true)));
    assert_eq!(members.key_at(1), "l");
    members.insert("".to_string(), JsonValue::Null);
    assert_eq!(members.len(), 3);
    assert!(members.get(&"".to_string()).unwrap().equals(&JsonValue::Null));
}

#[test]
fn equals_tells_the_kinds_apart() {
    let values = vec![
        JsonValue::Null,
        JsonValue::Bool(true),
        JsonValue::Bool(false),
        number("1"),
        number("1.0"),
        string("1"),
        string(""),
        JsonValue::from_vec(Vec::new()),
        JsonValue::from_vec(vec![number("1")]),
        JsonValue::from_vec(vec![JsonValue::from_vec(Vec::new())]),
        object(Vec::new()),
        object(vec![("1", number("1"))]),
        object(vec![("1", string("1"))]),
    ];
    for (i, left) in values.iter().enumerate() {
        for (j, right) in values.iter().enumerate() {
            assert_eq!(left.equals(right), i == j, "{:?} and {:?}", left, right);
        }
    }
}

#[test]
fn equals_goes_by_the_order_of_elements() {
    let forward = JsonValue::from_vec(vec![number("1"), number("2")]);
    let backward = JsonValue::from_vec(vec![number("2"), number("1")]);
    let longer = JsonValue::from_vec(vec![number("1"), number("2"), number("3")]);
    assert!(forward.equals(&JsonValue::from_vec(vec![number("1"), number("2")])));
    assert!(!forward.equals(&backward));
    assert!(!forward.equals(&longer));
    assert!(!longer.equals(&forward));
}

#[test]
fn equals_does_not_go_by_the_order_of_members() {
    let one = object(vec![("a", number("1")), ("b", JsonValue::from_vec(vec![string("x")]))]);
    let other = object(vec![("b", JsonValue::from_vec(vec![string("x")])), ("a", number("1"))]);
    assert!(one.equals(&other));
    assert!(other.equals(&one));
    let changed = object(vec![("b", JsonValue::from_vec(vec![string("y")])), ("a", number("1"))]);
    assert!(!one.equals(&changed));
    let renamed = object(vec![("a", number("1")), ("c", JsonValue::from_vec(vec![string("x")]))]);
    assert!(!one.equals(&renamed));
    assert!(!renamed.equals(&one));
    let smaller = object(vec![("a", number("1"))]);
    assert!(!one.equals(&smaller));
    assert!(!smaller.equals(&one));
    let nested_one = object(vec![("o", one)]);
    let nested_other = object(vec![("o", other)]);
    assert!(nested_one.equals(&nested_other));
    match (&nested_one, &nested_other) {
        (JsonValue::Object(left), JsonValue::Object(right)) => assert!(left.equals(right)),
        _ => panic!("not objects"),
    }
}
