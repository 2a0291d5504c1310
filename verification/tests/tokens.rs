use json_decoder::token::{assoc, from_index, hash, Token, MAX_HASH_VALUE};

#[test]
fn has_symbol_finds_every_punctuation_mark() {
    assert_eq!(Token::has_symbol("{"), Token::LBRACE);
    assert_eq!(Token::has_symbol("}"), Token::RBRACE);
    assert_eq!(Token::has_symbol("["), Token::LBRAC);
    assert_eq!(Token::has_symbol("]"), Token::RBRAC);
    assert_eq!(Token::has_symbol(":"), Token::COLON);
    assert_eq!(Token::has_symbol(","), Token::COMMA);
    assert_eq!(Token::has_symbol("\""), Token::DQUOTE);
    assert_eq!(Token::has_symbol("-"), Token::DASH);
    assert_eq!(Token::has_symbol("+"), Token::PLUS);
    assert_eq!(Token::has_symbol("."), Token::PER);
    assert_eq!(Token::has_symbol("\\"), Token::BACKSLASH);
    assert_eq!(Token::has_symbol("/"), Token::FWDSLASH);
    assert_eq!(Token::has_symbol("e"), Token::E);
    assert_eq!(Token::has_symbol("E"), Token::UE);
}

#[test]
fn has_symbol_finds_keywords_and_escape_letters() {
    assert_eq!(Token::has_symbol("true"), Token::TRUE);
    assert_eq!(Token::has_symbol("false"), Token::FALSE);
    assert_eq!(Token::has_symbol("null"), Token::NULL);
    assert_eq!(Token::has_symbol("t"), Token::T);
    assert_eq!(Token::has_symbol("n"), Token::N);
    assert_eq!(Token::has_symbol("f"), Token::F);
    assert_eq!(Token::has_symbol("u"), Token::U);
    assert_eq!(Token::has_symbol("r"), Token::R);
    assert_eq!(Token::has_symbol("b"), Token::B);
}

#[test]
fn has_symbol_finds_every_digit() {
    let digits = [
        Token::ZERO,
        Token::ONE,
        Token::TWO,
        Token::THREE,
        Token::FOUR,
        Token::FIVE,
        Token::SIX,
        Token::SEVEN,
        Token::EIGHT,
        Token::NINE,
    ];
    for (value, token) in digits.iter().enumerate() {
        let symbol = format!("{}", value);
        assert_eq!(Token::has_symbol(&symbol), *token);
        assert_eq!(token.get_digit().to_string(), symbol);
        assert!(token.is_digit());
        assert!(!token.is_none());
    }
}

#[test]
fn has_symbol_gives_none1_for_what_is_no_symbol() {
    assert_eq!(Token::has_symbol(""), Token::NONE1);
    assert_eq!(Token::has_symbol("x"), Token::NONE1);
    assert_eq!(Token::has_symbol("tru"), Token::NONE1);
    assert_eq!(Token::has_symbol("truth"), Token::NONE1);
    assert_eq!(Token::has_symbol("falsehood"), Token::NONE1);
    assert_eq!(Token::has_symbol("nul"), Token::NONE1);
    assert_eq!(Token::has_symbol("{}"), Token::NONE1);
    assert_eq!(Token::has_symbol("é"), Token::NONE1);
    assert_eq!(Token::has_symbol(" "), Token::NONE1);
}

#[test]
fn get_digit_of_a_token_that_is_no_digit_is_an_underscore() {
    assert_eq!(Token::LBRACE.get_digit(), '_');
    assert_eq!(Token::NONE0.get_digit(), '_');
    assert_eq!(Token::TRUE.get_digit(), '_');
    assert_eq!(Token::SEVEN.get_digit(), '7');
}

#[test]
fn is_none_holds_of_the_unused_slots_only() {
    let mut unused = 0;
    for slot in 0..=MAX_HASH_VALUE {
        let token = from_index(slot).unwrap();
        assert_eq!(token.ordinal() as usize, slot);
        if token.is_none() {
            unused += 1;
            assert!(!token.is_digit());
        } else {
            let spelled = token.text();
            assert!(!spelled.is_empty());
            assert_eq!(Token::has_symbol(spelled), token);
        }
    }
    assert_eq!(unused, 30);
    assert!(Token::NONE0.is_none());
    assert!(Token::NONE29.is_none());
    assert!(!Token::PER.is_none());
    assert_eq!(Token::NONE7.text(), "");
}

#[test]
fn is_digit_holds_of_the_ten_digits_only() {
    assert!(Token::ZERO.is_digit());
    assert!(Token::NINE.is_digit());
    assert!(!Token::DASH.is_digit());
    assert!(!Token::E.is_digit());
    assert!(!Token::NONE3.is_digit());
}

#[test]
fn from_index_ends_with_the_last_slot() {
    assert_eq!(from_index(0), Some(Token::NONE0));
    assert_eq!(from_index(4), Some(Token::TRUE));
    assert_eq!(from_index(62), Some(Token::PER));
    assert_eq!(from_index(63), None);
    assert_eq!(from_index(usize::MAX), None);
}

#[test]
fn ordinal_is_the_slot_of_the_token() {
    assert_eq!(Token::NONE0.ordinal(), 0);
    assert_eq!(Token::T.ordinal(), 1);
    assert_eq!(Token::FALSE.ordinal(), 15);
    assert_eq!(Token::PER.ordinal(), 62);
}

#[test]
fn hash_is_the_length_plus_the_weight_of_the_first_byte() {
    assert_eq!(hash("true", 4), 4);
    assert_eq!(hash("false", 5), 15);
    assert_eq!(hash("null", 4), 9);
    assert_eq!(hash("{", 1), 21);
    assert_eq!(hash(".", 1), 62);
    assert_eq!(hash("x", 1), 64);
    assert_eq!(hash("true", 1), 1);
    assert_eq!(hash("t", 0), 0);
}

#[test]
fn hash_of_a_negative_sum_wraps_as_a_machine_word_does() {
    assert_eq!(hash("t", -1), usize::MAX);
    assert_eq!(hash("x", -64), usize::MAX);
    assert_eq!(hash("x", -63), 0);
}

#[test]
fn assoc_is_63_for_a_byte_that_begins_no_symbol() {
    assert_eq!(assoc(b't'), 0);
    assert_eq!(assoc(b':'), 1);
    assert_eq!(assoc(b'.'), 61);
    assert_eq!(assoc(b'x'), 63);
    assert_eq!(assoc(0), 63);
    assert_eq!(assoc(255), 63);
}
