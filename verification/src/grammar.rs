use crate::error::{ErrorKind, Fault};
use crate::token::Token;
use crate::value::Json;
use vstd::prelude::*;

verus! {

/// How deep arrays and objects may be nested in one another.
pub const MAX_DEPTH: usize = 128;

/// What a production finds at a place in the text: a value and the number of
/// characters that spell it, or a fault.
pub enum Parsed<T> {
    Done { value: T, len: nat },
    Failed(Fault),
}

/// A token found in the text.
pub struct Lexeme {
    pub token: Token,
    /// The whitespace passed over before the token.
    pub skipped: nat,
    /// The length of the token itself.
    pub len: nat,
}

/// The same finding, seen from a place `by` characters earlier.
pub open spec fn shifted<T>(found: Parsed<T>, by: nat) -> Parsed<T> {
    match found {
        Parsed::Done { value, len } => Parsed::Done { value, len: len + by },
        Parsed::Failed(f) => Parsed::Failed(f),
    }
}

/// The finding for a text of which `front`, spelled by `by` characters, has
/// been read already and `found` is what follows.
pub open spec fn prepend(front: Seq<char>, found: Parsed<Seq<char>>, by: nat) -> Parsed<
    Seq<char>,
> {
    match found {
        Parsed::Done { value, len } => Parsed::Done { value: front + value, len: len + by },
        Parsed::Failed(f) => Parsed::Failed(f),
    }
}

/// The fault that stops a production at `offset`.
pub open spec fn fault<T>(kind: ErrorKind, offset: int) -> Parsed<T> {
    Parsed::Failed(Fault { kind, offset })
}

/// The kind of error that a token gives where the grammar wants another: a
/// token that names nothing is unrecognized, any other is misplaced.
pub open spec fn unexpected(token: Token) -> ErrorKind {
    if token.spec_is_none() {
        ErrorKind::UnrecognizedTokenError
    } else {
        ErrorKind::SyntaxError
    }
}

/// Space, tab, carriage return and line feed mean nothing between tokens.
pub open spec fn is_space(c: char) -> bool {
    c == ' ' || c == '\t' || c == '\r' || c == '\n'
}

/// The number of whitespace characters in a row from `pos` on.
pub open spec fn spaces(text: Seq<char>, pos: int) -> nat
    decreases text.len() - pos,
{
    if 0 <= pos < text.len() && is_space(text[pos]) {
        1 + spaces(text, pos + 1)
    } else {
        0
    }
}

/// Whether `word` stands in `text` at `pos`.
pub open spec fn has_word(text: Seq<char>, pos: int, word: Seq<char>) -> bool {
    &&& 0 <= pos
    &&& pos + word.len() <= text.len()
    &&& forall|i: int| 0 <= i < word.len() ==> text[pos + i] == word[i]
}

/// The token that a single character stands for. The punctuation of the
/// grammar, the digits and the marks of a number are tokens; the letters that
/// begin a keyword are not tokens by themselves.
pub open spec fn classify(c: char) -> Token {
    if c == '{' {
        Token::LBRACE
    } else if c == '}' {
        Token::RBRACE
    } else if c == '[' {
        Token::LBRAC
    } else if c == ']' {
        Token::RBRAC
    } else if c == ':' {
        Token::COLON
    } else if c == ',' {
        Token::COMMA
    } else if c == '"' {
        Token::DQUOTE
    } else if c == '-' {
        Token::DASH
    } else if c == '+' {
        Token::PLUS
    } else if c == '.' {
        Token::PER
    } else if c == 'e' {
        Token::E
    } else if c == 'E' {
        Token::UE
    } else if c == '\\' {
        Token::BACKSLASH
    } else if c == '/' {
        Token::FWDSLASH
    } else if c == '0' {
        Token::ZERO
    } else if c == '1' {
        Token::ONE
    } else if c == '2' {
        Token::TWO
    } else if c == '3' {
        Token::THREE
    } else if c == '4' {
        Token::FOUR
    } else if c == '5' {
        Token::FIVE
    } else if c == '6' {
        Token::SIX
    } else if c == '7' {
        Token::SEVEN
    } else if c == '8' {
        Token::EIGHT
    } else if c == '9' {
        Token::NINE
    } else {
        Token::NONE1
    }
}

/// The token that starts at `start`, and its length: a keyword where one
/// stands there in full, else the token of the one character.
pub open spec fn word_at(text: Seq<char>, start: int) -> (Token, nat) {
    if has_word(text, start, Token::TRUE.symbol()) {
        (Token::TRUE, 4)
    } else if has_word(text, start, Token::FALSE.symbol()) {
        (Token::FALSE, 5)
    } else if has_word(text, start, Token::NULL.symbol()) {
        (Token::NULL, 4)
    } else {
        (classify(text[start]), 1)
    }
}

/// The next token at or after `pos`, past any whitespace; `None` where only
/// whitespace is left.
#[verifier::opaque]
pub open spec fn lex(text: Seq<char>, pos: int) -> Option<Lexeme> {
    let skipped = spaces(text, pos);
    let start = pos + skipped;
    if 0 <= start < text.len() {
        Some(Lexeme { token: word_at(text, start).0, skipped, len: word_at(text, start).1 })
    } else {
        None
    }
}

/// A token has at least one character and lies within the text.
pub proof fn lemma_lex_bounds(text: Seq<char>, pos: int)
    ensures
        match lex(text, pos) {
            Some(found) => {
                &&& 0 <= pos + found.skipped < text.len()
                &&& 1 <= found.len
                &&& pos + found.skipped + found.len <= text.len()
                &&& found.skipped == spaces(text, pos)
            },
            None => !(0 <= pos + spaces(text, pos) < text.len()),
        },
{
    reveal(lex);
}

/// The value of a hexadecimal digit, in either case.
pub open spec fn hex_value(c: char) -> int {
    if '0' <= c <= '9' {
        c as int - '0' as int
    } else if 'a' <= c <= 'f' {
        c as int - 'a' as int + 10
    } else {
        c as int - 'A' as int + 10
    }
}

pub open spec fn is_hex(c: char) -> bool {
    '0' <= c <= '9' || 'a' <= c <= 'f' || 'A' <= c <= 'F'
}

/// Whether a code point lies in the range kept for surrogates, which no
/// character has.
pub open spec fn is_surrogate(code: int) -> bool {
    0xD800 <= code <= 0xDFFF
}

pub open spec fn hex_at(text: Seq<char>, pos: int) -> bool {
    0 <= pos < text.len() && is_hex(text[pos])
}

/// The number of hexadecimal digits in a row from `pos` on, four at most.
pub open spec fn hex_run(text: Seq<char>, pos: int) -> nat {
    if !hex_at(text, pos) {
        0
    } else if !hex_at(text, pos + 1) {
        1
    } else if !hex_at(text, pos + 2) {
        2
    } else if !hex_at(text, pos + 3) {
        3
    } else {
        4
    }
}

/// The code point that the four hexadecimal digits at `pos` spell.
pub open spec fn hex_code(text: Seq<char>, pos: int) -> int {
    ((hex_value(text[pos]) * 16 + hex_value(text[pos + 1])) * 16 + hex_value(text[pos + 2])) * 16
        + hex_value(text[pos + 3])
}

/// The character that the four hexadecimal digits at `pos` stand for, `pos`
/// being the place after the `u` of the escape. Anything but a hexadecimal
/// digit among the four is a syntax error at that place; so is a code point
/// in the surrogate range, at the first digit.
pub open spec fn unicode_escape(text: Seq<char>, pos: int) -> Parsed<char> {
    let run = hex_run(text, pos);
    if run < 4 {
        fault(ErrorKind::SyntaxError, pos + run)
    } else if is_surrogate(hex_code(text, pos)) {
        fault(ErrorKind::SyntaxError, pos)
    } else {
        Parsed::Done { value: hex_code(text, pos) as char, len: 4 }
    }
}

/// The character that an escape stands for, `pos` being the place after the
/// backslash.
pub open spec fn escape(text: Seq<char>, pos: int) -> Parsed<char> {
    if !(0 <= pos < text.len()) {
        fault(ErrorKind::SyntaxError, pos)
    } else if text[pos] == '"' || text[pos] == '\\' || text[pos] == '/' {
        Parsed::Done { value: text[pos], len: 1 }
    } else if text[pos] == 'b' {
        Parsed::Done { value: '\u{8}', len: 1 }
    } else if text[pos] == 'f' {
        Parsed::Done { value: '\u{c}', len: 1 }
    } else if text[pos] == 'n' {
        Parsed::Done { value: '\n', len: 1 }
    } else if text[pos] == 'r' {
        Parsed::Done { value: '\r', len: 1 }
    } else if text[pos] == 't' {
        Parsed::Done { value: '\t', len: 1 }
    } else if text[pos] == 'u' {
        match unicode_escape(text, pos + 1) {
            Parsed::Done { value, len } => Parsed::Done { value, len: len + 1 },
            Parsed::Failed(f) => Parsed::Failed(f),
        }
    } else {
        fault(ErrorKind::SyntaxError, pos)
    }
}

/// The content of a string and the length of its spelling, `pos` being the
/// place after the opening quote. The spelling runs up to and including the
/// first quote that no backslash escapes; a text that ends before it is a
/// syntax error at its end.
pub open spec fn string_body(text: Seq<char>, pos: int) -> Parsed<Seq<char>>
    decreases text.len() - pos,
{
    if !(0 <= pos < text.len()) {
        fault(ErrorKind::SyntaxError, pos)
    } else if text[pos] == '"' {
        Parsed::Done { value: Seq::empty(), len: 1 }
    } else if text[pos] == '\\' {
        match escape(text, pos + 1) {
            Parsed::Done { value: c, len: n } => match string_body(text, pos + 1 + n) {
                Parsed::Done { value: rest, len: m } => Parsed::Done {
                    value: seq![c] + rest,
                    len: 1 + n + m,
                },
                Parsed::Failed(f) => Parsed::Failed(f),
            },
            Parsed::Failed(f) => Parsed::Failed(f),
        }
    } else {
        match string_body(text, pos + 1) {
            Parsed::Done { value: rest, len: m } => Parsed::Done {
                value: seq![text[pos]] + rest,
                len: 1 + m,
            },
            Parsed::Failed(f) => Parsed::Failed(f),
        }
    }
}

/// A string, entered at the token `token` found at `at`, with `pos` the
/// place after it.
pub open spec fn string_text(text: Seq<char>, token: Token, at: int, pos: int) -> Parsed<
    Seq<char>,
> {
    if token != Token::DQUOTE {
        fault(unexpected(token), at)
    } else {
        string_body(text, pos)
    }
}

pub open spec fn is_digit(c: char) -> bool {
    '0' <= c <= '9'
}

pub open spec fn digit_at(t: Seq<char>, i: int) -> bool {
    0 <= i < t.len() && is_digit(t[i])
}

pub open spec fn is_at(t: Seq<char>, i: int, c: char) -> bool {
    0 <= i < t.len() && t[i] == c
}

/// The number of digits in a row from `from` on.
pub open spec fn digits(t: Seq<char>, from: int) -> nat
    decreases t.len() - from,
{
    if digit_at(t, from) {
        1 + digits(t, from + 1)
    } else {
        0
    }
}

/// Where the digits of an integer part end whose first digit is wanted at
/// `first`: a lone zero, or digits that start with another one. The error
/// is the place where a digit is missing or a zero is followed by a digit.
pub open spec fn whole_part(t: Seq<char>, first: int) -> Result<int, int> {
    if !digit_at(t, first) {
        Err(first)
    } else if t[first] == '0' {
        if digit_at(t, first + 1) {
            Err(first + 1)
        } else {
            Ok(first + 1)
        }
    } else {
        Ok(first + digits(t, first))
    }
}

/// Where the integer part of the number at the start of `t` ends: an
/// optional minus sign and the digits.
pub open spec fn int_part(t: Seq<char>) -> Result<int, int> {
    if is_at(t, 0, '-') {
        whole_part(t, 1)
    } else {
        whole_part(t, 0)
    }
}

/// Where the fraction that may start at `from` ends: a point needs a digit
/// after it.
pub open spec fn frac_part(t: Seq<char>, from: int) -> Result<int, int> {
    if is_at(t, from, '.') {
        if digit_at(t, from + 1) {
            Ok(from + 1 + digits(t, from + 1))
        } else {
            Err(from + 1)
        }
    } else {
        Ok(from)
    }
}

/// Where the exponent that may start at `from` ends: the mark and an
/// optional sign need a digit after them.
pub open spec fn exp_part(t: Seq<char>, from: int) -> Result<int, int> {
    if is_at(t, from, 'e') || is_at(t, from, 'E') {
        let after: int = if is_at(t, from + 1, '+') || is_at(t, from + 1, '-') {
            from + 2
        } else {
            from + 1
        };
        if digit_at(t, after) {
            Ok(after + digits(t, after))
        } else {
            Err(after)
        }
    } else {
        Ok(from)
    }
}

/// Where the number at the start of `t` ends, or the place at which `t`
/// stops being one.
pub open spec fn number_end(t: Seq<char>) -> Result<int, int> {
    match int_part(t) {
        Err(bad) => Err(bad),
        Ok(whole) => match frac_part(t, whole) {
            Err(bad) => Err(bad),
            Ok(frac) => exp_part(t, frac),
        },
    }
}

/// Whether `t` is the text of a number, all of it.
pub open spec fn is_number(t: Seq<char>) -> bool {
    number_end(t) == Ok::<int, int>(t.len() as int)
}

/// A number, entered at the token `token` found at `at`, which is its first
/// character; `pos` is the place after it. The value is the text of the
/// number as it stands.
pub open spec fn number_text(text: Seq<char>, token: Token, at: int, pos: int) -> Parsed<
    Seq<char>,
> {
    if !(token == Token::DASH || token.spec_is_digit()) {
        fault(unexpected(token), at)
    } else {
        let t = number_view(token.symbol()[0], text, pos);
        match number_end(t) {
            Err(bad) => fault(ErrorKind::SyntaxError, pos + bad - 1),
            Ok(end) => Parsed::Done { value: t.take(end), len: (end - 1) as nat },
        }
    }
}

/// A value, entered at its first token `token` found at `at`, with `pos` the
/// place after that token and `depth` the number of arrays and objects
/// around it.
pub open spec fn value_text(text: Seq<char>, token: Token, at: int, pos: int, depth: nat) -> Parsed<
    Json,
>
    decreases text.len() - pos, 2nat,
{
    if token == Token::LBRACE {
        match object_text(text, token, at, pos, depth) {
            Parsed::Done { value, len } => Parsed::Done { value: Json::Object(value), len },
            Parsed::Failed(f) => Parsed::Failed(f),
        }
    } else if token == Token::LBRAC {
        match array_text(text, token, at, pos, depth) {
            Parsed::Done { value, len } => Parsed::Done { value: Json::Array(value), len },
            Parsed::Failed(f) => Parsed::Failed(f),
        }
    } else if token == Token::DQUOTE {
        match string_text(text, token, at, pos) {
            Parsed::Done { value, len } => Parsed::Done { value: Json::Text(value), len },
            Parsed::Failed(f) => Parsed::Failed(f),
        }
    } else if token == Token::DASH || token.spec_is_digit() {
        match number_text(text, token, at, pos) {
            Parsed::Done { value, len } => Parsed::Done { value: Json::Number(value), len },
            Parsed::Failed(f) => Parsed::Failed(f),
        }
    } else if token == Token::TRUE {
        Parsed::Done { value: Json::Bool(true), len: 0 }
    } else if token == Token::FALSE {
        Parsed::Done { value: Json::Bool(false), len: 0 }
    } else if token == Token::NULL {
        Parsed::Done { value: Json::Null, len: 0 }
    } else {
        fault(unexpected(token), at)
    }
}

/// An object, entered at the token `token` found at `at`, which must be the
/// opening brace; `pos` is the place after it.
pub open spec fn object_text(
    text: Seq<char>,
    token: Token,
    at: int,
    pos: int,
    depth: nat,
) -> Parsed<Map<Seq<char>, Json>>
    decreases text.len() - pos, 1nat,
{
    if token != Token::LBRACE {
        fault(unexpected(token), at)
    } else if depth >= MAX_DEPTH {
        fault(ErrorKind::NestingTooDeepError, at)
    } else {
        proof {
            lemma_lex_bounds(text, pos);
        }
        match lex(text, pos) {
            None => fault(ErrorKind::IoError, text.len() as int),
            Some(first) => {
                let start = pos + first.skipped;
                if first.token == Token::RBRACE {
                    Parsed::Done { value: Map::empty(), len: first.skipped + first.len }
                } else {
                    match members_text(
                        text,
                        first.token,
                        start,
                        start + first.len,
                        depth + 1,
                        Map::empty(),
                    ) {
                        Parsed::Done { value, len } => Parsed::Done {
                            value,
                            len: first.skipped + first.len + len,
                        },
                        Parsed::Failed(f) => Parsed::Failed(f),
                    }
                }
            },
        }
    }
}

/// What stands after a member or an element.
pub enum Next {
    /// The closing token, which ends `len` characters on.
    End { len: nat },
    /// A comma and the first token of the next item: `token` begins `to`
    /// characters on and ends `len` characters on.
    More { token: Token, to: nat, len: nat },
    Failed(Fault),
}

/// What stands at `pos`, after a member or an element: the token `close`
/// ends the list, a comma and one more token lead to the next item, and
/// anything else is an error at its place.
#[verifier::opaque]
pub open spec fn separator(text: Seq<char>, pos: int, close: Token) -> Next {
    match lex(text, pos) {
        None => Next::Failed(Fault { kind: ErrorKind::IoError, offset: text.len() as int }),
        Some(mark) => {
            let mark_end = mark.skipped + mark.len;
            if mark.token == close {
                Next::End { len: mark_end }
            } else if mark.token == Token::COMMA {
                match lex(text, pos + mark_end) {
                    None => Next::Failed(
                        Fault { kind: ErrorKind::IoError, offset: text.len() as int },
                    ),
                    Some(next) => Next::More {
                        token: next.token,
                        to: mark_end + next.skipped,
                        len: mark_end + next.skipped + next.len,
                    },
                }
            } else {
                Next::Failed(Fault { kind: unexpected(mark.token), offset: pos + mark.skipped })
            }
        },
    }
}

/// What stands after an item has at least one character and lies within
/// the text.
pub proof fn lemma_separator_bounds(text: Seq<char>, pos: int, close: Token)
    ensures
        match separator(text, pos, close) {
            Next::End { len } => 1 <= len && 0 <= pos < pos + len <= text.len(),
            Next::More { token, to, len } => 1 <= to < len && 0 <= pos < pos + len <= text.len(),
            Next::Failed(f) => true,
        },
{
    reveal(separator);
    lemma_lex_bounds(text, pos);
    match lex(text, pos) {
        Some(mark) => {
            lemma_lex_bounds(text, pos + mark.skipped + mark.len);
        },
        None => {},
    }
}

/// One member of an object: a string, a colon and a value. The key's
/// opening quote is the token `token` found at `at`, and `pos` is the place
/// after it.
pub open spec fn member_text(
    text: Seq<char>,
    token: Token,
    at: int,
    pos: int,
    depth: nat,
) -> Parsed<(Seq<char>, Json)>
    decreases text.len() - pos, 0nat,
{
    match string_text(text, token, at, pos) {
        Parsed::Failed(f) => Parsed::Failed(f),
        Parsed::Done { value: key, len: key_len } => match lex(text, pos + key_len) {
            None => fault(ErrorKind::IoError, text.len() as int),
            Some(colon) => {
                let colon_at = pos + key_len + colon.skipped;
                if colon.token != Token::COLON {
                    fault(unexpected(colon.token), colon_at)
                } else {
                    proof {
                        lemma_lex_bounds(text, pos + key_len);
                        lemma_lex_bounds(text, colon_at + colon.len);
                    }
                    match lex(text, colon_at + colon.len) {
                        None => fault(ErrorKind::IoError, text.len() as int),
                        Some(first) => {
                            let value_at = colon_at + colon.len + first.skipped;
                            match value_text(
                                text,
                                first.token,
                                value_at,
                                value_at + first.len,
                                depth,
                            ) {
                                Parsed::Failed(f) => Parsed::Failed(f),
                                Parsed::Done { value, len: value_len } => Parsed::Done {
                                    value: (key, value),
                                    len: (value_at + first.len + value_len - pos) as nat,
                                },
                            }
                        },
                    }
                }
            },
        },
    }
}

/// The members of an object from a key on, added to those in `members`: the
/// key's opening quote is the token `token` found at `at`, and `pos` is the
/// place after it. After a member a comma leads to the next one and a
/// closing brace ends the object. A member replaces one of the same key that
/// came before it.
pub open spec fn members_text(
    text: Seq<char>,
    token: Token,
    at: int,
    pos: int,
    depth: nat,
    members: Map<Seq<char>, Json>,
) -> Parsed<Map<Seq<char>, Json>>
    decreases text.len() - pos, 1nat,
{
    match member_text(text, token, at, pos, depth) {
        Parsed::Failed(f) => Parsed::Failed(f),
        Parsed::Done { value: member, len } => {
            let grown = members.insert(member.0, member.1);
            proof {
                lemma_separator_bounds(text, pos + len, Token::RBRACE);
            }
            match separator(text, pos + len, Token::RBRACE) {
                Next::Failed(f) => Parsed::Failed(f),
                Next::End { len: more } => Parsed::Done { value: grown, len: len + more },
                Next::More { token: next, to, len: more } => shifted(
                    members_text(text, next, pos + len + to, pos + len + more, depth, grown),
                    len + more,
                ),
            }
        },
    }
}

/// An array, entered at the token `token` found at `at`, which must be the
/// opening bracket; `pos` is the place after it.
pub open spec fn array_text(text: Seq<char>, token: Token, at: int, pos: int, depth: nat) -> Parsed<
    Seq<Json>,
>
    decreases text.len() - pos, 1nat,
{
    if token != Token::LBRAC {
        fault(unexpected(token), at)
    } else if depth >= MAX_DEPTH {
        fault(ErrorKind::NestingTooDeepError, at)
    } else {
        proof {
            lemma_lex_bounds(text, pos);
        }
        match lex(text, pos) {
            None => fault(ErrorKind::IoError, text.len() as int),
            Some(first) => {
                let start = pos + first.skipped;
                if first.token == Token::RBRAC {
                    Parsed::Done { value: Seq::empty(), len: first.skipped + first.len }
                } else {
                    match elements_text(
                        text,
                        first.token,
                        start,
                        start + first.len,
                        depth + 1,
                        Seq::empty(),
                    ) {
                        Parsed::Done { value, len } => Parsed::Done {
                            value,
                            len: first.skipped + first.len + len,
                        },
                        Parsed::Failed(f) => Parsed::Failed(f),
                    }
                }
            },
        }
    }
}

/// The elements of an array from one on, added behind those in `elements`:
/// the element's first token is `token`, found at `at`, and `pos` is the
/// place after it. After an element a comma leads to the next one and a
/// closing bracket ends the array.
pub open spec fn elements_text(
    text: Seq<char>,
    token: Token,
    at: int,
    pos: int,
    depth: nat,
    elements: Seq<Json>,
) -> Parsed<Seq<Json>>
    decreases text.len() - pos, 3nat,
{
    match value_text(text, token, at, pos, depth) {
        Parsed::Failed(f) => Parsed::Failed(f),
        Parsed::Done { value, len } => {
            let grown = elements.push(value);
            proof {
                lemma_separator_bounds(text, pos + len, Token::RBRAC);
            }
            match separator(text, pos + len, Token::RBRAC) {
                Next::Failed(f) => Parsed::Failed(f),
                Next::End { len: more } => Parsed::Done { value: grown, len: len + more },
                Next::More { token: next, to, len: more } => shifted(
                    elements_text(text, next, pos + len + to, pos + len + more, depth, grown),
                    len + more,
                ),
            }
        },
    }
}

/// The document that a text spells: one value, with nothing but whitespace
/// around it. Anything else after the value is a syntax error at that place.
pub open spec fn document(text: Seq<char>) -> Result<Json, Fault> {
    match lex(text, 0) {
        None => Err(Fault { kind: ErrorKind::IoError, offset: text.len() as int }),
        Some(first) => {
            let at = first.skipped as int;
            match value_text(text, first.token, at, at + first.len, 0) {
                Parsed::Failed(f) => Err(f),
                Parsed::Done { value, len } => {
                    let end = at + first.len + len;
                    let rest = end + spaces(text, end);
                    if rest < text.len() {
                        Err(Fault { kind: ErrorKind::SyntaxError, offset: rest })
                    } else {
                        Ok(value)
                    }
                },
            }
        },
    }
}

/// A run of digits ends within the text, and what follows it is no digit.
pub proof fn lemma_digits_end(t: Seq<char>, from: int)
    requires
        0 <= from <= t.len(),
    ensures
        from + digits(t, from) <= t.len(),
        !digit_at(t, from + digits(t, from)),
        forall|i: int| from <= i < from + digits(t, from) ==> digit_at(t, i),
    decreases t.len() - from,
{
    if digit_at(t, from) {
        lemma_digits_end(t, from + 1);
    }
}

/// Two texts that agree from some place on have runs of digits of the same
/// length there.
pub proof fn lemma_digits_shift(a: Seq<char>, i: int, b: Seq<char>, j: int)
    requires
        0 <= i <= a.len(),
        0 <= j <= b.len(),
        a.skip(i) == b.skip(j),
    ensures
        digits(a, i) == digits(b, j),
    decreases a.len() - i,
{
    assert(a.skip(i).len() == a.len() - i);
    assert(b.skip(j).len() == b.len() - j);
    if i < a.len() {
        assert(a[i] == a.skip(i)[0]);
        assert(b[j] == b.skip(j)[0]);
        if digit_at(a, i) {
            assert(a.skip(i + 1) =~= a.skip(i).skip(1));
            assert(b.skip(j + 1) =~= b.skip(j).skip(1));
            lemma_digits_shift(a, i + 1, b, j + 1);
        }
    }
}

/// Cutting a text short cuts a run of digits short and changes nothing else
/// about it.
pub proof fn lemma_digits_take(t: Seq<char>, end: int, from: int)
    requires
        0 <= from <= end <= t.len(),
    ensures
        digits(t.take(end), from) == if from + digits(t, from) <= end {
            digits(t, from)
        } else {
            (end - from) as nat
        },
    decreases end - from,
{
    if from < end {
        assert(t.take(end)[from] == t[from]);
        if digit_at(t, from) {
            lemma_digits_take(t, end, from + 1);
        }
    }
}

/// The text up to the place where a number ends is a number.
pub proof fn lemma_number_prefix(t: Seq<char>)
    requires
        number_end(t).is_ok(),
    ensures
        0 < number_end(t)->Ok_0 <= t.len(),
        is_number(t.take(number_end(t)->Ok_0)),
{
    let end = number_end(t)->Ok_0;
    let cut = t.take(end);
    let first: int = if is_at(t, 0, '-') {
        1
    } else {
        0
    };
    let whole = int_part(t)->Ok_0;
    let frac = frac_part(t, whole)->Ok_0;
    lemma_digits_end(t, first);
    assert(first < whole <= t.len());
    if is_at(t, whole, '.') {
        lemma_digits_end(t, whole + 1);
    }
    assert(whole <= frac <= t.len());
    let after: int = if is_at(t, frac + 1, '+') || is_at(t, frac + 1, '-') {
        frac + 2
    } else {
        frac + 1
    };
    if is_at(t, frac, 'e') || is_at(t, frac, 'E') {
        lemma_digits_end(t, after);
    }
    assert(frac <= end <= t.len());
    assert forall|i: int| 0 <= i < end implies cut[i] == t[i] by {}
    lemma_digits_take(t, end, first);
    assert(int_part(cut) == Ok::<int, int>(whole));
    if is_at(t, whole, '.') {
        lemma_digits_take(t, end, whole + 1);
    }
    assert(frac_part(cut, whole) == Ok::<int, int>(frac));
    if is_at(t, frac, 'e') || is_at(t, frac, 'E') {
        lemma_digits_take(t, end, after);
        assert(cut[frac] == t[frac]);
        assert(after < end);
    }
    assert(exp_part(cut, frac) == Ok::<int, int>(end));
}

/// A place found in one text, counted in another that holds the same
/// characters `by` places further on.
pub open spec fn moved(found: Result<int, int>, by: int) -> Result<int, int> {
    match found {
        Ok(end) => Ok(end + by),
        Err(bad) => Err(bad + by),
    }
}

/// The text of a number that begins with `first` and goes on at `pos` in
/// `text`.
pub open spec fn number_view(first: char, text: Seq<char>, pos: int) -> Seq<char> {
    seq![first] + text.skip(pos)
}

/// The text of a number, seen from its place `k`, is `text` seen from
/// `pos + k - 1`.
pub proof fn lemma_number_view(first: char, text: Seq<char>, pos: int, k: int)
    requires
        0 <= pos <= text.len(),
        1 <= k,
    ensures
        ({
            let t = number_view(first, text, pos);
            &&& t.len() == 1 + text.len() - pos
            &&& t[0] == first
            &&& k < t.len() ==> t[k] == text[pos + k - 1]
            &&& digit_at(t, k) == digit_at(text, pos + k - 1)
            &&& digits(t, k) == digits(text, pos + k - 1)
            &&& k <= t.len() ==> t.take(k) == seq![first] + text.subrange(pos, pos + k - 1)
        }),
{
    let t = seq![first] + text.skip(pos);
    if k <= t.len() {
        assert(t.skip(k) =~= text.skip(pos + k - 1));
        lemma_digits_shift(t, k, text, pos + k - 1);
        assert(t.take(k) =~= seq![first] + text.subrange(pos, pos + k - 1));
    } else {
        reveal_with_fuel(digits, 1);
    }
}

/// The parts of a number found in its own text are those found in `text`,
/// one place further on for the first character.
pub proof fn lemma_parts_view(first: char, text: Seq<char>, pos: int, k: int)
    requires
        0 <= pos <= text.len(),
        1 <= k,
    ensures
        ({
            let t = number_view(first, text, pos);
            &&& whole_part(t, k) == moved(whole_part(text, pos + k - 1), 1 - pos)
            &&& frac_part(t, k) == moved(frac_part(text, pos + k - 1), 1 - pos)
            &&& exp_part(t, k) == moved(exp_part(text, pos + k - 1), 1 - pos)
        }),
{
    lemma_number_view(first, text, pos, k);
    lemma_number_view(first, text, pos, k + 1);
    lemma_number_view(first, text, pos, k + 2);
}

/// Where a number ends in `text` whose first character `first` stands
/// before `pos`, or the place at which it stops being one.
pub open spec fn number_rest(first: char, text: Seq<char>, pos: int) -> Result<int, int> {
    let whole = if first == '-' {
        whole_part(text, pos)
    } else if first == '0' {
        if digit_at(text, pos) {
            Err(pos)
        } else {
            Ok(pos)
        }
    } else {
        Ok(pos + digits(text, pos))
    };
    match whole {
        Err(bad) => Err(bad),
        Ok(whole) => match frac_part(text, whole) {
            Err(bad) => Err(bad),
            Ok(frac) => exp_part(text, frac),
        },
    }
}

/// Reading a number on from `pos` in `text` finds what the grammar finds in
/// the number's own text, and what is read is a number.
pub proof fn lemma_number_rest(first: char, text: Seq<char>, pos: int)
    requires
        0 <= pos <= text.len(),
        first == '-' || is_digit(first),
    ensures
        number_end(number_view(first, text, pos)) == moved(
            number_rest(first, text, pos),
            1 - pos,
        ),
        match number_rest(first, text, pos) {
            Ok(end) => {
                &&& pos <= end <= text.len()
                &&& number_view(first, text, pos).take(end - pos + 1) == seq![first]
                    + text.subrange(pos, end)
                &&& is_number(seq![first] + text.subrange(pos, end))
            },
            Err(bad) => pos <= bad <= text.len(),
        },
{
    let t = number_view(first, text, pos);
    lemma_number_view(first, text, pos, 1);
    lemma_parts_view(first, text, pos, 1);
    lemma_digits_end(text, pos);
    if pos < text.len() {
        lemma_digits_end(text, pos + 1);
    }
    let whole_t = int_part(t);
    let whole = if first == '-' {
        whole_part(text, pos)
    } else if first == '0' {
        if digit_at(text, pos) {
            Err(pos)
        } else {
            Ok(pos)
        }
    } else {
        Ok(pos + digits(text, pos))
    };
    assert(whole_t == moved(whole, 1 - pos));
    match whole {
        Err(bad) => {},
        Ok(w) => {
            assert(pos <= w <= text.len());
            lemma_parts_view(first, text, pos, w - pos + 1);
            lemma_frac_bounds(text, w);
            match frac_part(text, w) {
                Err(bad) => {},
                Ok(f) => {
                    lemma_parts_view(first, text, pos, f - pos + 1);
                    lemma_exp_bounds(text, f);
                    match exp_part(text, f) {
                        Err(bad) => {},
                        Ok(end) => {
                            lemma_number_view(first, text, pos, end - pos + 1);
                            lemma_number_prefix(t);
                        },
                    }
                },
            }
        },
    }
}

/// A fraction ends, or fails, between its start and the end of the text.
pub proof fn lemma_frac_bounds(text: Seq<char>, from: int)
    requires
        0 <= from <= text.len(),
    ensures
        match frac_part(text, from) {
            Ok(end) => from <= end <= text.len(),
            Err(bad) => from <= bad <= text.len(),
        },
{
    if from < text.len() {
        lemma_digits_end(text, from + 1);
    }
}

/// An exponent ends, or fails, between its start and the end of the text.
pub proof fn lemma_exp_bounds(text: Seq<char>, from: int)
    requires
        0 <= from <= text.len(),
    ensures
        match exp_part(text, from) {
            Ok(end) => from <= end <= text.len(),
            Err(bad) => from <= bad <= text.len(),
        },
{
    if from < text.len() {
        lemma_digits_end(text, from + 1);
        if from + 1 < text.len() {
            lemma_digits_end(text, from + 2);
        }
    }
}

/// The character of an escape in a text of bytes can be spelled by an
/// escape again.
pub proof fn lemma_escape_short(text: Seq<char>, pos: int)
    requires
        crate::source::byte_text(text),
    ensures
        match escape(text, pos) {
            Parsed::Done { value, len } => value as int <= 0xFFFF,
            Parsed::Failed(f) => true,
        },
{
    if 0 <= pos < text.len() {
        assert(text[pos] as int <= 0xFF);
        if text[pos] == 'u' && hex_run(text, pos + 1) == 4 {
            let code = hex_code(text, pos + 1);
            assert(0 <= hex_value(text[pos + 1]) < 16);
            assert(0 <= hex_value(text[pos + 2]) < 16);
            assert(0 <= hex_value(text[pos + 3]) < 16);
            assert(0 <= hex_value(text[pos + 4]) < 16);
            assert(0 <= code <= 0xFFFF);
        }
    }
}

} // verus!
