use crate::error::{Fault, JsonError};
use crate::grammar::{
    classify, digit_at, digits, document, elements_text, escape, exp_part, frac_part, has_word,
    hex_code, hex_run, hex_value, int_part, is_at, is_digit, is_hex, is_number, is_space,
    lemma_digits_end, lex, Lexeme, MAX_DEPTH, member_text, members_text, Next, number_end,
    number_view, Parsed, separator, spaces, string_body, value_text, word_at,
};
use crate::parser::decodes;
use crate::source::{
    byte_text, bytes_of, ByteSource, chars_of, lemma_bytes_of_text, lemma_chars_of_bytes,
};
use crate::token::Token;
use crate::value::{
    all_members_short, all_nest_within, all_short, all_values_nest_within, all_values_wf, all_wf,
    elements_seq, hex_char, Json, JsonValue, lemma_elements_seq, members_map, short_text,
    spelled_char, spelled_elements, spelled_members, spelled_string, spelled_tail,
};
use vstd::prelude::*;

verus! {

/// Whether `word` stands in `text` at `pos`, as a part of it.
pub open spec fn stands_at(text: Seq<char>, pos: int, word: Seq<char>) -> bool {
    &&& 0 <= pos
    &&& pos + word.len() <= text.len()
    &&& text.subrange(pos, pos + word.len()) == word
}

/// A text that stands at a place stands there character by character, and
/// so do its two parts one after the other.
pub proof fn lemma_stands_parts(text: Seq<char>, pos: int, front: Seq<char>, back: Seq<char>)
    requires
        stands_at(text, pos, front + back),
    ensures
        stands_at(text, pos, front),
        stands_at(text, pos + front.len(), back),
{
    let whole = front + back;
    assert(text.subrange(pos, pos + front.len()) =~= whole.subrange(0, front.len() as int));
    assert(whole.subrange(0, front.len() as int) =~= front);
    assert(text.subrange(pos + front.len(), pos + front.len() + back.len()) =~= whole.subrange(
        front.len() as int,
        whole.len() as int,
    ));
    assert(whole.subrange(front.len() as int, whole.len() as int) =~= back);
}

/// The characters of a text that stands at a place.
pub proof fn lemma_stands_chars(text: Seq<char>, pos: int, word: Seq<char>)
    requires
        stands_at(text, pos, word),
    ensures
        forall|i: int| 0 <= i < word.len() ==> text[pos + i] == #[trigger] word[i],
{
    assert forall|i: int| 0 <= i < word.len() implies text[pos + i] == #[trigger] word[i] by {
        assert(text.subrange(pos, pos + word.len())[i] == text[pos + i]);
    }
}

/// A hexadecimal digit's character is one, and has the digit's value.
pub proof fn lemma_hex_char(digit: int)
    requires
        0 <= digit < 16,
    ensures
        is_hex(hex_char(digit)),
        hex_value(hex_char(digit)) == digit,
{
}

/// The spelling of a character is read back as that character.
pub proof fn lemma_spelled_char(text: Seq<char>, pos: int, c: char)
    requires
        stands_at(text, pos, spelled_char(c)),
    ensures
        c != '"' && c != '\\' && spelled_char(c).len() == 1 ==> text[pos] == c,
        spelled_char(c).len() > 1 ==> text[pos] == '\\' && escape(text, pos + 1)
            == (Parsed::Done { value: c, len: (spelled_char(c).len() - 1) as nat }),
        spelled_char(c).len() == 1 ==> c != '"' && c != '\\',
{
    lemma_stands_chars(text, pos, spelled_char(c));
    let word = spelled_char(c);
    if c == '"' || c == '\\' {
        assert(text[pos + 0] == word[0]);
        assert(text[pos + 1] == word[1]);
    } else if 0x100 <= c as int <= 0xFFFF {
        let code = c as int;
        assert(text[pos + 0] == word[0]);
        assert(text[pos + 1] == word[1]);
        assert(text[pos + 2] == word[2]);
        assert(text[pos + 3] == word[3]);
        assert(text[pos + 4] == word[4]);
        assert(text[pos + 5] == word[5]);
        lemma_hex_char(code / 0x1000);
        lemma_hex_char(code / 0x100 % 0x10);
        lemma_hex_char(code / 0x10 % 0x10);
        lemma_hex_char(code % 0x10);
        assert(hex_run(text, pos + 2) == 4);
        assert(hex_code(text, pos + 2) == code);
        assert(code as char == c);
    } else {
        assert(text[pos + 0] == word[0]);
    }
}

/// The spelling of a string's content is read back as that content.
pub proof fn lemma_spelled_tail(text: Seq<char>, pos: int, content: Seq<char>)
    requires
        stands_at(text, pos, spelled_tail(content)),
    ensures
        string_body(text, pos) == (Parsed::Done {
            value: content,
            len: spelled_tail(content).len(),
        }),
    decreases content.len(),
{
    if content.len() == 0 {
        lemma_stands_chars(text, pos, spelled_tail(content));
        assert(text[pos + 0] == spelled_tail(content)[0]);
        assert(content =~= Seq::<char>::empty());
    } else {
        let c = content[0];
        let rest = content.drop_first();
        let word = spelled_char(c);
        lemma_stands_parts(text, pos, word, spelled_tail(rest));
        lemma_spelled_char(text, pos, c);
        lemma_spelled_tail(text, pos + word.len(), rest);
        assert(content =~= seq![c] + rest);
    }
}

/// Whether a number that ends at `pos` ends there for the decoder too: the
/// text ends, or goes on with a character that no number goes on with.
pub open spec fn ends_number(text: Seq<char>, pos: int) -> bool {
    pos >= text.len() || !(is_digit(text[pos]) || text[pos] == '.' || text[pos] == 'e'
        || text[pos] == 'E')
}

/// A run of digits in a text is the same run in a longer text that does not
/// go on with a digit.
pub proof fn lemma_digits_extend(t: Seq<char>, rest: Seq<char>, from: int)
    requires
        0 <= from <= t.len(),
        rest.len() == 0 || !is_digit(rest[0]),
    ensures
        digits(t + rest, from) == digits(t, from),
    decreases t.len() - from,
{
    let u = t + rest;
    if from < t.len() {
        assert(u[from] == t[from]);
        if digit_at(t, from) {
            lemma_digits_extend(t, rest, from + 1);
        }
    } else {
        if rest.len() > 0 {
            assert(u[from] == rest[0]);
        }
    }
}

/// A number is found again, and ends where it ended, in a longer text that
/// goes on with a character that no number goes on with.
pub proof fn lemma_number_extend(t: Seq<char>, rest: Seq<char>)
    requires
        is_number(t),
        ends_number(rest, 0),
    ensures
        number_end(t + rest) == Ok::<int, int>(t.len() as int),
{
    let u = t + rest;
    let n = t.len() as int;
    assert forall|i: int| 0 <= i < n implies u[i] == t[i] by {}
    if rest.len() > 0 {
        assert(u[n] == rest[0]);
    }
    let first: int = if is_at(t, 0, '-') {
        1
    } else {
        0
    };
    let whole = int_part(t)->Ok_0;
    let frac = frac_part(t, whole)->Ok_0;
    lemma_digits_end(t, first);
    assert(first < whole <= n);
    lemma_digits_extend(t, rest, first);
    assert(int_part(u) == Ok::<int, int>(whole));
    if is_at(t, whole, '.') {
        lemma_digits_end(t, whole + 1);
        lemma_digits_extend(t, rest, whole + 1);
    }
    assert(whole <= frac <= n);
    assert(frac_part(u, whole) == Ok::<int, int>(frac));
    let after: int = if is_at(t, frac + 1, '+') || is_at(t, frac + 1, '-') {
        frac + 2
    } else {
        frac + 1
    };
    if is_at(t, frac, 'e') || is_at(t, frac, 'E') {
        lemma_digits_end(t, after);
        lemma_digits_extend(t, rest, after);
        assert(after < n);
    }
    assert(exp_part(u, frac) == Ok::<int, int>(n));
}

/// Whether a value that ends at `pos` is closed there: the text ends, or
/// goes on with a comma or a closing bracket or brace.
pub open spec fn closes(text: Seq<char>, pos: int) -> bool {
    pos >= text.len() || text[pos] == ',' || text[pos] == ']' || text[pos] == '}'
}

/// A character that is no whitespace is where the next token begins.
pub proof fn lemma_token_here(text: Seq<char>, pos: int)
    requires
        0 <= pos < text.len(),
        !is_space(text[pos]),
    ensures
        lex(text, pos) == Some(
            Lexeme { token: word_at(text, pos).0, skipped: 0, len: word_at(text, pos).1 },
        ),
{
    reveal(lex);
}

/// A character that begins no keyword is a token by itself.
pub proof fn lemma_char_token(text: Seq<char>, pos: int)
    requires
        0 <= pos < text.len(),
        text[pos] != 't',
        text[pos] != 'f',
        text[pos] != 'n',
    ensures
        word_at(text, pos) == (classify(text[pos]), 1nat),
{
    if has_word(text, pos, Token::TRUE.symbol()) {
        assert(text[pos + 0] == Token::TRUE.symbol()[0]);
    }
    if has_word(text, pos, Token::FALSE.symbol()) {
        assert(text[pos + 0] == Token::FALSE.symbol()[0]);
    }
    if has_word(text, pos, Token::NULL.symbol()) {
        assert(text[pos + 0] == Token::NULL.symbol()[0]);
    }
}

/// A punctuation mark that stands at `pos` is the next token there.
pub proof fn lemma_mark_here(text: Seq<char>, pos: int)
    requires
        0 <= pos < text.len(),
        text[pos] == ',' || text[pos] == ':' || text[pos] == ']' || text[pos] == '}'
            || text[pos] == '"' || text[pos] == '[' || text[pos] == '{',
    ensures
        lex(text, pos) == Some(Lexeme { token: classify(text[pos]), skipped: 0, len: 1 }),
{
    lemma_token_here(text, pos);
    lemma_char_token(text, pos);
}

/// A keyword that stands at `pos` is the next token there.
pub proof fn lemma_keyword_here(text: Seq<char>, pos: int, keyword: Token)
    requires
        keyword == Token::TRUE || keyword == Token::FALSE || keyword == Token::NULL,
        stands_at(text, pos, keyword.symbol()),
    ensures
        lex(text, pos) == Some(
            Lexeme { token: keyword, skipped: 0, len: keyword.symbol().len() },
        ),
{
    lemma_stands_chars(text, pos, keyword.symbol());
    assert(has_word(text, pos, keyword.symbol()));
    assert(text[pos + 0] == keyword.symbol()[0]);
    if has_word(text, pos, Token::TRUE.symbol()) {
        assert(text[pos + 0] == Token::TRUE.symbol()[0]);
    }
    if has_word(text, pos, Token::FALSE.symbol()) {
        assert(text[pos + 0] == Token::FALSE.symbol()[0]);
    }
    lemma_token_here(text, pos);
}

/// Whether the decoder, seeking a value at `pos` within `depth` arrays and
/// objects, finds `value` spelled by the `len` characters from `pos` on.
pub open spec fn reads_value(text: Seq<char>, pos: int, depth: nat, value: Json, len: nat) -> bool {
    match lex(text, pos) {
        Some(first) => {
            &&& first.skipped == 0
            &&& first.len <= len
            &&& first.token != Token::RBRAC
            &&& value_text(text, first.token, pos, pos + first.len, depth) == (Parsed::Done {
                value,
                len: (len - first.len) as nat,
            })
        },
        None => false,
    }
}

/// The spelling of a number is read back as that number.
pub proof fn lemma_reads_number(text: Seq<char>, pos: int, depth: nat, t: Seq<char>)
    requires
        is_number(t),
        stands_at(text, pos, t),
        closes(text, pos + t.len()),
    ensures
        reads_value(text, pos, depth, Json::Number(t), t.len()),
{
    let n = t.len() as int;
    let first: int = if is_at(t, 0, '-') {
        1
    } else {
        0
    };
    lemma_digits_end(t, first);
    assert(n >= 1);
    lemma_stands_chars(text, pos, t);
    assert(text[pos + 0] == t[0]);
    assert(t[0] == '-' || is_digit(t[0]));
    lemma_token_here(text, pos);
    lemma_char_token(text, pos);
    let token = classify(t[0]);
    assert(token == Token::DASH || token.spec_is_digit());
    assert(token.symbol()[0] == t[0]);
    let rest = text.skip(pos + n);
    let u = number_view(t[0], text, pos + 1);
    assert(u =~= t + rest);
    if rest.len() > 0 {
        assert(rest[0] == text[pos + n]);
    }
    lemma_number_extend(t, rest);
    assert(u.take(n) =~= t);
}

/// The spelling of a string is read back as that string.
pub proof fn lemma_reads_string(text: Seq<char>, pos: int, depth: nat, content: Seq<char>)
    requires
        stands_at(text, pos, spelled_string(content)),
    ensures
        reads_value(text, pos, depth, Json::Text(content), spelled_string(content).len()),
{
    lemma_stands_parts(text, pos, seq!['"'], spelled_tail(content));
    lemma_stands_chars(text, pos, seq!['"']);
    assert(text[pos + 0] == seq!['"'][0]);
    lemma_mark_here(text, pos);
    lemma_spelled_tail(text, pos + 1, content);
}

/// The spelling of a keyword is read back as its value.
pub proof fn lemma_reads_keyword(text: Seq<char>, pos: int, depth: nat, keyword: Token)
    requires
        keyword == Token::TRUE || keyword == Token::FALSE || keyword == Token::NULL,
        stands_at(text, pos, keyword.symbol()),
    ensures
        reads_value(
            text,
            pos,
            depth,
            if keyword == Token::TRUE {
                Json::Bool(true)
            } else if keyword == Token::FALSE {
                Json::Bool(false)
            } else {
                Json::Null
            },
            keyword.symbol().len(),
        ),
{
    lemma_keyword_here(text, pos, keyword);
}

/// The map that members build when they are put, from the first on, into a
/// map that holds `members` already.
pub open spec fn members_onto(
    members: Map<Seq<char>, Json>,
    entries: Seq<(String, JsonValue)>,
) -> Map<Seq<char>, Json>
    decreases entries.len(),
{
    if entries.len() == 0 {
        members
    } else {
        members_onto(
            members.insert(entries[0].0@, entries[0].1.view()),
            entries.drop_first(),
        )
    }
}

/// Putting members into a map one after the other ends with the last.
pub proof fn lemma_members_onto_last(
    members: Map<Seq<char>, Json>,
    entries: Seq<(String, JsonValue)>,
)
    requires
        entries.len() >= 1,
    ensures
        members_onto(members, entries) == members_onto(members, entries.drop_last()).insert(
            entries.last().0@,
            entries.last().1.view(),
        ),
    decreases entries.len(),
{
    if entries.len() == 1 {
        assert(entries.drop_last() =~= entries.drop_first());
        assert(members_onto(members, entries.drop_last()) == members);
        assert(members_onto(members.insert(entries[0].0@, entries[0].1.view()), entries.drop_first())
            == members.insert(entries[0].0@, entries[0].1.view()));
    } else {
        let grown = members.insert(entries[0].0@, entries[0].1.view());
        lemma_members_onto_last(grown, entries.drop_first());
        assert(entries.drop_first().drop_last() =~= entries.drop_last().drop_first());
        assert(entries.drop_first().last() == entries.last());
        assert(entries.drop_last()[0] == entries[0]);
    }
}

/// Members put into an empty map from the first on build the object's map.
pub proof fn lemma_members_onto(entries: Seq<(String, JsonValue)>)
    ensures
        members_onto(Map::empty(), entries) == members_map(entries),
    decreases entries.len(),
{
    if entries.len() > 0 {
        lemma_members_onto(entries.drop_last());
        lemma_members_onto_last(Map::empty(), entries);
    }
}

/// Whether the decoder, seeking the elements of an array at `pos`, finds
/// those that make `elements` into `all`, and the closing bracket, spelled
/// by the `len` characters from `pos` on.
pub open spec fn reads_elements(
    text: Seq<char>,
    pos: int,
    depth: nat,
    elements: Seq<Json>,
    all: Seq<Json>,
    len: nat,
) -> bool {
    match lex(text, pos) {
        Some(first) => {
            &&& first.skipped == 0
            &&& first.len <= len
            &&& first.token != Token::RBRAC
            &&& elements_text(text, first.token, pos, pos + first.len, depth, elements)
                == (Parsed::Done { value: all, len: (len - first.len) as nat })
        },
        None => false,
    }
}

/// The spelling of a document is read back as that document.
pub proof fn lemma_reads_value(text: Seq<char>, pos: int, depth: nat, v: JsonValue)
    requires
        v.wf(),
        v.nests_within(depth),
        stands_at(text, pos, v.spelled()),
        closes(text, pos + v.spelled().len()),
    ensures
        reads_value(text, pos, depth, v.view(), v.spelled().len()),
    decreases v, 2nat,
{
    match v {
        JsonValue::Null => {
            assert(v.spelled() =~= Token::NULL.symbol());
            lemma_reads_keyword(text, pos, depth, Token::NULL);
        },
        JsonValue::Bool(b) => {
            if b {
                assert(v.spelled() =~= Token::TRUE.symbol());
                lemma_reads_keyword(text, pos, depth, Token::TRUE);
            } else {
                assert(v.spelled() =~= Token::FALSE.symbol());
                lemma_reads_keyword(text, pos, depth, Token::FALSE);
            }
        },
        JsonValue::Number(t) => {
            lemma_reads_number(text, pos, depth, t@);
        },
        JsonValue::JsonString(t) => {
            lemma_reads_string(text, pos, depth, t@);
        },
        JsonValue::Array(elements) => {
            lemma_reads_array(text, pos, depth, elements@);
        },
        JsonValue::Object(members) => {
            members.lemma_members_smaller();
            members.lemma_wf();
            lemma_reads_object(text, pos, depth, members.members());
            lemma_members_onto(members.members());
        },
    }
}

/// The spelling of an array is read back as that array.
pub proof fn lemma_reads_array(text: Seq<char>, pos: int, depth: nat, elements: Seq<JsonValue>)
    requires
        all_wf(elements),
        depth < MAX_DEPTH,
        all_nest_within(elements, depth + 1),
        stands_at(text, pos, seq!['['] + spelled_elements(elements) + seq![']']),
    ensures
        reads_value(
            text,
            pos,
            depth,
            Json::Array(elements_seq(elements)),
            spelled_elements(elements).len() + 2,
        ),
    decreases elements, 1nat,
{
    let inner = spelled_elements(elements);
    assert(seq!['['] + inner + seq![']'] =~= seq!['['] + (inner + seq![']']));
    lemma_stands_parts(text, pos, seq!['['], inner + seq![']']);
    lemma_stands_chars(text, pos, seq!['[']);
    assert(text[pos + 0] == seq!['['][0]);
    lemma_mark_here(text, pos);
    if elements.len() == 0 {
        assert(inner + seq![']'] =~= seq![']']);
        lemma_stands_chars(text, pos + 1, seq![']']);
        assert(text[pos + 1 + 0] == seq![']'][0]);
        lemma_mark_here(text, pos + 1);
        assert(elements_seq(elements) =~= Seq::<Json>::empty());
    } else {
        lemma_reads_elements(text, pos + 1, (depth + 1) as nat, elements, Seq::empty());
        assert(Seq::<Json>::empty() + elements_seq(elements) =~= elements_seq(elements));
    }
}

/// A closing token that stands at `pos` ends a list there.
pub proof fn lemma_separator_end(text: Seq<char>, pos: int, close: Token)
    requires
        0 <= pos < text.len(),
        close == Token::RBRAC && text[pos] == ']' || close == Token::RBRACE && text[pos] == '}',
    ensures
        separator(text, pos, close) == (Next::End { len: 1 }),
{
    reveal(separator);
    lemma_mark_here(text, pos);
}

/// A comma that stands at `pos` leads to the token after it.
pub proof fn lemma_separator_more(text: Seq<char>, pos: int, close: Token, next: Lexeme)
    requires
        0 <= pos < text.len(),
        text[pos] == ',',
        close == Token::RBRAC || close == Token::RBRACE,
        lex(text, pos + 1) == Some(next),
    ensures
        separator(text, pos, close) == (Next::More {
            token: next.token,
            to: 1 + next.skipped,
            len: 1 + next.skipped + next.len,
        }),
{
    reveal(separator);
    lemma_mark_here(text, pos);
}

/// How the spelling of a list of elements lies in a text: the first
/// element, then the closing bracket or a comma and the other elements.
pub proof fn lemma_elements_layout(text: Seq<char>, pos: int, elements: Seq<JsonValue>)
    requires
        elements.len() >= 1,
        stands_at(text, pos, spelled_elements(elements) + seq![']']),
    ensures
        stands_at(text, pos, elements[0].spelled()),
        0 <= pos + elements[0].spelled().len() < text.len(),
        elements.len() == 1 ==> {
            &&& text[pos + elements[0].spelled().len()] == ']'
            &&& spelled_elements(elements).len() == elements[0].spelled().len()
        },
        elements.len() > 1 ==> {
            &&& text[pos + elements[0].spelled().len()] == ','
            &&& stands_at(
                text,
                pos + elements[0].spelled().len() + 1,
                spelled_elements(elements.drop_first()) + seq![']'],
            )
            &&& spelled_elements(elements).len() == elements[0].spelled().len() + 1
                + spelled_elements(elements.drop_first()).len()
        },
{
    let word = elements[0].spelled();
    if elements.len() == 1 {
        lemma_stands_parts(text, pos, word, seq![']']);
        lemma_stands_chars(text, pos + word.len(), seq![']']);
        assert(text[pos + word.len() + 0] == seq![']'][0]);
    } else {
        let tail = spelled_elements(elements.drop_first()) + seq![']'];
        assert(spelled_elements(elements) + seq![']'] =~= word + (seq![','] + tail));
        lemma_stands_parts(text, pos, word, seq![','] + tail);
        lemma_stands_parts(text, pos + word.len(), seq![','], tail);
        lemma_stands_chars(text, pos + word.len(), seq![',']);
        assert(text[pos + word.len() + 0] == seq![','][0]);
    }
}

/// What holds of every element of a list holds of all but the first.
pub proof fn lemma_elements_rest(elements: Seq<JsonValue>, depth: nat)
    requires
        elements.len() >= 1,
        all_wf(elements),
        all_nest_within(elements, depth),
    ensures
        elements[0].wf(),
        elements[0].nests_within(depth),
        all_wf(elements.drop_first()),
        all_nest_within(elements.drop_first(), depth),
        elements_seq(elements) == seq![elements[0].view()] + elements_seq(elements.drop_first()),
{
    let rest = elements.drop_first();
    assert forall|i: int| 0 <= i < rest.len() implies (#[trigger] rest[i]).wf() by {
        assert(rest[i] == elements[i + 1]);
    }
    assert forall|i: int| 0 <= i < rest.len() implies (#[trigger] rest[i]).nests_within(depth) by {
        assert(rest[i] == elements[i + 1]);
    }
    lemma_elements_seq(elements);
    lemma_elements_seq(rest);
    assert(elements_seq(elements) =~= seq![elements[0].view()] + elements_seq(rest));
}

/// The spelling of the elements of an array, with the closing bracket, is
/// read back as those elements.
pub proof fn lemma_reads_elements(
    text: Seq<char>,
    pos: int,
    depth: nat,
    elements: Seq<JsonValue>,
    before: Seq<Json>,
)
    requires
        elements.len() >= 1,
        all_wf(elements),
        all_nest_within(elements, depth),
        stands_at(text, pos, spelled_elements(elements) + seq![']']),
    ensures
        reads_elements(
            text,
            pos,
            depth,
            before,
            before + elements_seq(elements),
            spelled_elements(elements).len() + 1,
        ),
    decreases elements, 0nat,
{
    let head = elements[0];
    let word = head.spelled();
    let rest = elements.drop_first();
    let grown = before.push(head.view());
    lemma_elements_layout(text, pos, elements);
    lemma_elements_rest(elements, depth);
    lemma_reads_value(text, pos, depth, head);
    let first = lex(text, pos)->Some_0;
    assert(value_text(text, first.token, pos, pos + first.len, depth) == (Parsed::Done {
        value: head.view(),
        len: (word.len() - first.len) as nat,
    }));
    if elements.len() == 1 {
        lemma_separator_end(text, pos + word.len(), Token::RBRAC);
        assert(elements_seq(rest) =~= Seq::<Json>::empty());
        assert(grown =~= before + elements_seq(elements));
    } else {
        lemma_reads_elements(text, pos + word.len() + 1, depth, rest, grown);
        let next = lex(text, pos + word.len() + 1)->Some_0;
        lemma_separator_more(text, pos + word.len(), Token::RBRAC, next);
        assert(grown + elements_seq(rest) =~= before + elements_seq(elements));
    }
}

/// The spelling of an object is read back as that object.
pub proof fn lemma_reads_object(
    text: Seq<char>,
    pos: int,
    depth: nat,
    entries: Seq<(String, JsonValue)>,
)
    requires
        all_values_wf(entries),
        depth < MAX_DEPTH,
        all_values_nest_within(entries, depth + 1),
        stands_at(text, pos, seq!['{'] + spelled_members(entries) + seq!['}']),
    ensures
        reads_value(
            text,
            pos,
            depth,
            Json::Object(members_onto(Map::empty(), entries)),
            spelled_members(entries).len() + 2,
        ),
    decreases entries, 1nat,
{
    let inner = spelled_members(entries);
    assert(seq!['{'] + inner + seq!['}'] =~= seq!['{'] + (inner + seq!['}']));
    lemma_stands_parts(text, pos, seq!['{'], inner + seq!['}']);
    lemma_stands_chars(text, pos, seq!['{']);
    assert(text[pos + 0] == seq!['{'][0]);
    lemma_mark_here(text, pos);
    if entries.len() == 0 {
        assert(inner + seq!['}'] =~= seq!['}']);
        lemma_stands_chars(text, pos + 1, seq!['}']);
        assert(text[pos + 1 + 0] == seq!['}'][0]);
        lemma_mark_here(text, pos + 1);
    } else {
        lemma_reads_members(text, pos + 1, (depth + 1) as nat, entries, Map::empty());
    }
}

/// Whether the decoder, seeking a member at `pos`, finds the key `key` and
/// the value `value`, spelled by the `len` characters from `pos` on.
pub open spec fn reads_member(
    text: Seq<char>,
    pos: int,
    depth: nat,
    key: Seq<char>,
    value: Json,
    len: nat,
) -> bool {
    &&& lex(text, pos) == Some(Lexeme { token: Token::DQUOTE, skipped: 0, len: 1 })
    &&& len >= 1
    &&& member_text(text, Token::DQUOTE, pos, pos + 1, depth) == (Parsed::Done {
        value: (key, value),
        len: (len - 1) as nat,
    })
}

/// The spelling of a member is read back as that member.
pub proof fn lemma_reads_member(
    text: Seq<char>,
    pos: int,
    depth: nat,
    key: Seq<char>,
    v: JsonValue,
)
    requires
        v.wf(),
        v.nests_within(depth),
        stands_at(text, pos, spelled_string(key) + seq![':'] + v.spelled()),
        closes(text, pos + spelled_string(key).len() + 1 + v.spelled().len()),
    ensures
        reads_member(
            text,
            pos,
            depth,
            key,
            v.view(),
            spelled_string(key).len() + 1 + v.spelled().len(),
        ),
    decreases v, 3nat,
{
    let name = spelled_string(key);
    let word = v.spelled();
    assert(name + seq![':'] + word =~= name + (seq![':'] + word));
    lemma_stands_parts(text, pos, name, seq![':'] + word);
    lemma_stands_parts(text, pos + name.len(), seq![':'], word);
    lemma_stands_chars(text, pos + name.len(), seq![':']);
    assert(text[pos + name.len() + 0] == seq![':'][0]);
    lemma_stands_parts(text, pos, seq!['"'], spelled_tail(key));
    lemma_stands_chars(text, pos, seq!['"']);
    assert(text[pos + 0] == seq!['"'][0]);
    lemma_mark_here(text, pos);
    lemma_spelled_tail(text, pos + 1, key);
    lemma_mark_here(text, pos + name.len());
    lemma_reads_value(text, pos + name.len() + 1, depth, v);
}

/// How the spelling of a list of members lies in a text: the first member,
/// then the closing brace or a comma and the other members.
pub proof fn lemma_members_layout(text: Seq<char>, pos: int, entries: Seq<(String, JsonValue)>)
    requires
        entries.len() >= 1,
        stands_at(text, pos, spelled_members(entries) + seq!['}']),
    ensures
        ({
            let word = spelled_string(entries[0].0@) + seq![':'] + entries[0].1.spelled();
            &&& stands_at(text, pos, word)
            &&& word.len() == spelled_string(entries[0].0@).len() + 1
                + entries[0].1.spelled().len()
            &&& 0 <= pos + word.len() < text.len()
            &&& entries.len() == 1 ==> {
                &&& text[pos + word.len()] == '}'
                &&& spelled_members(entries).len() == word.len()
            }
            &&& entries.len() > 1 ==> {
                &&& text[pos + word.len()] == ','
                &&& stands_at(
                    text,
                    pos + word.len() + 1,
                    spelled_members(entries.drop_first()) + seq!['}'],
                )
                &&& spelled_members(entries).len() == word.len() + 1 + spelled_members(
                    entries.drop_first(),
                ).len()
            }
        }),
{
    let word = spelled_string(entries[0].0@) + seq![':'] + entries[0].1.spelled();
    if entries.len() == 1 {
        lemma_stands_parts(text, pos, word, seq!['}']);
        lemma_stands_chars(text, pos + word.len(), seq!['}']);
        assert(text[pos + word.len() + 0] == seq!['}'][0]);
    } else {
        let tail = spelled_members(entries.drop_first()) + seq!['}'];
        assert(spelled_members(entries) + seq!['}'] =~= word + (seq![','] + tail));
        lemma_stands_parts(text, pos, word, seq![','] + tail);
        lemma_stands_parts(text, pos + word.len(), seq![','], tail);
        lemma_stands_chars(text, pos + word.len(), seq![',']);
        assert(text[pos + word.len() + 0] == seq![','][0]);
    }
}

/// What holds of the value of every member of a list holds of all but the
/// first.
pub proof fn lemma_members_rest(entries: Seq<(String, JsonValue)>, depth: nat)
    requires
        entries.len() >= 1,
        all_values_wf(entries),
        all_values_nest_within(entries, depth),
    ensures
        entries[0].1.wf(),
        entries[0].1.nests_within(depth),
        all_values_wf(entries.drop_first()),
        all_values_nest_within(entries.drop_first(), depth),
{
    let rest = entries.drop_first();
    assert forall|i: int| 0 <= i < rest.len() implies (#[trigger] rest[i]).1.wf() by {
        assert(rest[i] == entries[i + 1]);
    }
    assert forall|i: int| 0 <= i < rest.len() implies (#[trigger] rest[i]).1.nests_within(
        depth,
    ) by {
        assert(rest[i] == entries[i + 1]);
    }
}

/// The spelling of the members of an object, with the closing brace, is
/// read back as those members.
pub proof fn lemma_reads_members(
    text: Seq<char>,
    pos: int,
    depth: nat,
    entries: Seq<(String, JsonValue)>,
    before: Map<Seq<char>, Json>,
)
    requires
        entries.len() >= 1,
        all_values_wf(entries),
        all_values_nest_within(entries, depth),
        stands_at(text, pos, spelled_members(entries) + seq!['}']),
    ensures
        lex(text, pos) == Some(Lexeme { token: Token::DQUOTE, skipped: 0, len: 1 }),
        members_text(text, Token::DQUOTE, pos, pos + 1, depth, before) == (Parsed::Done {
            value: members_onto(before, entries),
            len: spelled_members(entries).len(),
        }),
    decreases entries, 0nat,
{
    let head = entries[0];
    let key = head.0@;
    let v = head.1;
    let word = spelled_string(key) + seq![':'] + v.spelled();
    let rest = entries.drop_first();
    let grown = before.insert(key, v.view());
    lemma_members_layout(text, pos, entries);
    lemma_members_rest(entries, depth);
    lemma_reads_member(text, pos, depth, key, v);
    assert(member_text(text, Token::DQUOTE, pos, pos + 1, depth) == (Parsed::Done {
        value: (key, v.view()),
        len: (word.len() - 1) as nat,
    }));
    if entries.len() == 1 {
        lemma_separator_end(text, pos + word.len(), Token::RBRACE);
        assert(members_onto(grown, rest) == grown);
    } else {
        lemma_reads_members(text, pos + word.len() + 1, depth, rest, grown);
        let next = lex(text, pos + word.len() + 1)->Some_0;
        lemma_separator_more(text, pos + word.len(), Token::RBRACE, next);
    }
}

/// Decoding the text that spells a document gives that document back:
/// every well-formed document that is nested no deeper than the decoder
/// follows is the document of its own spelling.
pub proof fn lemma_round_trip(v: JsonValue)
    requires
        v.wf(),
        v.nests_within(0),
    ensures
        document(v.spelled()) == Ok::<Json, Fault>(v.view()),
{
    let text = v.spelled();
    assert(text.subrange(0, text.len() as int) =~= text);
    lemma_reads_value(text, 0, 0, v);
    let first = lex(text, 0)->Some_0;
    assert(spaces(text, text.len() as int) == 0);
}

/// Decoding a text, spelling the document that comes out and decoding the
/// spelling gives a document structurally equal to the first.
pub proof fn lemma_decode_spell_decode(
    text: Seq<char>,
    first: Result<JsonValue, JsonError>,
    second: Result<JsonValue, JsonError>,
)
    requires
        decodes(text, first),
        first.is_ok(),
        decodes(first->Ok_0.spelled(), second),
    ensures
        second.is_ok(),
        second->Ok_0.view() == first->Ok_0.view(),
{
    lemma_round_trip(first->Ok_0);
}

/// Two texts of bytes, one after the other, are a text of bytes.
pub proof fn lemma_byte_text_parts(front: Seq<char>, back: Seq<char>)
    requires
        byte_text(front),
        byte_text(back),
    ensures
        byte_text(front + back),
{
    let whole = front + back;
    assert forall|i: int| 0 <= i < whole.len() implies (#[trigger] whole[i]) as int <= 0xFF by {
        if i < front.len() {
            assert(whole[i] == front[i]);
        } else {
            assert(whole[i] == back[i - front.len()]);
        }
    }
}

/// The characters of a run of digits are digits.
pub proof fn lemma_number_is_byte_text(t: Seq<char>)
    requires
        is_number(t),
    ensures
        byte_text(t),
{
    let n = t.len() as int;
    let first: int = if is_at(t, 0, '-') {
        1
    } else {
        0
    };
    let whole = int_part(t)->Ok_0;
    let frac = frac_part(t, whole)->Ok_0;
    lemma_digits_end(t, first);
    if is_at(t, whole, '.') {
        lemma_digits_end(t, whole + 1);
    }
    let after: int = if is_at(t, frac + 1, '+') || is_at(t, frac + 1, '-') {
        frac + 2
    } else {
        frac + 1
    };
    if is_at(t, frac, 'e') || is_at(t, frac, 'E') {
        lemma_digits_end(t, after);
    }
    assert forall|i: int| 0 <= i < n implies (#[trigger] t[i]) as int <= 0xFF by {
        if i < first {
        } else if i < whole {
            assert(digit_at(t, i));
        } else if i < frac {
            if i > whole {
                assert(digit_at(t, i));
            }
        } else if i >= after {
            assert(digit_at(t, i));
        }
    }
}

/// The spelling of a character within the reach of an escape is a text of
/// bytes.
pub proof fn lemma_spelled_char_bytes(c: char)
    requires
        c as int <= 0xFFFF,
    ensures
        byte_text(spelled_char(c)),
{
    let word = spelled_char(c);
    assert forall|i: int| 0 <= i < word.len() implies (#[trigger] word[i]) as int <= 0xFF by {}
}

/// The spelling of a string's content is a text of bytes where every
/// character of the content is within the reach of an escape.
pub proof fn lemma_spelled_tail_bytes(content: Seq<char>)
    requires
        short_text(content),
    ensures
        byte_text(spelled_tail(content)),
    decreases content.len(),
{
    if content.len() > 0 {
        let rest = content.drop_first();
        assert forall|i: int| 0 <= i < rest.len() implies (#[trigger] rest[i]) as int
            <= 0xFFFF by {
            assert(rest[i] == content[i + 1]);
        }
        lemma_spelled_char_bytes(content[0]);
        lemma_spelled_tail_bytes(rest);
        lemma_byte_text_parts(spelled_char(content[0]), spelled_tail(rest));
    }
}

/// The spelling of a string is a text of bytes where every character of
/// the string is within the reach of an escape.
pub proof fn lemma_spelled_string_bytes(content: Seq<char>)
    requires
        short_text(content),
    ensures
        byte_text(spelled_string(content)),
{
    lemma_spelled_tail_bytes(content);
    lemma_byte_text_parts(seq!['"'], spelled_tail(content));
}

/// The spelling of a document is a text of bytes where no string in it has
/// a character beyond the reach of an escape.
pub proof fn lemma_spelled_bytes(v: JsonValue)
    requires
        v.wf(),
        v.short(),
    ensures
        byte_text(v.spelled()),
    decreases v, 1nat,
{
    match v {
        JsonValue::Null => {},
        JsonValue::Bool(b) => {},
        JsonValue::Number(t) => {
            lemma_number_is_byte_text(t@);
        },
        JsonValue::JsonString(t) => {
            lemma_spelled_string_bytes(t@);
        },
        JsonValue::Array(elements) => {
            lemma_spelled_elements_bytes(elements@);
            lemma_byte_text_parts(seq!['['], spelled_elements(elements@));
            lemma_byte_text_parts(seq!['['] + spelled_elements(elements@), seq![']']);
        },
        JsonValue::Object(members) => {
            members.lemma_members_smaller();
            members.lemma_wf();
            lemma_spelled_members_bytes(members.members());
            lemma_byte_text_parts(seq!['{'], spelled_members(members.members()));
            lemma_byte_text_parts(seq!['{'] + spelled_members(members.members()), seq!['}']);
        },
    }
}

/// The spelling of a list of elements is a text of bytes where each of them
/// is spelled in bytes.
pub proof fn lemma_spelled_elements_bytes(elements: Seq<JsonValue>)
    requires
        all_wf(elements),
        all_short(elements),
    ensures
        byte_text(spelled_elements(elements)),
    decreases elements, 0nat,
{
    if elements.len() >= 1 {
        let rest = elements.drop_first();
        assert(elements[0].wf() && elements[0].short());
        lemma_spelled_bytes(elements[0]);
        if elements.len() > 1 {
            assert forall|i: int| 0 <= i < rest.len() implies (#[trigger] rest[i]).wf()
                && rest[i].short() by {
                assert(rest[i] == elements[i + 1]);
            }
            lemma_spelled_elements_bytes(rest);
            lemma_byte_text_parts(elements[0].spelled(), seq![',']);
            lemma_byte_text_parts(elements[0].spelled() + seq![','], spelled_elements(rest));
        }
    }
}

/// The spelling of a list of members is a text of bytes where each key and
/// each value is spelled in bytes.
pub proof fn lemma_spelled_members_bytes(entries: Seq<(String, JsonValue)>)
    requires
        all_values_wf(entries),
        all_members_short(entries),
    ensures
        byte_text(spelled_members(entries)),
    decreases entries, 0nat,
{
    if entries.len() >= 1 {
        let rest = entries.drop_first();
        let name = spelled_string(entries[0].0@);
        let word = entries[0].1.spelled();
        assert(entries[0].1.wf() && entries[0].1.short() && short_text(entries[0].0@));
        lemma_spelled_string_bytes(entries[0].0@);
        lemma_spelled_bytes(entries[0].1);
        lemma_byte_text_parts(name, seq![':']);
        lemma_byte_text_parts(name + seq![':'], word);
        if entries.len() > 1 {
            assert forall|i: int| 0 <= i < rest.len() implies (#[trigger] rest[i]).1.wf()
                && short_text(rest[i].0@) && rest[i].1.short() by {
                assert(rest[i] == entries[i + 1]);
            }
            lemma_spelled_members_bytes(rest);
            lemma_byte_text_parts(name + seq![':'] + word, seq![',']);
            lemma_byte_text_parts(name + seq![':'] + word + seq![','], spelled_members(rest));
        }
    }
}

/// The spelling of a document that was decoded from a byte source is the
/// text of a byte source again: that of the bytes of its characters.
pub proof fn lemma_spelling_fits_a_source(source: ByteSource, json: Result<JsonValue, JsonError>)
    requires
        decodes(source.text(), json),
        json.is_ok(),
    ensures
        byte_text(json->Ok_0.spelled()),
        chars_of(bytes_of(json->Ok_0.spelled())) == json->Ok_0.spelled(),
{
    lemma_chars_of_bytes(source@);
    lemma_spelled_bytes(json->Ok_0);
    lemma_bytes_of_text(json->Ok_0.spelled());
}

/// Decoding a byte source, spelling the document that comes out into the
/// bytes of a second source and decoding that one gives a document
/// structurally equal to the first.
pub proof fn lemma_decode_spell_decode_source(
    source: ByteSource,
    first: Result<JsonValue, JsonError>,
    spelling: ByteSource,
    second: Result<JsonValue, JsonError>,
)
    requires
        decodes(source.text(), first),
        first.is_ok(),
        spelling@ == bytes_of(first->Ok_0.spelled()),
        decodes(spelling.text(), second),
    ensures
        second.is_ok(),
        second->Ok_0.view() == first->Ok_0.view(),
{
    lemma_spelling_fits_a_source(source, first);
    lemma_decode_spell_decode(source.text(), first, second);
}

} // verus!
