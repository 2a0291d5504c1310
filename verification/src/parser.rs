use crate::error::{char_at, ErrorKind, Fault, JsonError, lines_before};
use crate::grammar::{
    array_text, classify, digit_at, digits, document, elements_text, escape, exp_part, frac_part,
    hex_at, hex_value, is_at, is_hex, is_number, lemma_escape_short, lemma_lex_bounds,
    lemma_number_rest, lex, MAX_DEPTH, member_text, members_text, Next, number_rest, number_text,
    object_text, Parsed, prepend, separator, shifted, spaces, string_body, string_text, unexpected,
    unicode_escape, value_text, whole_part, word_at,
};
use crate::reader::BufferedReader;
use crate::source::{byte_text, ByteSource, lemma_chars_of_bytes};
use crate::text::{char_from_u32, push_char};
use crate::token::Token;
use crate::value::{
    all_members_short, all_nest_within, all_short, all_values_nest_within, all_wf, elements_seq,
    JsonObject, JsonValue, short_text,
};
use vstd::prelude::*;

verus! {

/// A decoder over one byte source: the reader, the token read last and the
/// place where it was found, and the number of arrays and objects that are
/// open.
pub struct JsonParser<'a> {
    reader: BufferedReader<'a>,
    curr_token: Token,
    token_offset: usize,
    token_line: usize,
    token_found: Option<char>,
    depth: usize,
}

/// The token of a single character.
pub fn classify_char(c: char) -> (token: Token)
    ensures
        token == classify(c),
{
    let mut symbol = String::new();
    push_char(&mut symbol, c);
    let found = Token::has_symbol(symbol.as_str());
    proof {
        let text = seq![c];
        assert(symbol@ =~= text);
        let wanted = classify(c);
        if wanted != Token::NONE1 {
            assert(wanted.symbol() =~= text);
            assert(wanted.names(text));
        }
        if found.names(text) {
            assert(found.symbol()[0] == c);
        }
    }
    match found {
        Token::T | Token::N | Token::F | Token::U | Token::R | Token::B => Token::NONE1,
        other => other,
    }
}

/// Whether the next character that was not looked at yet is `c`. Looks one
/// character further ahead unless the input ends there.
fn peek_is(reader: &mut BufferedReader, c: char) -> (found: bool)
    requires
        old(reader).wf(),
    ensures
        final(reader).wf(),
        final(reader).text() == old(reader).text(),
        final(reader).cursor() == old(reader).cursor(),
        final(reader).current() == old(reader).current(),
        final(reader).previous() == old(reader).previous(),
        final(reader).ahead() <= old(reader).ahead() + 1,
        found ==> final(reader).ahead() == old(reader).ahead() + 1,
        found == (old(reader).cursor() + old(reader).ahead() < old(reader).text().len()
            && old(reader).text()[old(reader).cursor() + old(reader).ahead()] == c),
{
    match reader.peek_next_char() {
        Some(next) => next == c,
        None => false,
    }
}

/// The value of a hexadecimal digit; `None` for any other character.
pub fn hex_digit(c: char) -> (value: Option<u32>)
    ensures
        is_hex(c) ==> value == Some(hex_value(c) as u32),
        !is_hex(c) ==> value.is_none(),
        value.is_some() ==> value.unwrap() < 16,
{
    if '0' <= c && c <= '9' {
        Some(c as u32 - '0' as u32)
    } else if 'a' <= c && c <= 'f' {
        Some(c as u32 - 'a' as u32 + 10)
    } else if 'A' <= c && c <= 'F' {
        Some(c as u32 - 'A' as u32 + 10)
    } else {
        None
    }
}

impl<'a> JsonParser<'a> {
    /// The whole input, one character per byte of the source.
    pub closed spec fn text(&self) -> Seq<char> {
        self.reader.text()
    }

    /// The number of characters consumed so far.
    pub closed spec fn cursor(&self) -> int {
        self.reader.cursor()
    }

    /// The token read last; `NONE0` before the first.
    pub closed spec fn token(&self) -> Token {
        self.curr_token
    }

    /// The offset at which the token read last begins.
    pub closed spec fn token_at(&self) -> int {
        self.token_offset as int
    }

    /// The number of arrays and objects that are open.
    pub closed spec fn depth(&self) -> nat {
        self.depth as nat
    }

    /// The reader is in order, nothing is looked ahead, and the line of the
    /// current token is on record.
    pub closed spec fn in_step(&self) -> bool {
        &&& self.reader.wf()
        &&& byte_text(self.reader.text())
        &&& self.reader.ahead() == 0
        &&& self.token_line == lines_before(self.reader.text(), self.token_offset as int)
        &&& self.token_found == char_at(self.reader.text(), self.token_offset as int)
    }

    /// The decoder's invariant.
    pub open spec fn wf(&self) -> bool {
        &&& self.in_step()
        &&& 0 <= self.token_at() <= self.cursor() <= self.text().len()
        &&& self.depth() <= MAX_DEPTH
    }

    /// Whether this decoder differs from `before` by its cursor at most.
    pub open spec fn moved_from(&self, before: &Self) -> bool {
        &&& self.text() == before.text()
        &&& self.token() == before.token()
        &&& self.token_at() == before.token_at()
        &&& self.depth() == before.depth()
    }

    /// A decoder at the start of `source`, with no token read yet.
    pub fn new(source: &'a ByteSource) -> (parser: JsonParser<'a>)
        ensures
            parser.wf(),
            parser.text() == source.text(),
            parser.cursor() == 0,
            parser.token() == Token::NONE0,
            parser.token_at() == 0,
            parser.depth() == 0,
    {
        proof {
            lemma_chars_of_bytes(source@);
        }
        let mut reader = BufferedReader::new(source);
        let first = reader.peek_next_char();
        reader.reset_lookahead();
        JsonParser {
            reader,
            curr_token: Token::NONE0,
            token_offset: 0,
            token_line: 0,
            token_found: first,
            depth: 0,
        }
    }

    /// The reader, for the place in the input and the characters read last.
    pub fn reader(&self) -> (reader: &BufferedReader<'a>)
        requires
            self.wf(),
        ensures
            reader.wf(),
            reader.text() == self.text(),
            reader.cursor() == self.cursor(),
            reader.ahead() == 0,
    {
        &self.reader
    }

    /// The token read last.
    pub fn curr_token(&self) -> (token: Token)
        ensures
            token == self.token(),
    {
        self.curr_token
    }

    /// The number of characters consumed so far.
    pub fn offset(&self) -> (offset: usize)
        requires
            self.wf(),
        ensures
            offset == self.cursor(),
    {
        self.reader.offset()
    }

    /// The error of kind `kind` at the current token.
    fn error_at_token(&self, kind: ErrorKind) -> (error: JsonError)
        requires
            self.wf(),
        ensures
            error.reports(Fault { kind, offset: self.token_at() }, self.text()),
    {
        JsonError {
            kind,
            line: self.token_line,
            offset: self.token_offset,
            found: self.token_found,
        }
    }

    /// The error of kind `kind` at the cursor. Nothing is consumed.
    fn error_at_cursor(&mut self, kind: ErrorKind) -> (error: JsonError)
        requires
            old(self).wf(),
        ensures
            final(self).wf(),
            final(self).moved_from(old(self)),
            final(self).cursor() == old(self).cursor(),
            error.reports(Fault { kind, offset: old(self).cursor() }, old(self).text()),
    {
        let found = self.reader.peek_next_char();
        self.reader.reset_lookahead();
        JsonError { kind, line: self.reader.line(), offset: self.reader.offset(), found }
    }

    /// Consumes the whitespace at the cursor, all of it.
    pub fn whitespace(&mut self)
        requires
            old(self).wf(),
        ensures
            final(self).wf(),
            final(self).moved_from(old(self)),
            final(self).cursor() == old(self).cursor() + spaces(
                old(self).text(),
                old(self).cursor(),
            ),
    {
        let ghost start = self.cursor();
        let ghost text = self.text();
        loop
            invariant
                self.wf(),
                self.moved_from(old(self)),
                text == self.text(),
                start == old(self).cursor(),
                start <= self.cursor(),
                spaces(text, start) == self.cursor() - start + spaces(text, self.cursor()),
            ensures
                spaces(text, self.cursor()) == 0,
            decreases self.text().len() - self.cursor(),
        {
            match self.reader.peek_next_char() {
                Some(c) => {
                    if c != ' ' && c != '\t' && c != '\r' && c != '\n' {
                        self.reader.reset_lookahead();
                        break ;
                    }
                    match self.reader.get_next_char() {
                        Ok(_) => {},
                        Err(_) => {
                            break ;
                        },
                    }
                },
                None => {
                    self.reader.reset_lookahead();
                    break ;
                },
            }
        }
    }

    /// Reads the next token: passes over whitespace, consumes one character
    /// and classifies it, and where that character begins a keyword that
    /// stands there in full, consumes the rest of the keyword too. Where
    /// only whitespace is left, that is consumed and the result is an
    /// `IoError` at the end of the input.
    pub fn get_next_token(&mut self) -> (next: Result<Token, JsonError>)
        requires
            old(self).wf(),
        ensures
            final(self).wf(),
            final(self).text() == old(self).text(),
            final(self).depth() == old(self).depth(),
            match lex(old(self).text(), old(self).cursor()) {
                Some(found) => {
                    &&& next == Ok::<Token, JsonError>(found.token)
                    &&& final(self).token() == found.token
                    &&& final(self).token_at() == old(self).cursor() + found.skipped
                    &&& final(self).cursor() == old(self).cursor() + found.skipped + found.len
                },
                None => {
                    &&& next.is_err()
                    &&& next.unwrap_err().reports(
                        Fault { kind: ErrorKind::IoError, offset: old(self).text().len() as int },
                        old(self).text(),
                    )
                    &&& final(self).token() == old(self).token()
                    &&& final(self).token_at() == old(self).token_at()
                    &&& final(self).cursor() == old(self).text().len()
                },
            },
    {
        reveal(lex);
        self.whitespace();
        let line = self.reader.line();
        let at = self.reader.offset();
        let c = match self.reader.get_next_char() {
            Ok(c) => c,
            Err(error) => {
                return Err(error);
            },
        };
        let mut token = classify_char(c);
        let mut rest: usize = 0;
        if c == 't' {
            if peek_is(&mut self.reader, 'r') {
                if peek_is(&mut self.reader, 'u') {
                    if peek_is(&mut self.reader, 'e') {
                        token = Token::TRUE;
                        rest = 3;
                    }
                }
            }
        } else if c == 'f' {
            if peek_is(&mut self.reader, 'a') {
                if peek_is(&mut self.reader, 'l') {
                    if peek_is(&mut self.reader, 's') {
                        if peek_is(&mut self.reader, 'e') {
                            token = Token::FALSE;
                            rest = 4;
                        }
                    }
                }
            }
        } else if c == 'n' {
            if peek_is(&mut self.reader, 'u') {
                if peek_is(&mut self.reader, 'l') {
                    if peek_is(&mut self.reader, 'l') {
                        token = Token::NULL;
                        rest = 3;
                    }
                }
            }
        }
        self.reader.reset_lookahead();
        assert(word_at(self.text(), at as int) == (token, (rest + 1) as nat));
        let mut taken: usize = 0;
        while taken < rest
            invariant
                self.reader.wf(),
                self.reader.ahead() == 0,
                self.reader.text() == old(self).text(),
                taken <= rest,
                self.reader.cursor() == at + 1 + taken,
                at + 1 + rest <= self.reader.text().len(),
                self.depth == old(self).depth,
                self.depth <= MAX_DEPTH,
                line == lines_before(old(self).text(), at as int),
                at < old(self).text().len(),
                c == old(self).text()[at as int],
                at == old(self).cursor() + spaces(old(self).text(), old(self).cursor()),
                word_at(old(self).text(), at as int) == (token, (rest + 1) as nat),
            decreases rest - taken,
        {
            match self.reader.get_next_char() {
                Ok(_) => {},
                Err(error) => {
                    return Err(error);
                },
            }
            taken += 1;
        }
        self.curr_token = token;
        self.token_offset = at;
        self.token_line = line;
        self.token_found = Some(c);
        Ok(token)
    }

    /// Whether the current token is `t`; with `advance`, the next token is
    /// read first and becomes the current one.
    pub fn accept(&mut self, t: Token, advance: bool) -> (same: Result<bool, JsonError>)
        requires
            old(self).wf(),
        ensures
            final(self).wf(),
            final(self).text() == old(self).text(),
            final(self).depth() == old(self).depth(),
            !advance ==> *final(self) == *old(self) && same == Ok::<bool, JsonError>(
                old(self).token() == t,
            ),
            advance ==> match lex(old(self).text(), old(self).cursor()) {
                Some(found) => {
                    &&& same == Ok::<bool, JsonError>(found.token == t)
                    &&& final(self).token() == found.token
                    &&& final(self).token_at() == old(self).cursor() + found.skipped
                    &&& final(self).cursor() == old(self).cursor() + found.skipped + found.len
                },
                None => {
                    &&& same.is_err()
                    &&& same.unwrap_err().reports(
                        Fault { kind: ErrorKind::IoError, offset: old(self).text().len() as int },
                        old(self).text(),
                    )
                },
            },
    {
        if advance {
            match self.get_next_token() {
                Ok(_) => {},
                Err(error) => {
                    return Err(error);
                },
            }
        }
        Ok(self.curr_token == t)
    }

    /// Demands that the current token is `t`. Another token is an error at
    /// the place of that token: an unrecognized one where it names nothing,
    /// a syntax error where it is a token of the grammar.
    pub fn expect(&self, t: Token) -> (met: Result<bool, JsonError>)
        requires
            self.wf(),
        ensures
            self.token() == t ==> met == Ok::<bool, JsonError>(true),
            self.token() != t ==> met.is_err() && met.unwrap_err().reports(
                Fault { kind: unexpected(self.token()), offset: self.token_at() },
                self.text(),
            ),
    {
        if self.curr_token == t {
            return Ok(true);
        }
        if self.curr_token.is_none() {
            Err(self.error_at_token(ErrorKind::UnrecognizedTokenError))
        } else {
            Err(self.error_at_token(ErrorKind::SyntaxError))
        }
    }

    /// Consumes one hexadecimal digit and returns its value. Anything else
    /// there, the end of the input too, is a syntax error at that place.
    fn hex(&mut self) -> (value: Result<u32, JsonError>)
        requires
            old(self).wf(),
        ensures
            final(self).wf(),
            final(self).moved_from(old(self)),
            hex_at(old(self).text(), old(self).cursor()) ==> {
                &&& value == Ok::<u32, JsonError>(
                    hex_value(old(self).text()[old(self).cursor()]) as u32,
                )
                &&& final(self).cursor() == old(self).cursor() + 1
            },
            !hex_at(old(self).text(), old(self).cursor()) ==> {
                &&& value.is_err()
                &&& value.unwrap_err().reports(
                    Fault { kind: ErrorKind::SyntaxError, offset: old(self).cursor() },
                    old(self).text(),
                )
            },
    {
        let line = self.reader.line();
        let offset = self.reader.offset();
        let c = match self.reader.get_next_char() {
            Ok(c) => c,
            Err(_) => {
                return Err(JsonError { kind: ErrorKind::SyntaxError, line, offset, found: None });
            },
        };
        match hex_digit(c) {
            Some(value) => Ok(value),
            None => Err(JsonError { kind: ErrorKind::SyntaxError, line, offset, found: Some(c) }),
        }
    }

    /// Reads the four hexadecimal digits of a `\u` escape, the cursor
    /// standing after the `u`, and returns the character they stand for.
    fn unicode(&mut self) -> (c: Result<char, JsonError>)
        requires
            old(self).wf(),
        ensures
            final(self).wf(),
            final(self).moved_from(old(self)),
            match unicode_escape(old(self).text(), old(self).cursor()) {
                Parsed::Done { value, len } => {
                    &&& c == Ok::<char, JsonError>(value)
                    &&& final(self).cursor() == old(self).cursor() + len
                },
                Parsed::Failed(f) => c.is_err() && c.unwrap_err().reports(f, old(self).text()),
            },
    {
        let surrogate = self.error_at_cursor(ErrorKind::SyntaxError);
        let first = match self.hex() {
            Ok(value) => value,
            Err(error) => {
                return Err(error);
            },
        };
        let second = match self.hex() {
            Ok(value) => value,
            Err(error) => {
                return Err(error);
            },
        };
        let third = match self.hex() {
            Ok(value) => value,
            Err(error) => {
                return Err(error);
            },
        };
        let fourth = match self.hex() {
            Ok(value) => value,
            Err(error) => {
                return Err(error);
            },
        };
        let code: u32 = ((first * 16 + second) * 16 + third) * 16 + fourth;
        match char_from_u32(code) {
            Some(c) => Ok(c),
            None => Err(surrogate),
        }
    }

    /// Reads an escape, the cursor standing after the backslash, and
    /// returns the character it stands for.
    fn escaped(&mut self) -> (c: Result<char, JsonError>)
        requires
            old(self).wf(),
        ensures
            final(self).wf(),
            final(self).moved_from(old(self)),
            match escape(old(self).text(), old(self).cursor()) {
                Parsed::Done { value, len } => {
                    &&& c == Ok::<char, JsonError>(value)
                    &&& value as int <= 0xFFFF
                    &&& final(self).cursor() == old(self).cursor() + len
                },
                Parsed::Failed(f) => c.is_err() && c.unwrap_err().reports(f, old(self).text()),
            },
    {
        proof {
            lemma_escape_short(self.text(), self.cursor());
        }
        let line = self.reader.line();
        let offset = self.reader.offset();
        let c = match self.reader.get_next_char() {
            Ok(c) => c,
            Err(_) => {
                return Err(JsonError { kind: ErrorKind::SyntaxError, line, offset, found: None });
            },
        };
        match c {
            '"' | '\\' | '/' => Ok(c),
            'b' => Ok('\u{8}'),
            'f' => Ok('\u{c}'),
            'n' => Ok('\n'),
            'r' => Ok('\r'),
            't' => Ok('\t'),
            'u' => self.unicode(),
            _ => Err(JsonError { kind: ErrorKind::SyntaxError, line, offset, found: Some(c) }),
        }
    }

    /// Reads a string whose opening quote is the current token, up to and
    /// including its closing quote, and returns its content with the escapes
    /// decoded.
    pub fn string(&mut self) -> (content: Result<String, JsonError>)
        requires
            old(self).wf(),
        ensures
            final(self).wf(),
            final(self).moved_from(old(self)),
            match string_text(
                old(self).text(),
                old(self).token(),
                old(self).token_at(),
                old(self).cursor(),
            ) {
                Parsed::Done { value, len } => {
                    &&& content.is_ok()
                    &&& content.unwrap()@ == value
                    &&& short_text(value)
                    &&& final(self).cursor() == old(self).cursor() + len
                },
                Parsed::Failed(f) => content.is_err() && content.unwrap_err().reports(
                    f,
                    old(self).text(),
                ),
            },
    {
        match self.expect(Token::DQUOTE) {
            Ok(_) => {},
            Err(error) => {
                return Err(error);
            },
        }
        let ghost start = self.cursor();
        let ghost text = self.text();
        let mut buffer = String::new();
        assert(buffer@ + Seq::<char>::empty() =~= Seq::<char>::empty());
        loop
            invariant
                self.wf(),
                self.moved_from(old(self)),
                old(self).token() == Token::DQUOTE,
                short_text(buffer@),
                start == old(self).cursor(),
                text == old(self).text(),
                start <= self.cursor(),
                string_body(text, start) == prepend(
                    buffer@,
                    string_body(text, self.cursor()),
                    (self.cursor() - start) as nat,
                ),
            decreases text.len() - self.cursor(),
        {
            let ghost here = self.cursor();
            let ghost front = buffer@;
            let line = self.reader.line();
            let offset = self.reader.offset();
            let c = match self.reader.get_next_char() {
                Ok(c) => c,
                Err(_) => {
                    return Err(
                        JsonError { kind: ErrorKind::SyntaxError, line, offset, found: None },
                    );
                },
            };
            if c == '"' {
                assert(front + Seq::<char>::empty() =~= front);
                return Ok(buffer);
            }
            if c == '\\' {
                match self.escaped() {
                    Ok(decoded) => {
                        push_char(&mut buffer, decoded);
                        proof {
                            match string_body(text, self.cursor()) {
                                Parsed::Done { value, len } => {
                                    assert(front + (seq![decoded] + value) =~= buffer@ + value);
                                },
                                Parsed::Failed(_) => {},
                            }
                        }
                    },
                    Err(error) => {
                        return Err(error);
                    },
                }
            } else {
                push_char(&mut buffer, c);
                proof {
                    match string_body(text, self.cursor()) {
                        Parsed::Done { value, len } => {
                            assert(front + (seq![c] + value) =~= buffer@ + value);
                        },
                        Parsed::Failed(_) => {},
                    }
                }
            }
        }
    }

    /// Whether a digit stands at the cursor. Nothing is consumed.
    fn digit_follows(&mut self) -> (found: bool)
        requires
            old(self).wf(),
        ensures
            final(self).wf(),
            final(self).moved_from(old(self)),
            final(self).cursor() == old(self).cursor(),
            found == digit_at(old(self).text(), old(self).cursor()),
    {
        let found = match self.reader.peek_next_char() {
            Some(c) => '0' <= c && c <= '9',
            None => false,
        };
        self.reader.reset_lookahead();
        found
    }

    /// Consumes the character at the cursor if it is `c`, and adds it to
    /// `buffer`.
    fn take_char(&mut self, c: char, buffer: &mut String) -> (taken: bool)
        requires
            old(self).wf(),
        ensures
            final(self).wf(),
            final(self).moved_from(old(self)),
            taken == is_at(old(self).text(), old(self).cursor(), c),
            taken ==> final(self).cursor() == old(self).cursor() + 1 && final(buffer)@ == old(
                buffer,
            )@.push(c),
            !taken ==> final(self).cursor() == old(self).cursor() && final(buffer)@ == old(
                buffer,
            )@,
    {
        let found = peek_is(&mut self.reader, c);
        self.reader.reset_lookahead();
        if found {
            match self.reader.get_next_char() {
                Ok(_) => {},
                Err(_) => {},
            }
            push_char(buffer, c);
        }
        found
    }

    /// Consumes the character at the cursor if it is a digit, and adds it to
    /// `buffer`.
    fn take_digit(&mut self, buffer: &mut String) -> (taken: Option<char>)
        requires
            old(self).wf(),
        ensures
            final(self).wf(),
            final(self).moved_from(old(self)),
            taken.is_some() == digit_at(old(self).text(), old(self).cursor()),
            taken.is_some() ==> {
                &&& taken.unwrap() == old(self).text()[old(self).cursor()]
                &&& final(self).cursor() == old(self).cursor() + 1
                &&& final(buffer)@ == old(buffer)@.push(taken.unwrap())
            },
            taken.is_none() ==> final(self).cursor() == old(self).cursor() && final(buffer)@
                == old(buffer)@,
    {
        if !self.digit_follows() {
            return None;
        }
        match self.reader.get_next_char() {
            Ok(c) => {
                push_char(buffer, c);
                Some(c)
            },
            Err(_) => None,
        }
    }

    /// Consumes the digits at the cursor, all of them, and adds them to
    /// `buffer`.
    fn take_digits(&mut self, buffer: &mut String)
        requires
            old(self).wf(),
        ensures
            final(self).wf(),
            final(self).moved_from(old(self)),
            final(self).cursor() == old(self).cursor() + digits(
                old(self).text(),
                old(self).cursor(),
            ),
            final(buffer)@ == old(buffer)@ + old(self).text().subrange(
                old(self).cursor(),
                final(self).cursor(),
            ),
    {
        let ghost start = self.cursor();
        let ghost text = self.text();
        let ghost front = buffer@;
        assert(buffer@ =~= front + text.subrange(start, start));
        loop
            invariant
                self.wf(),
                self.moved_from(old(self)),
                text == old(self).text(),
                start == old(self).cursor(),
                start <= self.cursor(),
                digits(text, start) == self.cursor() - start + digits(text, self.cursor()),
                buffer@ == front + text.subrange(start, self.cursor()),
            ensures
                digits(text, self.cursor()) == 0,
            decreases text.len() - self.cursor(),
        {
            let ghost here = self.cursor();
            match self.take_digit(buffer) {
                Some(_) => {
                    assert(buffer@ =~= front + text.subrange(start, here + 1));
                },
                None => {
                    break ;
                },
            }
        }
    }

    /// Reads what follows the first digit `lead` of an integer part:
    /// nothing after a zero, the other digits after any other.
    fn whole_rest(&mut self, lead: char, buffer: &mut String) -> (done: Result<(), JsonError>)
        requires
            old(self).wf(),
        ensures
            final(self).wf(),
            final(self).moved_from(old(self)),
            lead == '0' && digit_at(old(self).text(), old(self).cursor()) ==> done.is_err()
                && done.unwrap_err().reports(
                Fault { kind: ErrorKind::SyntaxError, offset: old(self).cursor() },
                old(self).text(),
            ),
            lead == '0' && !digit_at(old(self).text(), old(self).cursor()) ==> done.is_ok()
                && final(self).cursor() == old(self).cursor() && final(buffer)@ == old(buffer)@,
            lead != '0' ==> done.is_ok() && final(self).cursor() == old(self).cursor() + digits(
                old(self).text(),
                old(self).cursor(),
            ) && final(buffer)@ == old(buffer)@ + old(self).text().subrange(
                old(self).cursor(),
                final(self).cursor(),
            ),
    {
        if lead == '0' {
            if self.digit_follows() {
                return Err(self.error_at_cursor(ErrorKind::SyntaxError));
            }
        } else {
            self.take_digits(buffer);
        }
        Ok(())
    }

    /// Reads the digits of an integer part from the cursor on.
    fn whole(&mut self, buffer: &mut String) -> (done: Result<(), JsonError>)
        requires
            old(self).wf(),
        ensures
            final(self).wf(),
            final(self).moved_from(old(self)),
            match whole_part(old(self).text(), old(self).cursor()) {
                Ok(end) => {
                    &&& done.is_ok()
                    &&& final(self).cursor() == end
                    &&& final(buffer)@ == old(buffer)@ + old(self).text().subrange(
                        old(self).cursor(),
                        end,
                    )
                },
                Err(bad) => done.is_err() && done.unwrap_err().reports(
                    Fault { kind: ErrorKind::SyntaxError, offset: bad },
                    old(self).text(),
                ),
            },
    {
        let ghost text = self.text();
        let ghost start = self.cursor();
        let ghost front = buffer@;
        match self.take_digit(buffer) {
            Some(lead) => {
                let done = self.whole_rest(lead, buffer);
                proof {
                    if done.is_ok() {
                        assert(buffer@ =~= front + text.subrange(start, self.cursor()));
                    }
                }
                done
            },
            None => Err(self.error_at_cursor(ErrorKind::SyntaxError)),
        }
    }

    /// Reads the fraction of a number, if one begins at the cursor.
    fn fraction(&mut self, buffer: &mut String) -> (done: Result<(), JsonError>)
        requires
            old(self).wf(),
        ensures
            final(self).wf(),
            final(self).moved_from(old(self)),
            match frac_part(old(self).text(), old(self).cursor()) {
                Ok(end) => {
                    &&& done.is_ok()
                    &&& final(self).cursor() == end
                    &&& final(buffer)@ == old(buffer)@ + old(self).text().subrange(
                        old(self).cursor(),
                        end,
                    )
                },
                Err(bad) => done.is_err() && done.unwrap_err().reports(
                    Fault { kind: ErrorKind::SyntaxError, offset: bad },
                    old(self).text(),
                ),
            },
    {
        let ghost text = self.text();
        let ghost start = self.cursor();
        let ghost front = buffer@;
        assert(buffer@ =~= front + text.subrange(start, start));
        if self.take_char('.', buffer) {
            match self.take_digit(buffer) {
                Some(_) => {},
                None => {
                    return Err(self.error_at_cursor(ErrorKind::SyntaxError));
                },
            }
            self.take_digits(buffer);
            assert(buffer@ =~= front + text.subrange(start, self.cursor()));
        }
        Ok(())
    }

    /// Reads the exponent of a number, if one begins at the cursor.
    fn exponent(&mut self, buffer: &mut String) -> (done: Result<(), JsonError>)
        requires
            old(self).wf(),
        ensures
            final(self).wf(),
            final(self).moved_from(old(self)),
            match exp_part(old(self).text(), old(self).cursor()) {
                Ok(end) => {
                    &&& done.is_ok()
                    &&& final(self).cursor() == end
                    &&& final(buffer)@ == old(buffer)@ + old(self).text().subrange(
                        old(self).cursor(),
                        end,
                    )
                },
                Err(bad) => done.is_err() && done.unwrap_err().reports(
                    Fault { kind: ErrorKind::SyntaxError, offset: bad },
                    old(self).text(),
                ),
            },
    {
        let ghost text = self.text();
        let ghost start = self.cursor();
        let ghost front = buffer@;
        assert(buffer@ =~= front + text.subrange(start, start));
        let marked = if self.take_char('e', buffer) {
            true
        } else {
            self.take_char('E', buffer)
        };
        if marked {
            if !self.take_char('+', buffer) {
                self.take_char('-', buffer);
            }
            match self.take_digit(buffer) {
                Some(_) => {},
                None => {
                    return Err(self.error_at_cursor(ErrorKind::SyntaxError));
                },
            }
            self.take_digits(buffer);
            assert(buffer@ =~= front + text.subrange(start, self.cursor()));
        }
        Ok(())
    }

    /// The first character of a number, from the current token: a minus
    /// sign or a digit. Any other token is an error at its place.
    fn number_start(&self) -> (first: Result<char, JsonError>)
        requires
            self.wf(),
        ensures
            self.token() == Token::DASH || self.token().spec_is_digit() ==> {
                &&& first == Ok::<char, JsonError>(self.token().symbol()[0])
                &&& (first.unwrap() == '-' || crate::grammar::is_digit(first.unwrap()))
            },
            !(self.token() == Token::DASH || self.token().spec_is_digit()) ==> first.is_err()
                && first.unwrap_err().reports(
                Fault { kind: unexpected(self.token()), offset: self.token_at() },
                self.text(),
            ),
    {
        if self.curr_token == Token::DASH {
            Ok('-')
        } else if self.curr_token.is_digit() {
            Ok(self.curr_token.get_digit())
        } else if self.curr_token.is_none() {
            Err(self.error_at_token(ErrorKind::UnrecognizedTokenError))
        } else {
            Err(self.error_at_token(ErrorKind::SyntaxError))
        }
    }

    /// Reads the rest of a number whose first character `first` has been
    /// consumed, and returns the text of the whole number.
    fn number_from(&mut self, first: char) -> (content: Result<String, JsonError>)
        requires
            old(self).wf(),
        ensures
            final(self).wf(),
            final(self).moved_from(old(self)),
            match number_rest(first, old(self).text(), old(self).cursor()) {
                Ok(end) => {
                    &&& content.is_ok()
                    &&& content.unwrap()@ == seq![first] + old(self).text().subrange(
                        old(self).cursor(),
                        end,
                    )
                    &&& final(self).cursor() == end
                },
                Err(bad) => content.is_err() && content.unwrap_err().reports(
                    Fault { kind: ErrorKind::SyntaxError, offset: bad },
                    old(self).text(),
                ),
            },
    {
        let ghost text = self.text();
        let ghost pos = self.cursor();
        let mut buffer = String::new();
        push_char(&mut buffer, first);
        assert(buffer@ =~= seq![first] + text.subrange(pos, pos));
        let begun = if first == '-' {
            self.whole(&mut buffer)
        } else {
            self.whole_rest(first, &mut buffer)
        };
        match begun {
            Ok(_) => {},
            Err(error) => {
                return Err(error);
            },
        }
        assert(buffer@ =~= seq![first] + text.subrange(pos, self.cursor()));
        match self.fraction(&mut buffer) {
            Ok(_) => {},
            Err(error) => {
                return Err(error);
            },
        }
        assert(buffer@ =~= seq![first] + text.subrange(pos, self.cursor()));
        match self.exponent(&mut buffer) {
            Ok(_) => {},
            Err(error) => {
                return Err(error);
            },
        }
        assert(buffer@ =~= seq![first] + text.subrange(pos, self.cursor()));
        Ok(buffer)
    }

    /// Reads a number whose first character, a minus sign or a digit, is the
    /// current token, and returns its text as it stands in the input. The
    /// number ends before the first character that cannot go on with it.
    pub fn number(&mut self) -> (content: Result<String, JsonError>)
        requires
            old(self).wf(),
        ensures
            final(self).wf(),
            final(self).moved_from(old(self)),
            match number_text(
                old(self).text(),
                old(self).token(),
                old(self).token_at(),
                old(self).cursor(),
            ) {
                Parsed::Done { value, len } => {
                    &&& content.is_ok()
                    &&& content.unwrap()@ == value
                    &&& is_number(value)
                    &&& final(self).cursor() == old(self).cursor() + len
                },
                Parsed::Failed(f) => content.is_err() && content.unwrap_err().reports(
                    f,
                    old(self).text(),
                ),
            },
    {
        match self.number_start() {
            Ok(first) => {
                proof {
                    lemma_number_rest(first, self.text(), self.cursor());
                }
                self.number_from(first)
            },
            Err(error) => Err(error),
        }
    }

    /// Reads the value that begins with the current token, and stops after
    /// its last character: the token after it is not read.
    pub fn value(&mut self) -> (json: Result<JsonValue, JsonError>)
        requires
            old(self).wf(),
        ensures
            final(self).wf(),
            final(self).text() == old(self).text(),
            match value_text(
                old(self).text(),
                old(self).token(),
                old(self).token_at(),
                old(self).cursor(),
                old(self).depth(),
            ) {
                Parsed::Done { value, len } => {
                    &&& json.is_ok()
                    &&& json.unwrap().view() == value
                    &&& json.unwrap().wf()
                    &&& json.unwrap().nests_within(old(self).depth())
                    &&& json.unwrap().short()
                    &&& final(self).cursor() == old(self).cursor() + len
                    &&& final(self).depth() == old(self).depth()
                },
                Parsed::Failed(f) => json.is_err() && json.unwrap_err().reports(
                    f,
                    old(self).text(),
                ),
            },
        decreases MAX_DEPTH - old(self).depth(), 2nat,
    {
        let token = self.curr_token;
        if token == Token::LBRACE {
            match self.object() {
                Ok(members) => Ok(JsonValue::Object(members)),
                Err(error) => Err(error),
            }
        } else if token == Token::LBRAC {
            match self.array() {
                Ok(elements) => Ok(JsonValue::Array(elements)),
                Err(error) => Err(error),
            }
        } else if token == Token::DQUOTE {
            match self.string() {
                Ok(content) => Ok(JsonValue::JsonString(content)),
                Err(error) => Err(error),
            }
        } else if token == Token::DASH || token.is_digit() {
            match self.number() {
                Ok(content) => Ok(JsonValue::Number(content)),
                Err(error) => Err(error),
            }
        } else if token == Token::TRUE {
            Ok(JsonValue::Bool(true))
        } else if token == Token::FALSE {
            Ok(JsonValue::Bool(false))
        } else if token == Token::NULL {
            Ok(JsonValue::Null)
        } else if token.is_none() {
            Err(self.error_at_token(ErrorKind::UnrecognizedTokenError))
        } else {
            Err(self.error_at_token(ErrorKind::SyntaxError))
        }
    }

    /// Reads what stands after a member or an element: the token `close`,
    /// after which nothing more is read, or a comma and the first token of
    /// the next item. Returns whether another item follows.
    pub fn separator(&mut self, close: Token) -> (more: Result<bool, JsonError>)
        requires
            old(self).wf(),
        ensures
            final(self).wf(),
            final(self).text() == old(self).text(),
            final(self).depth() == old(self).depth(),
            match separator(old(self).text(), old(self).cursor(), close) {
                Next::End { len } => {
                    &&& more == Ok::<bool, JsonError>(false)
                    &&& final(self).cursor() == old(self).cursor() + len
                },
                Next::More { token, to, len } => {
                    &&& more == Ok::<bool, JsonError>(true)
                    &&& final(self).token() == token
                    &&& final(self).token_at() == old(self).cursor() + to
                    &&& final(self).cursor() == old(self).cursor() + len
                    &&& len >= 1
                },
                Next::Failed(f) => more.is_err() && more.unwrap_err().reports(
                    f,
                    old(self).text(),
                ),
            },
    {
        reveal(separator);
        proof {
            lemma_lex_bounds(self.text(), self.cursor());
        }
        match self.get_next_token() {
            Ok(_) => {},
            Err(error) => {
                return Err(error);
            },
        }
        proof {
            lemma_lex_bounds(self.text(), self.cursor());
        }
        if self.curr_token == close {
            return Ok(false);
        }
        match self.expect(Token::COMMA) {
            Ok(_) => {},
            Err(error) => {
                return Err(error);
            },
        }
        match self.get_next_token() {
            Ok(_) => Ok(true),
            Err(error) => Err(error),
        }
    }

    /// Reads one member of an object, the opening quote of its key being
    /// the current token: the key, a colon and the value.
    pub fn member(&mut self) -> (member: Result<(String, JsonValue), JsonError>)
        requires
            old(self).wf(),
        ensures
            final(self).wf(),
            final(self).text() == old(self).text(),
            match member_text(
                old(self).text(),
                old(self).token(),
                old(self).token_at(),
                old(self).cursor(),
                old(self).depth(),
            ) {
                Parsed::Done { value, len } => {
                    &&& member.is_ok()
                    &&& member.unwrap().0@ == value.0
                    &&& member.unwrap().1.view() == value.1
                    &&& member.unwrap().1.wf()
                    &&& member.unwrap().1.nests_within(old(self).depth())
                    &&& short_text(value.0)
                    &&& member.unwrap().1.short()
                    &&& final(self).cursor() == old(self).cursor() + len
                    &&& final(self).depth() == old(self).depth()
                },
                Parsed::Failed(f) => member.is_err() && member.unwrap_err().reports(
                    f,
                    old(self).text(),
                ),
            },
        decreases MAX_DEPTH - old(self).depth(), 3nat,
    {
        let key = match self.string() {
            Ok(key) => key,
            Err(error) => {
                return Err(error);
            },
        };
        proof {
            lemma_lex_bounds(self.text(), self.cursor());
        }
        match self.get_next_token() {
            Ok(_) => {},
            Err(error) => {
                return Err(error);
            },
        }
        match self.expect(Token::COLON) {
            Ok(_) => {},
            Err(error) => {
                return Err(error);
            },
        }
        match self.get_next_token() {
            Ok(_) => {},
            Err(error) => {
                return Err(error);
            },
        }
        match self.value() {
            Ok(value) => Ok((key, value)),
            Err(error) => Err(error),
        }
    }

    /// Reads one member and what stands after it, and puts the member into
    /// `members`. Returns whether another member follows.
    fn next_member(&mut self, members: &mut JsonObject) -> (more: Result<bool, JsonError>)
        requires
            old(self).wf(),
            old(members).wf(),
            old(members).values_wf(),
            all_values_nest_within(old(members).members(), old(self).depth()),
            all_members_short(old(members).members()),
        ensures
            final(self).wf(),
            final(members).wf(),
            final(members).values_wf(),
            all_values_nest_within(final(members).members(), old(self).depth()),
            all_members_short(final(members).members()),
            final(self).text() == old(self).text(),
            match member_text(
                old(self).text(),
                old(self).token(),
                old(self).token_at(),
                old(self).cursor(),
                old(self).depth(),
            ) {
                Parsed::Failed(f) => more.is_err() && more.unwrap_err().reports(
                    f,
                    old(self).text(),
                ),
                Parsed::Done { value, len } => match separator(
                    old(self).text(),
                    old(self).cursor() + len,
                    Token::RBRACE,
                ) {
                    Next::Failed(f) => more.is_err() && more.unwrap_err().reports(
                        f,
                        old(self).text(),
                    ),
                    Next::End { len: further } => {
                        &&& more == Ok::<bool, JsonError>(false)
                        &&& final(members)@ == old(members)@.insert(value.0, value.1)
                        &&& final(self).cursor() == old(self).cursor() + len + further
                        &&& final(self).depth() == old(self).depth()
                    },
                    Next::More { token, to, len: further } => {
                        &&& more == Ok::<bool, JsonError>(true)
                        &&& final(members)@ == old(members)@.insert(value.0, value.1)
                        &&& final(self).token() == token
                        &&& final(self).token_at() == old(self).cursor() + len + to
                        &&& final(self).cursor() == old(self).cursor() + len + further
                        &&& final(self).depth() == old(self).depth()
                        &&& further >= 1
                    },
                },
            },
        decreases MAX_DEPTH - old(self).depth(), 4nat,
    {
        let (key, value) = match self.member() {
            Ok(member) => member,
            Err(error) => {
                return Err(error);
            },
        };
        members.insert(key, value);
        self.separator(Token::RBRACE)
    }

    /// Reads the members of an object from the first on, the opening quote
    /// of its key being the current token, up to and including the closing
    /// brace.
    fn members(&mut self) -> (members: Result<JsonObject, JsonError>)
        requires
            old(self).wf(),
        ensures
            final(self).wf(),
            final(self).text() == old(self).text(),
            match members_text(
                old(self).text(),
                old(self).token(),
                old(self).token_at(),
                old(self).cursor(),
                old(self).depth(),
                Map::empty(),
            ) {
                Parsed::Done { value, len } => {
                    &&& members.is_ok()
                    &&& members.unwrap()@ == value
                    &&& members.unwrap().wf()
                    &&& members.unwrap().values_wf()
                    &&& all_values_nest_within(members.unwrap().members(), old(self).depth())
                    &&& all_members_short(members.unwrap().members())
                    &&& final(self).cursor() == old(self).cursor() + len
                    &&& final(self).depth() == old(self).depth()
                },
                Parsed::Failed(f) => members.is_err() && members.unwrap_err().reports(
                    f,
                    old(self).text(),
                ),
            },
        decreases MAX_DEPTH - old(self).depth(), 5nat,
    {
        let mut members = JsonObject::new();
        let ghost text = self.text();
        let ghost start = self.cursor();
        let ghost goal = members_text(
            text,
            self.token(),
            self.token_at(),
            start,
            self.depth(),
            Map::empty(),
        );
        loop
            invariant
                self.wf(),
                members.wf(),
                members.values_wf(),
                all_values_nest_within(members.members(), old(self).depth()),
                all_members_short(members.members()),
                text == self.text(),
                text == old(self).text(),
                self.depth() == old(self).depth(),
                start == old(self).cursor(),
                start <= self.cursor(),
                goal == members_text(
                    text,
                    old(self).token(),
                    old(self).token_at(),
                    old(self).cursor(),
                    old(self).depth(),
                    Map::empty(),
                ),
                goal == shifted(
                    members_text(
                        text,
                        self.token(),
                        self.token_at(),
                        self.cursor(),
                        self.depth(),
                        members@,
                    ),
                    (self.cursor() - start) as nat,
                ),
            decreases text.len() - self.cursor(),
        {
            match self.next_member(&mut members) {
                Ok(more) => {
                    if !more {
                        return Ok(members);
                    }
                },
                Err(error) => {
                    return Err(error);
                },
            }
        }
    }

    /// Reads the object whose opening brace is the current token, up to and
    /// including its closing brace. Of two members with one key the later
    /// one stays.
    pub fn object(&mut self) -> (members: Result<JsonObject, JsonError>)
        requires
            old(self).wf(),
        ensures
            final(self).wf(),
            final(self).text() == old(self).text(),
            match object_text(
                old(self).text(),
                old(self).token(),
                old(self).token_at(),
                old(self).cursor(),
                old(self).depth(),
            ) {
                Parsed::Done { value, len } => {
                    &&& members.is_ok()
                    &&& members.unwrap()@ == value
                    &&& members.unwrap().wf()
                    &&& members.unwrap().values_wf()
                    &&& old(self).depth() < MAX_DEPTH
                    &&& all_values_nest_within(
                        members.unwrap().members(),
                        old(self).depth() + 1,
                    )
                    &&& all_members_short(members.unwrap().members())
                    &&& final(self).cursor() == old(self).cursor() + len
                    &&& final(self).depth() == old(self).depth()
                },
                Parsed::Failed(f) => members.is_err() && members.unwrap_err().reports(
                    f,
                    old(self).text(),
                ),
            },
        decreases MAX_DEPTH - old(self).depth(), 1nat,
    {
        match self.expect(Token::LBRACE) {
            Ok(_) => {},
            Err(error) => {
                return Err(error);
            },
        }
        if self.depth >= MAX_DEPTH {
            return Err(self.error_at_token(ErrorKind::NestingTooDeepError));
        }
        proof {
            lemma_lex_bounds(self.text(), self.cursor());
        }
        match self.get_next_token() {
            Ok(_) => {},
            Err(error) => {
                return Err(error);
            },
        }
        if self.curr_token == Token::RBRACE {
            return Ok(JsonObject::new());
        }
        self.depth += 1;
        match self.members() {
            Ok(members) => {
                self.depth -= 1;
                Ok(members)
            },
            Err(error) => Err(error),
        }
    }

    /// Reads one element of an array and what stands after it, and adds the
    /// element to `elements`. Returns whether another element follows.
    fn next_element(&mut self, elements: &mut Vec<JsonValue>) -> (more: Result<bool, JsonError>)
        requires
            old(self).wf(),
            all_wf(old(elements)@),
            all_nest_within(old(elements)@, old(self).depth()),
            all_short(old(elements)@),
        ensures
            final(self).wf(),
            all_wf(final(elements)@),
            all_nest_within(final(elements)@, old(self).depth()),
            all_short(final(elements)@),
            final(self).text() == old(self).text(),
            match value_text(
                old(self).text(),
                old(self).token(),
                old(self).token_at(),
                old(self).cursor(),
                old(self).depth(),
            ) {
                Parsed::Failed(f) => more.is_err() && more.unwrap_err().reports(
                    f,
                    old(self).text(),
                ),
                Parsed::Done { value, len } => match separator(
                    old(self).text(),
                    old(self).cursor() + len,
                    Token::RBRAC,
                ) {
                    Next::Failed(f) => more.is_err() && more.unwrap_err().reports(
                        f,
                        old(self).text(),
                    ),
                    Next::End { len: further } => {
                        &&& more == Ok::<bool, JsonError>(false)
                        &&& elements_seq(final(elements)@) == elements_seq(old(elements)@).push(
                            value,
                        )
                        &&& final(self).cursor() == old(self).cursor() + len + further
                        &&& final(self).depth() == old(self).depth()
                    },
                    Next::More { token, to, len: further } => {
                        &&& more == Ok::<bool, JsonError>(true)
                        &&& elements_seq(final(elements)@) == elements_seq(old(elements)@).push(
                            value,
                        )
                        &&& final(self).token() == token
                        &&& final(self).token_at() == old(self).cursor() + len + to
                        &&& final(self).cursor() == old(self).cursor() + len + further
                        &&& final(self).depth() == old(self).depth()
                        &&& further >= 1
                    },
                },
            },
        decreases MAX_DEPTH - old(self).depth(), 4nat,
    {
        let ghost before = elements@;
        let value = match self.value() {
            Ok(value) => value,
            Err(error) => {
                return Err(error);
            },
        };
        elements.push(value);
        proof {
            assert(elements@.drop_last() =~= before);
            assert(elements_seq(elements@) == elements_seq(before).push(elements@.last().view()));
            assert forall|i: int| 0 <= i < elements@.len() implies (#[trigger] elements@[i]).wf() by {
                if i < before.len() {
                    assert(before[i].wf());
                }
            }
            assert forall|i: int| 0 <= i < elements@.len() implies (
            #[trigger] elements@[i]).nests_within(old(self).depth()) by {
                if i < before.len() {
                    assert(before[i].nests_within(old(self).depth()));
                }
            }
            assert forall|i: int| 0 <= i < elements@.len() implies (
            #[trigger] elements@[i]).short() by {
                if i < before.len() {
                    assert(before[i].short());
                }
            }
        }
        self.separator(Token::RBRAC)
    }

    /// Reads the elements of an array from the first on, its first token
    /// being the current token, up to and including the closing bracket.
    fn elements(&mut self) -> (elements: Result<Vec<JsonValue>, JsonError>)
        requires
            old(self).wf(),
        ensures
            final(self).wf(),
            final(self).text() == old(self).text(),
            match elements_text(
                old(self).text(),
                old(self).token(),
                old(self).token_at(),
                old(self).cursor(),
                old(self).depth(),
                Seq::empty(),
            ) {
                Parsed::Done { value, len } => {
                    &&& elements.is_ok()
                    &&& elements_seq(elements.unwrap()@) == value
                    &&& all_wf(elements.unwrap()@)
                    &&& all_nest_within(elements.unwrap()@, old(self).depth())
                    &&& all_short(elements.unwrap()@)
                    &&& final(self).cursor() == old(self).cursor() + len
                    &&& final(self).depth() == old(self).depth()
                },
                Parsed::Failed(f) => elements.is_err() && elements.unwrap_err().reports(
                    f,
                    old(self).text(),
                ),
            },
        decreases MAX_DEPTH - old(self).depth(), 5nat,
    {
        let mut elements: Vec<JsonValue> = Vec::new();
        let ghost text = self.text();
        let ghost start = self.cursor();
        let ghost goal = elements_text(
            text,
            self.token(),
            self.token_at(),
            start,
            self.depth(),
            Seq::empty(),
        );
        loop
            invariant
                self.wf(),
                all_wf(elements@),
                all_nest_within(elements@, old(self).depth()),
                all_short(elements@),
                text == self.text(),
                text == old(self).text(),
                self.depth() == old(self).depth(),
                start == old(self).cursor(),
                start <= self.cursor(),
                goal == elements_text(
                    text,
                    old(self).token(),
                    old(self).token_at(),
                    old(self).cursor(),
                    old(self).depth(),
                    Seq::empty(),
                ),
                goal == shifted(
                    elements_text(
                        text,
                        self.token(),
                        self.token_at(),
                        self.cursor(),
                        self.depth(),
                        elements_seq(elements@),
                    ),
                    (self.cursor() - start) as nat,
                ),
            decreases text.len() - self.cursor(),
        {
            match self.next_element(&mut elements) {
                Ok(more) => {
                    if !more {
                        return Ok(elements);
                    }
                },
                Err(error) => {
                    return Err(error);
                },
            }
        }
    }

    /// Reads the array whose opening bracket is the current token, up to
    /// and including its closing bracket.
    pub fn array(&mut self) -> (elements: Result<Vec<JsonValue>, JsonError>)
        requires
            old(self).wf(),
        ensures
            final(self).wf(),
            final(self).text() == old(self).text(),
            match array_text(
                old(self).text(),
                old(self).token(),
                old(self).token_at(),
                old(self).cursor(),
                old(self).depth(),
            ) {
                Parsed::Done { value, len } => {
                    &&& elements.is_ok()
                    &&& elements_seq(elements.unwrap()@) == value
                    &&& all_wf(elements.unwrap()@)
                    &&& old(self).depth() < MAX_DEPTH
                    &&& all_nest_within(elements.unwrap()@, old(self).depth() + 1)
                    &&& all_short(elements.unwrap()@)
                    &&& final(self).cursor() == old(self).cursor() + len
                    &&& final(self).depth() == old(self).depth()
                },
                Parsed::Failed(f) => elements.is_err() && elements.unwrap_err().reports(
                    f,
                    old(self).text(),
                ),
            },
        decreases MAX_DEPTH - old(self).depth(), 1nat,
    {
        match self.expect(Token::LBRAC) {
            Ok(_) => {},
            Err(error) => {
                return Err(error);
            },
        }
        if self.depth >= MAX_DEPTH {
            return Err(self.error_at_token(ErrorKind::NestingTooDeepError));
        }
        proof {
            lemma_lex_bounds(self.text(), self.cursor());
        }
        match self.get_next_token() {
            Ok(_) => {},
            Err(error) => {
                return Err(error);
            },
        }
        if self.curr_token == Token::RBRAC {
            return Ok(Vec::new());
        }
        self.depth += 1;
        match self.elements() {
            Ok(elements) => {
                self.depth -= 1;
                Ok(elements)
            },
            Err(error) => Err(error),
        }
    }

    /// Whether anything but whitespace is left of the input. The whitespace
    /// at the cursor is consumed.
    pub fn at_end(&mut self) -> (ended: bool)
        requires
            old(self).wf(),
        ensures
            final(self).wf(),
            final(self).moved_from(old(self)),
            final(self).cursor() == old(self).cursor() + spaces(
                old(self).text(),
                old(self).cursor(),
            ),
            ended == (final(self).cursor() == old(self).text().len()),
    {
        self.whitespace();
        let more = self.reader.peek_next_char().is_some();
        self.reader.reset_lookahead();
        !more
    }
}

/// Whether `json` is what decoding `text` gives: the value of the document
/// that `text` spells, well formed, or the error for the fault in it.
pub open spec fn decodes(text: Seq<char>, json: Result<JsonValue, JsonError>) -> bool {
    match document(text) {
        Ok(value) => json.is_ok() && json->Ok_0.view() == value && json->Ok_0.wf()
            && json->Ok_0.nests_within(0) && (byte_text(text) ==> json->Ok_0.short()),
        Err(f) => json.is_err() && json->Err_0.reports(f, text),
    }
}

/// Decodes the document in `source`: one value, with nothing but whitespace
/// before and after it.
pub fn parse(source: &ByteSource) -> (json: Result<JsonValue, JsonError>)
    ensures
        decodes(source.text(), json),
{
    let mut parser = JsonParser::new(source);
    proof {
        lemma_lex_bounds(source.text(), 0);
        lemma_chars_of_bytes(source@);
    }
    match parser.get_next_token() {
        Ok(_) => {},
        Err(error) => {
            return Err(error);
        },
    }
    let value = match parser.value() {
        Ok(value) => value,
        Err(error) => {
            return Err(error);
        },
    };
    if parser.at_end() {
        Ok(value)
    } else {
        Err(parser.error_at_cursor(ErrorKind::SyntaxError))
    }
}

/// Decoding is a function of the input: two decoders that read the same
/// source give structurally equal trees, or the same error.
pub proof fn lemma_same_source_same_tree(
    source: ByteSource,
    first: Result<JsonValue, JsonError>,
    second: Result<JsonValue, JsonError>,
)
    requires
        decodes(source.text(), first),
        decodes(source.text(), second),
    ensures
        first.is_ok() == second.is_ok(),
        first.is_ok() ==> first->Ok_0.view() == second->Ok_0.view(),
        first.is_err() ==> first->Err_0 == second->Err_0,
{
}

} // verus!
