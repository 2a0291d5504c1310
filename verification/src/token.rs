use vstd::prelude::*;

verus! {

/// Shortest symbol that names a token.
pub const MIN_WORD_LENGTH: usize = 1;

/// Longest symbol that names a token.
pub const MAX_WORD_LENGTH: usize = 5;

/// Largest slot of the symbol table.
pub const MAX_HASH_VALUE: usize = 62;

/// The lexical symbols of JSON text.
///
/// A token's place in this list is its slot in the symbol table: the sum of
/// its symbol's length and the weight of the symbol's first byte. The slots
/// that no symbol reaches are kept as `NONE` tokens, so a slot can be turned
/// into a token without a search.
#[allow(non_camel_case_types)]
#[derive(Debug, PartialEq, Eq, Clone, Copy, Structural)]
pub enum Token {
    NONE0,
    T,
    COLON,
    DASH,
    TRUE,
    NONE1,
    N,
    NINE,
    COMMA,
    NULL,
    NONE2,
    F,
    EIGHT,
    PLUS,
    NONE3,
    FALSE,
    RBRACE,
    SEVEN,
    DQUOTE,
    NONE4,
    NONE5,
    LBRACE,
    SIX,
    NONE6,
    NONE7,
    NONE8,
    U,
    FIVE,
    NONE9,
    NONE10,
    NONE11,
    R,
    FOUR,
    NONE12,
    NONE13,
    NONE14,
    E,
    THREE,
    NONE15,
    NONE16,
    NONE17,
    B,
    TWO,
    NONE18,
    NONE19,
    NONE20,
    RBRAC,
    ONE,
    NONE21,
    NONE22,
    NONE23,
    BACKSLASH,
    ZERO,
    NONE24,
    NONE25,
    NONE26,
    LBRAC,
    FWDSLASH,
    NONE27,
    NONE28,
    NONE29,
    UE,
    PER,
}

/// The weight of a symbol's first byte: the slot of a one-byte symbol less one,
/// and 63 for a byte with which no symbol starts.
pub open spec fn spec_assoc(byte: u8) -> u8 {
    if byte == 34u8 {
        17
    } else if byte == 43u8 {
        12
    } else if byte == 44u8 {
        7
    } else if byte == 45u8 {
        2
    } else if byte == 46u8 {
        61
    } else if byte == 47u8 {
        56
    } else if byte == 48u8 {
        51
    } else if byte == 49u8 {
        46
    } else if byte == 50u8 {
        41
    } else if byte == 51u8 {
        36
    } else if byte == 52u8 {
        31
    } else if byte == 53u8 {
        26
    } else if byte == 54u8 {
        21
    } else if byte == 55u8 {
        16
    } else if byte == 56u8 {
        11
    } else if byte == 57u8 {
        6
    } else if byte == 58u8 {
        1
    } else if byte == 69u8 {
        60
    } else if byte == 91u8 {
        55
    } else if byte == 92u8 {
        50
    } else if byte == 93u8 {
        45
    } else if byte == 98u8 {
        40
    } else if byte == 101u8 {
        35
    } else if byte == 102u8 {
        10
    } else if byte == 110u8 {
        5
    } else if byte == 114u8 {
        30
    } else if byte == 116u8 {
        0
    } else if byte == 117u8 {
        25
    } else if byte == 123u8 {
        20
    } else if byte == 125u8 {
        15
    } else {
        63
    }
}

/// The weight of a first byte, by dispatch on the byte.
pub fn assoc(byte: u8) -> (weight: u8)
    ensures
        weight == spec_assoc(byte),
        weight <= 63,
{
    match byte {
        34u8 => 17,
        43u8 => 12,
        44u8 => 7,
        45u8 => 2,
        46u8 => 61,
        47u8 => 56,
        48u8 => 51,
        49u8 => 46,
        50u8 => 41,
        51u8 => 36,
        52u8 => 31,
        53u8 => 26,
        54u8 => 21,
        55u8 => 16,
        56u8 => 11,
        57u8 => 6,
        58u8 => 1,
        69u8 => 60,
        91u8 => 55,
        92u8 => 50,
        93u8 => 45,
        98u8 => 40,
        101u8 => 35,
        102u8 => 10,
        110u8 => 5,
        114u8 => 30,
        116u8 => 0,
        117u8 => 25,
        123u8 => 20,
        125u8 => 15,
        _ => 63,
    }
}

/// The first byte of a text in UTF-8.
pub open spec fn first_byte(text: Seq<char>) -> u8 {
    vstd::utf8::encode_utf8(text)[0]
}

/// The slot that a symbol of `len` bytes starting with `first` falls into,
/// reduced the way a machine word reduces a negative sum.
pub open spec fn spec_hash(first: u8, len: int) -> int {
    let sum = len + spec_assoc(first);
    if sum >= 0 {
        sum
    } else {
        usize::MAX + 1 + sum
    }
}

/// The token at a slot of the symbol table, if the slot exists.
pub open spec fn spec_from_index(index: int) -> Option<Token> {
    if index == 0 {
        Some(Token::NONE0)
    } else if index == 1 {
        Some(Token::T)
    } else if index == 2 {
        Some(Token::COLON)
    } else if index == 3 {
        Some(Token::DASH)
    } else if index == 4 {
        Some(Token::TRUE)
    } else if index == 5 {
        Some(Token::NONE1)
    } else if index == 6 {
        Some(Token::N)
    } else if index == 7 {
        Some(Token::NINE)
    } else if index == 8 {
        Some(Token::COMMA)
    } else if index == 9 {
        Some(Token::NULL)
    } else if index == 10 {
        Some(Token::NONE2)
    } else if index == 11 {
        Some(Token::F)
    } else if index == 12 {
        Some(Token::EIGHT)
    } else if index == 13 {
        Some(Token::PLUS)
    } else if index == 14 {
        Some(Token::NONE3)
    } else if index == 15 {
        Some(Token::FALSE)
    } else if index == 16 {
        Some(Token::RBRACE)
    } else if index == 17 {
        Some(Token::SEVEN)
    } else if index == 18 {
        Some(Token::DQUOTE)
    } else if index == 19 {
        Some(Token::NONE4)
    } else if index == 20 {
        Some(Token::NONE5)
    } else if index == 21 {
        Some(Token::LBRACE)
    } else if index == 22 {
        Some(Token::SIX)
    } else if index == 23 {
        Some(Token::NONE6)
    } else if index == 24 {
        Some(Token::NONE7)
    } else if index == 25 {
        Some(Token::NONE8)
    } else if index == 26 {
        Some(Token::U)
    } else if index == 27 {
        Some(Token::FIVE)
    } else if index == 28 {
        Some(Token::NONE9)
    } else if index == 29 {
        Some(Token::NONE10)
    } else if index == 30 {
        Some(Token::NONE11)
    } else if index == 31 {
        Some(Token::R)
    } else if index == 32 {
        Some(Token::FOUR)
    } else if index == 33 {
        Some(Token::NONE12)
    } else if index == 34 {
        Some(Token::NONE13)
    } else if index == 35 {
        Some(Token::NONE14)
    } else if index == 36 {
        Some(Token::E)
    } else if index == 37 {
        Some(Token::THREE)
    } else if index == 38 {
        Some(Token::NONE15)
    } else if index == 39 {
        Some(Token::NONE16)
    } else if index == 40 {
        Some(Token::NONE17)
    } else if index == 41 {
        Some(Token::B)
    } else if index == 42 {
        Some(Token::TWO)
    } else if index == 43 {
        Some(Token::NONE18)
    } else if index == 44 {
        Some(Token::NONE19)
    } else if index == 45 {
        Some(Token::NONE20)
    } else if index == 46 {
        Some(Token::RBRAC)
    } else if index == 47 {
        Some(Token::ONE)
    } else if index == 48 {
        Some(Token::NONE21)
    } else if index == 49 {
        Some(Token::NONE22)
    } else if index == 50 {
        Some(Token::NONE23)
    } else if index == 51 {
        Some(Token::BACKSLASH)
    } else if index == 52 {
        Some(Token::ZERO)
    } else if index == 53 {
        Some(Token::NONE24)
    } else if index == 54 {
        Some(Token::NONE25)
    } else if index == 55 {
        Some(Token::NONE26)
    } else if index == 56 {
        Some(Token::LBRAC)
    } else if index == 57 {
        Some(Token::FWDSLASH)
    } else if index == 58 {
        Some(Token::NONE27)
    } else if index == 59 {
        Some(Token::NONE28)
    } else if index == 60 {
        Some(Token::NONE29)
    } else if index == 61 {
        Some(Token::UE)
    } else if index == 62 {
        Some(Token::PER)
    } else {
        None
    }
}

/// The token at a slot of the symbol table; `None` past the last slot.
pub fn from_index(index: usize) -> (token: Option<Token>)
    ensures
        token == spec_from_index(index as int),
        index <= MAX_HASH_VALUE <==> token.is_some(),
        token.is_some() ==> token.unwrap().spec_ordinal() == index,
{
    match index {
        0 => Some(Token::NONE0),
        1 => Some(Token::T),
        2 => Some(Token::COLON),
        3 => Some(Token::DASH),
        4 => Some(Token::TRUE),
        5 => Some(Token::NONE1),
        6 => Some(Token::N),
        7 => Some(Token::NINE),
        8 => Some(Token::COMMA),
        9 => Some(Token::NULL),
        10 => Some(Token::NONE2),
        11 => Some(Token::F),
        12 => Some(Token::EIGHT),
        13 => Some(Token::PLUS),
        14 => Some(Token::NONE3),
        15 => Some(Token::FALSE),
        16 => Some(Token::RBRACE),
        17 => Some(Token::SEVEN),
        18 => Some(Token::DQUOTE),
        19 => Some(Token::NONE4),
        20 => Some(Token::NONE5),
        21 => Some(Token::LBRACE),
        22 => Some(Token::SIX),
        23 => Some(Token::NONE6),
        24 => Some(Token::NONE7),
        25 => Some(Token::NONE8),
        26 => Some(Token::U),
        27 => Some(Token::FIVE),
        28 => Some(Token::NONE9),
        29 => Some(Token::NONE10),
        30 => Some(Token::NONE11),
        31 => Some(Token::R),
        32 => Some(Token::FOUR),
        33 => Some(Token::NONE12),
        34 => Some(Token::NONE13),
        35 => Some(Token::NONE14),
        36 => Some(Token::E),
        37 => Some(Token::THREE),
        38 => Some(Token::NONE15),
        39 => Some(Token::NONE16),
        40 => Some(Token::NONE17),
        41 => Some(Token::B),
        42 => Some(Token::TWO),
        43 => Some(Token::NONE18),
        44 => Some(Token::NONE19),
        45 => Some(Token::NONE20),
        46 => Some(Token::RBRAC),
        47 => Some(Token::ONE),
        48 => Some(Token::NONE21),
        49 => Some(Token::NONE22),
        50 => Some(Token::NONE23),
        51 => Some(Token::BACKSLASH),
        52 => Some(Token::ZERO),
        53 => Some(Token::NONE24),
        54 => Some(Token::NONE25),
        55 => Some(Token::NONE26),
        56 => Some(Token::LBRAC),
        57 => Some(Token::FWDSLASH),
        58 => Some(Token::NONE27),
        59 => Some(Token::NONE28),
        60 => Some(Token::NONE29),
        61 => Some(Token::UE),
        62 => Some(Token::PER),
        _ => None,
    }
}

/// The slot of a symbol: its length plus the weight of its first byte.
///
/// `len` is taken as given, so the slot of a prefix can be asked for too.
pub fn hash(string: &str, len: i32) -> (slot: usize)
    requires
        string@.len() > 0,
        len <= i32::MAX - 63,
    ensures
        slot == spec_hash(first_byte(string@), len as int),
{
    proof {
        lemma_nonempty_bytes(string@);
    }
    let bytes = string.as_bytes();
    let sum: i32 = len + (assoc(bytes[0]) as i32);
    if sum >= 0 {
        sum as usize
    } else {
        usize::MAX - ((-(sum + 1)) as usize)
    }
}

impl Token {
    /// The text that names this token; empty for a `NONE` token.
    pub open spec fn symbol(self) -> Seq<char> {
        match self {
            Token::T => seq!['t'],
            Token::COLON => seq![':'],
            Token::DASH => seq!['-'],
            Token::TRUE => seq!['t', 'r', 'u', 'e'],
            Token::N => seq!['n'],
            Token::NINE => seq!['9'],
            Token::COMMA => seq![','],
            Token::NULL => seq!['n', 'u', 'l', 'l'],
            Token::F => seq!['f'],
            Token::EIGHT => seq!['8'],
            Token::PLUS => seq!['+'],
            Token::FALSE => seq!['f', 'a', 'l', 's', 'e'],
            Token::RBRACE => seq!['}'],
            Token::SEVEN => seq!['7'],
            Token::DQUOTE => seq!['"'],
            Token::LBRACE => seq!['{'],
            Token::SIX => seq!['6'],
            Token::U => seq!['u'],
            Token::FIVE => seq!['5'],
            Token::R => seq!['r'],
            Token::FOUR => seq!['4'],
            Token::E => seq!['e'],
            Token::THREE => seq!['3'],
            Token::B => seq!['b'],
            Token::TWO => seq!['2'],
            Token::RBRAC => seq![']'],
            Token::ONE => seq!['1'],
            Token::BACKSLASH => seq!['\\'],
            Token::ZERO => seq!['0'],
            Token::LBRAC => seq!['['],
            Token::FWDSLASH => seq!['/'],
            Token::UE => seq!['E'],
            Token::PER => seq!['.'],
            _ => Seq::empty(),
        }
    }

    /// Whether this token is one of the unused slots.
    pub open spec fn spec_is_none(self) -> bool {
        self.symbol().len() == 0
    }

    /// Whether this token is a decimal digit.
    pub open spec fn spec_is_digit(self) -> bool {
        self.symbol().len() == 1 && '0' <= self.symbol()[0] <= '9'
    }

    /// The slot of this token in the symbol table.
    pub open spec fn spec_ordinal(self) -> int {
        match self {
            Token::NONE0 => 0,
            Token::T => 1,
            Token::COLON => 2,
            Token::DASH => 3,
            Token::TRUE => 4,
            Token::NONE1 => 5,
            Token::N => 6,
            Token::NINE => 7,
            Token::COMMA => 8,
            Token::NULL => 9,
            Token::NONE2 => 10,
            Token::F => 11,
            Token::EIGHT => 12,
            Token::PLUS => 13,
            Token::NONE3 => 14,
            Token::FALSE => 15,
            Token::RBRACE => 16,
            Token::SEVEN => 17,
            Token::DQUOTE => 18,
            Token::NONE4 => 19,
            Token::NONE5 => 20,
            Token::LBRACE => 21,
            Token::SIX => 22,
            Token::NONE6 => 23,
            Token::NONE7 => 24,
            Token::NONE8 => 25,
            Token::U => 26,
            Token::FIVE => 27,
            Token::NONE9 => 28,
            Token::NONE10 => 29,
            Token::NONE11 => 30,
            Token::R => 31,
            Token::FOUR => 32,
            Token::NONE12 => 33,
            Token::NONE13 => 34,
            Token::NONE14 => 35,
            Token::E => 36,
            Token::THREE => 37,
            Token::NONE15 => 38,
            Token::NONE16 => 39,
            Token::NONE17 => 40,
            Token::B => 41,
            Token::TWO => 42,
            Token::NONE18 => 43,
            Token::NONE19 => 44,
            Token::NONE20 => 45,
            Token::RBRAC => 46,
            Token::ONE => 47,
            Token::NONE21 => 48,
            Token::NONE22 => 49,
            Token::NONE23 => 50,
            Token::BACKSLASH => 51,
            Token::ZERO => 52,
            Token::NONE24 => 53,
            Token::NONE25 => 54,
            Token::NONE26 => 55,
            Token::LBRAC => 56,
            Token::FWDSLASH => 57,
            Token::NONE27 => 58,
            Token::NONE28 => 59,
            Token::NONE29 => 60,
            Token::UE => 61,
            Token::PER => 62,
        }
    }

    /// Whether `text` is the symbol of this token.
    pub open spec fn names(self, text: Seq<char>) -> bool {
        !self.spec_is_none() && self.symbol() == text
    }

    /// The text that names this token, as a string.
    pub fn text(&self) -> (text: &'static str)
        ensures
            text@ == self.symbol(),
            text.is_ascii(),
    {
        match self {
            Token::T => {
                proof {
                    reveal_strlit("t");
                }
                "t"
            },
            Token::COLON => {
                proof {
                    reveal_strlit(":");
                }
                ":"
            },
            Token::DASH => {
                proof {
                    reveal_strlit("-");
                }
                "-"
            },
            Token::TRUE => {
                proof {
                    reveal_strlit("true");
                }
                "true"
            },
            Token::N => {
                proof {
                    reveal_strlit("n");
                }
                "n"
            },
            Token::NINE => {
                proof {
                    reveal_strlit("9");
                }
                "9"
            },
            Token::COMMA => {
                proof {
                    reveal_strlit(",");
                }
                ","
            },
            Token::NULL => {
                proof {
                    reveal_strlit("null");
                }
                "null"
            },
            Token::F => {
                proof {
                    reveal_strlit("f");
                }
                "f"
            },
            Token::EIGHT => {
                proof {
                    reveal_strlit("8");
                }
                "8"
            },
            Token::PLUS => {
                proof {
                    reveal_strlit("+");
                }
                "+"
            },
            Token::FALSE => {
                proof {
                    reveal_strlit("false");
                }
                "false"
            },
            Token::RBRACE => {
                proof {
                    reveal_strlit("}");
                }
                "}"
            },
            Token::SEVEN => {
                proof {
                    reveal_strlit("7");
                }
                "7"
            },
            Token::DQUOTE => {
                proof {
                    reveal_strlit("\"");
                }
                "\""
            },
            Token::LBRACE => {
                proof {
                    reveal_strlit("{");
                }
                "{"
            },
            Token::SIX => {
                proof {
                    reveal_strlit("6");
                }
                "6"
            },
            Token::U => {
                proof {
                    reveal_strlit("u");
                }
                "u"
            },
            Token::FIVE => {
                proof {
                    reveal_strlit("5");
                }
                "5"
            },
            Token::R => {
                proof {
                    reveal_strlit("r");
                }
                "r"
            },
            Token::FOUR => {
                proof {
                    reveal_strlit("4");
                }
                "4"
            },
            Token::E => {
                proof {
                    reveal_strlit("e");
                }
                "e"
            },
            Token::THREE => {
                proof {
                    reveal_strlit("3");
                }
                "3"
            },
            Token::B => {
                proof {
                    reveal_strlit("b");
                }
                "b"
            },
            Token::TWO => {
                proof {
                    reveal_strlit("2");
                }
                "2"
            },
            Token::RBRAC => {
                proof {
                    reveal_strlit("]");
                }
                "]"
            },
            Token::ONE => {
                proof {
                    reveal_strlit("1");
                }
                "1"
            },
            Token::BACKSLASH => {
                proof {
                    reveal_strlit("\\");
                }
                "\\"
            },
            Token::ZERO => {
                proof {
                    reveal_strlit("0");
                }
                "0"
            },
            Token::LBRAC => {
                proof {
                    reveal_strlit("[");
                }
                "["
            },
            Token::FWDSLASH => {
                proof {
                    reveal_strlit("/");
                }
                "/"
            },
            Token::UE => {
                proof {
                    reveal_strlit("E");
                }
                "E"
            },
            Token::PER => {
                proof {
                    reveal_strlit(".");
                }
                "."
            },
            _ => {
                proof {
                    reveal_strlit("");
                }
                ""
            },
        }
    }


    /// The token that `sym` names, or `NONE1` where it names none.
    ///
    /// The symbol's slot is computed from its length and first byte, and the
    /// symbol stored at that slot is compared with `sym`.
    pub fn has_symbol(sym: &str) -> (token: Token)
        ensures
            token == Token::NONE1 || token.names(sym@),
            forall|other: Token| other.names(sym@) ==> token == other,
    {
        if !sym.is_ascii() {
            assert forall|other: Token| other.names(sym@) implies false by {
                lemma_slot_of_symbol(other);
            }
            return Token::NONE1;
        }
        proof {
            vstd::string::is_ascii_spec_bytes(sym);
        }
        let len = sym.as_bytes().len();
        assert(len == sym@.len());
        assert forall|other: Token| other.names(sym@) implies MIN_WORD_LENGTH <= len
            <= MAX_WORD_LENGTH && spec_hash(first_byte(sym@), len as int)
            == other.spec_ordinal() by {
            lemma_slot_of_symbol(other);
        }
        if len <= MAX_WORD_LENGTH && len >= MIN_WORD_LENGTH {
            let key = hash(sym, len as i32);
            if key <= MAX_HASH_VALUE {
                let found = from_index(key).unwrap();
                assert forall|other: Token| other.names(sym@) implies other == found by {
                    lemma_ordinal_injective(other, found);
                }
                let stored = found.text();
                if stored.as_bytes().len() < 1 {
                    return Token::NONE1;
                }
                if same_text(sym, stored) {
                    return found;
                }
            }
        }
        Token::NONE1
    }

    /// The digit that this token stands for, or `_` where it is no digit.
    pub fn get_digit(&self) -> (digit: char)
        ensures
            self.spec_is_digit() ==> digit == self.symbol()[0],
            !self.spec_is_digit() ==> digit == '_',
    {
        match self {
            Token::ZERO => '0',
            Token::ONE => '1',
            Token::TWO => '2',
            Token::THREE => '3',
            Token::FOUR => '4',
            Token::FIVE => '5',
            Token::SIX => '6',
            Token::SEVEN => '7',
            Token::EIGHT => '8',
            Token::NINE => '9',
            _ => '_',
        }
    }

    /// Whether this token is one of the unused slots, which name no symbol.
    pub fn is_none(&self) -> (none: bool)
        ensures
            none == self.spec_is_none(),
    {
        match self {
            Token::NONE0 => true,
            Token::NONE1 => true,
            Token::NONE2 => true,
            Token::NONE3 => true,
            Token::NONE4 => true,
            Token::NONE5 => true,
            Token::NONE6 => true,
            Token::NONE7 => true,
            Token::NONE8 => true,
            Token::NONE9 => true,
            Token::NONE10 => true,
            Token::NONE11 => true,
            Token::NONE12 => true,
            Token::NONE13 => true,
            Token::NONE14 => true,
            Token::NONE15 => true,
            Token::NONE16 => true,
            Token::NONE17 => true,
            Token::NONE18 => true,
            Token::NONE19 => true,
            Token::NONE20 => true,
            Token::NONE21 => true,
            Token::NONE22 => true,
            Token::NONE23 => true,
            Token::NONE24 => true,
            Token::NONE25 => true,
            Token::NONE26 => true,
            Token::NONE27 => true,
            Token::NONE28 => true,
            Token::NONE29 => true,
            _ => false,
        }
    }

    /// Whether this token is one of the ten decimal digits.
    pub fn is_digit(&self) -> (digit: bool)
        ensures
            digit == self.spec_is_digit(),
    {
        match self {
            Token::ZERO => true,
            Token::ONE => true,
            Token::TWO => true,
            Token::THREE => true,
            Token::FOUR => true,
            Token::FIVE => true,
            Token::SIX => true,
            Token::SEVEN => true,
            Token::EIGHT => true,
            Token::NINE => true,
            _ => false,
        }
    }

    /// The slot of this token in the symbol table.
    pub fn ordinal(&self) -> (slot: u8)
        ensures
            slot == self.spec_ordinal(),
            slot <= MAX_HASH_VALUE,
            spec_from_index(slot as int) == Some(*self),
    {
        match self {
            Token::NONE0 => 0,
            Token::T => 1,
            Token::COLON => 2,
            Token::DASH => 3,
            Token::TRUE => 4,
            Token::NONE1 => 5,
            Token::N => 6,
            Token::NINE => 7,
            Token::COMMA => 8,
            Token::NULL => 9,
            Token::NONE2 => 10,
            Token::F => 11,
            Token::EIGHT => 12,
            Token::PLUS => 13,
            Token::NONE3 => 14,
            Token::FALSE => 15,
            Token::RBRACE => 16,
            Token::SEVEN => 17,
            Token::DQUOTE => 18,
            Token::NONE4 => 19,
            Token::NONE5 => 20,
            Token::LBRACE => 21,
            Token::SIX => 22,
            Token::NONE6 => 23,
            Token::NONE7 => 24,
            Token::NONE8 => 25,
            Token::U => 26,
            Token::FIVE => 27,
            Token::NONE9 => 28,
            Token::NONE10 => 29,
            Token::NONE11 => 30,
            Token::R => 31,
            Token::FOUR => 32,
            Token::NONE12 => 33,
            Token::NONE13 => 34,
            Token::NONE14 => 35,
            Token::E => 36,
            Token::THREE => 37,
            Token::NONE15 => 38,
            Token::NONE16 => 39,
            Token::NONE17 => 40,
            Token::B => 41,
            Token::TWO => 42,
            Token::NONE18 => 43,
            Token::NONE19 => 44,
            Token::NONE20 => 45,
            Token::RBRAC => 46,
            Token::ONE => 47,
            Token::NONE21 => 48,
            Token::NONE22 => 49,
            Token::NONE23 => 50,
            Token::BACKSLASH => 51,
            Token::ZERO => 52,
            Token::NONE24 => 53,
            Token::NONE25 => 54,
            Token::NONE26 => 55,
            Token::LBRAC => 56,
            Token::FWDSLASH => 57,
            Token::NONE27 => 58,
            Token::NONE28 => 59,
            Token::NONE29 => 60,
            Token::UE => 61,
            Token::PER => 62,
        }
    }
}

/// Whether two ASCII strings hold the same text.
fn same_text(left: &str, right: &str) -> (same: bool)
    requires
        left.is_ascii(),
        right.is_ascii(),
    ensures
        same == (left@ == right@),
{
    proof {
        vstd::string::is_ascii_spec_bytes(left);
        vstd::string::is_ascii_spec_bytes(right);
    }
    let len = left.as_bytes().len();
    if len != right.as_bytes().len() {
        return false;
    }
    let mut at: usize = 0;
    while at < len
        invariant
            left.is_ascii(),
            right.is_ascii(),
            len == left@.len(),
            len == right@.len(),
            at <= len,
            forall|i: int| 0 <= i < at ==> left@[i] == right@[i],
        decreases len - at,
    {
        let a = left.get_ascii(at);
        let b = right.get_ascii(at);
        if a != b {
            return false;
        }
        assert(left@[at as int] == right@[at as int]);
        at += 1;
    }
    assert(left@ =~= right@);
    true
}

/// A text that is not empty has at least one byte.
proof fn lemma_nonempty_bytes(text: Seq<char>)
    requires
        text.len() > 0,
    ensures
        vstd::utf8::encode_utf8(text).len() > 0,
{
    reveal_with_fuel(vstd::utf8::encode_utf8, 2);
}

/// A token's slot is the length of its symbol plus the weight of the symbol's
/// first character, and every symbol is short ASCII text.
pub proof fn lemma_slot_of_symbol(token: Token)
    requires
        !token.spec_is_none(),
    ensures
        MIN_WORD_LENGTH <= token.symbol().len() <= MAX_WORD_LENGTH,
        vstd::utf8::is_ascii_chars(token.symbol()),
        spec_hash(token.symbol()[0] as u8, token.symbol().len() as int) == token.spec_ordinal(),
{
}

/// No two tokens share a slot.
pub proof fn lemma_ordinal_injective(left: Token, right: Token)
    requires
        left.spec_ordinal() == right.spec_ordinal(),
    ensures
        left == right,
{
}

} // verus!
