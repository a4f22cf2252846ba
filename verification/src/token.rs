//! Tokens: the classified output of the pipeline. [`Token::build`]
//! maps one fragment to a tagged token by table lookup followed by
//! literal heuristics, exactly as [`classify_text`] states.

use vstd::prelude::*;
use crate::split::SplitItem;
use crate::options::{TokenizerOptions, MatcherV, matcher_matches};
use crate::text::{
    to_char_vec, chars_to_string, subvec, contains_char, parse_i64, float_text_check, is_i64_text,
    i64_text_value, is_float_text,
};

verus! {

/// A source position: a column within a line, and a line number.
/// Both are non-negative and advance monotonically during a scan,
/// except that the column resets to zero on a line terminator.
#[derive(Debug, PartialEq, Eq, Structural, Clone, Copy)]
pub struct TokenPosition {
    pub position: i32,
    pub line: i32,
}

impl TokenPosition {
    pub fn new(position: i32, line: i32) -> (r: TokenPosition)
        ensures
            r == (TokenPosition { position, line }),
    {
        TokenPosition { position, line }
    }

    /// Combining two positions keeps the latest observed value of each
    /// field: the component-wise maximum, not a sum.
    pub fn add(self, other: TokenPosition) -> (r: TokenPosition)
        ensures
            r.position == if self.position > other.position {
                self.position
            } else {
                other.position
            },
            r.line == if self.line > other.line {
                self.line
            } else {
                other.line
            },
    {
        TokenPosition {
            position: if self.position > other.position {
                self.position
            } else {
                other.position
            },
            line: if self.line > other.line {
                self.line
            } else {
                other.line
            },
        }
    }
}

/// Mathematical value of a [`TokenType`]: text payloads become
/// character sequences and integer payloads unbounded integers.
pub ghost enum TokenKind {
    Unknown,
    Any(Seq<char>),
    AtSign,
    SingleLineComment,
    BeginMultilineComment,
    EndMultilineComment,
    Comma,
    OpenParenthesis,
    CloseParenthesis,
    OpenCurlyBrace,
    CloseCurlyBrace,
    OpenBracket,
    CloseBracket,
    OpenSquareBracket,
    TrueLiteral,
    FalseLiteral,
    NullLiteral,
    StringLiteral(Seq<char>),
    IntegerLiteral(int),
    FloatLiteral(Seq<char>),
    CharLiteral(char),
    Plus,
    Minus,
    Divide,
    Multiply,
    Modulo,
    Id(Seq<char>),
    Equal,
    EqualTo,
    NotEqual,
    LessThan,
    LessThanOrEqual,
    GreaterThan,
    GreaterThanOrEqual,
    Colon,
    Semicolon,
    And,
    Or,
    DollarSign,
    Arrow,
    FatArrow,
    Dot,
    HashSign,
    Exclamation,
    QuestionMark,
    EOF,
    End,
}

/// The tag of a classified token. Literal tags carry their value; a
/// float literal carries the numeric text handed to the float parse
/// (without any trailing `f`), so the caller can read its value.
#[derive(Debug, PartialEq, Clone)]
pub enum TokenType {
    /// A fragment no classification step recognized.
    Unknown,
    Any(String),
    /// `@`
    AtSign,
    /// `//`
    SingleLineComment,
    /// `/*`
    BeginMultilineComment,
    /// `*/`
    EndMultilineComment,
    Comma,
    OpenParenthesis,
    CloseParenthesis,
    OpenCurlyBrace,
    CloseCurlyBrace,
    OpenBracket,
    CloseBracket,
    OpenSquareBracket,
    TrueLiteral,
    FalseLiteral,
    NullLiteral,
    StringLiteral(String),
    IntegerLiteral(i64),
    FloatLiteral(String),
    CharLiteral(char),
    /// `+`
    Plus,
    /// `-`
    Minus,
    /// `/`
    Divide,
    /// `*`
    Multiply,
    /// `%`
    Modulo,
    Id(String),
    /// `=`
    Equal,
    /// `==`
    EqualTo,
    /// `!=`
    NotEqual,
    /// `<`
    LessThan,
    /// `<=`
    LessThanOrEqual,
    /// `>`
    GreaterThan,
    /// `>=`
    GreaterThanOrEqual,
    /// `:`
    Colon,
    /// `;`
    Semicolon,
    /// `&&`
    And,
    /// `||`
    Or,
    /// `$`
    DollarSign,
    /// `->`
    Arrow,
    /// `=>`
    FatArrow,
    /// `.`
    Dot,
    /// `#`
    HashSign,
    /// `!`
    Exclamation,
    /// `?`
    QuestionMark,
    /// A line terminator fragment (`\n` or `\r`).
    EOF,
    End,
}

impl View for TokenType {
    type V = TokenKind;

    open spec fn view(&self) -> TokenKind {
        match self {
            TokenType::Unknown => TokenKind::Unknown,
            TokenType::Any(s) => TokenKind::Any(s@),
            TokenType::AtSign => TokenKind::AtSign,
            TokenType::SingleLineComment => TokenKind::SingleLineComment,
            TokenType::BeginMultilineComment => TokenKind::BeginMultilineComment,
            TokenType::EndMultilineComment => TokenKind::EndMultilineComment,
            TokenType::Comma => TokenKind::Comma,
            TokenType::OpenParenthesis => TokenKind::OpenParenthesis,
            TokenType::CloseParenthesis => TokenKind::CloseParenthesis,
            TokenType::OpenCurlyBrace => TokenKind::OpenCurlyBrace,
            TokenType::CloseCurlyBrace => TokenKind::CloseCurlyBrace,
            TokenType::OpenBracket => TokenKind::OpenBracket,
            TokenType::CloseBracket => TokenKind::CloseBracket,
            TokenType::OpenSquareBracket => TokenKind::OpenSquareBracket,
            TokenType::TrueLiteral => TokenKind::TrueLiteral,
            TokenType::FalseLiteral => TokenKind::FalseLiteral,
            TokenType::NullLiteral => TokenKind::NullLiteral,
            TokenType::StringLiteral(s) => TokenKind::StringLiteral(s@),
            TokenType::IntegerLiteral(v) => TokenKind::IntegerLiteral(*v as int),
            TokenType::FloatLiteral(s) => TokenKind::FloatLiteral(s@),
            TokenType::CharLiteral(c) => TokenKind::CharLiteral(*c),
            TokenType::Plus => TokenKind::Plus,
            TokenType::Minus => TokenKind::Minus,
            TokenType::Divide => TokenKind::Divide,
            TokenType::Multiply => TokenKind::Multiply,
            TokenType::Modulo => TokenKind::Modulo,
            TokenType::Id(s) => TokenKind::Id(s@),
            TokenType::Equal => TokenKind::Equal,
            TokenType::EqualTo => TokenKind::EqualTo,
            TokenType::NotEqual => TokenKind::NotEqual,
            TokenType::LessThan => TokenKind::LessThan,
            TokenType::LessThanOrEqual => TokenKind::LessThanOrEqual,
            TokenType::GreaterThan => TokenKind::GreaterThan,
            TokenType::GreaterThanOrEqual => TokenKind::GreaterThanOrEqual,
            TokenType::Colon => TokenKind::Colon,
            TokenType::Semicolon => TokenKind::Semicolon,
            TokenType::And => TokenKind::And,
            TokenType::Or => TokenKind::Or,
            TokenType::DollarSign => TokenKind::DollarSign,
            TokenType::Arrow => TokenKind::Arrow,
            TokenType::FatArrow => TokenKind::FatArrow,
            TokenType::Dot => TokenKind::Dot,
            TokenType::HashSign => TokenKind::HashSign,
            TokenType::Exclamation => TokenKind::Exclamation,
            TokenType::QuestionMark => TokenKind::QuestionMark,
            TokenType::EOF => TokenKind::EOF,
            TokenType::End => TokenKind::End,
        }
    }
}

/// Mathematical value of a [`TokenData`].
#[verifier::ext_equal]
pub ghost struct TokenDataV {
    pub text: Seq<char>,
    pub pos: int,
    pub line: int,
}

/// The raw text and position a token was built from.
#[derive(Debug, PartialEq, Clone)]
pub struct TokenData {
    pub text: String,
    pub position: TokenPosition,
}

impl View for TokenData {
    type V = TokenDataV;

    open spec fn view(&self) -> TokenDataV {
        TokenDataV {
            text: self.text@,
            pos: self.position.position as int,
            line: self.position.line as int,
        }
    }
}

impl TokenData {
    pub fn new(text: String, position: TokenPosition) -> (r: TokenData)
        ensures
            r@ == (TokenDataV {
                text: text@,
                pos: position.position as int,
                line: position.line as int,
            }),
    {
        TokenData { text, position }
    }
}

/// Mathematical value of a [`Token`].
#[verifier::ext_equal]
pub ghost struct TokenV {
    pub kind: TokenKind,
    pub data: TokenDataV,
}

/// A classified token: its tag and the data it was built from.
#[derive(Debug, PartialEq, Clone)]
pub struct Token(pub TokenType, pub TokenData);

impl View for Token {
    type V = TokenV;

    open spec fn view(&self) -> TokenV {
        TokenV { kind: self.0@, data: self.1@ }
    }
}

/// Spec: the fixed keyword, punctuation and operator table. Texts not
/// in the table map to `Unknown`.
pub open spec fn symbol_kind(s: Seq<char>) -> TokenKind {
    if s == seq!['@'] {
        TokenKind::AtSign
    } else if s == seq!['/', '/'] {
        TokenKind::SingleLineComment
    } else if s == seq!['/', '*'] {
        TokenKind::BeginMultilineComment
    } else if s == seq!['*', '/'] {
        TokenKind::EndMultilineComment
    } else if s == seq!['('] {
        TokenKind::OpenParenthesis
    } else if s == seq![')'] {
        TokenKind::CloseParenthesis
    } else if s == seq!['['] {
        TokenKind::OpenBracket
    } else if s == seq![']'] {
        TokenKind::CloseBracket
    } else if s == seq!['{'] {
        TokenKind::OpenCurlyBrace
    } else if s == seq!['}'] {
        TokenKind::CloseCurlyBrace
    } else if s == seq!['t', 'r', 'u', 'e'] {
        TokenKind::TrueLiteral
    } else if s == seq!['f', 'a', 'l', 's', 'e'] {
        TokenKind::FalseLiteral
    } else if s == seq!['n', 'u', 'l', 'l'] {
        TokenKind::NullLiteral
    } else if s == seq!['+'] {
        TokenKind::Plus
    } else if s == seq!['-'] {
        TokenKind::Minus
    } else if s == seq!['/'] {
        TokenKind::Divide
    } else if s == seq!['*'] {
        TokenKind::Multiply
    } else if s == seq!['%'] {
        TokenKind::Modulo
    } else if s == seq!['='] {
        TokenKind::Equal
    } else if s == seq!['=', '='] {
        TokenKind::EqualTo
    } else if s == seq!['!', '='] {
        TokenKind::NotEqual
    } else if s == seq!['<'] {
        TokenKind::LessThan
    } else if s == seq!['<', '='] {
        TokenKind::LessThanOrEqual
    } else if s == seq!['>'] {
        TokenKind::GreaterThan
    } else if s == seq!['>', '='] {
        TokenKind::GreaterThanOrEqual
    } else if s == seq![':'] {
        TokenKind::Colon
    } else if s == seq![';'] {
        TokenKind::Semicolon
    } else if s == seq!['&', '&'] {
        TokenKind::And
    } else if s == seq!['|', '|'] {
        TokenKind::Or
    } else if s == seq!['$'] {
        TokenKind::DollarSign
    } else if s == seq!['-', '>'] {
        TokenKind::Arrow
    } else if s == seq!['=', '>'] {
        TokenKind::FatArrow
    } else if s == seq!['.'] {
        TokenKind::Dot
    } else if s == seq!['#'] {
        TokenKind::HashSign
    } else if s == seq!['!'] {
        TokenKind::Exclamation
    } else if s == seq!['?'] {
        TokenKind::QuestionMark
    } else if s == seq![','] {
        TokenKind::Comma
    } else if s == seq!['\n'] || s == seq!['\r'] {
        TokenKind::EOF
    } else {
        TokenKind::Unknown
    }
}

/// Spec: the classification of a fragment text, in resolution order:
/// the symbol table; the quoted-string check; the identifier
/// predicate; the integer parse; the trailing-`f` float parse; the
/// dot-float parse with a single-character fallback; the
/// quoted-character check; and otherwise `Unknown`.
pub open spec fn classify_text(s: Seq<char>, tid: MatcherV) -> TokenKind {
    if symbol_kind(s) != TokenKind::Unknown {
        symbol_kind(s)
    } else if s.len() >= 2 && s[0] == '"' && s.last() == '"' {
        TokenKind::StringLiteral(s.subrange(1, s.len() - 1))
    } else if matcher_matches(tid, s) {
        TokenKind::Id(s)
    } else if is_i64_text(s) {
        TokenKind::IntegerLiteral(i64_text_value(s))
    } else if s.len() > 0 && s.last() == 'f' {
        if is_float_text(s.drop_last()) {
            TokenKind::FloatLiteral(s.drop_last())
        } else {
            TokenKind::Unknown
        }
    } else if s.contains('.') {
        if is_float_text(s) {
            TokenKind::FloatLiteral(s)
        } else if s.len() == 1 {
            TokenKind::CharLiteral(s[0])
        } else {
            TokenKind::Unknown
        }
    } else if s.len() >= 2 && s[0] == '\'' && s.last() == '\'' {
        if s.len() == 3 {
            TokenKind::CharLiteral(s[1])
        } else {
            TokenKind::Unknown
        }
    } else {
        TokenKind::Unknown
    }
}

/// Spec: the token built from a fragment: its classification, with
/// the fragment's text and position carried over unchanged.
pub open spec fn spec_build(item: crate::split::SplitItemV, tid: MatcherV) -> TokenV {
    TokenV {
        kind: classify_text(item.text, tid),
        data: TokenDataV { text: item.text, pos: item.pos, line: item.line },
    }
}

fn text_is1(v: &Vec<char>, a: char) -> (r: bool)
    ensures
        r == (v@ == seq![a]),
{
    if v.len() == 1 && v[0] == a {
        proof {
            assert(v@ =~= seq![a]);
        }
        true
    } else {
        false
    }
}

fn text_is2(v: &Vec<char>, a: char, b: char) -> (r: bool)
    ensures
        r == (v@ == seq![a, b]),
{
    if v.len() == 2 && v[0] == a && v[1] == b {
        proof {
            assert(v@ =~= seq![a, b]);
        }
        true
    } else {
        false
    }
}

fn text_is4(v: &Vec<char>, a: char, b: char, c: char, d: char) -> (r: bool)
    ensures
        r == (v@ == seq![a, b, c, d]),
{
    if v.len() == 4 && v[0] == a && v[1] == b && v[2] == c && v[3] == d {
        proof {
            assert(v@ =~= seq![a, b, c, d]);
        }
        true
    } else {
        false
    }
}

fn text_is5(v: &Vec<char>, a: char, b: char, c: char, d: char, e: char) -> (r: bool)
    ensures
        r == (v@ == seq![a, b, c, d, e]),
{
    if v.len() == 5 && v[0] == a && v[1] == b && v[2] == c && v[3] == d && v[4] == e {
        proof {
            assert(v@ =~= seq![a, b, c, d, e]);
        }
        true
    } else {
        false
    }
}

/// The exact table lookup of [`symbol_kind`].
fn symbol_token_type(v: &Vec<char>) -> (t: TokenType)
    ensures
        t@ == symbol_kind(v@),
{
    if text_is1(v, '@') {
        TokenType::AtSign
    } else if text_is2(v, '/', '/') {
        TokenType::SingleLineComment
    } else if text_is2(v, '/', '*') {
        TokenType::BeginMultilineComment
    } else if text_is2(v, '*', '/') {
        TokenType::EndMultilineComment
    } else if text_is1(v, '(') {
        TokenType::OpenParenthesis
    } else if text_is1(v, ')') {
        TokenType::CloseParenthesis
    } else if text_is1(v, '[') {
        TokenType::OpenBracket
    } else if text_is1(v, ']') {
        TokenType::CloseBracket
    } else if text_is1(v, '{') {
        TokenType::OpenCurlyBrace
    } else if text_is1(v, '}') {
        TokenType::CloseCurlyBrace
    } else if text_is4(v, 't', 'r', 'u', 'e') {
        TokenType::TrueLiteral
    } else if text_is5(v, 'f', 'a', 'l', 's', 'e') {
        TokenType::FalseLiteral
    } else if text_is4(v, 'n', 'u', 'l', 'l') {
        TokenType::NullLiteral
    } else if text_is1(v, '+') {
        TokenType::Plus
    } else if text_is1(v, '-') {
        TokenType::Minus
    } else if text_is1(v, '/') {
        TokenType::Divide
    } else if text_is1(v, '*') {
        TokenType::Multiply
    } else if text_is1(v, '%') {
        TokenType::Modulo
    } else if text_is1(v, '=') {
        TokenType::Equal
    } else if text_is2(v, '=', '=') {
        TokenType::EqualTo
    } else if text_is2(v, '!', '=') {
        TokenType::NotEqual
    } else if text_is1(v, '<') {
        TokenType::LessThan
    } else if text_is2(v, '<', '=') {
        TokenType::LessThanOrEqual
    } else if text_is1(v, '>') {
        TokenType::GreaterThan
    } else if text_is2(v, '>', '=') {
        TokenType::GreaterThanOrEqual
    } else if text_is1(v, ':') {
        TokenType::Colon
    } else if text_is1(v, ';') {
        TokenType::Semicolon
    } else if text_is2(v, '&', '&') {
        TokenType::And
    } else if text_is2(v, '|', '|') {
        TokenType::Or
    } else if text_is1(v, '$') {
        TokenType::DollarSign
    } else if text_is2(v, '-', '>') {
        TokenType::Arrow
    } else if text_is2(v, '=', '>') {
        TokenType::FatArrow
    } else if text_is1(v, '.') {
        TokenType::Dot
    } else if text_is1(v, '#') {
        TokenType::HashSign
    } else if text_is1(v, '!') {
        TokenType::Exclamation
    } else if text_is1(v, '?') {
        TokenType::QuestionMark
    } else if text_is1(v, ',') {
        TokenType::Comma
    } else if text_is1(v, '\n') || text_is1(v, '\r') {
        TokenType::EOF
    } else {
        TokenType::Unknown
    }
}

impl Token {
    /// Classifies one fragment: first the fixed symbol table, then the
    /// literal heuristics, in the order [`classify_text`] states. The
    /// fragment's text and position are carried over unchanged.
    pub fn build(item: SplitItem, options: &TokenizerOptions) -> (t: Token)
        ensures
            t@ == spec_build(item@, options.try_id@),
    {
        let text = item.text;
        let position = item.position;
        let chars = to_char_vec(text.as_str());
        let sym = symbol_token_type(&chars);
        let token_type: TokenType;
        if let TokenType::Unknown = sym {
            if chars.len() >= 2 && chars[0] == '"' && chars[chars.len() - 1] == '"' {
                let inner = subvec(&chars, 1, chars.len() - 1);
                token_type = TokenType::StringLiteral(chars_to_string(&inner));
            } else if options.try_id.matches(&text) {
                token_type = TokenType::Id(text.clone());
            } else if let Some(v) = parse_i64(&chars) {
                token_type = TokenType::IntegerLiteral(v);
            } else if chars.len() > 0 && chars[chars.len() - 1] == 'f' {
                let head = subvec(&chars, 0, chars.len() - 1);
                proof {
                    assert(head@ =~= chars@.drop_last());
                }
                if float_text_check(&head) {
                    token_type = TokenType::FloatLiteral(chars_to_string(&head));
                } else {
                    token_type = TokenType::Unknown;
                }
            } else if contains_char(&chars, '.') {
                if float_text_check(&chars) {
                    token_type = TokenType::FloatLiteral(text.clone());
                } else if chars.len() == 1 {
                    token_type = TokenType::CharLiteral(chars[0]);
                } else {
                    token_type = TokenType::Unknown;
                }
            } else if chars.len() >= 2 && chars[0] == '\'' && chars[chars.len() - 1] == '\'' {
                if chars.len() == 3 {
                    token_type = TokenType::CharLiteral(chars[1]);
                } else {
                    token_type = TokenType::Unknown;
                }
            } else {
                token_type = TokenType::Unknown;
            }
        } else {
            token_type = sym;
        }
        let data = TokenData::new(text, position);
        Token(token_type, data)
    }
}

} // verus!
