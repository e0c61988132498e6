//! The tokens of the query language.
use vstd::prelude::*;
use vstd::string::StringExecFns;
use crate::strings::str_equal;
use crate::value::{Value, ValueView};

verus! {

/// The kinds of token.
#[derive(Debug, Clone, Copy, PartialEq, Eq, Structural)]
pub enum TokenType {
    LeftParen,
    RightParen,
    Comma,
    Dot,
    Minus,
    Plus,
    Star,
    Semicolon,
    Colon,
    Bang,
    Equals,
    Less,
    LessEqual,
    Greater,
    GreaterEqual,
    BangEquals,
    Unequal,
    Str,
    Num,
    Identifier,
    And,
    Else,
    False,
    Nil,
    Or,
    True,
    Select,
    From,
    Where,
    Union,
    Update,
    Insert,
    Group,
    Order,
    By,
    Having,
    Sum,
    Max,
    Min,
    Delete,
    Commit,
    Describe,
}

/// A token as contracts see it.
pub struct TokenView {
    pub tokentype: TokenType,
    pub lexeme: Seq<char>,
    pub literal: ValueView,
}

/// A token: its kind, the text it was read from, and the value that a
/// literal stands for (null for the other kinds).
#[derive(Debug)]
pub struct Token {
    tokentype: TokenType,
    lexeme: String,
    literal: Value,
}

impl View for Token {
    type V = TokenView;

    closed spec fn view(&self) -> TokenView {
        TokenView { tokentype: self.tokentype, lexeme: self.lexeme@, literal: self.literal@ }
    }
}

impl Token {
    /// A token of the given parts.
    pub fn new(tokentype: TokenType, lexeme: &str, literal: Value) -> (token: Token)
        ensures
            token@ == (TokenView { tokentype, lexeme: lexeme@, literal: literal@ }),
    {
        Token { tokentype, lexeme: String::from_str(lexeme), literal }
    }

    /// The kind of the token.
    pub fn tokentype(&self) -> (tokentype: TokenType)
        ensures
            tokentype == self@.tokentype,
    {
        self.tokentype
    }

    /// The text that the token was read from.
    pub fn lexeme(&self) -> (lexeme: &String)
        ensures
            lexeme@ == self@.lexeme,
    {
        &self.lexeme
    }

    /// The value that a literal stands for; null for the other kinds.
    pub fn literal(&self) -> (literal: &Value)
        ensures
            literal@ == self@.literal,
    {
        &self.literal
    }
}

/// The keyword that a word spells, letter for letter.
pub open spec fn keyword_of(word: Seq<char>) -> Option<TokenType> {
    if word == "and"@ {
        Some(TokenType::And)
    } else if word == "else"@ {
        Some(TokenType::Else)
    } else if word == "false"@ {
        Some(TokenType::False)
    } else if word == "NIL"@ {
        Some(TokenType::Nil)
    } else if word == "or"@ {
        Some(TokenType::Or)
    } else if word == "true"@ {
        Some(TokenType::True)
    } else if word == "select"@ {
        Some(TokenType::Select)
    } else if word == "from"@ {
        Some(TokenType::From)
    } else if word == "where"@ {
        Some(TokenType::Where)
    } else if word == "union"@ {
        Some(TokenType::Union)
    } else if word == "update"@ {
        Some(TokenType::Update)
    } else if word == "insert"@ {
        Some(TokenType::Insert)
    } else if word == "group"@ {
        Some(TokenType::Group)
    } else if word == "order"@ {
        Some(TokenType::Order)
    } else if word == "by"@ {
        Some(TokenType::By)
    } else if word == "having"@ {
        Some(TokenType::Having)
    } else if word == "sum"@ {
        Some(TokenType::Sum)
    } else if word == "max"@ {
        Some(TokenType::Max)
    } else if word == "min"@ {
        Some(TokenType::Min)
    } else if word == "delete"@ {
        Some(TokenType::Delete)
    } else if word == "commit"@ {
        Some(TokenType::Commit)
    } else if word == "describe"@ {
        Some(TokenType::Describe)
    } else {
        None
    }
}

/// The keyword that a word spells, letter for letter; `None` where it
/// spells none.
pub fn keyword(word: &str) -> (found: Option<TokenType>)
    ensures
        found == keyword_of(word@),
{
    if str_equal(word, "and") {
        Some(TokenType::And)
    } else if str_equal(word, "else") {
        Some(TokenType::Else)
    } else if str_equal(word, "false") {
        Some(TokenType::False)
    } else if str_equal(word, "NIL") {
        Some(TokenType::Nil)
    } else if str_equal(word, "or") {
        Some(TokenType::Or)
    } else if str_equal(word, "true") {
        Some(TokenType::True)
    } else if str_equal(word, "select") {
        Some(TokenType::Select)
    } else if str_equal(word, "from") {
        Some(TokenType::From)
    } else if str_equal(word, "where") {
        Some(TokenType::Where)
    } else if str_equal(word, "union") {
        Some(TokenType::Union)
    } else if str_equal(word, "update") {
        Some(TokenType::Update)
    } else if str_equal(word, "insert") {
        Some(TokenType::Insert)
    } else if str_equal(word, "group") {
        Some(TokenType::Group)
    } else if str_equal(word, "order") {
        Some(TokenType::Order)
    } else if str_equal(word, "by") {
        Some(TokenType::By)
    } else if str_equal(word, "having") {
        Some(TokenType::Having)
    } else if str_equal(word, "sum") {
        Some(TokenType::Sum)
    } else if str_equal(word, "max") {
        Some(TokenType::Max)
    } else if str_equal(word, "min") {
        Some(TokenType::Min)
    } else if str_equal(word, "delete") {
        Some(TokenType::Delete)
    } else if str_equal(word, "commit") {
        Some(TokenType::Commit)
    } else if str_equal(word, "describe") {
        Some(TokenType::Describe)
    } else {
        None
    }
}

} // verus!
