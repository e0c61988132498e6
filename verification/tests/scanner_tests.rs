use csv::sql::scanner::{parse, ScanError};
use csv::sql::tokens::{keyword, Token, TokenType};
use csv::value::{Datatype, Value};

fn kinds(sql: &str) -> Vec<TokenType> {
    parse(sql).unwrap().iter().map(|t| t.tokentype()).collect()
}

fn lexemes(sql: &str) -> Vec<String> {
    parse(sql).unwrap().iter().map(|t| t.lexeme().clone()).collect()
}

#[test]
fn test_parse() {
    let tokens = parse("select name from employee;");
    println!("{:?}", tokens);
    let tokens = tokens.unwrap();
    assert_eq!(tokens.len(), 5);
    assert_eq!(
        kinds("select name from employee;"),
        vec![
            TokenType::Select,
            TokenType::Identifier,
            TokenType::From,
            TokenType::Identifier,
            TokenType::Semicolon
        ]
    );
    assert_eq!(
        lexemes("select name from employee;"),
        vec!["select", "name", "from", "employee", ";"]
    );
    assert!(tokens.iter().all(|t| t.literal().datatype() == Datatype::Null));
}

#[test]
fn token_new_keeps_its_parts() {
    let token = Token::new(TokenType::Num, "12", Value::from_i64(12));
    assert_eq!(token.tokentype(), TokenType::Num);
    assert_eq!(token.lexeme(), "12");
    assert_eq!(token.literal().as_i64(), Some(12));
}

#[test]
fn punctuation() {
    assert_eq!(
        kinds("(),.-+;*<<=>>="),
        vec![
            TokenType::LeftParen,
            TokenType::RightParen,
            TokenType::Comma,
            TokenType::Dot,
            TokenType::Minus,
            TokenType::Plus,
            TokenType::Semicolon,
            TokenType::Star,
            TokenType::Less,
            TokenType::LessEqual,
            TokenType::Greater,
            TokenType::GreaterEqual
        ]
    );
    assert_eq!(lexemes("<= >"), vec!["<=", ">"]);
}

#[test]
fn white_space_and_comments_are_dropped() {
    assert_eq!(kinds(" \t\r\n"), vec![]);
    assert_eq!(kinds(""), vec![]);
    assert_eq!(
        kinds("select -- all of it\n*"),
        vec![TokenType::Select, TokenType::Star]
    );
    assert_eq!(kinds("a -- to the end"), vec![TokenType::Identifier]);
    assert_eq!(kinds("--"), vec![]);
    assert_eq!(kinds("a - b"), vec![
        TokenType::Identifier,
        TokenType::Minus,
        TokenType::Identifier
    ]);
}

#[test]
fn keywords_are_found_in_any_case() {
    assert_eq!(
        kinds("SELECT From wHeRe order BY"),
        vec![
            TokenType::Select,
            TokenType::From,
            TokenType::Where,
            TokenType::Order,
            TokenType::By
        ]
    );
    assert_eq!(lexemes("SELECT"), vec!["SELECT"]);
    assert_eq!(
        kinds(
            "and else false or true union update insert group having sum max min delete \
             commit describe"
        ),
        vec![
            TokenType::And,
            TokenType::Else,
            TokenType::False,
            TokenType::Or,
            TokenType::True,
            TokenType::Union,
            TokenType::Update,
            TokenType::Insert,
            TokenType::Group,
            TokenType::Having,
            TokenType::Sum,
            TokenType::Max,
            TokenType::Min,
            TokenType::Delete,
            TokenType::Commit,
            TokenType::Describe
        ]
    );
}

#[test]
fn keyword_lookup_is_letter_for_letter() {
    assert_eq!(keyword("select"), Some(TokenType::Select));
    assert_eq!(keyword("SELECT"), None);
    assert_eq!(keyword("NIL"), Some(TokenType::Nil));
    assert_eq!(keyword("nil"), None);
    assert_eq!(keyword("selec"), None);
    assert_eq!(keyword(""), None);
    assert_eq!(kinds("nil NIL"), vec![TokenType::Identifier, TokenType::Identifier]);
}

#[test]
fn words_hold_letters_digits_and_underscores() {
    assert_eq!(lexemes("_a1 b_2"), vec!["_a1", "b_2"]);
    assert_eq!(
        kinds("_a1 b_2"),
        vec![TokenType::Identifier, TokenType::Identifier]
    );
    assert_eq!(lexemes("größe"), vec!["größe"]);
    assert_eq!(kinds("selects"), vec![TokenType::Identifier]);
}

#[test]
fn numbers() {
    let tokens = parse("12 007").unwrap();
    assert_eq!(tokens[0].tokentype(), TokenType::Num);
    assert_eq!(tokens[0].lexeme(), "12");
    assert_eq!(tokens[0].literal().as_i64(), Some(12));
    assert_eq!(tokens[1].literal().as_i64(), Some(7));
    assert_eq!(lexemes("1.5"), vec!["1.", "5"]);
    assert_eq!(
        parse("1.5").unwrap()[0].literal().datatype(),
        Datatype::Text
    );
    assert_eq!(lexemes("1,5"), vec!["1,", "5"]);
    assert_eq!(lexemes("1."), vec!["1", "."]);
    assert_eq!(lexemes("1.x"), vec!["1", ".", "x"]);
    assert_eq!(lexemes("12abc"), vec!["12", "abc"]);
}

#[test]
fn strings() {
    let tokens = parse("'bob' '' '42'").unwrap();
    assert_eq!(tokens.len(), 3);
    assert_eq!(tokens[0].tokentype(), TokenType::Str);
    assert_eq!(tokens[0].lexeme(), "'bob'");
    assert_eq!(
        tokens[0].literal().to_display_string(),
        Some("bob".to_string())
    );
    assert_eq!(tokens[1].lexeme(), "''");
    assert_eq!(tokens[1].literal().datatype(), Datatype::Text);
    assert_eq!(tokens[1].literal().string_len(), Some(0));
    assert_eq!(tokens[2].literal().as_i64(), Some(42));
    assert_eq!(lexemes("'a b--c'"), vec!["'a b--c'"]);
    assert_eq!(lexemes("'é' x"), vec!["'é'", "x"]);
}

#[test]
fn an_open_string_is_refused() {
    assert_eq!(parse("'bob").unwrap_err(), ScanError::UnterminatedString);
    assert_eq!(parse("select '").unwrap_err(), ScanError::UnterminatedString);
}

#[test]
fn a_character_that_begins_nothing_is_refused() {
    assert_eq!(parse("a = b").unwrap_err(), ScanError::UnexpectedCharacter('='));
    assert_eq!(parse("!").unwrap_err(), ScanError::UnexpectedCharacter('!'));
    assert_eq!(parse("select #").unwrap_err(), ScanError::UnexpectedCharacter('#'));
    assert_eq!(parse("\"x\"").unwrap_err(), ScanError::UnexpectedCharacter('"'));
}
