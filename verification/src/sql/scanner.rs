//! The scanner: from the text of a statement to its tokens.
//!
//! White space separates tokens and is dropped, and so is a comment, which
//! runs from `--` to the end of the line. A string stands between single
//! quotes. A number is a run of digits; a dot or a comma behind it is taken
//! along where a digit follows. A word is a run of letters, digits and
//! underscores that begins with a letter or an underscore; it is a keyword
//! where its lower-case form spells one, else an identifier.
//!
//! The value of a string or a number is an integer where the text spells
//! one, else the text itself: floats are not parsed here.
use vstd::prelude::*;
use vstd::string::StrSliceExecFns;
use vstd::utf8::encode_utf8;
use crate::sql::tokens::{keyword, keyword_of, Token, TokenType, TokenView};
use crate::strings::{alphabetic, chars_of, is_alphabetic, lowercase, to_lowercase};
use crate::text::sniff;
use crate::value::{null_view, Value, ValueView, MAX_TEXT_LEN};

verus! {

/// Why a statement could not be cut into tokens.
#[derive(Debug, Clone, Copy, PartialEq, Eq, Structural)]
pub enum ScanError {
    /// No token begins with this character.
    UnexpectedCharacter(char),
    /// A string has no closing quote.
    UnterminatedString,
    /// A string or a number is longer than a value can hold.
    LiteralTooLong,
}

/// `c` is a decimal digit.
pub open spec fn digit(c: char) -> bool {
    '0' <= c <= '9'
}

/// `c` may begin a word: a letter or an underscore.
pub open spec fn alpha(c: char) -> bool {
    alphabetic(c) || c == '_'
}

/// `c` may stand in a word: a letter, an underscore or a digit.
pub open spec fn alphanumeric(c: char) -> bool {
    alpha(c) || digit(c)
}

/// The character at `at`; the NUL character beyond the end.
pub open spec fn char_at(chars: Seq<char>, at: int) -> char {
    if 0 <= at < chars.len() {
        chars[at]
    } else {
        '\0'
    }
}

/// Where the run of digits from `from` ends.
pub open spec fn digits_end(chars: Seq<char>, from: int) -> int
    decreases chars.len() - from,
{
    if 0 <= from < chars.len() && digit(chars[from]) {
        digits_end(chars, from + 1)
    } else {
        from
    }
}

/// Where the run of word characters from `from` ends.
pub open spec fn word_end(chars: Seq<char>, from: int) -> int
    decreases chars.len() - from,
{
    if 0 <= from < chars.len() && alphanumeric(chars[from]) {
        word_end(chars, from + 1)
    } else {
        from
    }
}

/// The place of the first `stop` from `from` on; the end where there is none.
pub open spec fn seek(chars: Seq<char>, from: int, stop: char) -> int
    decreases chars.len() - from,
{
    if 0 <= from < chars.len() && chars[from] != stop {
        seek(chars, from + 1, stop)
    } else {
        from
    }
}

/// Where a number that begins at `from` ends: behind its digits, and behind
/// one dot or comma where a digit follows it.
pub open spec fn number_end(chars: Seq<char>, from: int) -> int {
    let d = digits_end(chars, from);
    if (char_at(chars, d) == '.' || char_at(chars, d) == ',') && digit(char_at(chars, d + 1)) {
        d + 1
    } else {
        d
    }
}

/// What the scanner makes of the text at one place.
pub enum Step {
    /// A token of this kind, read up to `end`. A literal has its value read
    /// from the text between `from` and `to`.
    Emit { tokentype: TokenType, end: int, literal: Option<(int, int)> },
    /// Nothing: the scanner goes on at this place.
    Skip(int),
    /// The statement is refused.
    Fail(ScanError),
}

/// A token without a value, read up to `end`.
pub open spec fn plain(tokentype: TokenType, end: int) -> Step {
    Step::Emit { tokentype, end, literal: None }
}

/// What the scanner makes of the text at `pos`.
pub open spec fn step(chars: Seq<char>, pos: int) -> Step {
    let c = char_at(chars, pos);
    let next = pos + 1;
    if c == '(' {
        plain(TokenType::LeftParen, next)
    } else if c == ')' {
        plain(TokenType::RightParen, next)
    } else if c == ',' {
        plain(TokenType::Comma, next)
    } else if c == '.' {
        plain(TokenType::Dot, next)
    } else if c == '-' {
        if char_at(chars, next) == '-' {
            Step::Skip(seek(chars, next + 1, '\n'))
        } else {
            plain(TokenType::Minus, next)
        }
    } else if c == '+' {
        plain(TokenType::Plus, next)
    } else if c == ';' {
        plain(TokenType::Semicolon, next)
    } else if c == '*' {
        plain(TokenType::Star, next)
    } else if c == '<' {
        if char_at(chars, next) == '=' {
            plain(TokenType::LessEqual, next + 1)
        } else {
            plain(TokenType::Less, next)
        }
    } else if c == '>' {
        if char_at(chars, next) == '=' {
            plain(TokenType::GreaterEqual, next + 1)
        } else {
            plain(TokenType::Greater, next)
        }
    } else if c == ' ' || c == '\t' || c == '\r' || c == '\n' {
        Step::Skip(next)
    } else if c == '\'' {
        let close = seek(chars, next, '\'');
        if close >= chars.len() {
            Step::Fail(ScanError::UnterminatedString)
        } else {
            Step::Emit { tokentype: TokenType::Str, end: close + 1, literal: Some((next, close)) }
        }
    } else if digit(c) {
        let end = number_end(chars, next);
        Step::Emit { tokentype: TokenType::Num, end, literal: Some((pos, end)) }
    } else if alpha(c) {
        let end = word_end(chars, next);
        match keyword_of(lowercase(chars.subrange(pos, end))) {
            Some(tokentype) => plain(tokentype, end),
            None => plain(TokenType::Identifier, end),
        }
    } else {
        Step::Fail(ScanError::UnexpectedCharacter(c))
    }
}

/// The value of a literal with the given text.
pub open spec fn literal_value(text: Seq<char>) -> ValueView {
    sniff(encode_utf8(text), None)
}

/// The tokens of the text from `pos` on, after those in `acc`.
pub open spec fn scan(chars: Seq<char>, pos: int, acc: Seq<TokenView>) -> Result<
    Seq<TokenView>,
    ScanError,
>
    decreases chars.len() - pos,
{
    if pos < 0 || pos >= chars.len() {
        Ok(acc)
    } else {
        proof {
            lemma_step_advances(chars, pos);
        }
        match step(chars, pos) {
            Step::Fail(e) => Err(e),
            Step::Skip(next) => scan(chars, next, acc),
            Step::Emit { tokentype, end, literal } => {
                let lexeme = chars.subrange(pos, end);
                match literal {
                    None => scan(
                        chars,
                        end,
                        acc.push(TokenView { tokentype, lexeme, literal: null_view() }),
                    ),
                    Some((from, to)) => if encode_utf8(chars.subrange(from, to)).len()
                        > MAX_TEXT_LEN {
                        Err(ScanError::LiteralTooLong)
                    } else {
                        scan(
                            chars,
                            end,
                            acc.push(
                                TokenView {
                                    tokentype,
                                    lexeme,
                                    literal: literal_value(chars.subrange(from, to)),
                                },
                            ),
                        )
                    },
                }
            },
        }
    }
}

/// The tokens of a statement.
pub open spec fn tokens_of(sql: Seq<char>) -> Result<Seq<TokenView>, ScanError> {
    scan(sql, 0, Seq::empty())
}

/// A run ends at or behind its beginning, and within the text.
pub proof fn lemma_runs_end(chars: Seq<char>, from: int, stop: char)
    requires
        0 <= from <= chars.len(),
    ensures
        from <= digits_end(chars, from) <= chars.len(),
        from <= word_end(chars, from) <= chars.len(),
        from <= seek(chars, from, stop) <= chars.len(),
        from <= number_end(chars, from) <= chars.len(),
    decreases chars.len() - from,
{
    if from < chars.len() {
        lemma_runs_end(chars, from + 1, stop);
    }
}

/// Every step takes the scanner forward, and not beyond the end.
pub proof fn lemma_step_advances(chars: Seq<char>, pos: int)
    requires
        0 <= pos < chars.len(),
    ensures
        match step(chars, pos) {
            Step::Emit { tokentype, end, literal } => pos < end <= chars.len() && (
            literal matches Some((from, to)) ==> pos <= from <= to <= end),
            Step::Skip(next) => pos < next <= chars.len(),
            Step::Fail(_) => true,
        },
{
    lemma_runs_end(chars, pos + 1, '\n');
    lemma_runs_end(chars, pos + 1, '\'');
    if pos + 2 <= chars.len() {
        lemma_runs_end(chars, pos + 2, '\n');
    }
}

/// Cuts a statement into tokens. Fails with `UnexpectedCharacter` where a
/// character begins no token, with `UnterminatedString` where a string is
/// not closed, and with `LiteralTooLong` where a string or a number has more
/// bytes than a value holds.
pub fn parse(sql: &str) -> (result: Result<Vec<Token>, ScanError>)
    ensures
        match tokens_of(sql@) {
            Ok(tokens) => result is Ok && token_views(result->Ok_0@) == tokens,
            Err(e) => result == Err::<Vec<Token>, ScanError>(e),
        },
{
    let mut scanner = Scanner::new(sql);
    assert(token_views(scanner.tokens@) =~= Seq::empty());
    match scanner.scan_tokens() {
        Ok(()) => Ok(scanner.tokens),
        Err(e) => Err(e),
    }
}

/// The views of the tokens in `tokens`, in their order.
pub open spec fn token_views(tokens: Seq<Token>) -> Seq<TokenView> {
    tokens.map_values(|t: Token| t@)
}

/// The state of a scan: the text, the tokens that were read, and the place
/// that the scan has come to.
struct Scanner<'a> {
    source: &'a str,
    /// The characters of `source`.
    source_chars: Vec<char>,
    tokens: Vec<Token>,
    /// Where the token begins that is being read.
    start: usize,
    /// The character that is read next.
    current: usize,
}

impl<'a> Scanner<'a> {
    /// The characters are those of the text, and the places lie within it.
    spec fn wf(&self) -> bool {
        &&& self.source_chars@ == self.source@
        &&& self.start <= self.current <= self.source_chars@.len()
    }

    /// The characters of the text.
    spec fn chars(&self) -> Seq<char> {
        self.source_chars@
    }

    /// The scanner is as `before` but for the place it has read up to.
    spec fn moved(&self, before: &Self) -> bool {
        &&& self.source == before.source
        &&& self.source_chars == before.source_chars
        &&& self.tokens == before.tokens
        &&& self.start == before.start
    }

    /// The scanner is as `before` but for one more token.
    spec fn emitted(&self, before: &Self, token: TokenView) -> bool {
        &&& self.source == before.source
        &&& self.source_chars == before.source_chars
        &&& self.start == before.start
        &&& self.current == before.current
        &&& token_views(self.tokens@) == token_views(before.tokens@).push(token)
    }

    /// A scanner at the beginning of the text.
    fn new(sql: &'a str) -> (scanner: Self)
        ensures
            scanner.wf(),
            scanner.chars() == sql@,
            scanner.start == 0,
            scanner.current == 0,
            scanner.tokens@.len() == 0,
    {
        Scanner {
            source: sql,
            source_chars: chars_of(sql),
            tokens: Vec::new(),
            start: 0,
            current: 0,
        }
    }

    /// Reads tokens up to the end of the text.
    fn scan_tokens(&mut self) -> (result: Result<(), ScanError>)
        requires
            old(self).wf(),
        ensures
            final(self).source == old(self).source,
            match scan(
                old(self).chars(),
                old(self).current as int,
                token_views(old(self).tokens@),
            ) {
                Ok(tokens) => result is Ok && token_views(final(self).tokens@) == tokens,
                Err(e) => result == Err::<(), ScanError>(e),
            },
    {
        self.start = self.current;
        while !self.is_at_end()
            invariant
                self.wf(),
                self.source == old(self).source,
                self.chars() == old(self).chars(),
                scan(old(self).chars(), old(self).current as int, token_views(old(self).tokens@))
                    == scan(self.chars(), self.current as int, token_views(self.tokens@)),
            decreases self.chars().len() - self.current,
        {
            self.start = self.current;
            proof {
                lemma_step_advances(self.chars(), self.current as int);
            }
            match self.scan_token() {
                Ok(()) => {},
                Err(e) => {
                    return Err(e);
                },
            }
        }
        Ok(())
    }

    /// Reads what begins at the current place: a token, white space or a
    /// comment.
    fn scan_token(&mut self) -> (result: Result<(), ScanError>)
        requires
            old(self).wf(),
            old(self).start == old(self).current,
            old(self).current < old(self).chars().len(),
        ensures
            final(self).wf(),
            final(self).source == old(self).source,
            final(self).chars() == old(self).chars(),
            match result {
                Ok(()) => scan(
                    old(self).chars(),
                    old(self).current as int,
                    token_views(old(self).tokens@),
                ) == scan(
                    final(self).chars(),
                    final(self).current as int,
                    token_views(final(self).tokens@),
                )
                    && final(self).current > old(self).current,
                Err(e) => scan(
                    old(self).chars(),
                    old(self).current as int,
                    token_views(old(self).tokens@),
                ) == Err::<Seq<TokenView>, ScanError>(e),
            },
    {
        proof {
            lemma_step_advances(self.chars(), self.current as int);
        }
        let c = self.advance();
        if c == '(' {
            self.add_token(TokenType::LeftParen);
        } else if c == ')' {
            self.add_token(TokenType::RightParen);
        } else if c == ',' {
            self.add_token(TokenType::Comma);
        } else if c == '.' {
            self.add_token(TokenType::Dot);
        } else if c == '-' {
            if self.match_token('-') {
                while self.peek() != '\n' && !self.is_at_end()
                    invariant
                        self.wf(),
                        self.moved(old(self)),
                        self.current >= old(self).current + 2,
                        seek(self.chars(), old(self).current + 2, '\n') == seek(
                            self.chars(),
                            self.current as int,
                            '\n',
                        ),
                    decreases self.chars().len() - self.current,
                {
                    self.advance();
                }
            } else {
                self.add_token(TokenType::Minus);
            }
        } else if c == '+' {
            self.add_token(TokenType::Plus);
        } else if c == ';' {
            self.add_token(TokenType::Semicolon);
        } else if c == '*' {
            self.add_token(TokenType::Star);
        } else if c == '<' {
            let token = if self.match_token('=') {
                TokenType::LessEqual
            } else {
                TokenType::Less
            };
            self.add_token(token);
        } else if c == '>' {
            let token = if self.match_token('=') {
                TokenType::GreaterEqual
            } else {
                TokenType::Greater
            };
            self.add_token(token);
        } else if c == ' ' || c == '\t' || c == '\r' || c == '\n' {
        } else if c == '\'' {
            return self.string();
        } else if is_digit(c) {
            return self.number();
        } else if is_alpha(c) {
            self.identifier();
        } else {
            return Err(ScanError::UnexpectedCharacter(c));
        }
        Ok(())
    }

    /// Reads the rest of a word, and adds it as a keyword or an identifier.
    fn identifier(&mut self)
        requires
            old(self).wf(),
            old(self).current == old(self).start + 1,
        ensures
            final(self).wf(),
            final(self).current == word_end(old(self).chars(), old(self).current as int),
            final(self).source == old(self).source,
            final(self).source_chars == old(self).source_chars,
            final(self).start == old(self).start,
            token_views(final(self).tokens@) == token_views(old(self).tokens@).push(
                TokenView {
                    tokentype: match keyword_of(
                        lowercase(
                            old(self).chars().subrange(
                                old(self).start as int,
                                word_end(old(self).chars(), old(self).current as int),
                            ),
                        ),
                    ) {
                        Some(tokentype) => tokentype,
                        None => TokenType::Identifier,
                    },
                    lexeme: old(self).chars().subrange(
                        old(self).start as int,
                        word_end(old(self).chars(), old(self).current as int),
                    ),
                    literal: null_view(),
                },
            ),
    {
        while !self.is_at_end() && is_alphanumeric(self.peek())
            invariant
                self.wf(),
                self.moved(old(self)),
                self.current >= old(self).current,
                word_end(self.chars(), old(self).current as int) == word_end(
                    self.chars(),
                    self.current as int,
                ),
            decreases self.chars().len() - self.current,
        {
            self.advance();
        }
        let text = self.source.substring_char(self.start, self.current);
        let lower = to_lowercase(text);
        let tokentype = match keyword(lower.as_str()) {
            Some(tokentype) => tokentype,
            None => TokenType::Identifier,
        };
        self.add_token(tokentype);
    }

    /// Reads the rest of a number, and adds it with its value.
    fn number(&mut self) -> (result: Result<(), ScanError>)
        requires
            old(self).wf(),
            old(self).current == old(self).start + 1,
        ensures
            final(self).wf(),
            final(self).source == old(self).source,
            final(self).source_chars == old(self).source_chars,
            final(self).start == old(self).start,
            final(self).current == number_end(old(self).chars(), old(self).current as int),
            ({
                let end = number_end(old(self).chars(), old(self).current as int);
                let text = old(self).chars().subrange(old(self).start as int, end);
                if encode_utf8(text).len() > MAX_TEXT_LEN {
                    result == Err::<(), ScanError>(ScanError::LiteralTooLong)
                } else {
                    result is Ok && token_views(final(self).tokens@) == token_views(
                        old(self).tokens@,
                    ).push(
                        TokenView {
                            tokentype: TokenType::Num,
                            lexeme: text,
                            literal: literal_value(text),
                        },
                    )
                }
            }),
    {
        while !self.is_at_end() && is_digit(self.peek())
            invariant
                self.wf(),
                self.moved(old(self)),
                self.current >= old(self).current,
                digits_end(self.chars(), old(self).current as int) == digits_end(
                    self.chars(),
                    self.current as int,
                ),
            decreases self.chars().len() - self.current,
        {
            self.advance();
        }
        if (self.peek() == '.' || self.peek() == ',') && is_digit(self.peek_next()) {
            self.advance();
        }
        let text = self.source.substring_char(self.start, self.current);
        if text.as_bytes().len() as u64 > MAX_TEXT_LEN {
            return Err(ScanError::LiteralTooLong);
        }
        let literal = Value::from_text(text, None);
        self.add_literal(TokenType::Num, literal);
        Ok(())
    }

    /// Reads a string up to its closing quote, and adds it with the value
    /// of what stands between the quotes.
    fn string(&mut self) -> (result: Result<(), ScanError>)
        requires
            old(self).wf(),
            old(self).current == old(self).start + 1,
        ensures
            final(self).wf(),
            final(self).source == old(self).source,
            final(self).source_chars == old(self).source_chars,
            final(self).start == old(self).start,
            ({
                let close = seek(old(self).chars(), old(self).current as int, '\'');
                let text = old(self).chars().subrange(old(self).current as int, close);
                if close >= old(self).chars().len() {
                    result == Err::<(), ScanError>(ScanError::UnterminatedString)
                } else if encode_utf8(text).len() > MAX_TEXT_LEN {
                    result == Err::<(), ScanError>(ScanError::LiteralTooLong)
                } else {
                    result is Ok && final(self).current == close + 1 && token_views(
                        final(self).tokens@,
                    ) == token_views(old(self).tokens@).push(
                        TokenView {
                            tokentype: TokenType::Str,
                            lexeme: old(self).chars().subrange(old(self).start as int, close + 1),
                            literal: literal_value(text),
                        },
                    )
                }
            }),
    {
        while self.peek() != '\'' && !self.is_at_end()
            invariant
                self.wf(),
                self.moved(old(self)),
                self.current >= old(self).current,
                seek(self.chars(), old(self).current as int, '\'') == seek(
                    self.chars(),
                    self.current as int,
                    '\'',
                ),
            decreases self.chars().len() - self.current,
        {
            self.advance();
        }
        if self.is_at_end() {
            return Err(ScanError::UnterminatedString);
        }
        self.advance();
        let text = self.source.substring_char(self.start + 1, self.current - 1);
        if text.as_bytes().len() as u64 > MAX_TEXT_LEN {
            return Err(ScanError::LiteralTooLong);
        }
        let literal = Value::from_text(text, None);
        self.add_literal(TokenType::Str, literal);
        Ok(())
    }

    /// The character that is read next; NUL at the end.
    fn peek(&self) -> (c: char)
        requires
            self.wf(),
        ensures
            c == char_at(self.chars(), self.current as int),
    {
        if self.is_at_end() {
            '\0'
        } else {
            self.source_chars[self.current]
        }
    }

    /// The character behind the one that is read next; NUL at the end.
    fn peek_next(&self) -> (c: char)
        requires
            self.wf(),
        ensures
            c == char_at(self.chars(), self.current + 1),
    {
        let len = self.source_chars.len();
        if self.current >= len || self.current + 1 >= len {
            '\0'
        } else {
            self.source_chars[self.current + 1]
        }
    }

    /// Adds a token without a value, with the text that was read for it.
    fn add_token(&mut self, tokentype: TokenType)
        requires
            old(self).wf(),
        ensures
            final(self).wf(),
            final(self).emitted(
                old(self),
                TokenView {
                    tokentype,
                    lexeme: old(self).chars().subrange(
                        old(self).start as int,
                        old(self).current as int,
                    ),
                    literal: null_view(),
                },
            ),
    {
        self.add_literal(tokentype, Value::null());
    }

    /// Adds a token with a value, with the text that was read for it.
    fn add_literal(&mut self, tokentype: TokenType, literal: Value)
        requires
            old(self).wf(),
        ensures
            final(self).wf(),
            final(self).emitted(
                old(self),
                TokenView {
                    tokentype,
                    lexeme: old(self).chars().subrange(
                        old(self).start as int,
                        old(self).current as int,
                    ),
                    literal: literal@,
                },
            ),
    {
        let text = self.source.substring_char(self.start, self.current);
        let token = Token::new(tokentype, text, literal);
        proof {
            assert(token_views(self.tokens@.push(token)) =~= token_views(self.tokens@).push(
                token@,
            ));
        }
        self.tokens.push(token);
    }

    /// Reads one character.
    fn advance(&mut self) -> (c: char)
        requires
            old(self).wf(),
            old(self).current < old(self).chars().len(),
        ensures
            final(self).wf(),
            final(self).moved(old(self)),
            final(self).current == old(self).current + 1,
            c == old(self).chars()[old(self).current as int],
    {
        let len = self.source_chars.len();
        let c = self.source_chars[self.current];
        self.current = self.current + 1;
        c
    }

    /// Reads one character where it is the expected one.
    fn match_token(&mut self, expected: char) -> (matched: bool)
        requires
            old(self).wf(),
        ensures
            final(self).wf(),
            final(self).moved(old(self)),
            matched == (old(self).current < old(self).chars().len() && char_at(
                old(self).chars(),
                old(self).current as int,
            ) == expected),
            final(self).current == if matched {
                old(self).current + 1
            } else {
                old(self).current as int
            },
    {
        let len = self.source_chars.len();
        if self.current >= len || self.source_chars[self.current] != expected {
            false
        } else {
            self.current = self.current + 1;
            true
        }
    }

    /// Whether the whole text was read.
    fn is_at_end(&self) -> (at_end: bool)
        ensures
            at_end == (self.current >= self.source_chars@.len()),
    {
        self.current >= self.source_chars.len()
    }
}

/// Whether `c` is a decimal digit.
fn is_digit(c: char) -> (yes: bool)
    ensures
        yes == digit(c),
{
    '0' <= c && c <= '9'
}

/// Whether `c` may begin a word.
fn is_alpha(c: char) -> (yes: bool)
    ensures
        yes == alpha(c),
{
    is_alphabetic(c) || c == '_'
}

/// Whether `c` may stand in a word.
fn is_alphanumeric(c: char) -> (yes: bool)
    ensures
        yes == alphanumeric(c),
{
    is_alpha(c) || is_digit(c)
}

} // verus!
