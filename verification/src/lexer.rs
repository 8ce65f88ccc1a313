//! Tokenizer: turns source text into a sequence of classified tokens.
//!
//! The text is scanned left to right, one character at a time. What the
//! scan yields is defined in the lexicon, over the text and a table that
//! tells of each character whether it may continue a word;
//! [`Lexer::tokenize`] computes it. The table of a lexer made by
//! [`Lexer::new`] is the one that Unicode gives.

use crate::lexicon::{
    alphanumeric, digit_run, ends_with_single_eof, eof_token, is_digit, is_letter,
    lemma_lex_ends_with_single_eof, lemma_lexeme_within, lemma_prepend_push, lex, lex_with,
    lexeme_at, lexeme_len, prepend, word_run, word_table,
};
use crate::text::{char_to_string, chars_of, text_equals};
use vstd::prelude::*;

verus! {

/// The class of a token.
#[derive(Debug, Clone, Copy, PartialEq, Eq, Structural)]
pub enum TokenType {
    Keyword,
    Identifier,
    Number,
    Operator,
    Delimiter,
    EOF,
}

/// A classified piece of the source text. `value` is the matched text, and
/// is empty for the end-of-input marker.
#[derive(Debug, PartialEq, Eq)]
pub struct Token {
    pub token_type: TokenType,
    pub value: String,
}

/// What a [`Token`] stands for in contracts.
pub ghost struct TokenView {
    pub kind: TokenType,
    pub text: Seq<char>,
}

impl View for Token {
    type V = TokenView;

    open spec fn view(&self) -> TokenView {
        TokenView { kind: self.token_type, text: self.value@ }
    }
}

/// The views of a sequence of tokens, in order.
pub open spec fn tokens_view(tokens: Seq<Token>) -> Seq<TokenView> {
    Seq::new(tokens.len(), |i: int| tokens[i]@)
}

/// A character that starts no token and is not skipped.
#[derive(Debug, Clone, Copy, PartialEq, Eq, Structural)]
pub struct LexError {
    /// The offending character.
    pub character: char,
    /// Its zero-based index in the text, counted in characters.
    pub position: usize,
}

/// `char::is_alphanumeric`: a lookup in the Unicode tables, known to the
/// contracts only by the name [`alphanumeric`].
#[verifier::external_body]
fn is_alphanumeric(c: char) -> (b: bool)
    ensures
        b == alphanumeric(c),
{
    c.is_alphanumeric()
}

/// Tells whether `c` is an ASCII decimal digit.
pub fn char_is_digit(c: char) -> (b: bool)
    ensures
        b == is_digit(c),
{
    '0' <= c && c <= '9'
}

/// Tells whether `c` is an ASCII letter.
pub fn char_is_letter(c: char) -> (b: bool)
    ensures
        b == is_letter(c),
{
    ('a' <= c && c <= 'z') || ('A' <= c && c <= 'Z')
}

/// A scanner over one source text, with a cursor that counts characters.
pub struct Lexer<'a> {
    input: &'a str,
    chars: Vec<char>,
    word: Vec<bool>,
    position: usize,
}

impl<'a> Lexer<'a> {
    #[verifier::type_invariant]
    spec fn well_formed(&self) -> bool {
        &&& self.chars@ == self.input@
        &&& self.word.len() == self.chars.len()
        &&& self.position <= self.chars.len()
    }

    /// The text that this lexer scans.
    pub closed spec fn source(&self) -> Seq<char> {
        self.input@
    }

    /// For each character of the text, whether it may continue a word.
    pub closed spec fn table(&self) -> Seq<bool> {
        self.word@
    }

    /// Index of the next character to be read.
    pub closed spec fn cursor(&self) -> int {
        self.position as int
    }

    /// A lexer at the start of `input`, with words as Unicode delimits
    /// them.
    pub fn new(input: &'a str) -> (lexer: Self)
        ensures
            lexer.source() == input@,
            lexer.table() == word_table(input@),
            lexer.cursor() == 0,
    {
        let chars = chars_of(input);
        let mut word: Vec<bool> = Vec::new();
        let mut i: usize = 0;
        while i < chars.len()
            invariant
                i <= chars.len(),
                word@ == word_table(chars@).take(i as int),
            decreases chars.len() - i,
        {
            word.push(is_alphanumeric(chars[i]));
            i = i + 1;
            assert(word@ =~= word_table(chars@).take(i as int));
        }
        assert(word@ =~= word_table(chars@));
        Lexer { input, chars, word, position: 0 }
    }

    /// A lexer at the start of `input` that takes from `word` which
    /// characters may continue a word: one entry for each character. None
    /// where the two differ in length.
    pub fn with_table(input: &'a str, word: Vec<bool>) -> (lexer: Option<Self>)
        ensures
            lexer is Some <==> word.len() == input@.len(),
            match lexer {
                Some(lexer) => {
                    &&& lexer.source() == input@
                    &&& lexer.table() == word@
                    &&& lexer.cursor() == 0
                },
                None => true,
            },
    {
        let chars = chars_of(input);
        if word.len() == chars.len() {
            Some(Lexer { input, chars, word, position: 0 })
        } else {
            None
        }
    }

    /// The text that this lexer scans.
    pub fn input(&self) -> (input: &'a str)
        ensures
            input@ == self.source(),
    {
        self.input
    }

    /// Index of the next character to be read, counted in characters.
    pub fn position(&self) -> (position: usize)
        ensures
            position == self.cursor(),
    {
        self.position
    }

    /// The character under the cursor, if the text has not ended.
    fn next_char(&self) -> (c: Option<char>)
        ensures
            c == if self.position < self.chars.len() {
                Some(self.chars@[self.position as int])
            } else {
                None
            },
    {
        if self.position < self.chars.len() {
            Some(self.chars[self.position])
        } else {
            None
        }
    }

    /// Moves the cursor over one character; at the end of the text it stays.
    fn consume_char(&mut self)
        ensures
            final(self).input == old(self).input,
            final(self).chars == old(self).chars,
            final(self).word == old(self).word,
            final(self).position == if old(self).position < old(self).chars.len() {
                old(self).position + 1
            } else {
                old(self).position as int
            },
    {
        proof {
            use_type_invariant(&*self);
        }
        if self.position < self.chars.len() {
            self.position = self.position + 1;
        }
    }

    /// Scans the maximal run of digits under the cursor into a `Number`
    /// token.
    fn tokenize_number(&mut self) -> (token: Token)
        ensures
            final(self).input == old(self).input,
            final(self).chars == old(self).chars,
            final(self).word == old(self).word,
            final(self).position == old(self).position + digit_run(
                old(self).chars@,
                old(self).position as int,
            ),
            token@ == (TokenView {
                kind: TokenType::Number,
                text: old(self).chars@.subrange(
                    old(self).position as int,
                    final(self).position as int,
                ),
            }),
    {
        proof {
            use_type_invariant(&*self);
        }
        let start: usize = self.position;
        let mut value = String::new();
        loop
            invariant
                self.input == old(self).input,
                self.chars == old(self).chars,
                self.word == old(self).word,
                start == old(self).position,
                start <= self.position <= self.chars.len(),
                value@ == self.chars@.subrange(start as int, self.position as int),
                (self.position - start) + digit_run(self.chars@, self.position as int)
                    == digit_run(self.chars@, start as int),
            decreases self.chars.len() - self.position,
        {
            match self.next_char() {
                Some(c) => {
                    if !char_is_digit(c) {
                        return Token { token_type: TokenType::Number, value };
                    }
                    value.push(c);
                    self.consume_char();
                },
                None => {
                    return Token { token_type: TokenType::Number, value };
                },
            }
        }
    }

    /// Scans the word under the cursor, a letter and the word characters
    /// that follow it, into a `Keyword` or `Identifier` token.
    fn tokenize_identifier(&mut self) -> (token: Token)
        requires
            old(self).position < old(self).chars.len(),
            is_letter(old(self).chars@[old(self).position as int]),
        ensures
            final(self).input == old(self).input,
            final(self).chars == old(self).chars,
            final(self).word == old(self).word,
            final(self).position == old(self).position + lexeme_len(
                old(self).chars@,
                old(self).word@,
                old(self).position as int,
            ),
            token@ == lexeme_at(old(self).chars@, old(self).word@, old(self).position as int),
    {
        proof {
            use_type_invariant(&*self);
        }
        let start: usize = self.position;
        let mut value = String::new();
        value.push(self.chars[self.position]);
        self.consume_char();
        loop
            invariant
                self.input == old(self).input,
                self.chars == old(self).chars,
                self.word == old(self).word,
                self.word.len() == self.chars.len(),
                start == old(self).position,
                start < self.position <= self.chars.len(),
                value@ == self.chars@.subrange(start as int, self.position as int),
                (self.position - start - 1) + word_run(
                    self.chars@,
                    self.word@,
                    self.position as int,
                ) == word_run(self.chars@, self.word@, start + 1),
            ensures
                word_run(self.chars@, self.word@, self.position as int) == 0,
            decreases self.chars.len() - self.position,
        {
            match self.next_char() {
                Some(c) => {
                    if !self.word[self.position] {
                        break ;
                    }
                    value.push(c);
                    self.consume_char();
                },
                None => {
                    break ;
                },
            }
        }
        if text_equals(&value, "function") || text_equals(&value, "if") {
            Token { token_type: TokenType::Keyword, value }
        } else {
            Token { token_type: TokenType::Identifier, value }
        }
    }

    /// Takes the arithmetic sign `c` under the cursor as an `Operator` token.
    fn tokenize_operator(&mut self, c: char) -> (token: Token)
        requires
            old(self).position < old(self).chars.len(),
        ensures
            final(self).input == old(self).input,
            final(self).chars == old(self).chars,
            final(self).word == old(self).word,
            final(self).position == old(self).position + 1,
            token@ == (TokenView { kind: TokenType::Operator, text: seq![c] }),
    {
        self.consume_char();
        Token { token_type: TokenType::Operator, value: char_to_string(c) }
    }

    /// Takes the punctuation mark `c` under the cursor as a `Delimiter`
    /// token.
    fn tokenize_delimiter(&mut self, c: char) -> (token: Token)
        requires
            old(self).position < old(self).chars.len(),
        ensures
            final(self).input == old(self).input,
            final(self).chars == old(self).chars,
            final(self).word == old(self).word,
            final(self).position == old(self).position + 1,
            token@ == (TokenView { kind: TokenType::Delimiter, text: seq![c] }),
    {
        self.consume_char();
        Token { token_type: TokenType::Delimiter, value: char_to_string(c) }
    }

    /// Scans the text from the cursor to its end. Returns the tokens in
    /// source order, closed by one end-of-input marker, and leaves the
    /// cursor at the end of the text; or stops at the first character that
    /// starts no token, with the cursor on it.
    pub fn tokenize(&mut self) -> (result: Result<Vec<Token>, LexError>)
        ensures
            final(self).source() == old(self).source(),
            final(self).table() == old(self).table(),
            lex_with(old(self).source(), old(self).table(), old(self).cursor()) == (match result {
                Ok(tokens) => Ok(tokens_view(tokens@)),
                Err(e) => Err(e),
            }),
            match result {
                Ok(tokens) => {
                    &&& final(self).cursor() == old(self).source().len()
                    &&& ends_with_single_eof(tokens_view(tokens@))
                },
                Err(e) => {
                    &&& final(self).cursor() == e.position
                    &&& old(self).cursor() <= e.position < old(self).source().len()
                    &&& e.character == old(self).source()[e.position as int]
                },
            },
    {
        proof {
            use_type_invariant(&*self);
        }
        let ghost s = self.chars@;
        let ghost word = self.word@;
        let ghost start = self.position as int;
        let mut tokens: Vec<Token> = Vec::new();
        proof {
            assert(tokens_view(tokens@) =~= Seq::<TokenView>::empty());
            match lex_with(s, word, start) {
                Ok(rest) => {
                    assert(Seq::<TokenView>::empty() + rest =~= rest);
                },
                Err(_) => {},
            }
        }
        loop
            invariant
                self.input == old(self).input,
                self.chars == old(self).chars,
                self.word == old(self).word,
                self.chars@ == self.input@,
                self.word.len() == self.chars.len(),
                s == self.chars@,
                word == self.word@,
                start == old(self).position,
                start <= self.position <= self.chars.len(),
                lex_with(s, word, start) == prepend(
                    tokens_view(tokens@),
                    lex_with(s, word, self.position as int),
                ),
            decreases self.chars.len() - self.position,
        {
            let ghost here = self.position as int;
            let ghost before = tokens_view(tokens@);
            let c = match self.next_char() {
                Some(c) => c,
                None => {
                    tokens.push(Token { token_type: TokenType::EOF, value: String::new() });
                    proof {
                        assert(tokens_view(tokens@) =~= before + seq![eof_token()]);
                        lemma_lex_ends_with_single_eof(s, word, start);
                    }
                    return Ok(tokens);
                },
            };
            if c == ' ' || c == '\t' || c == '\n' {
                self.consume_char();
            } else {
                let token = if char_is_digit(c) {
                    self.tokenize_number()
                } else if char_is_letter(c) {
                    self.tokenize_identifier()
                } else if c == '+' || c == '-' || c == '*' || c == '/' {
                    self.tokenize_operator(c)
                } else if c == '(' || c == ')' || c == '{' || c == '}' || c == ',' || c == ';' {
                    self.tokenize_delimiter(c)
                } else {
                    assert(lexeme_len(s, word, here) == 0);
                    return Err(LexError { character: c, position: self.position });
                };
                proof {
                    lemma_lexeme_within(s, word, here);
                    assert(self.position == here + lexeme_len(s, word, here));
                    assert(seq![c] =~= s.subrange(here, here + 1));
                    assert(token@ == lexeme_at(s, word, here));
                    lemma_prepend_push(
                        before,
                        lexeme_at(s, word, here),
                        lex_with(s, word, self.position as int),
                    );
                }
                tokens.push(token);
                assert(tokens_view(tokens@) =~= before.push(lexeme_at(s, word, here)));
            }
        }
    }
}

/// Scans the whole of `source`, with words as Unicode delimits them: the
/// tokens in source order, closed by one end-of-input marker, or the first
/// character that starts no token.
pub fn tokenize(source: &str) -> (result: Result<Vec<Token>, LexError>)
    ensures
        lex(source@) == (match result {
            Ok(tokens) => Ok(tokens_view(tokens@)),
            Err(e) => Err(e),
        }),
        match result {
            Ok(tokens) => ends_with_single_eof(tokens_view(tokens@)),
            Err(e) => e.position < source@.len() && e.character == source@[e.position as int],
        },
{
    let mut lexer = Lexer::new(source);
    lexer.tokenize()
}

} // verus!
