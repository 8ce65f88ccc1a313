//! The lexicon: what a text stands for as a sequence of tokens.
//!
//! The text is read left to right. Blanks are skipped; a digit starts a
//! number, a letter a word, a sign an operator, a bracket, brace, comma or
//! semicolon a delimiter; any other character is a fault. How far a word
//! reaches is read from a table with one entry for each character of the
//! text, so that the rules can be held against any table.

use crate::lexer::{LexError, TokenType, TokenView};
use vstd::prelude::*;

verus! {

/// Outcome of a scan: the tokens, or the first fault.
pub type Lexed = Result<Seq<TokenView>, LexError>;

/// Space, tab or newline: skipped between tokens.
pub open spec fn is_blank(c: char) -> bool {
    c == ' ' || c == '\t' || c == '\n'
}

/// An ASCII decimal digit.
pub open spec fn is_digit(c: char) -> bool {
    '0' <= c && c <= '9'
}

/// An ASCII letter.
pub open spec fn is_letter(c: char) -> bool {
    ('a' <= c && c <= 'z') || ('A' <= c && c <= 'Z')
}

/// One of the four arithmetic signs.
pub open spec fn is_operator(c: char) -> bool {
    c == '+' || c == '-' || c == '*' || c == '/'
}

/// A bracket, brace, comma or semicolon.
pub open spec fn is_delimiter(c: char) -> bool {
    c == '(' || c == ')' || c == '{' || c == '}' || c == ',' || c == ';'
}

/// One of the two reserved words.
pub open spec fn is_keyword(text: Seq<char>) -> bool {
    text == "function"@ || text == "if"@
}

/// Whether `char::is_alphanumeric` holds of `c`: the Unicode property that
/// decides how far a word reaches.
pub uninterp spec fn alphanumeric(c: char) -> bool;

/// The table that Unicode gives for the text `s`: at each index, whether
/// the character there is alphanumeric.
pub open spec fn word_table(s: Seq<char>) -> Seq<bool> {
    Seq::new(s.len(), |k: int| alphanumeric(s[k]))
}

/// Number of consecutive ASCII digits in `s` from index `i` on.
pub open spec fn digit_run(s: Seq<char>, i: int) -> nat
    decreases s.len() - i,
{
    if 0 <= i < s.len() && is_digit(s[i]) {
        1 + digit_run(s, i + 1)
    } else {
        0
    }
}

/// Number of consecutive characters of `s` from index `i` on that `word`
/// marks as word characters.
pub open spec fn word_run(s: Seq<char>, word: Seq<bool>, i: int) -> nat
    decreases s.len() - i,
{
    if 0 <= i < s.len() && i < word.len() && word[i] {
        1 + word_run(s, word, i + 1)
    } else {
        0
    }
}

/// A run of digits ends within the text.
pub proof fn lemma_digit_run_within(s: Seq<char>, i: int)
    requires
        0 <= i <= s.len(),
    ensures
        i + digit_run(s, i) <= s.len(),
    decreases s.len() - i,
{
    if i < s.len() && is_digit(s[i]) {
        lemma_digit_run_within(s, i + 1);
    }
}

/// A run of word characters ends within the text.
pub proof fn lemma_word_run_within(s: Seq<char>, word: Seq<bool>, i: int)
    requires
        0 <= i <= s.len(),
    ensures
        i + word_run(s, word, i) <= s.len(),
    decreases s.len() - i,
{
    if i < s.len() && i < word.len() && word[i] {
        lemma_word_run_within(s, word, i + 1);
    }
}

/// Length of the token that starts at index `i` of `s`, or 0 where the
/// character there starts none. A number is a maximal run of digits; a word
/// is a letter and the maximal run of word characters after it; an operator
/// or a delimiter is one character.
pub open spec fn lexeme_len(s: Seq<char>, word: Seq<bool>, i: int) -> nat
    recommends
        0 <= i < s.len(),
{
    let c = s[i];
    if is_digit(c) {
        digit_run(s, i)
    } else if is_letter(c) {
        1 + word_run(s, word, i + 1)
    } else if is_operator(c) || is_delimiter(c) {
        1
    } else {
        0
    }
}

/// A token ends within the text.
pub proof fn lemma_lexeme_within(s: Seq<char>, word: Seq<bool>, i: int)
    requires
        0 <= i < s.len(),
    ensures
        i + lexeme_len(s, word, i) <= s.len(),
{
    lemma_digit_run_within(s, i);
    lemma_word_run_within(s, word, i + 1);
}

/// Class of the token that starts with `c` and has the text `text`.
pub open spec fn lexeme_kind(c: char, text: Seq<char>) -> TokenType {
    if is_digit(c) {
        TokenType::Number
    } else if is_letter(c) {
        if is_keyword(text) {
            TokenType::Keyword
        } else {
            TokenType::Identifier
        }
    } else if is_operator(c) {
        TokenType::Operator
    } else {
        TokenType::Delimiter
    }
}

/// The token that starts at index `i` of `s`, where one does.
pub open spec fn lexeme_at(s: Seq<char>, word: Seq<bool>, i: int) -> TokenView
    recommends
        0 <= i < s.len(),
        lexeme_len(s, word, i) > 0,
{
    let text = s.subrange(i, i + lexeme_len(s, word, i));
    TokenView { kind: lexeme_kind(s[i], text), text }
}

/// The end-of-input marker.
pub open spec fn eof_token() -> TokenView {
    TokenView { kind: TokenType::EOF, text: Seq::empty() }
}

/// Puts `first` in front of the tokens of a successful scan.
pub open spec fn prepend(first: Seq<TokenView>, rest: Lexed) -> Lexed {
    match rest {
        Ok(tokens) => Ok(first + tokens),
        Err(e) => Err(e),
    }
}

/// The tokens of `s` from index `i` on, closed by the end-of-input marker,
/// or the first character from there on that starts no token. `word[k]`
/// tells whether `s[k]` may continue a word.
pub open spec fn lex_with(s: Seq<char>, word: Seq<bool>, i: int) -> Lexed
    decreases s.len() - i,
{
    if i < 0 || i >= s.len() {
        Ok(seq![eof_token()])
    } else if is_blank(s[i]) {
        lex_with(s, word, i + 1)
    } else if lexeme_len(s, word, i) == 0 {
        Err(LexError { character: s[i], position: i as usize })
    } else {
        proof {
            lemma_lexeme_within(s, word, i);
        }
        prepend(seq![lexeme_at(s, word, i)], lex_with(s, word, i + lexeme_len(s, word, i)))
    }
}

/// The tokens of the whole text `s`, with words as Unicode delimits them.
pub open spec fn lex(s: Seq<char>) -> Lexed {
    lex_with(s, word_table(s), 0)
}

/// A token sequence is closed: it is not empty, its last token is the
/// end-of-input marker, and no token before the last is one.
pub open spec fn ends_with_single_eof(tokens: Seq<TokenView>) -> bool {
    &&& tokens.len() > 0
    &&& tokens.last() == eof_token()
    &&& forall|k: int| 0 <= k < tokens.len() - 1 ==> (#[trigger] tokens[k]).kind != TokenType::EOF
}

/// Every successful scan yields a closed token sequence.
pub proof fn lemma_lex_ends_with_single_eof(s: Seq<char>, word: Seq<bool>, i: int)
    ensures
        match lex_with(s, word, i) {
            Ok(tokens) => ends_with_single_eof(tokens),
            Err(_) => true,
        },
    decreases s.len() - i,
{
    if i < 0 || i >= s.len() {
    } else if is_blank(s[i]) {
        lemma_lex_ends_with_single_eof(s, word, i + 1);
    } else if lexeme_len(s, word, i) == 0 {
    } else {
        lemma_lexeme_within(s, word, i);
        let next = i + lexeme_len(s, word, i);
        lemma_lex_ends_with_single_eof(s, word, next);
        match lex_with(s, word, next) {
            Ok(rest) => {
                let tokens = seq![lexeme_at(s, word, i)] + rest;
                assert(tokens.last() == rest.last());
                assert forall|k: int| 0 <= k < tokens.len() - 1 implies (#[trigger] tokens[k]).kind
                    != TokenType::EOF by {
                    if k > 0 {
                        assert(tokens[k] == rest[k - 1]);
                    }
                }
            },
            Err(_) => {},
        }
    }
}

/// Where every character from `i` on is a digit, the run of digits at `i`
/// reaches the end of the text.
pub proof fn lemma_digit_run_to_end(s: Seq<char>, i: int)
    requires
        0 <= i <= s.len(),
        forall|k: int| i <= k < s.len() ==> is_digit(#[trigger] s[k]),
    ensures
        digit_run(s, i) == s.len() - i,
    decreases s.len() - i,
{
    if i < s.len() {
        lemma_digit_run_to_end(s, i + 1);
    }
}

/// A text that is nothing but ASCII digits, and at least one, is scanned as
/// one `Number` token that holds the whole text, and the end-of-input
/// marker, whatever the table says.
pub proof fn lemma_digits_lex_as_one_number(s: Seq<char>, word: Seq<bool>)
    requires
        s.len() > 0,
        forall|k: int| 0 <= k < s.len() ==> is_digit(#[trigger] s[k]),
    ensures
        lex_with(s, word, 0) == Ok::<Seq<TokenView>, LexError>(
            seq![TokenView { kind: TokenType::Number, text: s }, eof_token()],
        ),
{
    lemma_digit_run_to_end(s, 0);
    assert(is_digit(s[0]));
    assert(s.subrange(0, s.len() as int) =~= s);
    assert(lex_with(s, word, s.len() as int) == Ok::<Seq<TokenView>, LexError>(
        seq![eof_token()],
    ));
    assert(seq![lexeme_at(s, word, 0)] + seq![eof_token()] =~= seq![
        TokenView { kind: TokenType::Number, text: s },
        eof_token(),
    ]);
}

/// Two scans end alike: in the same tokens, or on the same character.
pub open spec fn same_outcome(a: Lexed, b: Lexed) -> bool {
    match (a, b) {
        (Ok(x), Ok(y)) => x == y,
        (Err(e), Err(f)) => e.character == f.character,
        _ => false,
    }
}

/// Two texts that hold the same characters from `i` up to `stop`, where
/// the first holds no digit, hold the same run of digits at `i`, and it ends
/// at or before `stop`.
proof fn lemma_digit_run_same_before(s: Seq<char>, t: Seq<char>, i: int, stop: int)
    requires
        0 <= i <= stop < s.len(),
        stop < t.len(),
        forall|k: int| i <= k <= stop ==> s[k] == t[k],
        !is_digit(s[stop]),
    ensures
        digit_run(s, i) == digit_run(t, i),
        i + digit_run(s, i) <= stop,
    decreases stop - i,
{
    if i < stop && is_digit(s[i]) {
        lemma_digit_run_same_before(s, t, i + 1, stop);
    }
}

/// Two texts with tables that agree from `i` up to `stop`, where the first
/// table marks no word character, hold the same run of word characters at
/// `i`, and it ends at or before `stop`.
proof fn lemma_word_run_same_before(
    s: Seq<char>,
    word: Seq<bool>,
    t: Seq<char>,
    other: Seq<bool>,
    i: int,
    stop: int,
)
    requires
        0 <= i <= stop < s.len(),
        stop < t.len(),
        word.len() == s.len(),
        other.len() == t.len(),
        forall|k: int| i <= k <= stop ==> word[k] == other[k],
        !word[stop],
    ensures
        word_run(s, word, i) == word_run(t, other, i),
        i + word_run(s, word, i) <= stop,
    decreases stop - i,
{
    if i < stop && word[i] {
        lemma_word_run_same_before(s, word, t, other, i + 1, stop);
    }
}

/// The text `t` and its table `other` hold, `shift` places on, what `s` and
/// `word` hold from `i` on.
pub open spec fn shifted(
    s: Seq<char>,
    word: Seq<bool>,
    t: Seq<char>,
    other: Seq<bool>,
    i: int,
    shift: int,
) -> bool {
    &&& 0 <= i <= s.len()
    &&& 0 <= i + shift
    &&& word.len() == s.len()
    &&& other.len() == t.len()
    &&& t.len() == s.len() + shift
    &&& forall|k: int| i <= k < s.len() ==> #[trigger] s[k] == t[k + shift]
    &&& forall|k: int| i <= k < s.len() ==> #[trigger] word[k] == other[k + shift]
}

/// Shifted texts hold the same run of digits.
proof fn lemma_digit_run_shifted(
    s: Seq<char>,
    word: Seq<bool>,
    t: Seq<char>,
    other: Seq<bool>,
    i: int,
    shift: int,
)
    requires
        shifted(s, word, t, other, i, shift),
    ensures
        digit_run(s, i) == digit_run(t, i + shift),
    decreases s.len() - i,
{
    if i < s.len() {
        assert(s[i] == t[i + shift]);
        if is_digit(s[i]) {
            lemma_digit_run_shifted(s, word, t, other, i + 1, shift);
        }
    }
}

/// Shifted texts hold the same run of word characters.
proof fn lemma_word_run_shifted(
    s: Seq<char>,
    word: Seq<bool>,
    t: Seq<char>,
    other: Seq<bool>,
    i: int,
    shift: int,
)
    requires
        shifted(s, word, t, other, i, shift),
    ensures
        word_run(s, word, i) == word_run(t, other, i + shift),
    decreases s.len() - i,
{
    if i < s.len() {
        assert(word[i] == other[i + shift]);
        if word[i] {
            lemma_word_run_shifted(s, word, t, other, i + 1, shift);
        }
    }
}

/// Shifted texts are scanned alike.
pub proof fn lemma_lex_shifted(
    s: Seq<char>,
    word: Seq<bool>,
    t: Seq<char>,
    other: Seq<bool>,
    i: int,
    shift: int,
)
    requires
        shifted(s, word, t, other, i, shift),
    ensures
        same_outcome(lex_with(s, word, i), lex_with(t, other, i + shift)),
    decreases s.len() - i,
{
    if i < s.len() {
        assert(s[i] == t[i + shift]);
        if is_blank(s[i]) {
            lemma_lex_shifted(s, word, t, other, i + 1, shift);
        } else {
            lemma_lexeme_within(s, word, i);
            lemma_digit_run_shifted(s, word, t, other, i, shift);
            lemma_word_run_shifted(s, word, t, other, i + 1, shift);
            let n = lexeme_len(s, word, i) as int;
            assert(n == lexeme_len(t, other, i + shift));
            if n > 0 {
                lemma_lex_shifted(s, word, t, other, i + n, shift);
                let text = s.subrange(i, i + n);
                let moved = t.subrange(i + shift, i + shift + n);
                assert forall|k: int| 0 <= k < n implies #[trigger] text[k] == moved[k] by {
                    assert(s[i + k] == t[i + k + shift]);
                }
                assert(text =~= moved);
            }
        }
    }
}

/// Up to a blank that the table marks as no word character, and from each
/// index before it, a text is scanned as the same text with one more blank
/// behind that blank.
proof fn lemma_lex_before_doubled_blank(
    s: Seq<char>,
    word: Seq<bool>,
    at: int,
    blank: char,
    mark: bool,
    i: int,
)
    requires
        0 <= i <= at < s.len(),
        word.len() == s.len(),
        is_blank(s[at]),
        !word[at],
        is_blank(blank),
    ensures
        same_outcome(
            lex_with(s, word, i),
            lex_with(s.insert(at + 1, blank), word.insert(at + 1, mark), i),
        ),
    decreases at - i,
{
    let t = s.insert(at + 1, blank);
    let other = word.insert(at + 1, mark);
    assert(t[i] == s[i]);
    if i == at {
        assert(t[at + 1] == blank);
        assert(lex_with(t, other, at) == lex_with(t, other, at + 1));
        assert(lex_with(t, other, at + 1) == lex_with(t, other, at + 2));
        lemma_lex_shifted(s, word, t, other, at + 1, 1);
    } else if is_blank(s[i]) {
        lemma_lex_before_doubled_blank(s, word, at, blank, mark, i + 1);
    } else {
        assert forall|k: int| i <= k <= at implies s[k] == t[k] by {}
        assert forall|k: int| i <= k <= at implies word[k] == other[k] by {}
        assert(!is_digit(s[at]));
        lemma_digit_run_same_before(s, t, i, at);
        lemma_word_run_same_before(s, word, t, other, i + 1, at);
        let n = lexeme_len(s, word, i) as int;
        assert(n == lexeme_len(t, other, i));
        if n > 0 {
            assert(i + n <= at);
            assert(s.subrange(i, i + n) =~= t.subrange(i, i + n));
            lemma_lex_before_doubled_blank(s, word, at, blank, mark, i + n);
        }
    }
}

/// Blanks are transparent: a second blank behind a blank changes neither
/// the tokens of a text nor the character on which its scan stops. The
/// table has to mark the first blank as no word character, so that a word
/// before it ends there.
pub proof fn lemma_doubled_blank_is_transparent(
    s: Seq<char>,
    word: Seq<bool>,
    at: int,
    blank: char,
    mark: bool,
)
    requires
        0 <= at < s.len(),
        word.len() == s.len(),
        is_blank(s[at]),
        !word[at],
        is_blank(blank),
    ensures
        same_outcome(
            lex_with(s, word, 0),
            lex_with(s.insert(at + 1, blank), word.insert(at + 1, mark), 0),
        ),
{
    lemma_lex_before_doubled_blank(s, word, at, blank, mark, 0);
}

/// Blanks are transparent under Unicode's table too, where the first blank
/// is not alphanumeric: `lex` gives a text and the same text with a second
/// blank behind that blank the same tokens, or stops on the same character.
pub proof fn lemma_doubled_blank_is_transparent_to_lex(s: Seq<char>, at: int, blank: char)
    requires
        0 <= at < s.len(),
        is_blank(s[at]),
        !alphanumeric(s[at]),
        is_blank(blank),
    ensures
        same_outcome(lex(s), lex(s.insert(at + 1, blank))),
{
    let doubled = s.insert(at + 1, blank);
    assert(word_table(doubled) =~= word_table(s).insert(at + 1, alphanumeric(blank)));
    lemma_doubled_blank_is_transparent(s, word_table(s), at, blank, alphanumeric(blank));
}

/// Appending a token to what was scanned so far is the same as putting it
/// in front of what is still to come.
pub proof fn lemma_prepend_push(before: Seq<TokenView>, token: TokenView, rest: Lexed)
    ensures
        prepend(before, prepend(seq![token], rest)) == prepend(before.push(token), rest),
{
    match rest {
        Ok(tokens) => {
            assert(before + (seq![token] + tokens) =~= before.push(token) + tokens);
        },
        Err(_) => {},
    }
}

} // verus!
