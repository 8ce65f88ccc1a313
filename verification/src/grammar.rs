//! The grammar: what a sequence of tokens stands for, rule by rule.
//!
//! Each rule is a function from the tokens and the index where the rule
//! starts to the node it builds and the index of the first token after it,
//! or to the first fault on the way. A step that moves past an expected
//! bracket, brace, sign or semicolon takes whatever token stands there
//! without looking at it; it only needs one to be there.

use crate::ast::{ExprView, StmtView};
use crate::lexer::{TokenType, TokenView};
use crate::numeral::numeral_value;
use vstd::prelude::*;

verus! {

/// Why a sequence of tokens is no program.
#[derive(Debug, Clone, Copy, PartialEq, Eq, Structural)]
pub enum ParseError {
    /// The token at `position` fits no rule that applies where it stands.
    UnexpectedToken { position: usize },
    /// The `Number` token at `position` denotes no 32-bit integer.
    InvalidNumber { position: usize },
    /// A rule needed a token after the last one.
    UnexpectedEnd,
}

/// Where the cursor rests after a fault, in a sequence of `len` tokens: on
/// a token that fits no rule, behind a number that denotes none, at the end
/// where the tokens ran out.
pub open spec fn fault_cursor(e: ParseError, len: int) -> int {
    match e {
        ParseError::UnexpectedToken { position } => position as int,
        ParseError::InvalidNumber { position } => position + 1,
        ParseError::UnexpectedEnd => len,
    }
}

/// Outcome of a rule: the node and the index after it, or the fault.
pub type Parsed<T> = Result<(T, int), ParseError>;

/// `token` is the delimiter written `text`.
pub open spec fn is_mark(token: TokenView, text: Seq<char>) -> bool {
    token.kind == TokenType::Delimiter && token.text == text
}

/// `token` is the keyword written `text`.
pub open spec fn is_word(token: TokenView, text: Seq<char>) -> bool {
    token.kind == TokenType::Keyword && token.text == text
}

/// Puts `first` in front of the items of a successful rule.
pub open spec fn followed_by<T>(first: Seq<T>, rest: Parsed<Seq<T>>) -> Parsed<Seq<T>> {
    match rest {
        Ok((items, end)) => Ok((first + items, end)),
        Err(e) => Err(e),
    }
}

/// Items put in front one after the other are put in front together.
pub proof fn lemma_followed_by_push<T>(first: Seq<T>, item: T, rest: Parsed<Seq<T>>)
    ensures
        followed_by(first, followed_by(seq![item], rest)) == followed_by(first.push(item), rest),
{
    match rest {
        Ok((items, _)) => {
            assert(first + (seq![item] + items) =~= first.push(item) + items);
        },
        Err(_) => {},
    }
}

/// Nothing put in front changes nothing.
pub proof fn lemma_followed_by_nothing<T>(rest: Parsed<Seq<T>>)
    ensures
        followed_by(Seq::empty(), rest) == rest,
{
    match rest {
        Ok((items, _)) => {
            assert(Seq::<T>::empty() + items =~= items);
        },
        Err(_) => {},
    }
}

/// A term at `pos`: a number, a variable, or an expression in brackets.
pub open spec fn term_at(ts: Seq<TokenView>, pos: int) -> Parsed<ExprView>
    decreases ts.len() - pos, 0int,
{
    if pos < 0 || pos >= ts.len() {
        Err(ParseError::UnexpectedEnd)
    } else if ts[pos].kind == TokenType::Number {
        match numeral_value(ts[pos].text) {
            Some(value) => Ok((ExprView::NumberLiteral(value as int), pos + 1)),
            None => Err(ParseError::InvalidNumber { position: pos as usize }),
        }
    } else if ts[pos].kind == TokenType::Identifier {
        Ok((ExprView::Variable(ts[pos].text), pos + 1))
    } else if is_mark(ts[pos], "("@) {
        match expression_at(ts, pos + 1) {
            Ok((inner, close)) => if close < ts.len() {
                Ok((inner, close + 1))
            } else {
                Err(ParseError::UnexpectedEnd)
            },
            Err(e) => Err(e),
        }
    } else {
        Err(ParseError::UnexpectedToken { position: pos as usize })
    }
}

/// An expression at `pos`: a term, and where an operator follows it, the
/// operator and the whole expression after it as the right-hand side. So
/// operators group to the right, and all bind alike.
///
/// The test `pos < next` holds of every term (see
/// [`lemma_term_bounds`]); it is written out because the definition recurs
/// at `next + 1`.
pub open spec fn expression_at(ts: Seq<TokenView>, pos: int) -> Parsed<ExprView>
    decreases ts.len() - pos, 1int,
{
    match term_at(ts, pos) {
        Ok((left, next)) => if next < 0 || next >= ts.len() {
            Err(ParseError::UnexpectedEnd)
        } else if ts[next].kind == TokenType::Operator && pos < next {
            match expression_at(ts, next + 1) {
                Ok((right, end)) => Ok(
                    (ExprView::Binary(Box::new(left), ts[next].text, Box::new(right)), end),
                ),
                Err(e) => Err(e),
            }
        } else {
            Ok((left, next))
        },
        Err(e) => Err(e),
    }
}

/// The names of a parameter list from `pos` up to the closing bracket,
/// which is left in place. Commas are passed over wherever they stand; any
/// token but a name, a comma or the closing bracket is a fault.
pub open spec fn parameters_at(ts: Seq<TokenView>, pos: int) -> Parsed<Seq<Seq<char>>>
    decreases ts.len() - pos,
{
    if pos < 0 || pos >= ts.len() {
        Err(ParseError::UnexpectedEnd)
    } else if is_mark(ts[pos], ")"@) {
        Ok((Seq::empty(), pos))
    } else if ts[pos].kind == TokenType::Identifier {
        followed_by(seq![ts[pos].text], parameters_at(ts, pos + 1))
    } else if is_mark(ts[pos], ","@) {
        parameters_at(ts, pos + 1)
    } else {
        Err(ParseError::UnexpectedToken { position: pos as usize })
    }
}

/// A term ends after where it starts, and within the tokens.
pub proof fn lemma_term_bounds(ts: Seq<TokenView>, pos: int)
    ensures
        match term_at(ts, pos) {
            Ok((_, next)) => 0 <= pos < next <= ts.len(),
            Err(_) => true,
        },
    decreases ts.len() - pos, 0int,
{
    if 0 <= pos < ts.len() && ts[pos].kind != TokenType::Number && ts[pos].kind
        != TokenType::Identifier && is_mark(ts[pos], "("@) {
        lemma_expression_bounds(ts, pos + 1);
    }
}

/// An expression ends after where it starts, and a token follows it.
pub proof fn lemma_expression_bounds(ts: Seq<TokenView>, pos: int)
    ensures
        match expression_at(ts, pos) {
            Ok((_, next)) => 0 <= pos < next < ts.len(),
            Err(_) => true,
        },
    decreases ts.len() - pos, 1int,
{
    lemma_term_bounds(ts, pos);
    match term_at(ts, pos) {
        Ok((_, next)) => {
            if next < ts.len() && ts[next].kind == TokenType::Operator {
                lemma_expression_bounds(ts, next + 1);
            }
        },
        Err(_) => {},
    }
}

/// A parameter list ends at a closing bracket, at or after where it starts.
pub proof fn lemma_parameters_bounds(ts: Seq<TokenView>, pos: int)
    ensures
        match parameters_at(ts, pos) {
            Ok((_, close)) => 0 <= pos <= close < ts.len() && is_mark(ts[close], ")"@),
            Err(_) => true,
        },
    decreases ts.len() - pos,
{
    if 0 <= pos < ts.len() && !is_mark(ts[pos], ")"@) {
        if ts[pos].kind == TokenType::Identifier || is_mark(ts[pos], ","@) {
            lemma_parameters_bounds(ts, pos + 1);
        }
    }
}

/// A statement at `pos`, chosen by the token there alone: `function` opens
/// a declaration, `if` a conditional, a name an assignment.
pub open spec fn statement_at(ts: Seq<TokenView>, pos: int) -> Parsed<StmtView>
    decreases ts.len() - pos, 1int,
{
    if pos < 0 || pos >= ts.len() {
        Err(ParseError::UnexpectedEnd)
    } else if is_word(ts[pos], "function"@) {
        function_at(ts, pos)
    } else if is_word(ts[pos], "if"@) {
        conditional_at(ts, pos)
    } else if ts[pos].kind == TokenType::Identifier {
        assignment_at(ts, pos)
    } else {
        Err(ParseError::UnexpectedToken { position: pos as usize })
    }
}

/// A declaration at `pos`: the keyword, a token whose text is the name, an
/// opening bracket, the parameters, a closing bracket, an opening brace,
/// the body and a closing brace.
pub open spec fn function_at(ts: Seq<TokenView>, pos: int) -> Parsed<StmtView>
    decreases ts.len() - pos, 0int,
{
    if pos < 0 || pos + 2 >= ts.len() {
        Err(ParseError::UnexpectedEnd)
    } else {
        match parameters_at(ts, pos + 3) {
            Ok((params, close)) => if close + 1 >= ts.len() {
                Err(ParseError::UnexpectedEnd)
            } else {
                proof {
                    lemma_parameters_bounds(ts, pos + 3);
                }
                match block_at(ts, close + 2) {
                    Ok((body, end)) => Ok(
                        (StmtView::FunctionDeclaration(ts[pos + 1].text, params, body), end + 1),
                    ),
                    Err(e) => Err(e),
                }
            },
            Err(e) => Err(e),
        }
    }
}

/// A conditional at `pos`: the keyword, an opening bracket, the condition,
/// a closing bracket, an opening brace, the body and a closing brace.
pub open spec fn conditional_at(ts: Seq<TokenView>, pos: int) -> Parsed<StmtView>
    decreases ts.len() - pos, 0int,
{
    if pos < 0 || pos + 1 >= ts.len() {
        Err(ParseError::UnexpectedEnd)
    } else {
        match expression_at(ts, pos + 2) {
            Ok((condition, close)) => if close + 1 >= ts.len() {
                Err(ParseError::UnexpectedEnd)
            } else {
                proof {
                    lemma_expression_bounds(ts, pos + 2);
                }
                match block_at(ts, close + 2) {
                    Ok((body, end)) => Ok((StmtView::If(condition, body), end + 1)),
                    Err(e) => Err(e),
                }
            },
            Err(e) => Err(e),
        }
    }
}

/// An assignment at `pos`: a token whose text is the name, an equals sign,
/// the value and a semicolon.
pub open spec fn assignment_at(ts: Seq<TokenView>, pos: int) -> Parsed<StmtView> {
    if pos < 0 || pos + 1 >= ts.len() {
        Err(ParseError::UnexpectedEnd)
    } else {
        match expression_at(ts, pos + 2) {
            Ok((value, end)) => if end >= ts.len() {
                Err(ParseError::UnexpectedEnd)
            } else {
                Ok((StmtView::Assignment(ts[pos].text, value), end + 1))
            },
            Err(e) => Err(e),
        }
    }
}

/// The statements from `pos` up to the closing brace, which is left in
/// place.
///
/// The test `pos < next <= ts.len()` holds of every statement (see
/// [`lemma_statement_bounds`]); it is written out because the definition
/// recurs at `next`.
pub open spec fn block_at(ts: Seq<TokenView>, pos: int) -> Parsed<Seq<StmtView>>
    decreases ts.len() - pos, 2int,
{
    if pos < 0 || pos >= ts.len() {
        Err(ParseError::UnexpectedEnd)
    } else if is_mark(ts[pos], "}"@) {
        Ok((Seq::empty(), pos))
    } else {
        match statement_at(ts, pos) {
            Ok((first, next)) => if pos < next <= ts.len() {
                followed_by(seq![first], block_at(ts, next))
            } else {
                Err(ParseError::UnexpectedEnd)
            },
            Err(e) => Err(e),
        }
    }
}

/// The statements from `pos` up to the end-of-input marker, which is left
/// in place.
pub open spec fn program_at(ts: Seq<TokenView>, pos: int) -> Parsed<Seq<StmtView>>
    decreases ts.len() - pos,
{
    if pos < 0 || pos >= ts.len() {
        Err(ParseError::UnexpectedEnd)
    } else if ts[pos].kind == TokenType::EOF {
        Ok((Seq::empty(), pos))
    } else {
        match statement_at(ts, pos) {
            Ok((first, next)) => {
                proof {
                    lemma_statement_bounds(ts, pos);
                }
                followed_by(seq![first], program_at(ts, next))
            },
            Err(e) => Err(e),
        }
    }
}

/// A statement ends after where it starts, and within the tokens.
pub proof fn lemma_statement_bounds(ts: Seq<TokenView>, pos: int)
    ensures
        match statement_at(ts, pos) {
            Ok((_, next)) => 0 <= pos < next <= ts.len(),
            Err(_) => true,
        },
    decreases ts.len() - pos, 1int,
{
    if 0 <= pos < ts.len() {
        if is_word(ts[pos], "function"@) {
            if pos + 2 < ts.len() {
                lemma_parameters_bounds(ts, pos + 3);
                match parameters_at(ts, pos + 3) {
                    Ok((_, close)) => {
                        if close + 1 < ts.len() {
                            lemma_block_bounds(ts, close + 2);
                        }
                    },
                    Err(_) => {},
                }
            }
        } else if is_word(ts[pos], "if"@) {
            if pos + 1 < ts.len() {
                lemma_expression_bounds(ts, pos + 2);
                match expression_at(ts, pos + 2) {
                    Ok((_, close)) => {
                        if close + 1 < ts.len() {
                            lemma_block_bounds(ts, close + 2);
                        }
                    },
                    Err(_) => {},
                }
            }
        } else if ts[pos].kind == TokenType::Identifier {
            if pos + 1 < ts.len() {
                lemma_expression_bounds(ts, pos + 2);
            }
        }
    }
}

/// A block ends at a closing brace, at or after where it starts.
pub proof fn lemma_block_bounds(ts: Seq<TokenView>, pos: int)
    ensures
        match block_at(ts, pos) {
            Ok((_, close)) => 0 <= pos <= close < ts.len() && is_mark(ts[close], "}"@),
            Err(_) => true,
        },
    decreases ts.len() - pos, 2int,
{
    if 0 <= pos < ts.len() && !is_mark(ts[pos], "}"@) {
        lemma_statement_bounds(ts, pos);
        match statement_at(ts, pos) {
            Ok((_, next)) => {
                lemma_block_bounds(ts, next);
            },
            Err(_) => {},
        }
    }
}

/// A program ends at an end-of-input marker, at or after where it starts.
pub proof fn lemma_program_bounds(ts: Seq<TokenView>, pos: int)
    ensures
        match program_at(ts, pos) {
            Ok((_, end)) => 0 <= pos <= end < ts.len() && ts[end].kind == TokenType::EOF,
            Err(_) => true,
        },
    decreases ts.len() - pos,
{
    if 0 <= pos < ts.len() && ts[pos].kind != TokenType::EOF {
        lemma_statement_bounds(ts, pos);
        match statement_at(ts, pos) {
            Ok((_, next)) => {
                lemma_program_bounds(ts, next);
            },
            Err(_) => {},
        }
    }
}

/// Operators group to the right: where a term, an operator, a second term,
/// a second operator and an expression follow one another, the whole is the
/// first term combined with the combination of the second term and the
/// expression.
pub proof fn lemma_operators_group_right(
    ts: Seq<TokenView>,
    pos: int,
    first: ExprView,
    second: ExprView,
    third: ExprView,
    op1: int,
    op2: int,
    end: int,
)
    requires
        term_at(ts, pos) == Ok::<(ExprView, int), ParseError>((first, op1)),
        0 <= op1 < ts.len() && ts[op1].kind == TokenType::Operator,
        term_at(ts, op1 + 1) == Ok::<(ExprView, int), ParseError>((second, op2)),
        0 <= op2 < ts.len() && ts[op2].kind == TokenType::Operator,
        expression_at(ts, op2 + 1) == Ok::<(ExprView, int), ParseError>((third, end)),
    ensures
        expression_at(ts, pos) == Ok::<(ExprView, int), ParseError>(
            (
                ExprView::Binary(
                    Box::new(first),
                    ts[op1].text,
                    Box::new(ExprView::Binary(Box::new(second), ts[op2].text, Box::new(third))),
                ),
                end,
            ),
        ),
{
    lemma_term_bounds(ts, pos);
    lemma_term_bounds(ts, op1 + 1);
    assert(expression_at(ts, op1 + 1) == Ok::<(ExprView, int), ParseError>(
        (ExprView::Binary(Box::new(second), ts[op2].text, Box::new(third)), end),
    ));
}

/// A program that was parsed leaves nothing to parse: from the index where
/// it ended, the program is empty and ends at once.
pub proof fn lemma_program_leaves_nothing(ts: Seq<TokenView>, pos: int)
    ensures
        match program_at(ts, pos) {
            Ok((_, end)) => program_at(ts, end) == Ok::<(Seq<StmtView>, int), ParseError>(
                (Seq::empty(), end),
            ),
            Err(_) => true,
        },
{
    lemma_program_bounds(ts, pos);
}

} // verus!
