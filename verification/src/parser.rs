//! Recursive-descent parser: builds the syntax tree that the grammar gives
//! to a sequence of tokens.

use crate::ast::{
    lemma_conditional_view, lemma_function_view, names_view, stmts_view, ExprView, StmtView,
};
use crate::grammar::{
    assignment_at, block_at, conditional_at, expression_at, fault_cursor, followed_by, function_at,
    lemma_block_bounds, lemma_expression_bounds, lemma_followed_by_nothing,
    lemma_followed_by_push, lemma_parameters_bounds, lemma_statement_bounds, lemma_term_bounds,
    parameters_at, program_at, statement_at, term_at, ParseError,
};
use crate::lexer::{tokens_view, LexError, Lexer, Token, TokenType, TokenView};
use crate::lexicon::lex_with;
use crate::text::text_equals;
use crate::numeral::parse_integer;
use vstd::prelude::*;

pub use crate::ast::{Expr, Stmt};

verus! {

/// A cursor over a finished sequence of tokens. It keeps the lexer that the
/// tokens came from, where they came from one.
pub struct Parser<'a> {
    lexer: Option<Lexer<'a>>,
    tokens: Vec<Token>,
    position: usize,
}

impl<'a> Parser<'a> {
    #[verifier::type_invariant]
    spec fn well_formed(&self) -> bool {
        self.position <= self.tokens.len()
    }

    /// The tokens that this parser reads.
    pub closed spec fn stream(&self) -> Seq<TokenView> {
        tokens_view(self.tokens@)
    }

    /// Index of the next token to be read.
    pub closed spec fn cursor(&self) -> int {
        self.position as int
    }

    /// The lexer that the tokens came from, as its scan left it.
    pub closed spec fn scanner(&self) -> Option<Lexer<'a>> {
        self.lexer
    }

    /// Scans what is left of the lexer's text and sets a parser at the
    /// first of its tokens. Fails where the scan does.
    pub fn new(lexer: Lexer<'a>) -> (result: Result<Self, LexError>)
        ensures
            lex_with(lexer.source(), lexer.table(), lexer.cursor()) == (match result {
                Ok(parser) => Ok(parser.stream()),
                Err(e) => Err(e),
            }),
            match result {
                Ok(parser) => {
                    &&& parser.cursor() == 0
                    &&& parser.scanner() matches Some(scanner)
                    &&& scanner.source() == lexer.source()
                    &&& scanner.table() == lexer.table()
                    &&& scanner.cursor() == lexer.source().len()
                },
                Err(_) => true,
            },
    {
        let mut lexer = lexer;
        match lexer.tokenize() {
            Ok(tokens) => Ok(Parser { lexer: Some(lexer), tokens, position: 0 }),
            Err(e) => Err(e),
        }
    }

    /// A parser at the first of `tokens`, which may come from anywhere.
    pub fn from_tokens(tokens: Vec<Token>) -> (parser: Self)
        ensures
            parser.stream() == tokens_view(tokens@),
            parser.cursor() == 0,
            parser.scanner() is None,
    {
        Parser { lexer: None, tokens, position: 0 }
    }

    /// The lexer that the tokens came from, as its scan left it; none
    /// where the tokens were given.
    pub fn lexer(&self) -> (lexer: Option<&Lexer<'a>>)
        ensures
            lexer is Some <==> self.scanner() is Some,
            lexer matches Some(scanner) ==> *scanner == self.scanner()->Some_0,
    {
        match &self.lexer {
            Some(lexer) => Some(lexer),
            None => None,
        }
    }

    /// The tokens that this parser reads.
    pub fn tokens(&self) -> (tokens: &Vec<Token>)
        ensures
            tokens_view(tokens@) == self.stream(),
    {
        &self.tokens
    }

    /// Index of the next token to be read.
    pub fn position(&self) -> (position: usize)
        ensures
            position == self.cursor(),
    {
        self.position
    }

    /// The token under the cursor.
    fn current_token(&self) -> (result: Result<&Token, ParseError>)
        ensures
            match result {
                Ok(token) => {
                    &&& self.position < self.tokens.len()
                    &&& *token == self.tokens@[self.position as int]
                    &&& token@ == self.stream()[self.position as int]
                },
                Err(e) => self.position == self.tokens.len() && e == ParseError::UnexpectedEnd,
            },
    {
        proof {
            use_type_invariant(&*self);
        }
        if self.position < self.tokens.len() {
            Ok(&self.tokens[self.position])
        } else {
            Err(ParseError::UnexpectedEnd)
        }
    }

    /// Hands out a copy of the token under the cursor and moves the cursor
    /// past it.
    fn consume_token(&mut self) -> (result: Result<Token, ParseError>)
        ensures
            final(self).tokens@ == old(self).tokens@,
            final(self).lexer == old(self).lexer,
            match result {
                Ok(token) => {
                    &&& old(self).position < old(self).tokens.len()
                    &&& token@ == old(self).stream()[old(self).position as int]
                    &&& final(self).position == old(self).position + 1
                },
                Err(e) => {
                    &&& old(self).position == old(self).tokens.len()
                    &&& e == ParseError::UnexpectedEnd
                    &&& final(self).position == old(self).position
                },
            },
    {
        proof {
            use_type_invariant(&*self);
        }
        if self.position < self.tokens.len() {
            let token = Token {
                token_type: self.tokens[self.position].token_type,
                value: self.tokens[self.position].value.clone(),
            };
            self.position = self.position + 1;
            Ok(token)
        } else {
            Err(ParseError::UnexpectedEnd)
        }
    }

    /// Parses the expression under the cursor.
    fn parse_expression(&mut self) -> (result: Result<Expr, ParseError>)
        ensures
            final(self).tokens@ == old(self).tokens@,
            final(self).lexer == old(self).lexer,
            expression_at(old(self).stream(), old(self).position as int) == (match result {
                Ok(expr) => Ok((expr@, final(self).position as int)),
                Err(e) => Err(e),
            }),
            old(self).position <= final(self).position,
            match result {
                Ok(_) => true,
                Err(e) => final(self).position == fault_cursor(e, old(self).tokens.len() as int),
            },
        decreases old(self).tokens.len() - old(self).position, 1int,
    {
        proof {
            use_type_invariant(&*self);
            lemma_term_bounds(self.stream(), self.position as int);
        }
        let left = self.parse_term()?;
        if self.current_token()?.token_type == TokenType::Operator {
            let op = self.consume_token()?.value;
            let right = self.parse_expression()?;
            Ok(Expr::Binary(Box::new(left), op, Box::new(right)))
        } else {
            Ok(left)
        }
    }

    /// Parses the term under the cursor.
    fn parse_term(&mut self) -> (result: Result<Expr, ParseError>)
        ensures
            final(self).tokens@ == old(self).tokens@,
            final(self).lexer == old(self).lexer,
            term_at(old(self).stream(), old(self).position as int) == (match result {
                Ok(expr) => Ok((expr@, final(self).position as int)),
                Err(e) => Err(e),
            }),
            old(self).position <= final(self).position,
            match result {
                Ok(_) => true,
                Err(e) => final(self).position == fault_cursor(e, old(self).tokens.len() as int),
            },
        decreases old(self).tokens.len() - old(self).position, 0int,
    {
        proof {
            use_type_invariant(&*self);
        }
        let token = self.current_token()?;
        let kind = token.token_type;
        let opens = text_equals(&token.value, "(");
        if kind == TokenType::Number {
            let at: usize = self.position;
            let token = self.consume_token()?;
            match parse_integer(token.value.as_str()) {
                Some(value) => Ok(Expr::NumberLiteral(value)),
                None => Err(ParseError::InvalidNumber { position: at }),
            }
        } else if kind == TokenType::Identifier {
            Ok(Expr::Variable(self.consume_token()?.value))
        } else if kind == TokenType::Delimiter && opens {
            self.consume_token()?;  // '('
            let inner = self.parse_expression()?;
            self.consume_token()?;  // ')'
            Ok(inner)
        } else {
            Err(ParseError::UnexpectedToken { position: self.position })
        }
    }

    /// Parses the names of a parameter list up to its closing bracket, and
    /// leaves the cursor on that bracket.
    fn parse_parameter_list(&mut self) -> (result: Result<Vec<String>, ParseError>)
        ensures
            final(self).tokens@ == old(self).tokens@,
            final(self).lexer == old(self).lexer,
            parameters_at(old(self).stream(), old(self).position as int) == (match result {
                Ok(params) => Ok((names_view(params@), final(self).position as int)),
                Err(e) => Err(e),
            }),
            old(self).position <= final(self).position,
            match result {
                Ok(_) => true,
                Err(e) => final(self).position == fault_cursor(e, old(self).tokens.len() as int),
            },
    {
        proof {
            use_type_invariant(&*self);
        }
        let ghost ts = self.stream();
        let ghost start = self.position as int;
        let mut params: Vec<String> = Vec::new();
        proof {
            assert(names_view(params@) =~= Seq::<Seq<char>>::empty());
            lemma_followed_by_nothing(parameters_at(ts, start));
        }
        loop
            invariant
                self.tokens@ == old(self).tokens@,
                self.lexer == old(self).lexer,
                ts == self.stream(),
                start == old(self).position,
                start <= self.position <= self.tokens.len(),
                parameters_at(ts, start) == followed_by(
                    names_view(params@),
                    parameters_at(ts, self.position as int),
                ),
            decreases self.tokens.len() - self.position,
        {
            let ghost here = self.position as int;
            let ghost before = names_view(params@);
            let token = self.current_token()?;
            let kind = token.token_type;
            let closes = text_equals(&token.value, ")");
            let comma = text_equals(&token.value, ",");
            if kind == TokenType::Delimiter && closes {
                assert(before + Seq::<Seq<char>>::empty() =~= before);
                return Ok(params);
            }
            if kind == TokenType::Identifier {
                let token = self.consume_token()?;
                proof {
                    lemma_followed_by_push(before, token.value@, parameters_at(ts, here + 1));
                }
                params.push(token.value);
                assert(names_view(params@) =~= before.push(ts[here].text));
            } else if kind == TokenType::Delimiter && comma {
                self.consume_token()?;
            } else {
                return Err(ParseError::UnexpectedToken { position: self.position });
            }
        }
    }

    /// Parses an assignment: the name, an equals sign, the value and a
    /// semicolon.
    fn parse_assignment(&mut self) -> (result: Result<Stmt, ParseError>)
        ensures
            final(self).tokens@ == old(self).tokens@,
            final(self).lexer == old(self).lexer,
            assignment_at(old(self).stream(), old(self).position as int) == (match result {
                Ok(stmt) => Ok((stmt@, final(self).position as int)),
                Err(e) => Err(e),
            }),
            old(self).position <= final(self).position,
            match result {
                Ok(_) => true,
                Err(e) => final(self).position == fault_cursor(e, old(self).tokens.len() as int),
            },
    {
        proof {
            use_type_invariant(&*self);
            lemma_expression_bounds(self.stream(), self.position + 2);
        }
        let name = self.consume_token()?.value;
        self.consume_token()?;  // '='
        let value = self.parse_expression()?;
        self.consume_token()?;  // ';'
        Ok(Stmt::Assignment(name, value))
    }

    /// Parses a declaration: the keyword, the name, the parameters in
    /// brackets and the body in braces.
    fn parse_function_declaration(&mut self) -> (result: Result<Stmt, ParseError>)
        ensures
            final(self).tokens@ == old(self).tokens@,
            final(self).lexer == old(self).lexer,
            function_at(old(self).stream(), old(self).position as int) == (match result {
                Ok(stmt) => Ok((stmt@, final(self).position as int)),
                Err(e) => Err(e),
            }),
            old(self).position <= final(self).position,
            match result {
                Ok(_) => true,
                Err(e) => final(self).position == fault_cursor(e, old(self).tokens.len() as int),
            },
        decreases old(self).tokens.len() - old(self).position, 0int,
    {
        proof {
            use_type_invariant(&*self);
            lemma_parameters_bounds(self.stream(), self.position + 3);
        }
        self.consume_token()?;  // 'function'
        let name = self.consume_token()?.value;
        self.consume_token()?;  // '('
        let params = self.parse_parameter_list()?;
        self.consume_token()?;  // ')'
        self.consume_token()?;  // '{'
        proof {
            lemma_block_bounds(self.stream(), self.position as int);
        }
        let body = self.parse_statement_list()?;
        proof {
            lemma_function_view(name, params, body);
        }
        self.consume_token()?;  // '}'
        Ok(Stmt::FunctionDeclaration(name, params, body))
    }

    /// Parses a conditional: the keyword, the condition in brackets and the
    /// body in braces.
    fn parse_if_statement(&mut self) -> (result: Result<Stmt, ParseError>)
        ensures
            final(self).tokens@ == old(self).tokens@,
            final(self).lexer == old(self).lexer,
            conditional_at(old(self).stream(), old(self).position as int) == (match result {
                Ok(stmt) => Ok((stmt@, final(self).position as int)),
                Err(e) => Err(e),
            }),
            old(self).position <= final(self).position,
            match result {
                Ok(_) => true,
                Err(e) => final(self).position == fault_cursor(e, old(self).tokens.len() as int),
            },
        decreases old(self).tokens.len() - old(self).position, 0int,
    {
        proof {
            use_type_invariant(&*self);
            lemma_expression_bounds(self.stream(), self.position + 2);
        }
        self.consume_token()?;  // 'if'
        self.consume_token()?;  // '('
        let condition = Box::new(self.parse_expression()?);
        self.consume_token()?;  // ')'
        self.consume_token()?;  // '{'
        proof {
            lemma_block_bounds(self.stream(), self.position as int);
        }
        let body = self.parse_statement_list()?;
        proof {
            lemma_conditional_view(condition, body);
        }
        self.consume_token()?;  // '}'
        Ok(Stmt::If(condition, body))
    }

    /// Parses the statement under the cursor, chosen by the token there.
    fn parse_statement(&mut self) -> (result: Result<Stmt, ParseError>)
        ensures
            final(self).tokens@ == old(self).tokens@,
            final(self).lexer == old(self).lexer,
            statement_at(old(self).stream(), old(self).position as int) == (match result {
                Ok(stmt) => Ok((stmt@, final(self).position as int)),
                Err(e) => Err(e),
            }),
            old(self).position <= final(self).position,
            match result {
                Ok(_) => true,
                Err(e) => final(self).position == fault_cursor(e, old(self).tokens.len() as int),
            },
        decreases old(self).tokens.len() - old(self).position, 1int,
    {
        proof {
            use_type_invariant(&*self);
        }
        let token = self.current_token()?;
        let kind = token.token_type;
        let declares = text_equals(&token.value, "function");
        let tests = text_equals(&token.value, "if");
        if kind == TokenType::Keyword && declares {
            self.parse_function_declaration()
        } else if kind == TokenType::Keyword && tests {
            self.parse_if_statement()
        } else if kind == TokenType::Identifier {
            self.parse_assignment()
        } else {
            Err(ParseError::UnexpectedToken { position: self.position })
        }
    }

    /// Parses statements up to a closing brace, and leaves the cursor on
    /// that brace.
    fn parse_statement_list(&mut self) -> (result: Result<Vec<Stmt>, ParseError>)
        ensures
            final(self).tokens@ == old(self).tokens@,
            final(self).lexer == old(self).lexer,
            block_at(old(self).stream(), old(self).position as int) == (match result {
                Ok(stmts) => Ok((stmts_view(stmts@), final(self).position as int)),
                Err(e) => Err(e),
            }),
            old(self).position <= final(self).position,
            match result {
                Ok(_) => true,
                Err(e) => final(self).position == fault_cursor(e, old(self).tokens.len() as int),
            },
        decreases old(self).tokens.len() - old(self).position, 2int,
    {
        proof {
            use_type_invariant(&*self);
        }
        let ghost ts = self.stream();
        let ghost start = self.position as int;
        let mut stmts: Vec<Stmt> = Vec::new();
        proof {
            assert(stmts_view(stmts@) =~= Seq::<StmtView>::empty());
            lemma_followed_by_nothing(block_at(ts, start));
        }
        loop
            invariant
                self.tokens@ == old(self).tokens@,
                self.lexer == old(self).lexer,
                ts == self.stream(),
                start == old(self).position,
                start <= self.position <= self.tokens.len(),
                block_at(ts, start) == followed_by(
                    stmts_view(stmts@),
                    block_at(ts, self.position as int),
                ),
            decreases self.tokens.len() - self.position,
        {
            let ghost here = self.position as int;
            let ghost before = stmts_view(stmts@);
            let token = self.current_token()?;
            if token.token_type == TokenType::Delimiter && text_equals(&token.value, "}") {
                assert(before + Seq::<StmtView>::empty() =~= before);
                return Ok(stmts);
            }
            proof {
                lemma_statement_bounds(ts, here);
            }
            let stmt = self.parse_statement()?;
            proof {
                use_type_invariant(&*self);
                lemma_followed_by_push(before, stmt@, block_at(ts, self.position as int));
            }
            stmts.push(stmt);
            assert(stmts_view(stmts@) =~= before.push(stmt@));
        }
    }

    /// Parses statements from the cursor up to the end-of-input marker, and
    /// leaves the cursor on that marker. The statements come in source
    /// order; the first fault ends the parse.
    pub fn parse(&mut self) -> (result: Result<Vec<Stmt>, ParseError>)
        ensures
            final(self).stream() == old(self).stream(),
            final(self).scanner() == old(self).scanner(),
            program_at(old(self).stream(), old(self).cursor()) == (match result {
                Ok(stmts) => Ok((stmts_view(stmts@), final(self).cursor())),
                Err(e) => Err(e),
            }),
            old(self).cursor() <= final(self).cursor() <= old(self).stream().len(),
            match result {
                Ok(_) => {
                    &&& final(self).cursor() < old(self).stream().len()
                    &&& old(self).stream()[final(self).cursor()].kind == TokenType::EOF
                },
                Err(e) => final(self).cursor() == fault_cursor(e, old(self).stream().len() as int),
            },
    {
        proof {
            use_type_invariant(&*self);
        }
        let ghost ts = self.stream();
        let ghost start = self.position as int;
        let mut stmts: Vec<Stmt> = Vec::new();
        proof {
            assert(stmts_view(stmts@) =~= Seq::<StmtView>::empty());
            lemma_followed_by_nothing(program_at(ts, start));
        }
        loop
            invariant
                self.tokens@ == old(self).tokens@,
                self.lexer == old(self).lexer,
                ts == self.stream(),
                start == old(self).position,
                start <= self.position <= self.tokens.len(),
                program_at(ts, start) == followed_by(
                    stmts_view(stmts@),
                    program_at(ts, self.position as int),
                ),
            decreases self.tokens.len() - self.position,
        {
            let ghost here = self.position as int;
            let ghost before = stmts_view(stmts@);
            if self.current_token()?.token_type == TokenType::EOF {
                assert(before + Seq::<StmtView>::empty() =~= before);
                return Ok(stmts);
            }
            proof {
                lemma_statement_bounds(ts, here);
            }
            let outcome = self.parse_statement();
            proof {
                use_type_invariant(&*self);
            }
            let stmt = outcome?;
            proof {
                lemma_followed_by_push(before, stmt@, program_at(ts, self.position as int));
            }
            stmts.push(stmt);
            assert(stmts_view(stmts@) =~= before.push(stmt@));
        }
    }
}

} // verus!
