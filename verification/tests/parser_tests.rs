use miniparse::grammar::ParseError;
use miniparse::lexer::{LexError, Lexer, Token, TokenType};
use miniparse::parser::{Expr, Parser, Stmt};

fn token(token_type: TokenType, value: &str) -> Token {
    Token { token_type, value: value.to_string() }
}

fn word(value: &str) -> Token {
    let token_type = if value == "function" || value == "if" {
        TokenType::Keyword
    } else {
        TokenType::Identifier
    };
    token(token_type, value)
}

fn number(value: &str) -> Token {
    token(TokenType::Number, value)
}

fn sign(value: &str) -> Token {
    token(TokenType::Operator, value)
}

fn mark(value: &str) -> Token {
    token(TokenType::Delimiter, value)
}

fn eof() -> Token {
    token(TokenType::EOF, "")
}

fn variable(name: &str) -> Expr {
    Expr::Variable(name.to_string())
}

fn binary(left: Expr, op: &str, right: Expr) -> Expr {
    Expr::Binary(Box::new(left), op.to_string(), Box::new(right))
}

fn parse_text(text: &str) -> Result<Vec<Stmt>, ParseError> {
    Parser::new(Lexer::new(text)).unwrap().parse()
}

fn parse_tokens(tokens: Vec<Token>) -> Result<Vec<Stmt>, ParseError> {
    Parser::from_tokens(tokens).parse()
}

fn condition_of(text: &str) -> Expr {
    let mut stmts = parse_text(text).unwrap();
    assert_eq!(stmts.len(), 1);
    match stmts.remove(0) {
        Stmt::If(condition, body) => {
            assert!(body.is_empty());
            *condition
        }
        other => panic!("no conditional: {:?}", other),
    }
}

#[test]
fn empty_program() {
    assert_eq!(parse_text(""), Ok(vec![]));
    assert_eq!(parse_tokens(vec![eof()]), Ok(vec![]));
}

#[test]
fn operators_group_to_the_right() {
    let tokens = vec![
        word("x"),
        sign("="),
        number("1"),
        sign("+"),
        number("2"),
        sign("+"),
        number("3"),
        mark(";"),
        eof(),
    ];
    let expected = Stmt::Assignment(
        "x".to_string(),
        binary(
            Expr::NumberLiteral(1),
            "+",
            binary(Expr::NumberLiteral(2), "+", Expr::NumberLiteral(3)),
        ),
    );
    assert_eq!(parse_tokens(tokens), Ok(vec![expected]));
}

#[test]
fn operators_all_bind_alike() {
    assert_eq!(
        condition_of("if (a * b + c) { }"),
        binary(variable("a"), "*", binary(variable("b"), "+", variable("c")))
    );
    assert_eq!(
        condition_of("if (a - b - c) { }"),
        binary(variable("a"), "-", binary(variable("b"), "-", variable("c")))
    );
}

#[test]
fn brackets_group_to_the_left() {
    assert_eq!(
        condition_of("if ((a + b) * c) { }"),
        binary(binary(variable("a"), "+", variable("b")), "*", variable("c"))
    );
    assert_eq!(condition_of("if (((7))) { }"), Expr::NumberLiteral(7));
}

#[test]
fn single_terms() {
    assert_eq!(condition_of("if (speed) { }"), variable("speed"));
    assert_eq!(condition_of("if (100) { }"), Expr::NumberLiteral(100));
    assert_eq!(condition_of("if (007) { }"), Expr::NumberLiteral(7));
    assert_eq!(condition_of("if (2147483647) { }"), Expr::NumberLiteral(i32::MAX));
}

#[test]
fn declaration_with_parameters_and_body() {
    let expected = Stmt::FunctionDeclaration(
        "f".to_string(),
        vec!["a".to_string(), "b".to_string()],
        vec![Stmt::If(Box::new(variable("a")), vec![Stmt::If(Box::new(variable("b")), vec![])])],
    );
    assert_eq!(parse_text("function f(a, b) { if (a) { if (b) { } } }"), Ok(vec![expected]));
}

#[test]
fn statements_come_in_source_order() {
    let first = Stmt::FunctionDeclaration("f".to_string(), vec![], vec![]);
    let second = Stmt::If(Box::new(Expr::NumberLiteral(1)), vec![]);
    let third = Stmt::FunctionDeclaration("g".to_string(), vec!["x".to_string()], vec![]);
    assert_eq!(
        parse_text("function f() { } if (1) { } function g(x) { }"),
        Ok(vec![first, second, third])
    );
}

fn three_parameters() -> Stmt {
    Stmt::FunctionDeclaration(
        "f".to_string(),
        vec!["a".to_string(), "b".to_string(), "c".to_string()],
        vec![],
    )
}

#[test]
fn commas_are_passed_over_wherever_they_stand() {
    assert_eq!(parse_text("function f(a, b, c) { }"), Ok(vec![three_parameters()]));
    assert_eq!(parse_text("function f(a b,, c,) { }"), Ok(vec![three_parameters()]));
    assert_eq!(parse_text("function f(,a,b,c) { }"), Ok(vec![three_parameters()]));
}

#[test]
fn stray_token_among_the_parameters_is_a_fault() {
    assert_eq!(
        parse_text("function f(1) { }"),
        Err(ParseError::UnexpectedToken { position: 3 })
    );
    assert_eq!(
        parse_text("function f(a, if) { }"),
        Err(ParseError::UnexpectedToken { position: 5 })
    );
    assert_eq!(
        parse_text("function f(a { }"),
        Err(ParseError::UnexpectedToken { position: 4 })
    );
    assert_eq!(
        parse_text("function f(a"),
        Err(ParseError::UnexpectedToken { position: 4 })
    );
}

#[test]
fn name_of_a_declaration_is_not_looked_at() {
    assert_eq!(
        parse_text("function 1() { }"),
        Ok(vec![Stmt::FunctionDeclaration("1".to_string(), vec![], vec![])])
    );
    assert_eq!(
        parse_text("function if() { }"),
        Ok(vec![Stmt::FunctionDeclaration("if".to_string(), vec![], vec![])])
    );
}

#[test]
fn expected_marks_are_taken_unseen() {
    assert_eq!(
        parse_text("function f ; ) ; }"),
        Ok(vec![Stmt::FunctionDeclaration("f".to_string(), vec![], vec![])])
    );
    assert_eq!(
        parse_text("if , a , , }"),
        Ok(vec![Stmt::If(Box::new(variable("a")), vec![])])
    );
    assert_eq!(
        parse_text("x y 1 z"),
        Ok(vec![Stmt::Assignment("x".to_string(), Expr::NumberLiteral(1))])
    );
    assert_eq!(condition_of("if ((a; ) { }"), variable("a"));
}

#[test]
fn assignment_takes_any_token_for_the_equals_sign() {
    let expected = Stmt::Assignment("speed".to_string(), Expr::NumberLiteral(100));
    assert_eq!(
        parse_tokens(vec![word("speed"), sign("="), number("100"), mark(";"), eof()]),
        Ok(vec![expected])
    );
    assert_eq!(
        parse_text("speed + 100;"),
        Ok(vec![Stmt::Assignment("speed".to_string(), Expr::NumberLiteral(100))])
    );
}

#[test]
fn statement_must_start_with_a_keyword_or_a_name() {
    assert_eq!(parse_text("1"), Err(ParseError::UnexpectedToken { position: 0 }));
    assert_eq!(parse_text("("), Err(ParseError::UnexpectedToken { position: 0 }));
    assert_eq!(parse_text("+"), Err(ParseError::UnexpectedToken { position: 0 }));
    assert_eq!(parse_text("if (a) { } }"), Err(ParseError::UnexpectedToken { position: 6 }));
    assert_eq!(
        parse_tokens(vec![token(TokenType::Keyword, "while"), eof()]),
        Err(ParseError::UnexpectedToken { position: 0 })
    );
    assert_eq!(
        parse_tokens(vec![token(TokenType::Identifier, "function"), eof()]),
        Err(ParseError::UnexpectedEnd)
    );
}

#[test]
fn term_must_be_a_number_a_name_or_a_bracket() {
    assert_eq!(parse_text("if (+) { }"), Err(ParseError::UnexpectedToken { position: 2 }));
    assert_eq!(parse_text("if ()"), Err(ParseError::UnexpectedToken { position: 2 }));
    assert_eq!(parse_text("if (a + if) { }"), Err(ParseError::UnexpectedToken { position: 4 }));
    assert_eq!(parse_text("if (a + ) { }"), Err(ParseError::UnexpectedToken { position: 4 }));
    assert_eq!(parse_text("x x"), Err(ParseError::UnexpectedToken { position: 2 }));
}

#[test]
fn number_must_fit_in_32_bits() {
    assert_eq!(parse_text("if (2147483648) { }"), Err(ParseError::InvalidNumber { position: 2 }));
    assert_eq!(
        parse_text("if (1 + 99999999999999999999) { }"),
        Err(ParseError::InvalidNumber { position: 4 })
    );
    assert_eq!(
        parse_tokens(vec![word("x"), sign("="), number("12a"), mark(";"), eof()]),
        Err(ParseError::InvalidNumber { position: 2 })
    );
    assert_eq!(
        parse_tokens(vec![word("x"), sign("="), number(""), mark(";"), eof()]),
        Err(ParseError::InvalidNumber { position: 2 })
    );
}

#[test]
fn number_token_may_carry_a_sign() {
    assert_eq!(
        parse_tokens(vec![word("x"), sign("="), number("-5"), mark(";"), eof()]),
        Ok(vec![Stmt::Assignment("x".to_string(), Expr::NumberLiteral(-5))])
    );
    assert_eq!(
        parse_tokens(vec![word("x"), sign("="), number("-2147483648"), mark(";"), eof()]),
        Ok(vec![Stmt::Assignment("x".to_string(), Expr::NumberLiteral(i32::MIN))])
    );
}

#[test]
fn running_out_of_tokens_is_a_fault() {
    assert_eq!(parse_tokens(vec![]), Err(ParseError::UnexpectedEnd));
    assert_eq!(parse_tokens(vec![word("function")]), Err(ParseError::UnexpectedEnd));
    assert_eq!(parse_text("function"), Err(ParseError::UnexpectedEnd));
    assert_eq!(parse_text("function f"), Err(ParseError::UnexpectedEnd));
    assert_eq!(parse_text("function f("), Err(ParseError::UnexpectedToken { position: 3 }));
    assert_eq!(parse_text("function f()"), Err(ParseError::UnexpectedEnd));
    assert_eq!(parse_text("function f() {"), Err(ParseError::UnexpectedToken { position: 5 }));
    assert_eq!(parse_text("if"), Err(ParseError::UnexpectedEnd));
    assert_eq!(parse_text("if (a"), Err(ParseError::UnexpectedEnd));
    assert_eq!(parse_text("x"), Err(ParseError::UnexpectedEnd));
    assert_eq!(parse_text("x +"), Err(ParseError::UnexpectedToken { position: 2 }));
    assert_eq!(parse_text("x + 1"), Err(ParseError::UnexpectedEnd));
    assert_eq!(
        parse_tokens(vec![word("x"), sign("="), number("1")]),
        Err(ParseError::UnexpectedEnd)
    );
    assert_eq!(
        parse_tokens(vec![word("x"), sign("="), number("1"), mark(";")]),
        Err(ParseError::UnexpectedEnd)
    );
}

#[test]
fn end_marker_inside_a_rule_is_a_token_like_any_other() {
    assert_eq!(
        parse_tokens(vec![word("x"), eof(), number("1"), eof(), eof()]),
        Ok(vec![Stmt::Assignment("x".to_string(), Expr::NumberLiteral(1))])
    );
}

#[test]
fn sample_program_built_from_tokens_stops_at_the_call() {
    let tokens = vec![
        word("function"),
        word("startEngine"),
        mark("("),
        mark(")"),
        mark("{"),
        word("speed"),
        sign("="),
        number("100"),
        mark(";"),
        word("if"),
        mark("("),
        word("speed"),
        sign(">"),
        number("60"),
        mark(")"),
        mark("{"),
        word("applyBrakes"),
        mark("("),
        mark(")"),
        mark(";"),
        mark("}"),
        mark("}"),
        eof(),
    ];
    assert_eq!(tokens[18], mark(")"));
    assert_eq!(parse_tokens(tokens), Err(ParseError::UnexpectedToken { position: 18 }));
}

#[test]
fn sample_program_without_the_call_is_one_declaration() {
    let tokens = vec![
        word("function"),
        word("startEngine"),
        mark("("),
        mark(")"),
        mark("{"),
        word("speed"),
        sign("="),
        number("100"),
        mark(";"),
        word("if"),
        mark("("),
        word("speed"),
        sign(">"),
        number("60"),
        mark(")"),
        mark("{"),
        mark("}"),
        mark("}"),
        eof(),
    ];
    let expected = Stmt::FunctionDeclaration(
        "startEngine".to_string(),
        vec![],
        vec![
            Stmt::Assignment("speed".to_string(), Expr::NumberLiteral(100)),
            Stmt::If(
                Box::new(binary(variable("speed"), ">", Expr::NumberLiteral(60))),
                vec![],
            ),
        ],
    );
    assert_eq!(parse_tokens(tokens), Ok(vec![expected]));
}

#[test]
fn sample_program_as_text_stops_in_the_lexer() {
    let code = "
        function startEngine() {
            speed = 100;
            if (speed > 60) {
                applyBrakes();
            }
        }
    ";
    match Parser::new(Lexer::new(code)) {
        Ok(_) => panic!("the equals sign starts no token"),
        Err(fault) => {
            assert_eq!(fault, LexError { character: '=', position: code.find('=').unwrap() })
        }
    }
}

#[test]
fn parser_is_set_at_the_first_token() {
    let parser = Parser::new(Lexer::new("if (a) { }")).unwrap();
    assert_eq!(parser.position(), 0);
    assert_eq!(parser.tokens().len(), 7);
    assert_eq!(parser.tokens()[0], word("if"));
    assert_eq!(parser.tokens()[6], eof());
}

#[test]
fn parser_over_given_tokens_reads_them_as_they_are() {
    let parser = Parser::from_tokens(vec![word("a"), eof()]);
    assert_eq!(parser.position(), 0);
    assert_eq!(parser.tokens(), &vec![word("a"), eof()]);
    assert!(parser.lexer().is_none());
}

#[test]
fn parser_keeps_the_lexer_it_was_made_from() {
    let parser = Parser::new(Lexer::new("if (a) { }")).unwrap();
    let kept = parser.lexer().unwrap();
    assert_eq!(kept.input(), "if (a) { }");
    assert_eq!(kept.position(), 10);
}

#[test]
fn parse_ends_on_the_end_marker() {
    let mut parser = Parser::new(Lexer::new("if (a) { } if (b) { }")).unwrap();
    assert!(parser.parse().is_ok());
    assert_eq!(parser.position(), 12);
    assert_eq!(parser.tokens().len(), 13);
    assert_eq!(parser.tokens()[parser.position()], eof());
}

#[test]
fn second_parse_finds_nothing_left() {
    let mut parser = Parser::new(Lexer::new("if (a) { }")).unwrap();
    assert_eq!(parser.parse(), Ok(vec![Stmt::If(Box::new(variable("a")), vec![])]));
    assert_eq!(parser.parse(), Ok(vec![]));
    assert_eq!(parser.parse(), Ok(vec![]));
}

#[test]
fn fresh_parsers_agree() {
    let text = "function f(a) { if (a + 1) { } } if (f) { }";
    let first = parse_text(text);
    let second = parse_text(text);
    assert!(first.is_ok());
    assert_eq!(first, second);
    let bad = "function f(a) { if (a + ) { } }";
    assert_eq!(parse_text(bad), parse_text(bad));
    assert!(parse_text(bad).is_err());
}

#[test]
fn parser_starts_where_the_lexer_stands() {
    let mut lexer = Lexer::new("if (a) { }");
    assert!(lexer.tokenize().is_ok());
    let mut parser = Parser::new(lexer).unwrap();
    assert_eq!(parser.tokens(), &vec![eof()]);
    assert_eq!(parser.parse(), Ok(vec![]));
}

#[test]
fn cursor_rests_where_the_fault_is() {
    let mut stray = Parser::new(Lexer::new("if (a + ) { }")).unwrap();
    assert_eq!(stray.parse(), Err(ParseError::UnexpectedToken { position: 4 }));
    assert_eq!(stray.position(), 4);

    let mut wide = Parser::new(Lexer::new("if (99999999999) { }")).unwrap();
    assert_eq!(wide.parse(), Err(ParseError::InvalidNumber { position: 2 }));
    assert_eq!(wide.position(), 3);

    let mut short = Parser::new(Lexer::new("if (a")).unwrap();
    assert_eq!(short.parse(), Err(ParseError::UnexpectedEnd));
    assert_eq!(short.position(), short.tokens().len());
}

#[test]
fn cursor_never_moves_back() {
    for text in ["", "if (a) { }", "if (a", "function f(a, 1) { }", "x + 1", "1"] {
        let mut parser = Parser::new(Lexer::new(text)).unwrap();
        let _ = parser.parse();
        let first = parser.position();
        assert!(first <= parser.tokens().len());
        let _ = parser.parse();
        assert!(first <= parser.position());
        assert!(parser.position() <= parser.tokens().len());
    }
}
