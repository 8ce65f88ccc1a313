//! The syntax tree: expressions and statements, and what they stand for in
//! contracts.

use vstd::prelude::*;

verus! {

/// An expression.
#[derive(Debug, PartialEq, Eq)]
pub enum Expr {
    NumberLiteral(i32),
    Variable(String),
    Binary(Box<Expr>, String, Box<Expr>),
}

/// A statement.
#[derive(Debug, PartialEq, Eq)]
pub enum Stmt {
    Assignment(String, Expr),
    FunctionDeclaration(String, Vec<String>, Vec<Stmt>),
    If(Box<Expr>, Vec<Stmt>),
}

/// What an [`Expr`] stands for in contracts.
pub ghost enum ExprView {
    NumberLiteral(int),
    Variable(Seq<char>),
    Binary(Box<ExprView>, Seq<char>, Box<ExprView>),
}

/// What a [`Stmt`] stands for in contracts.
pub ghost enum StmtView {
    Assignment(Seq<char>, ExprView),
    FunctionDeclaration(Seq<char>, Seq<Seq<char>>, Seq<StmtView>),
    If(ExprView, Seq<StmtView>),
}

/// The tree that `e` stands for.
pub open spec fn expr_view(e: Expr) -> ExprView
    decreases e,
{
    match e {
        Expr::NumberLiteral(n) => ExprView::NumberLiteral(n as int),
        Expr::Variable(name) => ExprView::Variable(name@),
        Expr::Binary(left, op, right) => ExprView::Binary(
            Box::new(expr_view(*left)),
            op@,
            Box::new(expr_view(*right)),
        ),
    }
}

/// The tree that `s` stands for.
pub open spec fn stmt_view(s: Stmt) -> StmtView
    decreases s,
{
    match s {
        Stmt::Assignment(name, value) => StmtView::Assignment(name@, expr_view(value)),
        Stmt::FunctionDeclaration(name, params, body) => StmtView::FunctionDeclaration(
            name@,
            names_view(params@),
            Seq::new(
                body.len() as nat,
                |i: int|
                    if 0 <= i < body.len() {
                        stmt_view(body[i])
                    } else {
                        arbitrary()
                    },
            ),
        ),
        Stmt::If(condition, body) => StmtView::If(
            expr_view(*condition),
            Seq::new(
                body.len() as nat,
                |i: int|
                    if 0 <= i < body.len() {
                        stmt_view(body[i])
                    } else {
                        arbitrary()
                    },
            ),
        ),
    }
}

impl View for Expr {
    type V = ExprView;

    open spec fn view(&self) -> ExprView {
        expr_view(*self)
    }
}

impl View for Stmt {
    type V = StmtView;

    open spec fn view(&self) -> StmtView {
        stmt_view(*self)
    }
}

/// The views of a sequence of names, in order.
pub open spec fn names_view(names: Seq<String>) -> Seq<Seq<char>> {
    Seq::new(names.len(), |i: int| names[i]@)
}

/// The views of a sequence of statements, in order.
pub open spec fn stmts_view(stmts: Seq<Stmt>) -> Seq<StmtView> {
    Seq::new(stmts.len(), |i: int| stmts[i]@)
}

/// A declaration stands for its name, its parameters and the trees of its
/// body, in order.
pub proof fn lemma_function_view(name: String, params: Vec<String>, body: Vec<Stmt>)
    ensures
        Stmt::FunctionDeclaration(name, params, body)@ == StmtView::FunctionDeclaration(
            name@,
            names_view(params@),
            stmts_view(body@),
        ),
{
    let stmt = Stmt::FunctionDeclaration(name, params, body);
    assert(stmt_view(stmt)->FunctionDeclaration_2 =~= stmts_view(body@));
}

/// A conditional stands for the tree of its condition and the trees of its
/// body, in order.
pub proof fn lemma_conditional_view(condition: Box<Expr>, body: Vec<Stmt>)
    ensures
        Stmt::If(condition, body)@ == StmtView::If(expr_view(*condition), stmts_view(body@)),
{
    let stmt = Stmt::If(condition, body);
    assert(stmt_view(stmt)->If_1 =~= stmts_view(body@));
}

} // verus!
