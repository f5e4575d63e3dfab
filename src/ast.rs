use vstd::prelude::*;

verus! {

/// A parsed program: its statements in source order.
#[derive(Debug, PartialEq)]
pub struct Program {
    pub statements: Vec<Statement>,
}

#[derive(Debug, PartialEq)]
pub enum Statement {
    LetStatement(Identifier, Expression),
    ReturnStatement(Expression),
    ExpressionStatement(Expression),
}

/// A name; two are equal when their text is.
#[derive(Debug, PartialEq, Clone)]
pub struct Identifier(pub String);

#[derive(Debug, PartialEq)]
pub enum Expression {
    Identifier(Identifier),
    IntegerLiteral(i64),
    PrefixExpression { operator: String, right: Box<Expression> },
    InfixExpression { left: Box<Expression>, operator: String, right: Box<Expression> },
    CallExpression { function: Box<Expression>, arguments: Vec<Expression> },
}

/// What an expression denotes, with texts as character sequences.
pub enum Expr {
    Ident(Seq<char>),
    Int(int),
    Prefix(Seq<char>, Box<Expr>),
    Infix(Box<Expr>, Seq<char>, Box<Expr>),
    Call(Box<Expr>, Seq<Expr>),
}

impl Expression {
    pub open spec fn view(&self) -> Expr
        decreases self,
    {
        match self {
            Expression::Identifier(id) => Expr::Ident(id.0@),
            Expression::IntegerLiteral(v) => Expr::Int(*v as int),
            Expression::PrefixExpression { operator, right } => Expr::Prefix(operator@, Box::new(right.view())),
            Expression::InfixExpression { left, operator, right } => Expr::Infix(
                Box::new(left.view()),
                operator@,
                Box::new(right.view()),
            ),
            Expression::CallExpression { function, arguments } => Expr::Call(
                Box::new(function.view()),
                Seq::new(
                    arguments@.len(),
                    |i: int|
                        {
                            if 0 <= i < arguments@.len() {
                                arguments@[i].view()
                            } else {
                                Expr::Int(0)
                            }
                        },
                ),
            ),
        }
    }
}

/// What a statement denotes.
pub enum Stmt {
    Let(Seq<char>, Expr),
    Return(Expr),
    ExprStmt(Expr),
}

impl Statement {
    pub open spec fn view(&self) -> Stmt {
        match self {
            Statement::LetStatement(name, value) => Stmt::Let(name.0@, value.view()),
            Statement::ReturnStatement(value) => Stmt::Return(value.view()),
            Statement::ExpressionStatement(value) => Stmt::ExprStmt(value.view()),
        }
    }
}

/// Binding strength of operators, from the weakest to the strongest.
#[derive(Debug, Clone, Copy, PartialEq, Eq, Structural, PartialOrd, Ord)]
pub enum Precedence {
    LOWEST,
    EQUALS,
    LESSGREATER,
    SUM,
    PRODUCT,
    PREFIX,
    CALL,
}

pub open spec fn rank_of(p: Precedence) -> nat {
    match p {
        Precedence::LOWEST => 0,
        Precedence::EQUALS => 1,
        Precedence::LESSGREATER => 2,
        Precedence::SUM => 3,
        Precedence::PRODUCT => 4,
        Precedence::PREFIX => 5,
        Precedence::CALL => 6,
    }
}

impl Precedence {
    /// The position of this level in the order, `LOWEST` being 0.
    pub fn rank(self) -> (r: u8)
        ensures
            r == rank_of(self),
    {
        match self {
            Precedence::LOWEST => 0,
            Precedence::EQUALS => 1,
            Precedence::LESSGREATER => 2,
            Precedence::SUM => 3,
            Precedence::PRODUCT => 4,
            Precedence::PREFIX => 5,
            Precedence::CALL => 6,
        }
    }
}

} // verus!
