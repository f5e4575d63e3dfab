use crate::ast::{rank_of, Expr, Precedence, Stmt};
use crate::lexer::{is_digit, lemma_lex_progress, lex};
use crate::token::{kind_str, TokenType};
use vstd::prelude::*;

verus! {

/// The binding strength of a token in infix position; `LOWEST` for tokens
/// that are not infix operators.
pub open spec fn infix_precedence(t: TokenType) -> Precedence {
    match t {
        TokenType::EQ | TokenType::NOT_EQ => Precedence::EQUALS,
        TokenType::LESS | TokenType::GREATER => Precedence::LESSGREATER,
        TokenType::PLUS | TokenType::MINUS => Precedence::SUM,
        TokenType::STAR | TokenType::FSLASH => Precedence::PRODUCT,
        TokenType::LPAREN => Precedence::CALL,
        _ => Precedence::LOWEST,
    }
}

/// The message for a token of kind `expected` missing where `got` stands.
pub open spec fn peek_error_msg(expected: TokenType, got: Seq<char>) -> Seq<char> {
    "expected "@ + kind_str(expected)@ + ", but got "@ + got + " instead"@
}

/// The message for a token of kind `t` that cannot start an expression.
pub open spec fn no_prefix_msg(t: TokenType) -> Seq<char> {
    "no prefix parse function for "@ + kind_str(t)@
}

/// The message for an integer literal that does not give an `i64`.
pub open spec fn int_error_msg(lit: Seq<char>) -> Seq<char> {
    "could not parse "@ + lit + " as integer"@
}

/// The value of a string of decimal digits.
pub open spec fn decimal(s: Seq<char>) -> int
    decreases s.len(),
{
    if s.len() == 0 {
        0
    } else {
        decimal(s.drop_last()) * 10 + (s.last() as u32 - '0' as u32)
    }
}

pub open spec fn all_digits(s: Seq<char>) -> bool {
    forall|i: int| 0 <= i < s.len() ==> is_digit(#[trigger] s[i])
}

/// The text is a non-empty run of decimal digits whose value fits in an `i64`.
pub open spec fn parses_as_i64(s: Seq<char>) -> bool {
    s.len() > 0 && all_digits(s) && decimal(s) <= i64::MAX
}

pub open spec fn flag(b: bool) -> int {
    if b {
        1
    } else {
        0
    }
}

/// A point in a parse: where the tokenizer stands, and the current and the
/// next token, each as kind and text.
pub struct ParseState {
    pub pos: int,
    pub cur: (TokenType, Seq<char>),
    pub peek: (TokenType, Seq<char>),
}

pub open spec fn state_wf(s: Seq<char>, st: ParseState) -> bool {
    &&& 0 <= st.pos <= s.len()
    &&& st.peek.0 == TokenType::EOF ==> st.pos == s.len()
    &&& st.cur.0 == TokenType::EOF ==> st.peek.0 == TokenType::EOF
}

pub open spec fn left_to_read(s: Seq<char>, st: ParseState) -> int {
    (s.len() - st.pos) + flag(st.cur.0 != TokenType::EOF) + flag(st.peek.0 != TokenType::EOF)
}

/// One token on: the next token becomes current and one more is read.
pub open spec fn advance(s: Seq<char>, st: ParseState) -> ParseState {
    let t = lex(s, st.pos);
    ParseState { pos: t.2, cur: st.peek, peek: (t.0, t.1) }
}

pub proof fn lemma_advance(s: Seq<char>, st: ParseState)
    requires
        state_wf(s, st),
    ensures
        state_wf(s, advance(s, st)),
        left_to_read(s, advance(s, st)) <= left_to_read(s, st),
        st.cur.0 != TokenType::EOF ==> left_to_read(s, advance(s, st)) < left_to_read(s, st),
{
    lemma_lex_progress(s, st.pos);
}

/// Checks that the next token has kind `t` and moves onto it; otherwise
/// records an error and stays.
pub open spec fn expect_at(s: Seq<char>, st: ParseState, t: TokenType) -> (bool, ParseState, Seq<Seq<char>>) {
    if st.peek.0 == t {
        (true, advance(s, st), seq![])
    } else {
        (false, st, seq![peek_error_msg(t, st.peek.1)])
    }
}

/// What parsing an expression at `st` gives: the expression (`None` on
/// failure), where the parse then stands, and the errors recorded on the way.
/// A prefix rule chosen by the current token gives the first operand; then,
/// while the next token is an infix operator that binds more strongly than
/// `prec`, it takes the operand so far as its left side.
/// The branches that give `None` with no error stand for a step that would
/// move backwards; `lemma_expr_progress` shows that none does.
pub open spec fn expr_at(s: Seq<char>, st: ParseState, prec: Precedence) -> (
    Option<Expr>,
    ParseState,
    Seq<Seq<char>>,
)
    decreases left_to_read(s, st), 4int,
    when state_wf(s, st)
{
    let p = prefix_at(s, st);
    match p.0 {
        None => p,
        Some(first) => {
            if state_wf(s, p.1) && left_to_read(s, p.1) <= left_to_read(s, st) {
                let q = infix_loop(s, p.1, first, prec);
                (q.0, q.1, p.2 + q.2)
            } else {
                (None, p.1, p.2)
            }
        },
    }
}

/// Extends `left` with infix operators that bind more strongly than `prec`.
pub open spec fn infix_loop(s: Seq<char>, st: ParseState, left: Expr, prec: Precedence) -> (
    Option<Expr>,
    ParseState,
    Seq<Seq<char>>,
)
    decreases left_to_read(s, st), 3int,
    when state_wf(s, st)
{
    if rank_of(prec) < rank_of(infix_precedence(st.peek.0)) {
        proof {
            lemma_advance(s, st);
        }
        let st1 = advance(s, st);
        let r = infix_at(s, st1, left);
        match r.0 {
            None => r,
            Some(e) => {
                if state_wf(s, r.1) && left_to_read(s, r.1) <= left_to_read(s, st1) {
                    let l = infix_loop(s, r.1, e, prec);
                    (l.0, l.1, r.2 + l.2)
                } else {
                    (None, r.1, r.2)
                }
            },
        }
    } else {
        (Some(left), st, seq![])
    }
}

/// The expression that starts at the current token: a name, an integer, `!`
/// or `-` applied to an operand, or an expression in parentheses.
pub open spec fn prefix_at(s: Seq<char>, st: ParseState) -> (Option<Expr>, ParseState, Seq<Seq<char>>)
    decreases left_to_read(s, st), 3int,
    when state_wf(s, st)
{
    let k = st.cur.0;
    if k == TokenType::IDENT {
        (Some(Expr::Ident(st.cur.1)), st, seq![])
    } else if k == TokenType::INT {
        if parses_as_i64(st.cur.1) {
            (Some(Expr::Int(decimal(st.cur.1))), st, seq![])
        } else {
            (None, st, seq![int_error_msg(st.cur.1)])
        }
    } else if k == TokenType::BANG || k == TokenType::MINUS {
        proof {
            lemma_advance(s, st);
        }
        let r = expr_at(s, advance(s, st), Precedence::PREFIX);
        match r.0 {
            Some(e) => (Some(Expr::Prefix(st.cur.1, Box::new(e))), r.1, r.2),
            None => r,
        }
    } else if k == TokenType::LPAREN {
        proof {
            lemma_advance(s, st);
        }
        let r = expr_at(s, advance(s, st), Precedence::LOWEST);
        match r.0 {
            None => r,
            Some(e) => {
                let x = expect_at(s, r.1, TokenType::RPAREN);
                (
                    if x.0 {
                        Some(e)
                    } else {
                        None
                    },
                    x.1,
                    r.2 + x.2,
                )
            },
        }
    } else {
        (None, st, seq![no_prefix_msg(k)])
    }
}

/// The infix operator or call at the current token, with `left` as its left
/// side.
pub open spec fn infix_at(s: Seq<char>, st: ParseState, left: Expr) -> (
    Option<Expr>,
    ParseState,
    Seq<Seq<char>>,
)
    decreases left_to_read(s, st), 2int,
    when state_wf(s, st) && st.cur.0 != TokenType::EOF
{
    if st.cur.0 == TokenType::LPAREN {
        let a = args_at(s, st);
        match a.0 {
            Some(args) => (Some(Expr::Call(Box::new(left), args)), a.1, a.2),
            None => (None, a.1, a.2),
        }
    } else {
        proof {
            lemma_advance(s, st);
        }
        let r = expr_at(s, advance(s, st), infix_precedence(st.cur.0));
        match r.0 {
            Some(e) => (Some(Expr::Infix(Box::new(left), st.cur.1, Box::new(e))), r.1, r.2),
            None => r,
        }
    }
}

/// The arguments of a call whose `(` is the current token, up to the `)`.
pub open spec fn args_at(s: Seq<char>, st: ParseState) -> (Option<Seq<Expr>>, ParseState, Seq<Seq<char>>)
    decreases left_to_read(s, st), 1int,
    when state_wf(s, st) && st.cur.0 != TokenType::EOF
{
    proof {
        lemma_advance(s, st);
    }
    if st.peek.0 == TokenType::RPAREN {
        (Some(seq![]), advance(s, st), seq![])
    } else {
        let st1 = advance(s, st);
        let r = expr_at(s, st1, Precedence::LOWEST);
        match r.0 {
            None => (None, r.1, r.2),
            Some(e) => {
                if state_wf(s, r.1) && left_to_read(s, r.1) <= left_to_read(s, st1) {
                    let l = args_loop(s, r.1, seq![e]);
                    (l.0, l.1, r.2 + l.2)
                } else {
                    (None, r.1, r.2)
                }
            },
        }
    }
}

/// The arguments after the first, each after a `,`, then the `)`.
pub open spec fn args_loop(s: Seq<char>, st: ParseState, acc: Seq<Expr>) -> (
    Option<Seq<Expr>>,
    ParseState,
    Seq<Seq<char>>,
)
    decreases left_to_read(s, st), 0int,
    when state_wf(s, st)
{
    if st.peek.0 == TokenType::COMMA {
        proof {
            lemma_advance(s, st);
            lemma_advance(s, advance(s, st));
        }
        let st2 = advance(s, advance(s, st));
        let r = expr_at(s, st2, Precedence::LOWEST);
        match r.0 {
            None => (None, r.1, r.2),
            Some(e) => {
                if state_wf(s, r.1) && left_to_read(s, r.1) <= left_to_read(s, st2) {
                    let l = args_loop(s, r.1, acc.push(e));
                    (l.0, l.1, r.2 + l.2)
                } else {
                    (None, r.1, r.2)
                }
            },
        }
    } else {
        let x = expect_at(s, st, TokenType::RPAREN);
        (
            if x.0 {
                Some(acc)
            } else {
                None
            },
            x.1,
            x.2,
        )
    }
}

/// `b` is a well-formed state with no more left to read than `a`.
pub open spec fn no_backwards(s: Seq<char>, a: ParseState, b: ParseState) -> bool {
    state_wf(s, b) && left_to_read(s, b) <= left_to_read(s, a)
}

/// Parsing an expression never moves backwards: it ends in a well-formed
/// state with no more left to read than at its start.
pub proof fn lemma_expr_progress(s: Seq<char>, st: ParseState, prec: Precedence)
    requires
        state_wf(s, st),
    ensures
        no_backwards(s, st, expr_at(s, st, prec).1),
    decreases left_to_read(s, st), 4int,
{
    let p = prefix_at(s, st);
    lemma_prefix_progress(s, st);
    if let Some(first) = p.0 {
        lemma_infix_loop_progress(s, p.1, first, prec);
    }
}

pub proof fn lemma_infix_loop_progress(s: Seq<char>, st: ParseState, left: Expr, prec: Precedence)
    requires
        state_wf(s, st),
    ensures
        no_backwards(s, st, infix_loop(s, st, left, prec).1),
    decreases left_to_read(s, st), 3int,
{
    if rank_of(prec) < rank_of(infix_precedence(st.peek.0)) {
        lemma_advance(s, st);
        let st1 = advance(s, st);
        let r = infix_at(s, st1, left);
        lemma_infix_at_progress(s, st1, left);
        if let Some(e) = r.0 {
            lemma_infix_loop_progress(s, r.1, e, prec);
        }
    }
}

pub proof fn lemma_prefix_progress(s: Seq<char>, st: ParseState)
    requires
        state_wf(s, st),
    ensures
        no_backwards(s, st, prefix_at(s, st).1),
    decreases left_to_read(s, st), 3int,
{
    let k = st.cur.0;
    if k == TokenType::BANG || k == TokenType::MINUS {
        lemma_advance(s, st);
        lemma_expr_progress(s, advance(s, st), Precedence::PREFIX);
    } else if k == TokenType::LPAREN {
        lemma_advance(s, st);
        let r = expr_at(s, advance(s, st), Precedence::LOWEST);
        lemma_expr_progress(s, advance(s, st), Precedence::LOWEST);
        if r.0 is Some {
            lemma_advance(s, r.1);
        }
    }
}

pub proof fn lemma_infix_at_progress(s: Seq<char>, st: ParseState, left: Expr)
    requires
        state_wf(s, st),
        st.cur.0 != TokenType::EOF,
    ensures
        no_backwards(s, st, infix_at(s, st, left).1),
    decreases left_to_read(s, st), 2int,
{
    if st.cur.0 == TokenType::LPAREN {
        lemma_args_at_progress(s, st);
    } else {
        lemma_advance(s, st);
        lemma_expr_progress(s, advance(s, st), infix_precedence(st.cur.0));
    }
}

pub proof fn lemma_args_at_progress(s: Seq<char>, st: ParseState)
    requires
        state_wf(s, st),
        st.cur.0 != TokenType::EOF,
    ensures
        no_backwards(s, st, args_at(s, st).1),
    decreases left_to_read(s, st), 1int,
{
    lemma_advance(s, st);
    if st.peek.0 != TokenType::RPAREN {
        let st1 = advance(s, st);
        let r = expr_at(s, st1, Precedence::LOWEST);
        lemma_expr_progress(s, st1, Precedence::LOWEST);
        if let Some(e) = r.0 {
            lemma_args_loop_progress(s, r.1, seq![e]);
        }
    }
}

pub proof fn lemma_args_loop_progress(s: Seq<char>, st: ParseState, acc: Seq<Expr>)
    requires
        state_wf(s, st),
    ensures
        no_backwards(s, st, args_loop(s, st, acc).1),
    decreases left_to_read(s, st), 0int,
{
    if st.peek.0 == TokenType::COMMA {
        lemma_advance(s, st);
        lemma_advance(s, advance(s, st));
        let st2 = advance(s, advance(s, st));
        let r = expr_at(s, st2, Precedence::LOWEST);
        lemma_expr_progress(s, st2, Precedence::LOWEST);
        if let Some(e) = r.0 {
            lemma_args_loop_progress(s, r.1, acc.push(e));
        }
    } else {
        lemma_advance(s, st);
    }
}

/// Where skipping to the end of a statement stops: at the first current
/// token that is `;` or the end of input.
pub open spec fn skip_to_semicolon_at(s: Seq<char>, st: ParseState) -> ParseState
    decreases left_to_read(s, st),
    when state_wf(s, st)
{
    if st.cur.0 == TokenType::SEMICOLON || st.cur.0 == TokenType::EOF {
        st
    } else {
        proof {
            lemma_advance(s, st);
        }
        skip_to_semicolon_at(s, advance(s, st))
    }
}

pub open spec fn map_let(name: Seq<char>, v: Option<Expr>) -> Option<Stmt> {
    match v {
        Some(e) => Some(Stmt::Let(name, e)),
        None => None,
    }
}

pub open spec fn map_return(v: Option<Expr>) -> Option<Stmt> {
    match v {
        Some(e) => Some(Stmt::Return(e)),
        None => None,
    }
}

pub open spec fn map_expr_stmt(v: Option<Expr>) -> Option<Stmt> {
    match v {
        Some(e) => Some(Stmt::ExprStmt(e)),
        None => None,
    }
}

/// `let <name> = <expression>`: the name and `=` must follow, or an error is
/// recorded and nothing more is read; after the value the parse skips to the
/// `;` that ends the statement.
pub open spec fn let_at(s: Seq<char>, st: ParseState) -> (Option<Stmt>, ParseState, Seq<Seq<char>>) {
    let x = expect_at(s, st, TokenType::IDENT);
    if !x.0 {
        (None, x.1, x.2)
    } else {
        let y = expect_at(s, x.1, TokenType::ASSIGN);
        if !y.0 {
            (None, y.1, y.2)
        } else {
            let r = expr_at(s, advance(s, y.1), Precedence::LOWEST);
            (map_let(x.1.cur.1, r.0), skip_to_semicolon_at(s, r.1), r.2)
        }
    }
}

/// `return <expression>`, then a skip to the `;` that ends the statement.
pub open spec fn return_at(s: Seq<char>, st: ParseState) -> (Option<Stmt>, ParseState, Seq<Seq<char>>) {
    let r = expr_at(s, advance(s, st), Precedence::LOWEST);
    (map_return(r.0), skip_to_semicolon_at(s, r.1), r.2)
}

/// An expression, and the `;` after it if there is one.
pub open spec fn expr_stmt_at(s: Seq<char>, st: ParseState) -> (Option<Stmt>, ParseState, Seq<Seq<char>>) {
    let r = expr_at(s, st, Precedence::LOWEST);
    (map_expr_stmt(r.0), if r.1.peek.0 == TokenType::SEMICOLON {
        advance(s, r.1)
    } else {
        r.1
    }, r.2)
}

/// One statement, chosen by the current token.
pub open spec fn stmt_at(s: Seq<char>, st: ParseState) -> (Option<Stmt>, ParseState, Seq<Seq<char>>) {
    if st.cur.0 == TokenType::LET {
        let_at(s, st)
    } else if st.cur.0 == TokenType::RETURN {
        return_at(s, st)
    } else {
        expr_stmt_at(s, st)
    }
}

pub proof fn lemma_skip_progress(s: Seq<char>, st: ParseState)
    requires
        state_wf(s, st),
    ensures
        no_backwards(s, st, skip_to_semicolon_at(s, st)),
    decreases left_to_read(s, st),
{
    if !(st.cur.0 == TokenType::SEMICOLON || st.cur.0 == TokenType::EOF) {
        lemma_advance(s, st);
        lemma_skip_progress(s, advance(s, st));
    }
}

/// Parsing a statement never moves backwards.
pub proof fn lemma_stmt_progress(s: Seq<char>, st: ParseState)
    requires
        state_wf(s, st),
    ensures
        no_backwards(s, st, stmt_at(s, st).1),
{
    lemma_advance(s, st);
    if st.cur.0 == TokenType::LET {
        let x = expect_at(s, st, TokenType::IDENT);
        if x.0 {
            lemma_advance(s, x.1);
            let y = expect_at(s, x.1, TokenType::ASSIGN);
            if y.0 {
                lemma_advance(s, y.1);
                lemma_expr_progress(s, advance(s, y.1), Precedence::LOWEST);
                lemma_skip_progress(s, expr_at(s, advance(s, y.1), Precedence::LOWEST).1);
            }
        }
    } else if st.cur.0 == TokenType::RETURN {
        lemma_expr_progress(s, advance(s, st), Precedence::LOWEST);
        lemma_skip_progress(s, expr_at(s, advance(s, st), Precedence::LOWEST).1);
    } else {
        lemma_expr_progress(s, st, Precedence::LOWEST);
        lemma_advance(s, expr_at(s, st, Precedence::LOWEST).1);
    }
}

/// From a statement that does not start at the end of input, moving one
/// token past it leaves strictly less to read; so the branch of `program_at`
/// that stops early is never taken.
pub proof fn lemma_program_step(s: Seq<char>, st: ParseState)
    requires
        state_wf(s, st),
        st.cur.0 != TokenType::EOF,
    ensures
        state_wf(s, stmt_at(s, st).1),
        left_to_read(s, advance(s, stmt_at(s, st).1)) < left_to_read(s, st),
{
    lemma_stmt_progress(s, st);
    lemma_advance(s, stmt_at(s, st).1);
}

/// The statements from `st` to the end of input, and the errors recorded:
/// each statement is parsed, kept when it succeeds, and the parse moves one
/// token past it.
pub open spec fn program_at(s: Seq<char>, st: ParseState) -> (Seq<Stmt>, Seq<Seq<char>>)
    decreases left_to_read(s, st),
    when state_wf(s, st)
{
    if st.cur.0 == TokenType::EOF {
        (seq![], seq![])
    } else {
        let r = stmt_at(s, st);
        let next = advance(s, r.1);
        if state_wf(s, r.1) && left_to_read(s, next) < left_to_read(s, st) {
            proof {
                lemma_advance(s, r.1);
            }
            let rest = program_at(s, next);
            (
                match r.0 {
                    Some(x) => seq![x] + rest.0,
                    None => rest.0,
                },
                r.2 + rest.1,
            )
        } else {
            (seq![], r.2)
        }
    }
}

} // verus!
