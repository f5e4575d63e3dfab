use crate::ast::{rank_of, Expr, Expression, Identifier, Precedence, Program, Statement, Stmt};
use crate::grammar::{
    advance, all_digits, args_at, args_loop, decimal, expect_at, expr_at, expr_stmt_at, flag,
    infix_at, infix_loop, infix_precedence, int_error_msg, let_at, no_prefix_msg,
    parses_as_i64, peek_error_msg, prefix_at, program_at, return_at, skip_to_semicolon_at, stmt_at,
    ParseState,
};
use crate::lexer::{is_digit, lemma_lex_progress, lex, Lexer};
use crate::token::{new_token, Token, TokenType};
use vstd::prelude::*;
use vstd::string::*;

verus! {

pub fn precedence_of(t: TokenType) -> (r: Precedence)
    ensures
        r == infix_precedence(t),
{
    match t {
        TokenType::EQ | TokenType::NOT_EQ => Precedence::EQUALS,
        TokenType::LESS | TokenType::GREATER => Precedence::LESSGREATER,
        TokenType::PLUS | TokenType::MINUS => Precedence::SUM,
        TokenType::STAR | TokenType::FSLASH => Precedence::PRODUCT,
        TokenType::LPAREN => Precedence::CALL,
        _ => Precedence::LOWEST,
    }
}

/// `b` holds the messages of `a`, in the same order, and possibly more after.
pub open spec fn extends(a: Seq<String>, b: Seq<String>) -> bool {
    &&& a.len() <= b.len()
    &&& forall|i: int| 0 <= i < a.len() ==> b[i] == a[i]
}

/// `b` is `a` with the one message `msg` added at the end.
pub open spec fn pushed(a: Seq<String>, b: Seq<String>, msg: Seq<char>) -> bool {
    &&& extends(a, b)
    &&& b.len() == a.len() + 1
    &&& b[a.len() as int]@ == msg
}

proof fn lemma_decimal_nonneg(s: Seq<char>)
    requires
        all_digits(s),
    ensures
        decimal(s) >= 0,
    decreases s.len(),
{
    if s.len() > 0 {
        assert(is_digit(s[s.len() - 1]));
        lemma_decimal_nonneg(s.drop_last());
    }
}

proof fn lemma_decimal_prefix_grows(s: Seq<char>, i: int, j: int)
    requires
        0 <= i <= j <= s.len(),
        all_digits(s),
    ensures
        decimal(s.subrange(0, i)) <= decimal(s.subrange(0, j)),
    decreases j - i,
{
    if i < j {
        lemma_decimal_prefix_grows(s, i, j - 1);
        assert(s.subrange(0, j).drop_last() =~= s.subrange(0, j - 1));
        assert(all_digits(s.subrange(0, j - 1)));
        lemma_decimal_nonneg(s.subrange(0, j - 1));
        assert(is_digit(s[j - 1]));
    }
}

/// Reads a decimal integer: `None` unless the text is a non-empty run of
/// digits whose value fits in an `i64`.
pub fn parse_i64(s: &str) -> (r: Option<i64>)
    ensures
        r is Some <==> parses_as_i64(s@),
        r is Some ==> r->0 == decimal(s@),
{
    let n = s.unicode_len();
    if n == 0 {
        return None;
    }
    let mut value: i64 = 0;
    let mut i: usize = 0;
    while i < n
        invariant
            n == s@.len(),
            i <= n,
            all_digits(s@.subrange(0, i as int)),
            value == decimal(s@.subrange(0, i as int)),
            0 <= value,
        decreases n - i,
    {
        let c = s.get_char(i);
        if !('0' <= c && c <= '9') {
            return None;
        }
        let d = (c as u32 - '0' as u32) as i64;
        assert(s@.subrange(0, i + 1).drop_last() =~= s@.subrange(0, i as int));
        assert(all_digits(s@.subrange(0, i + 1)));
        if value > (i64::MAX - d) / 10 {
            proof {
                if all_digits(s@) {
                    lemma_decimal_prefix_grows(s@, i + 1, n as int);
                    assert(s@.subrange(0, n as int) =~= s@);
                }
            }
            return None;
        }
        value = value * 10 + d;
        i = i + 1;
    }
    assert(s@.subrange(0, n as int) =~= s@);
    Some(value)
}

pub open spec fn opt_stmt_view(r: Option<Statement>) -> Option<Stmt> {
    match r {
        Some(x) => Some(x.view()),
        None => None,
    }
}

pub open spec fn stmt_views(v: Seq<Statement>) -> Seq<Stmt> {
    v.map_values(|x: Statement| x.view())
}

/// The messages that `b` holds after those of `a`.
pub open spec fn added(a: Seq<String>, b: Seq<String>) -> Seq<Seq<char>> {
    b.subrange(a.len() as int, b.len() as int).map_values(|e: String| e@)
}

pub open spec fn opt_view(r: Option<Expression>) -> Option<Expr> {
    match r {
        Some(e) => Some(e.view()),
        None => None,
    }
}

pub open spec fn views(v: Seq<Expression>) -> Seq<Expr> {
    v.map_values(|e: Expression| e.view())
}

pub open spec fn opt_views(r: Option<Vec<Expression>>) -> Option<Seq<Expr>> {
    match r {
        Some(v) => Some(views(v@)),
        None => None,
    }
}

proof fn lemma_added_concat(a: Seq<String>, b: Seq<String>, c: Seq<String>)
    requires
        extends(a, b),
        extends(b, c),
    ensures
        extends(a, c),
        added(a, c) == added(a, b) + added(b, c),
{
    assert(added(a, c) =~= added(a, b) + added(b, c));
}

proof fn lemma_added_nothing(a: Seq<String>)
    ensures
        added(a, a) == Seq::<Seq<char>>::empty(),
{
    assert(added(a, a) =~= Seq::<Seq<char>>::empty());
}

proof fn lemma_added_pushed(a: Seq<String>, b: Seq<String>, msg: Seq<char>)
    requires
        pushed(a, b, msg),
    ensures
        added(a, b) == seq![msg],
{
    assert(added(a, b) =~= seq![msg]);
}

/// Parser state: the tokenizer, the current token, one token of lookahead,
/// and the errors found so far, in the order found.
pub struct Parser {
    pub lexer: Lexer,
    pub current_token: Token,
    pub peek_token: Token,
    pub errors: Vec<String>,
}

impl Parser {
    pub open spec fn input(&self) -> Seq<char> {
        self.lexer.input@
    }

    pub open spec fn cur_kind(&self) -> TokenType {
        self.current_token.token_type
    }

    pub open spec fn peek_kind(&self) -> TokenType {
        self.peek_token.token_type
    }

    /// The lookahead was read last, so the input is used up once it is
    /// `EOF`; and the end, once current, stays current.
    pub open spec fn wf(&self) -> bool {
        &&& self.lexer.wf()
        &&& self.peek_kind() == TokenType::EOF ==> self.lexer.position == self.input().len()
        &&& self.cur_kind() == TokenType::EOF ==> self.peek_kind() == TokenType::EOF
    }

    /// What is left to read: it shrinks at each step that does not start at `EOF`.
    pub open spec fn measure(&self) -> int {
        (self.input().len() - self.lexer.position) + flag(self.cur_kind() != TokenType::EOF)
            + flag(self.peek_kind() != TokenType::EOF)
    }

    /// `self` is a well-formed later state of the parse that `prev` was in:
    /// same input, no more left to read, earlier errors kept.
    pub open spec fn follows(&self, prev: &Parser) -> bool {
        &&& self.wf()
        &&& self.input() == prev.input()
        &&& self.measure() <= prev.measure()
        &&& extends(prev.errors@, self.errors@)
    }

    pub open spec fn state(&self) -> ParseState {
        ParseState {
            pos: self.lexer.position as int,
            cur: (self.cur_kind(), self.current_token.literal@),
            peek: (self.peek_kind(), self.peek_token.literal@),
        }
    }

    /// Going from `prev` to `self` gave `value`, and the place and the
    /// errors that the outcome `o` says.
    pub open spec fn reached<T>(&self, prev: &Parser, value: T, o: (T, ParseState, Seq<Seq<char>>)) -> bool {
        &&& value == o.0
        &&& self.state() == o.1
        &&& added(prev.errors@, self.errors@) == o.2
    }

    /// A parser over `lexer`, with the first two tokens read.
    pub fn new(lexer: Lexer) -> (p: Parser)
        requires
            lexer.wf(),
        ensures
            p.wf(),
            p.input() == lexer.input@,
            p.errors@.len() == 0,
            ({
                let first = lex(lexer.input@, lexer.position as int);
                let second = lex(lexer.input@, first.2);
                &&& p.cur_kind() == first.0
                &&& p.current_token.literal@ == first.1
                &&& p.peek_kind() == second.0
                &&& p.peek_token.literal@ == second.1
                &&& p.lexer.position == second.2
            }),
    {
        let mut lexer = lexer;
        let ghost s = lexer.input@;
        let ghost at_start = lexer.position as int;
        let first = lexer.next_token();
        let ghost after_first = lexer.position as int;
        let second = lexer.next_token();
        proof {
            lemma_lex_progress(s, at_start);
            lemma_lex_progress(s, after_first);
        }
        Parser { lexer, current_token: first, peek_token: second, errors: Vec::new() }
    }
}

impl Parser {
    /// Moves one token on: the lookahead becomes current and the next token
    /// is read. From anywhere but `EOF` this shrinks what is left to read.
    pub fn next_token(&mut self)
        requires
            old(self).wf(),
        ensures
            final(self).follows(old(self)),
            final(self).errors == old(self).errors,
            final(self).cur_kind() == old(self).peek_kind(),
            final(self).current_token.literal@ == old(self).peek_token.literal@,
            lex(old(self).input(), old(self).lexer.position as int) == (
            final(self).peek_kind(),
            final(self).peek_token.literal@,
            final(self).lexer.position as int,
            ),
            old(self).cur_kind() != TokenType::EOF ==> final(self).measure() < old(self).measure(),
            final(self).state() == advance(old(self).input(), old(self).state()),
    {
        proof {
            lemma_lex_progress(self.input(), self.lexer.position as int);
        }
        self.current_token = new_token(self.peek_token.token_type, self.peek_token.literal.clone());
        self.peek_token = self.lexer.next_token();
    }

    pub fn current_token_is(&self, t: TokenType) -> (r: bool)
        ensures
            r == (self.cur_kind() == t),
    {
        self.current_token.token_type == t
    }

    pub fn peek_token_is(&self, t: TokenType) -> (r: bool)
        ensures
            r == (self.peek_kind() == t),
    {
        self.peek_token.token_type == t
    }

    /// Records that a token of kind `t` was expected where the lookahead stands.
    pub fn peek_error(&mut self, t: TokenType)
        ensures
            final(self).lexer == old(self).lexer,
            final(self).current_token == old(self).current_token,
            final(self).peek_token == old(self).peek_token,
            pushed(old(self).errors@, final(self).errors@, peek_error_msg(t, old(self).peek_token.literal@)),
    {
        let mut msg = String::from_str("expected ");
        msg.append(t.name());
        msg.append(", but got ");
        msg.append(self.peek_token.literal.as_str());
        msg.append(" instead");
        self.errors.push(msg);
    }

    /// Moves on when the lookahead has kind `t`; otherwise records an error
    /// and stays.
    pub fn expect_peek(&mut self, t: TokenType) -> (r: bool)
        requires
            old(self).wf(),
        ensures
            r == (old(self).peek_kind() == t),
            final(self).follows(old(self)),
            r ==> final(self).errors == old(self).errors,
            r ==> final(self).cur_kind() == t,
            r ==> final(self).current_token.literal@ == old(self).peek_token.literal@,
            r ==> lex(old(self).input(), old(self).lexer.position as int) == (
            final(self).peek_kind(),
            final(self).peek_token.literal@,
            final(self).lexer.position as int,
            ),
            r && old(self).cur_kind() != TokenType::EOF ==> final(self).measure() < old(self).measure(),
            !r ==> final(self).lexer == old(self).lexer,
            !r ==> final(self).current_token == old(self).current_token,
            !r ==> final(self).peek_token == old(self).peek_token,
            !r ==> pushed(old(self).errors@, final(self).errors@, peek_error_msg(t, old(self).peek_token.literal@)),
            final(self).reached(old(self), r, expect_at(old(self).input(), old(self).state(), t)),
    {
        if self.peek_token_is(t) {
            self.next_token();
            proof {
                lemma_added_nothing(self.errors@);
            }
            true
        } else {
            let ghost e0 = self.errors@;
            self.peek_error(t);
            proof {
                lemma_added_pushed(e0, self.errors@, peek_error_msg(t, self.peek_token.literal@));
            }
            false
        }
    }
}

impl Parser {
    /// The current token as a name.
    fn parse_identifier(&self) -> (r: Identifier)
        ensures
            r.0@ == self.current_token.literal@,
    {
        Identifier(self.current_token.literal.clone())
    }

    /// The current token as an integer literal; records an error when its
    /// text does not give an `i64`.
    fn parse_integer_literal(&mut self) -> (r: Option<Expression>)
        requires
            old(self).wf(),
        ensures
            final(self).lexer == old(self).lexer,
            final(self).current_token == old(self).current_token,
            final(self).peek_token == old(self).peek_token,
            parses_as_i64(old(self).current_token.literal@) ==> final(self).errors == old(self).errors && (r matches Some(
                Expression::IntegerLiteral(v),
            ) && v == decimal(old(self).current_token.literal@)),
            !parses_as_i64(old(self).current_token.literal@) ==> r is None
                && pushed(old(self).errors@, final(self).errors@, int_error_msg(old(self).current_token.literal@)),
    {
        match parse_i64(self.current_token.literal.as_str()) {
            Some(value) => Some(Expression::IntegerLiteral(value)),
            None => {
                let mut msg = String::from_str("could not parse ");
                msg.append(self.current_token.literal.as_str());
                msg.append(" as integer");
                self.errors.push(msg);
                None
            },
        }
    }

    /// Records that the current token cannot start an expression.
    fn no_prefix_parse_error(&mut self)
        ensures
            final(self).lexer == old(self).lexer,
            final(self).current_token == old(self).current_token,
            final(self).peek_token == old(self).peek_token,
            pushed(old(self).errors@, final(self).errors@, no_prefix_msg(old(self).cur_kind())),
    {
        let mut msg = String::from_str("no prefix parse function for ");
        msg.append(self.current_token.token_type.name());
        self.errors.push(msg);
    }

    /// Parses an expression that starts at the current token: a name, an
    /// integer, `!` or `-` applied to an operand, or a parenthesized
    /// expression.
    fn prefix_parse(&mut self) -> (r: Option<Expression>)
        requires
            old(self).wf(),
        ensures
            final(self).follows(old(self)),
            final(self).reached(old(self), opt_view(r), prefix_at(old(self).input(), old(self).state())),
            r is None ==> old(self).errors@.len() < final(self).errors@.len(),
        decreases old(self).measure(), 3int,
    {
        let ghost st0 = self.state();
        let ghost e0 = self.errors@;
        match self.current_token.token_type {
            TokenType::IDENT => {
                proof {
                    lemma_added_nothing(e0);
                }
                Some(Expression::Identifier(self.parse_identifier()))
            },
            TokenType::INT => {
                let r = self.parse_integer_literal();
                proof {
                    if r is Some {
                        lemma_added_nothing(e0);
                    } else {
                        lemma_added_pushed(e0, self.errors@, int_error_msg(st0.cur.1));
                    }
                }
                r
            },
            TokenType::BANG | TokenType::MINUS => {
                let operator = self.current_token.literal.clone();
                self.next_token();
                match self.parse_expression(Precedence::PREFIX) {
                    Some(right) => Some(Expression::PrefixExpression { operator, right: Box::new(right) }),
                    None => None,
                }
            },
            TokenType::LPAREN => {
                self.next_token();
                let inner = self.parse_expression(Precedence::LOWEST);
                match inner {
                    Some(e) => {
                        let ghost e1 = self.errors@;
                        let ok = self.expect_peek(TokenType::RPAREN);
                        proof {
                            lemma_added_concat(e0, e1, self.errors@);
                        }
                        if ok {
                            Some(e)
                        } else {
                            None
                        }
                    },
                    None => None,
                }
            },
            _ => {
                self.no_prefix_parse_error();
                proof {
                    lemma_added_pushed(e0, self.errors@, no_prefix_msg(st0.cur.0));
                }
                None
            },
        }
    }

    /// Parses the arguments of a call whose `(` is the current token, up to
    /// and including the closing `)`.
    fn parse_call_arguments(&mut self) -> (r: Option<Vec<Expression>>)
        requires
            old(self).wf(),
            old(self).cur_kind() == TokenType::LPAREN,
        ensures
            final(self).follows(old(self)),
            final(self).reached(old(self), opt_views(r), args_at(old(self).input(), old(self).state())),
            r is None ==> old(self).errors@.len() < final(self).errors@.len(),
        decreases old(self).measure(), 2int,
    {
        let ghost s = self.input();
        let ghost st0 = self.state();
        let ghost e0 = self.errors@;
        let ghost total = args_at(s, st0);
        let mut args: Vec<Expression> = Vec::new();
        if self.peek_token_is(TokenType::RPAREN) {
            self.next_token();
            proof {
                lemma_added_nothing(e0);
                assert(views(args@) =~= Seq::<Expr>::empty());
            }
            return Some(args);
        }
        self.next_token();
        match self.parse_expression(Precedence::LOWEST) {
            Some(e) => args.push(e),
            None => {
                return None;
            },
        }
        proof {
            assert(views(args@) =~= seq![args@[0].view()]);
        }
        while self.peek_token_is(TokenType::COMMA)
            invariant
                self.follows(old(self)),
                self.measure() < old(self).measure(),
                self.input() == s,
                total == args_at(s, st0),
                e0 == old(self).errors@,
                st0 == old(self).state(),
                ({
                    let l = args_loop(s, self.state(), views(args@));
                    total == (l.0, l.1, added(e0, self.errors@) + l.2)
                }),
            decreases self.measure(),
        {
            let ghost ea = self.errors@;
            let ghost acc = views(args@);
            let ghost sta = self.state();
            self.next_token();
            self.next_token();
            let ghost st2 = self.state();
            match self.parse_expression(Precedence::LOWEST) {
                Some(e) => {
                    args.push(e);
                    proof {
                        lemma_added_concat(e0, ea, self.errors@);
                        assert(views(args@) =~= acc.push(e.view()));
                        assert(added(e0, ea) + added(ea, self.errors@) + args_loop(s, self.state(), views(args@)).2
                            =~= added(e0, ea) + (added(ea, self.errors@) + args_loop(s, self.state(), views(args@)).2));
                    }
                },
                None => {
                    proof {
                        lemma_added_concat(e0, ea, self.errors@);
                        let r = expr_at(s, st2, Precedence::LOWEST);
                        assert(args_loop(s, sta, acc) == (None::<Seq<Expr>>, r.1, r.2));
                    }
                    return None;
                },
            }
        }
        let ghost ea = self.errors@;
        let ok = self.expect_peek(TokenType::RPAREN);
        proof {
            lemma_added_concat(e0, ea, self.errors@);
        }
        if ok {
            Some(args)
        } else {
            None
        }
    }

    /// Extends `left` with the infix operator, or the call, at the current
    /// token.
    fn parse_infix(&mut self, left: Expression) -> (r: Option<Expression>)
        requires
            old(self).wf(),
            rank_of(infix_precedence(old(self).cur_kind())) > 0,
        ensures
            final(self).follows(old(self)),
            final(self).reached(old(self), opt_view(r), infix_at(old(self).input(), old(self).state(), left.view())),
            r is None ==> old(self).errors@.len() < final(self).errors@.len(),
        decreases old(self).measure(), 3int,
    {
        let ghost lv = left.view();
        if self.current_token_is(TokenType::LPAREN) {
            match self.parse_call_arguments() {
                Some(arguments) => {
                    let ghost av = views(arguments@);
                    let call = Expression::CallExpression { function: Box::new(left), arguments };
                    proof {
                        assert(call.view() == Expr::Call(Box::new(lv), av)) by {
                            let v = call.view();
                            assert(v->Call_1 =~= av);
                        }
                    }
                    Some(call)
                },
                None => None,
            }
        } else {
            let operator = self.current_token.literal.clone();
            let precedence = precedence_of(self.current_token.token_type);
            self.next_token();
            match self.parse_expression(precedence) {
                Some(right) => Some(
                    Expression::InfixExpression { left: Box::new(left), operator, right: Box::new(right) },
                ),
                None => None,
            }
        }
    }

    /// Parses an expression that starts at the current token and takes in
    /// every infix operator that binds more strongly than `precedence`;
    /// operators of equal strength are left to the caller, so they group to
    /// the left. On success the current token is the expression's last, and
    /// the lookahead binds no more strongly than `precedence`. A `None`
    /// always comes with a recorded error.
    pub fn parse_expression(&mut self, precedence: Precedence) -> (r: Option<Expression>)
        requires
            old(self).wf(),
        ensures
            final(self).follows(old(self)),
            final(self).reached(old(self), opt_view(r), expr_at(old(self).input(), old(self).state(), precedence)),
            r is None ==> old(self).errors@.len() < final(self).errors@.len(),
            r is Some ==> rank_of(infix_precedence(final(self).peek_kind())) <= rank_of(precedence),
        decreases old(self).measure(), 4int,
    {
        let ghost s = self.input();
        let ghost st0 = self.state();
        let ghost e0 = self.errors@;
        let ghost total = expr_at(s, st0, precedence);
        let mut left = match self.prefix_parse() {
            Some(e) => e,
            None => {
                return None;
            },
        };
        while precedence.rank() < precedence_of(self.peek_token.token_type).rank()
            invariant
                self.follows(old(self)),
                self.input() == s,
                total == expr_at(s, st0, precedence),
                e0 == old(self).errors@,
                st0 == old(self).state(),
                ({
                    let l = infix_loop(s, self.state(), left.view(), precedence);
                    total == (l.0, l.1, added(e0, self.errors@) + l.2)
                }),
            decreases self.measure(),
        {
            let ghost ea = self.errors@;
            let ghost sta = self.state();
            let ghost lv = left.view();
            self.next_token();
            let ghost st1 = self.state();
            left = match self.parse_infix(left) {
                Some(e) => e,
                None => {
                    proof {
                        lemma_added_concat(e0, ea, self.errors@);
                        assert(infix_loop(s, sta, lv, precedence) == infix_at(s, st1, lv));
                    }
                    return None;
                },
            };
            proof {
                lemma_added_concat(e0, ea, self.errors@);
                assert(added(e0, ea) + added(ea, self.errors@) + infix_loop(s, self.state(), left.view(), precedence).2
                    =~= added(e0, ea) + (added(ea, self.errors@) + infix_loop(s, self.state(), left.view(), precedence).2));
            }
        }
        proof {
            assert(added(e0, self.errors@) + Seq::<Seq<char>>::empty() =~= added(e0, self.errors@));
        }
        Some(left)
    }
}

impl Parser {
    /// Moves on until the current token is `;` or the end of input.
    fn skip_to_semicolon(&mut self)
        requires
            old(self).wf(),
        ensures
            final(self).follows(old(self)),
            final(self).errors == old(self).errors,
            final(self).cur_kind() == TokenType::SEMICOLON || final(self).cur_kind() == TokenType::EOF,
            final(self).state() == skip_to_semicolon_at(old(self).input(), old(self).state()),
    {
        while !self.current_token_is(TokenType::SEMICOLON) && !self.current_token_is(TokenType::EOF)
            invariant
                self.follows(old(self)),
                self.errors == old(self).errors,
                skip_to_semicolon_at(self.input(), self.state()) == skip_to_semicolon_at(
                    old(self).input(),
                    old(self).state(),
                ),
            decreases self.measure(),
        {
            self.next_token();
        }
    }

    /// Parses `let <name> = <expression>` at the current token, then moves on
    /// to the `;` that ends the statement. A missing name or `=` is recorded
    /// and the statement is dropped, with nothing more read.
    pub fn parse_let_statement(&mut self) -> (r: Option<Statement>)
        requires
            old(self).wf(),
        ensures
            final(self).follows(old(self)),
            r is None ==> old(self).errors@.len() < final(self).errors@.len(),
            old(self).peek_kind() != TokenType::IDENT ==> r is None
                && final(self).lexer == old(self).lexer
                && final(self).current_token == old(self).current_token
                && final(self).peek_token == old(self).peek_token
                && pushed(old(self).errors@, final(self).errors@, peek_error_msg(TokenType::IDENT, old(self).peek_token.literal@)),
            ({
                let after = lex(old(self).input(), old(self).lexer.position as int);
                old(self).peek_kind() == TokenType::IDENT && after.0 != TokenType::ASSIGN ==> r is None
                    && final(self).cur_kind() == TokenType::IDENT
                    && pushed(old(self).errors@, final(self).errors@, peek_error_msg(TokenType::ASSIGN, after.1))
            }),
            ({
                let after = lex(old(self).input(), old(self).lexer.position as int);
                old(self).peek_kind() == TokenType::IDENT && after.0 == TokenType::ASSIGN ==> (
                final(self).cur_kind() == TokenType::SEMICOLON || final(self).cur_kind() == TokenType::EOF)
            }),
            r is Some ==> (r matches Some(Statement::LetStatement(name, _)) && name.0@ == old(self).peek_token.literal@),
            final(self).reached(old(self), opt_stmt_view(r), let_at(old(self).input(), old(self).state())),
    {
        let ghost e0 = self.errors@;
        if !self.expect_peek(TokenType::IDENT) {
            return None;
        }
        let name = self.parse_identifier();
        let ghost e1 = self.errors@;
        if !self.expect_peek(TokenType::ASSIGN) {
            proof {
                lemma_added_concat(e0, e1, self.errors@);
            }
            return None;
        }
        self.next_token();
        let ghost e2 = self.errors@;
        let value = self.parse_expression(Precedence::LOWEST);
        self.skip_to_semicolon();
        proof {
            lemma_added_concat(e0, e2, self.errors@);
        }
        match value {
            Some(v) => Some(Statement::LetStatement(name, v)),
            None => None,
        }
    }

    /// Parses `return <expression>` at the current token, then moves on to the
    /// `;` that ends the statement.
    pub fn parse_return_statement(&mut self) -> (r: Option<Statement>)
        requires
            old(self).wf(),
        ensures
            final(self).follows(old(self)),
            old(self).cur_kind() != TokenType::EOF ==> final(self).measure() < old(self).measure(),
            r is None ==> old(self).errors@.len() < final(self).errors@.len(),
            r is Some ==> r matches Some(Statement::ReturnStatement(_)),
            final(self).cur_kind() == TokenType::SEMICOLON || final(self).cur_kind() == TokenType::EOF,
            final(self).reached(old(self), opt_stmt_view(r), return_at(old(self).input(), old(self).state())),
    {
        self.next_token();
        let value = self.parse_expression(Precedence::LOWEST);
        self.skip_to_semicolon();
        match value {
            Some(v) => Some(Statement::ReturnStatement(v)),
            None => None,
        }
    }

    /// Parses an expression at the current token, and the `;` after it if
    /// there is one. The kind of the current token, which the caller passes,
    /// plays no part.
    pub fn parse_expression_statement(&mut self, _token: TokenType) -> (r: Option<Statement>)
        requires
            old(self).wf(),
        ensures
            final(self).follows(old(self)),
            r is None ==> old(self).errors@.len() < final(self).errors@.len(),
            r is Some ==> r matches Some(Statement::ExpressionStatement(_)),
            r is Some ==> final(self).cur_kind() == TokenType::SEMICOLON || rank_of(
                infix_precedence(final(self).peek_kind()),
            ) == 0 && final(self).peek_kind() != TokenType::SEMICOLON,
            final(self).reached(old(self), opt_stmt_view(r), expr_stmt_at(old(self).input(), old(self).state())),
    {
        let expression = self.parse_expression(Precedence::LOWEST);
        if self.peek_token_is(TokenType::SEMICOLON) {
            self.next_token();
        }
        match expression {
            Some(e) => Some(Statement::ExpressionStatement(e)),
            None => None,
        }
    }

    /// Parses one statement, chosen by the current token: `let`, `return`,
    /// or else an expression statement.
    pub fn parse_statement(&mut self) -> (r: Option<Statement>)
        requires
            old(self).wf(),
        ensures
            final(self).follows(old(self)),
            r is None ==> old(self).errors@.len() < final(self).errors@.len(),
            r matches Some(Statement::LetStatement(_, _)) ==> old(self).cur_kind() == TokenType::LET,
            r matches Some(Statement::ReturnStatement(_)) ==> old(self).cur_kind() == TokenType::RETURN,
            r matches Some(Statement::ExpressionStatement(_)) ==> old(self).cur_kind() != TokenType::LET
                && old(self).cur_kind() != TokenType::RETURN,
            final(self).reached(old(self), opt_stmt_view(r), stmt_at(old(self).input(), old(self).state())),
    {
        match self.current_token.token_type {
            TokenType::LET => self.parse_let_statement(),
            TokenType::RETURN => self.parse_return_statement(),
            other => self.parse_expression_statement(other),
        }
    }

    /// Parses statements up to the end of input. A statement that fails is
    /// left out, with its error recorded, and parsing goes on after it.
    pub fn parse_program(&mut self) -> (program: Program)
        requires
            old(self).wf(),
        ensures
            final(self).follows(old(self)),
            final(self).cur_kind() == TokenType::EOF,
            final(self).measure() == 0,
            ({
                let o = program_at(old(self).input(), old(self).state());
                &&& stmt_views(program.statements@) == o.0
                &&& added(old(self).errors@, final(self).errors@) == o.1
            }),
    {
        let ghost s = self.input();
        let ghost st0 = self.state();
        let ghost e0 = self.errors@;
        let ghost total = program_at(s, st0);
        let mut program = Program { statements: Vec::new() };
        while !self.current_token_is(TokenType::EOF)
            invariant
                self.follows(old(self)),
                self.input() == s,
                e0 == old(self).errors@,
                st0 == old(self).state(),
                total == program_at(s, st0),
                ({
                    let rest = program_at(s, self.state());
                    &&& total.0 == stmt_views(program.statements@) + rest.0
                    &&& total.1 == added(e0, self.errors@) + rest.1
                }),
            decreases self.measure(),
        {
            let ghost ea = self.errors@;
            let ghost sta = self.state();
            let ghost before = stmt_views(program.statements@);
            let r = self.parse_statement();
            let ghost rv = opt_stmt_view(r);
            match r {
                Some(statement) => program.statements.push(statement),
                None => {},
            }
            self.next_token();
            proof {
                lemma_added_concat(e0, ea, self.errors@);
                let rest = program_at(s, self.state());
                assert(program_at(s, sta) == (
                    match rv {
                        Some(x) => seq![x] + rest.0,
                        None => rest.0,
                    },
                    added(ea, self.errors@) + rest.1,
                ));
                if rv is Some {
                    assert(stmt_views(program.statements@) =~= before.push(rv->0));
                    assert(before + (seq![rv->0] + rest.0) =~= stmt_views(program.statements@) + rest.0);
                } else {
                    assert(stmt_views(program.statements@) =~= before);
                }
                assert(added(e0, ea) + (added(ea, self.errors@) + rest.1) =~= added(e0, ea) + added(ea, self.errors@) + rest.1);
            }
        }
        proof {
            assert(stmt_views(program.statements@) + Seq::<Stmt>::empty() =~= stmt_views(program.statements@));
            assert(added(e0, self.errors@) + Seq::<Seq<char>>::empty() =~= added(e0, self.errors@));
        }
        program
    }
}

} // verus!
