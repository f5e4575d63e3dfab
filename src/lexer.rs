use crate::token::{new_token, Token, TokenType};
use vstd::prelude::*;
use vstd::string::*;

verus! {

/// Whether `char::is_alphabetic` holds of a character.
pub uninterp spec fn alphabetic(c: char) -> bool;

/// An ASCII letter.
pub open spec fn ascii_letter(c: char) -> bool {
    ('a' <= c && c <= 'z') || ('A' <= c && c <= 'Z')
}

/// Relies on `char::is_alphabetic`: whether the character has the Unicode
/// Alphabetic property.
#[verifier::external_body]
fn is_alphabetic(c: char) -> (r: bool)
    ensures
        r == alphabetic(c),
{
    c.is_alphabetic()
}

/// The characters that make up identifiers and keywords: the ASCII letters,
/// and beyond ASCII the alphabetic characters.
pub open spec fn letter(c: char) -> bool {
    if (c as u32) < 128 {
        ascii_letter(c)
    } else {
        alphabetic(c)
    }
}

fn is_letter(c: char) -> (r: bool)
    ensures
        r == letter(c),
{
    if (c as u32) < 128 {
        ('a' <= c && c <= 'z') || ('A' <= c && c <= 'Z')
    } else {
        is_alphabetic(c)
    }
}

/// Relies on `String::push`: appends one character.
#[verifier::external_body]
fn push_char(s: &mut String, c: char)
    ensures
        final(s)@ == old(s)@.push(c),
{
    s.push(c)
}

/// The characters skipped between tokens.
pub open spec fn is_ws(c: char) -> bool {
    c == ' ' || c == '\t' || c == '\n' || c == '\r'
}

pub open spec fn is_digit(c: char) -> bool {
    '0' <= c && c <= '9'
}

/// The character at `i`, or `None` past the end.
pub open spec fn char_at(s: Seq<char>, i: int) -> Option<char> {
    if 0 <= i < s.len() {
        Some(s[i])
    } else {
        None
    }
}

/// The first position at or after `p` that holds no whitespace.
pub open spec fn skip_ws(s: Seq<char>, p: int) -> int
    decreases s.len() - p,
{
    if 0 <= p < s.len() && is_ws(s[p]) {
        skip_ws(s, p + 1)
    } else {
        p
    }
}

/// The end of the run of letters that starts at `p`.
pub open spec fn alpha_end(s: Seq<char>, p: int) -> int
    decreases s.len() - p,
{
    if 0 <= p < s.len() && letter(s[p]) {
        alpha_end(s, p + 1)
    } else {
        p
    }
}

/// The end of the run of decimal digits that starts at `p`.
pub open spec fn digit_end(s: Seq<char>, p: int) -> int
    decreases s.len() - p,
{
    if 0 <= p < s.len() && is_digit(s[p]) {
        digit_end(s, p + 1)
    } else {
        p
    }
}

/// The kind of a one-character token, other than `=` and `!`.
pub open spec fn single_kind(c: char) -> Option<TokenType> {
    if c == ';' {
        Some(TokenType::SEMICOLON)
    } else if c == '(' {
        Some(TokenType::LPAREN)
    } else if c == ')' {
        Some(TokenType::RPAREN)
    } else if c == '{' {
        Some(TokenType::LBRACE)
    } else if c == '}' {
        Some(TokenType::RBRACE)
    } else if c == '+' {
        Some(TokenType::PLUS)
    } else if c == '-' {
        Some(TokenType::MINUS)
    } else if c == ',' {
        Some(TokenType::COMMA)
    } else if c == '*' {
        Some(TokenType::STAR)
    } else if c == '/' {
        Some(TokenType::FSLASH)
    } else if c == '<' {
        Some(TokenType::LESS)
    } else if c == '>' {
        Some(TokenType::GREATER)
    } else {
        None
    }
}

/// The kind of a word: its keyword, or `IDENT`.
pub open spec fn keyword_kind(w: Seq<char>) -> TokenType {
    if w == "let"@ {
        TokenType::LET
    } else if w == "fn"@ {
        TokenType::FUNCTION
    } else if w == "if"@ {
        TokenType::IF
    } else if w == "else"@ {
        TokenType::ELSE
    } else if w == "return"@ {
        TokenType::RETURN
    } else if w == "true"@ {
        TokenType::TRUE
    } else if w == "false"@ {
        TokenType::FALSE
    } else {
        TokenType::IDENT
    }
}

/// The token that starts at `q`, where no whitespace stands: its kind, its
/// text, and the position after it.
pub open spec fn lex_at(s: Seq<char>, q: int) -> (TokenType, Seq<char>, int) {
    if q < 0 || q >= s.len() {
        (TokenType::EOF, Seq::empty(), q)
    } else {
        let c = s[q];
        if c == '=' {
            if q + 1 < s.len() && s[q + 1] == '=' {
                (TokenType::EQ, seq!['=', '='], q + 2)
            } else {
                (TokenType::ASSIGN, seq![c], q + 1)
            }
        } else if c == '!' {
            if q + 1 < s.len() && s[q + 1] == '=' {
                (TokenType::NOT_EQ, seq!['!', '='], q + 2)
            } else {
                (TokenType::BANG, seq![c], q + 1)
            }
        } else if single_kind(c) is Some {
            (single_kind(c)->0, seq![c], q + 1)
        } else if letter(c) {
            let e = alpha_end(s, q);
            (keyword_kind(s.subrange(q, e)), s.subrange(q, e), e)
        } else if is_digit(c) {
            let e = digit_end(s, q);
            (TokenType::INT, s.subrange(q, e), e)
        } else {
            (TokenType::ILLEGAL, seq![c], q + 1)
        }
    }
}

/// One step of the tokenizer from position `p`: whitespace is skipped, then
/// one token is read.
pub open spec fn lex(s: Seq<char>, p: int) -> (TokenType, Seq<char>, int) {
    lex_at(s, skip_ws(s, p))
}

pub proof fn lemma_skip_ws_bounds(s: Seq<char>, p: int)
    requires
        0 <= p <= s.len(),
    ensures
        p <= skip_ws(s, p) <= s.len(),
        skip_ws(s, p) < s.len() ==> !is_ws(s[skip_ws(s, p)]),
    decreases s.len() - p,
{
    if p < s.len() && is_ws(s[p]) {
        lemma_skip_ws_bounds(s, p + 1);
    }
}

pub proof fn lemma_alpha_end_bounds(s: Seq<char>, p: int)
    requires
        0 <= p <= s.len(),
    ensures
        p <= alpha_end(s, p) <= s.len(),
        p < s.len() && letter(s[p]) ==> p < alpha_end(s, p),
    decreases s.len() - p,
{
    if p < s.len() && letter(s[p]) {
        lemma_alpha_end_bounds(s, p + 1);
    }
}

pub proof fn lemma_digit_end_bounds(s: Seq<char>, p: int)
    requires
        0 <= p <= s.len(),
    ensures
        p <= digit_end(s, p) <= s.len(),
        p < s.len() && is_digit(s[p]) ==> p < digit_end(s, p),
    decreases s.len() - p,
{
    if p < s.len() && is_digit(s[p]) {
        lemma_digit_end_bounds(s, p + 1);
    }
}

/// A step of the tokenizer never moves backwards nor past the end; it moves
/// forward unless it reports the end of input, and it reports the end of input
/// only at the end.
pub proof fn lemma_lex_progress(s: Seq<char>, p: int)
    requires
        0 <= p <= s.len(),
    ensures
        p <= lex(s, p).2 <= s.len(),
        lex(s, p).0 == TokenType::EOF <==> lex(s, p).2 == s.len() && skip_ws(s, p) == s.len(),
        lex(s, p).0 != TokenType::EOF ==> p < lex(s, p).2,
{
    lemma_skip_ws_bounds(s, p);
    let q = skip_ws(s, p);
    if q < s.len() {
        lemma_alpha_end_bounds(s, q);
        lemma_digit_end_bounds(s, q);
    }
}

/// Once the tokenizer reports the end of input, it stays where it is and
/// reports the end of input again, at every later step.
pub proof fn lemma_eof_is_terminal(s: Seq<char>, p: int)
    requires
        0 <= p <= s.len(),
        lex(s, p).0 == TokenType::EOF,
    ensures
        lex(s, p).2 == s.len(),
        lex(s, lex(s, p).2) == lex(s, p),
{
    lemma_lex_progress(s, p);
}

proof fn lemma_alpha_end_of_word(w: Seq<char>, i: int)
    requires
        0 <= i <= w.len(),
        forall|k: int| 0 <= k < w.len() ==> letter(#[trigger] w[k]),
    ensures
        alpha_end(w, i) == w.len(),
    decreases w.len() - i,
{
    if i < w.len() {
        lemma_alpha_end_of_word(w, i + 1);
    }
}

/// A word of letters is read as one token, whose text is the word and whose
/// kind is the keyword the word spells, or `IDENT` for any other word; the
/// input then ends.
pub proof fn lemma_word_classification(w: Seq<char>)
    requires
        w.len() > 0,
        forall|k: int| 0 <= k < w.len() ==> letter(#[trigger] w[k]),
    ensures
        lex(w, 0) == (keyword_kind(w), w, w.len() as int),
        lex(w, w.len() as int).0 == TokenType::EOF,
        keyword_kind(w) == TokenType::IDENT <==> !(w == "let"@ || w == "fn"@ || w == "if"@
            || w == "else"@ || w == "return"@ || w == "true"@ || w == "false"@),
{
    assert(letter(w[0]));
    lemma_alpha_end_of_word(w, 0);
    assert(w.subrange(0, w.len() as int) =~= w);
}

/// A word of letters that is no keyword is read whole as one `IDENT` token
/// whose text is the word (so `letx` is not read as `let`), and the next
/// token is `EOF`.
pub proof fn lemma_other_words_are_identifiers(w: Seq<char>)
    requires
        w.len() > 0,
        forall|k: int| 0 <= k < w.len() ==> letter(#[trigger] w[k]),
        !(w == "let"@ || w == "fn"@ || w == "if"@ || w == "else"@ || w == "return"@ || w == "true"@
            || w == "false"@),
    ensures
        lex(w, 0) == (TokenType::IDENT, w, w.len() as int),
        lex(w, w.len() as int).0 == TokenType::EOF,
{
    lemma_word_classification(w);
}

/// Each keyword, read alone, gives its own kind and not `IDENT`.
pub proof fn lemma_keywords_lex_as_keywords()
    ensures
        lex("let"@, 0) == (TokenType::LET, "let"@, 3int),
        lex("fn"@, 0) == (TokenType::FUNCTION, "fn"@, 2int),
        lex("if"@, 0) == (TokenType::IF, "if"@, 2int),
        lex("else"@, 0) == (TokenType::ELSE, "else"@, 4int),
        lex("return"@, 0) == (TokenType::RETURN, "return"@, 6int),
        lex("true"@, 0) == (TokenType::TRUE, "true"@, 4int),
        lex("false"@, 0) == (TokenType::FALSE, "false"@, 5int),
{
    reveal_strlit("let");
    reveal_strlit("fn");
    reveal_strlit("if");
    reveal_strlit("else");
    reveal_strlit("return");
    reveal_strlit("true");
    reveal_strlit("false");
    lemma_word_classification("let"@);
    lemma_word_classification("fn"@);
    lemma_word_classification("if"@);
    lemma_word_classification("else"@);
    lemma_word_classification("return"@);
    lemma_word_classification("true"@);
    lemma_word_classification("false"@);
}

/// Tokenizer state: the input, the position of the current character, the
/// position of the next one, and the current character (`None` at the end).
pub struct Lexer {
    pub input: String,
    pub position: usize,
    pub read_position: usize,
    pub ch: Option<char>,
}

impl Lexer {
    pub open spec fn wf(&self) -> bool {
        &&& self.input@.len() < usize::MAX
        &&& self.position <= self.input@.len()
        &&& self.read_position == self.position + 1
        &&& self.ch == char_at(self.input@, self.position as int)
    }

    /// A tokenizer at the start of `input`.
    pub fn new(input: &str) -> (l: Lexer)
        requires
            input@.len() < usize::MAX,
        ensures
            l.wf(),
            l.input@ == input@,
            l.position == 0,
    {
        let mut l = Lexer { input: String::from_str(input), position: 0, read_position: 0, ch: None };
        l.read_char();
        l
    }

    fn read_char(&mut self)
        requires
            old(self).read_position < usize::MAX,
        ensures
            final(self).input == old(self).input,
            final(self).position == old(self).read_position,
            final(self).read_position == old(self).read_position + 1,
            final(self).ch == char_at(old(self).input@, old(self).read_position as int),
    {
        let len = self.input.as_str().unicode_len();
        if self.read_position >= len {
            self.ch = None;
        } else {
            self.ch = Some(self.input.as_str().get_char(self.read_position));
        }
        self.position = self.read_position;
        self.read_position = self.read_position + 1;
    }

    fn peek_char(&self) -> (r: Option<char>)
        requires
            self.wf(),
        ensures
            r == char_at(self.input@, self.read_position as int),
    {
        let len = self.input.as_str().unicode_len();
        if self.read_position >= len {
            None
        } else {
            Some(self.input.as_str().get_char(self.read_position))
        }
    }

    fn skip_whitespace(&mut self)
        requires
            old(self).wf(),
        ensures
            final(self).wf(),
            final(self).input@ == old(self).input@,
            final(self).position == skip_ws(old(self).input@, old(self).position as int),
    {
        let ghost s = self.input@;
        let ghost start = self.position as int;
        loop
            invariant
                self.wf(),
                self.input@ == s,
                0 <= start <= self.position,
                skip_ws(s, start) == skip_ws(s, self.position as int),
            ensures
                self.wf(),
                self.input@ == s,
                self.position == skip_ws(s, start),
            decreases s.len() - self.position,
        {
            match self.ch {
                Some(c) => {
                    if c == ' ' || c == '\t' || c == '\n' || c == '\r' {
                        self.read_char();
                    } else {
                        break;
                    }
                },
                None => break,
            }
        }
    }

    fn read_identifier(&mut self) -> (r: String)
        requires
            old(self).wf(),
        ensures
            final(self).wf(),
            final(self).input@ == old(self).input@,
            final(self).position == alpha_end(old(self).input@, old(self).position as int),
            r@ == old(self).input@.subrange(old(self).position as int, final(self).position as int),
    {
        let ghost s = self.input@;
        let ghost start = self.position as int;
        let mut result = String::new();
        loop
            invariant
                self.wf(),
                self.input@ == s,
                0 <= start <= self.position,
                alpha_end(s, start) == alpha_end(s, self.position as int),
                result@ == s.subrange(start, self.position as int),
            ensures
                self.wf(),
                self.input@ == s,
                0 <= start <= self.position,
                self.position == alpha_end(s, start),
                result@ == s.subrange(start, self.position as int),
            decreases s.len() - self.position,
        {
            match self.ch {
                Some(c) => {
                    if is_letter(c) {
                        push_char(&mut result, c);
                        self.read_char();
                        assert(result@ =~= s.subrange(start, self.position as int));
                    } else {
                        break;
                    }
                },
                None => break,
            }
        }
        result
    }

    fn read_number(&mut self) -> (r: String)
        requires
            old(self).wf(),
        ensures
            final(self).wf(),
            final(self).input@ == old(self).input@,
            final(self).position == digit_end(old(self).input@, old(self).position as int),
            r@ == old(self).input@.subrange(old(self).position as int, final(self).position as int),
    {
        let ghost s = self.input@;
        let ghost start = self.position as int;
        let mut result = String::new();
        loop
            invariant
                self.wf(),
                self.input@ == s,
                0 <= start <= self.position,
                digit_end(s, start) == digit_end(s, self.position as int),
                result@ == s.subrange(start, self.position as int),
            ensures
                self.wf(),
                self.input@ == s,
                0 <= start <= self.position,
                self.position == digit_end(s, start),
                result@ == s.subrange(start, self.position as int),
            decreases s.len() - self.position,
        {
            match self.ch {
                Some(c) => {
                    if '0' <= c && c <= '9' {
                        push_char(&mut result, c);
                        self.read_char();
                        assert(result@ =~= s.subrange(start, self.position as int));
                    } else {
                        break;
                    }
                },
                None => break,
            }
        }
        result
    }
}


/// Whether two strings hold the same characters.
fn same_text(a: &str, b: &str) -> (r: bool)
    ensures
        r == (a@ == b@),
{
    let n = a.unicode_len();
    if n != b.unicode_len() {
        return false;
    }
    let mut i: usize = 0;
    while i < n
        invariant
            n == a@.len() == b@.len(),
            i <= n,
            forall|k: int| 0 <= k < i ==> a@[k] == b@[k],
        decreases n - i,
    {
        if a.get_char(i) != b.get_char(i) {
            return false;
        }
        i = i + 1;
    }
    assert(a@ =~= b@);
    true
}

/// The kind of a word: the keyword it spells, or `IDENT`.
pub fn is_identifier(token: &str) -> (r: TokenType)
    ensures
        r == keyword_kind(token@),
{
    if same_text(token, "let") {
        TokenType::LET
    } else if same_text(token, "fn") {
        TokenType::FUNCTION
    } else if same_text(token, "if") {
        TokenType::IF
    } else if same_text(token, "else") {
        TokenType::ELSE
    } else if same_text(token, "return") {
        TokenType::RETURN
    } else if same_text(token, "true") {
        TokenType::TRUE
    } else if same_text(token, "false") {
        TokenType::FALSE
    } else {
        TokenType::IDENT
    }
}

fn punct_kind(c: char) -> (r: Option<TokenType>)
    ensures
        r == single_kind(c),
{
    match c {
        ';' => Some(TokenType::SEMICOLON),
        '(' => Some(TokenType::LPAREN),
        ')' => Some(TokenType::RPAREN),
        '{' => Some(TokenType::LBRACE),
        '}' => Some(TokenType::RBRACE),
        '+' => Some(TokenType::PLUS),
        '-' => Some(TokenType::MINUS),
        ',' => Some(TokenType::COMMA),
        '*' => Some(TokenType::STAR),
        '/' => Some(TokenType::FSLASH),
        '<' => Some(TokenType::LESS),
        '>' => Some(TokenType::GREATER),
        _ => None,
    }
}

fn char_string(c: char) -> (r: String)
    ensures
        r@ == seq![c],
{
    let mut r = String::new();
    push_char(&mut r, c);
    assert(r@ =~= seq![c]);
    r
}

impl Lexer {
    /// Reads the next token and moves past it; at the end of input it
    /// returns `EOF` and stays where it is.
    pub fn next_token(&mut self) -> (tok: Token)
        requires
            old(self).wf(),
        ensures
            final(self).wf(),
            final(self).input@ == old(self).input@,
            lex(old(self).input@, old(self).position as int) == (
            tok.token_type,
            tok.literal@,
            final(self).position as int,
            ),
    {
        self.skip_whitespace();
        let c = match self.ch {
            None => {
                return new_token(TokenType::EOF, String::new());
            },
            Some(c) => c,
        };
        let token;
        if c == '=' {
            let two = match self.peek_char() {
                Some(d) => d == '=',
                None => false,
            };
            if two {
                self.read_char();
                proof {
                    reveal_strlit("==");
                }
                token = new_token(TokenType::EQ, String::from_str("=="));
            } else {
                token = new_token(TokenType::ASSIGN, char_string(c));
            }
        } else if c == '!' {
            let two = match self.peek_char() {
                Some(d) => d == '=',
                None => false,
            };
            if two {
                self.read_char();
                proof {
                    reveal_strlit("!=");
                }
                token = new_token(TokenType::NOT_EQ, String::from_str("!="));
            } else {
                token = new_token(TokenType::BANG, char_string(c));
            }
        } else {
            match punct_kind(c) {
                Some(kind) => {
                    token = new_token(kind, char_string(c));
                },
                None => {
                    if is_letter(c) {
                        let literal = self.read_identifier();
                        let kind = is_identifier(literal.as_str());
                        return new_token(kind, literal);
                    } else if '0' <= c && c <= '9' {
                        let literal = self.read_number();
                        return new_token(TokenType::INT, literal);
                    } else {
                        token = new_token(TokenType::ILLEGAL, char_string(c));
                    }
                },
            }
        }
        self.read_char();
        token
    }
}

} // verus!
