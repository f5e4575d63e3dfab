use crust::lexer::Lexer;
use crust::token::{Token, TokenType};

fn kinds_and_literals(input: &str, n: usize) -> Vec<(TokenType, String)> {
    let mut lexer = Lexer::new(input);
    let mut out = Vec::new();
    for _ in 0..n {
        let tok = lexer.next_token();
        out.push((tok.token_type, tok.literal));
    }
    out
}

#[test]
fn lexer_tokenizer_simple() {
    let input = "=+(){},;";

    let expected = vec![
        Token {
            token_type: TokenType::ASSIGN,
            literal: "=".to_string(),
        },
        Token {
            token_type: TokenType::PLUS,
            literal: "+".to_string(),
        },
        Token {
            token_type: TokenType::LPAREN,
            literal: "(".to_string(),
        },
        Token {
            token_type: TokenType::RPAREN,
            literal: ")".to_string(),
        },
        Token {
            token_type: TokenType::LBRACE,
            literal: "{".to_string(),
        },
        Token {
            token_type: TokenType::RBRACE,
            literal: "}".to_string(),
        },
        Token {
            token_type: TokenType::COMMA,
            literal: ",".to_string(),
        },
        Token {
            token_type: TokenType::SEMICOLON,
            literal: ";".to_string(),
        },
        Token {
            token_type: TokenType::EOF,
            literal: "".to_string(),
        },
    ];

    let mut lexer = Lexer::new(input);

    for i in 0..expected.len() {
        let tok = lexer.next_token();
        assert_eq!(tok.token_type, expected[i].token_type);
        assert_eq!(tok.literal, expected[i].literal);
    }
}

#[test]
fn lexer_tokenizer_hard() {
    let input = "let five = 5;
let ten = 10;
   let add = fn(x, y) {
     x + y;
};
   let result = add(five, ten);
   !-/*5;
   5 < 10 > 5;
   if (5 < 10) {
       return true;
   } else {
       return false;
}
10 == 10; 
10 != 9;
";

    let expected = vec![
        Token {
            token_type: TokenType::LET,
            literal: "let".to_string(),
        },
        Token {
            token_type: TokenType::IDENT,
            literal: "five".to_string(),
        },
        Token {
            token_type: TokenType::ASSIGN,
            literal: "=".to_string(),
        },
        Token {
            token_type: TokenType::INT,
            literal: "5".to_string(),
        },
        Token {
            token_type: TokenType::SEMICOLON,
            literal: ";".to_string(),
        },
        Token {
            token_type: TokenType::LET,
            literal: "let".to_string(),
        },
        Token {
            token_type: TokenType::IDENT,
            literal: "ten".to_string(),
        },
        Token {
            token_type: TokenType::ASSIGN,
            literal: "=".to_string(),
        },
        Token {
            token_type: TokenType::INT,
            literal: "10".to_string(),
        },
        Token {
            token_type: TokenType::SEMICOLON,
            literal: ";".to_string(),
        },
        Token {
            token_type: TokenType::LET,
            literal: "let".to_string(),
        },
        Token {
            token_type: TokenType::IDENT,
            literal: "add".to_string(),
        },
        Token {
            token_type: TokenType::ASSIGN,
            literal: "=".to_string(),
        },
        Token {
            token_type: TokenType::FUNCTION,
            literal: "fn".to_string(),
        },
        Token {
            token_type: TokenType::LPAREN,
            literal: "(".to_string(),
        },
        Token {
            token_type: TokenType::IDENT,
            literal: "x".to_string(),
        },
        Token {
            token_type: TokenType::COMMA,
            literal: ",".to_string(),
        },
        Token {
            token_type: TokenType::IDENT,
            literal: "y".to_string(),
        },
        Token {
            token_type: TokenType::RPAREN,
            literal: ")".to_string(),
        },
        Token {
            token_type: TokenType::LBRACE,
            literal: "{".to_string(),
        },
        Token {
            token_type: TokenType::IDENT,
            literal: "x".to_string(),
        },
        Token {
            token_type: TokenType::PLUS,
            literal: "+".to_string(),
        },
        Token {
            token_type: TokenType::IDENT,
            literal: "y".to_string(),
        },
        Token {
            token_type: TokenType::SEMICOLON,
            literal: ";".to_string(),
        },
        Token {
            token_type: TokenType::RBRACE,
            literal: "}".to_string(),
        },
        Token {
            token_type: TokenType::SEMICOLON,
            literal: ";".to_string(),
        },
        Token {
            token_type: TokenType::LET,
            literal: "let".to_string(),
        },
        Token {
            token_type: TokenType::IDENT,
            literal: "result".to_string(),
        },
        Token {
            token_type: TokenType::ASSIGN,
            literal: "=".to_string(),
        },
        Token {
            token_type: TokenType::IDENT,
            literal: "add".to_string(),
        },
        Token {
            token_type: TokenType::LPAREN,
            literal: "(".to_string(),
        },
        Token {
            token_type: TokenType::IDENT,
            literal: "five".to_string(),
        },
        Token {
            token_type: TokenType::COMMA,
            literal: ",".to_string(),
        },
        Token {
            token_type: TokenType::IDENT,
            literal: "ten".to_string(),
        },
        Token {
            token_type: TokenType::RPAREN,
            literal: ")".to_string(),
        },
        Token {
            token_type: TokenType::SEMICOLON,
            literal: ";".to_string(),
        },
        Token {
            token_type: TokenType::BANG,
            literal: "!".to_string(),
        },
        Token {
            token_type: TokenType::MINUS,
            literal: "-".to_string(),
        },
        Token {
            token_type: TokenType::FSLASH,
            literal: "/".to_string(),
        },
        Token {
            token_type: TokenType::STAR,
            literal: "*".to_string(),
        },
        Token {
            token_type: TokenType::INT,
            literal: "5".to_string(),
        },
        Token {
            token_type: TokenType::SEMICOLON,
            literal: ";".to_string(),
        },
        Token {
            token_type: TokenType::INT,
            literal: "5".to_string(),
        },
        Token {
            token_type: TokenType::LESS,
            literal: "<".to_string(),
        },
        Token {
            token_type: TokenType::INT,
            literal: "10".to_string(),
        },
        Token {
            token_type: TokenType::GREATER,
            literal: ">".to_string(),
        },
        Token {
            token_type: TokenType::INT,
            literal: "5".to_string(),
        },
        Token {
            token_type: TokenType::SEMICOLON,
            literal: ";".to_string(),
        },
        Token {
            token_type: TokenType::IF,
            literal: "if".to_string(),
        },
        Token {
            token_type: TokenType::LPAREN,
            literal: "(".to_string(),
        },
        Token {
            token_type: TokenType::INT,
            literal: "5".to_string(),
        },
        Token {
            token_type: TokenType::LESS,
            literal: "<".to_string(),
        },
        Token {
            token_type: TokenType::INT,
            literal: "10".to_string(),
        },
        Token {
            token_type: TokenType::RPAREN,
            literal: ")".to_string(),
        },
        Token {
            token_type: TokenType::LBRACE,
            literal: "{".to_string(),
        },
        Token {
            token_type: TokenType::RETURN,
            literal: "return".to_string(),
        },
        Token {
            token_type: TokenType::TRUE,
            literal: "true".to_string(),
        },
        Token {
            token_type: TokenType::SEMICOLON,
            literal: ";".to_string(),
        },
        Token {
            token_type: TokenType::RBRACE,
            literal: "}".to_string(),
        },
        Token {
            token_type: TokenType::ELSE,
            literal: "else".to_string(),
        },
        Token {
            token_type: TokenType::LBRACE,
            literal: "{".to_string(),
        },
        Token {
            token_type: TokenType::RETURN,
            literal: "return".to_string(),
        },
        Token {
            token_type: TokenType::FALSE,
            literal: "false".to_string(),
        },
        Token {
            token_type: TokenType::SEMICOLON,
            literal: ";".to_string(),
        },
        Token {
            token_type: TokenType::RBRACE,
            literal: "}".to_string(),
        },
        Token {
            token_type: TokenType::INT,
            literal: "10".to_string(),
        },
        Token {
            token_type: TokenType::EQ,
            literal: "==".to_string(),
        },
        Token {
            token_type: TokenType::INT,
            literal: "10".to_string(),
        },
        Token {
            token_type: TokenType::SEMICOLON,
            literal: ";".to_string(),
        },
        Token {
            token_type: TokenType::INT,
            literal: "10".to_string(),
        },
        Token {
            token_type: TokenType::NOT_EQ,
            literal: "!=".to_string(),
        },
        Token {
            token_type: TokenType::INT,
            literal: "9".to_string(),
        },
        Token {
            token_type: TokenType::SEMICOLON,
            literal: ";".to_string(),
        },
    ];

    let mut lexer = Lexer::new(input);

    for i in 0..expected.len() {
        let tok = lexer.next_token();
        assert_eq!(tok.token_type, expected[i].token_type);
        assert_eq!(tok.literal, expected[i].literal);
    }
}

#[test]
fn eof_repeats_after_end_of_input() {
    let mut lexer = Lexer::new("x");
    let first = lexer.next_token();
    assert_eq!(first.token_type, TokenType::IDENT);
    assert_eq!(first.literal, "x");
    for _ in 0..5 {
        let tok = lexer.next_token();
        assert_eq!(tok.token_type, TokenType::EOF);
        assert_eq!(tok.literal, "");
    }
}

#[test]
fn empty_and_blank_input_give_eof() {
    for input in ["", "   \t\r\n  "] {
        let mut lexer = Lexer::new(input);
        for _ in 0..3 {
            let tok = lexer.next_token();
            assert_eq!(tok.token_type, TokenType::EOF);
            assert_eq!(tok.literal, "");
        }
    }
}

#[test]
fn keywords_are_classified() {
    let cases = [
        ("let", TokenType::LET),
        ("fn", TokenType::FUNCTION),
        ("if", TokenType::IF),
        ("else", TokenType::ELSE),
        ("return", TokenType::RETURN),
        ("true", TokenType::TRUE),
        ("false", TokenType::FALSE),
    ];
    for (word, kind) in cases {
        let toks = kinds_and_literals(word, 2);
        assert_eq!(toks[0], (kind, word.to_string()));
        assert_eq!(toks[1], (TokenType::EOF, String::new()));
    }
}

#[test]
fn other_words_are_identifiers() {
    for word in ["foobar", "lets", "Let", "iff", "x", "returned"] {
        let toks = kinds_and_literals(word, 2);
        assert_eq!(toks[0], (TokenType::IDENT, word.to_string()));
        assert_eq!(toks[1], (TokenType::EOF, String::new()));
    }
}

#[test]
fn non_ascii_letters_make_identifiers() {
    let toks = kinds_and_literals("h\u{e9}llo \u{65e5}\u{672c}", 3);
    assert_eq!(toks[0], (TokenType::IDENT, "h\u{e9}llo".to_string()));
    assert_eq!(toks[1], (TokenType::IDENT, "\u{65e5}\u{672c}".to_string()));
    assert_eq!(toks[2], (TokenType::EOF, String::new()));
}

#[test]
fn identifiers_stop_at_digits_and_underscores() {
    let toks = kinds_and_literals("ab1_c", 5);
    assert_eq!(toks[0], (TokenType::IDENT, "ab".to_string()));
    assert_eq!(toks[1], (TokenType::INT, "1".to_string()));
    assert_eq!(toks[2], (TokenType::ILLEGAL, "_".to_string()));
    assert_eq!(toks[3], (TokenType::IDENT, "c".to_string()));
    assert_eq!(toks[4], (TokenType::EOF, String::new()));
}

#[test]
fn two_character_operators() {
    assert_eq!(kinds_and_literals("==", 2), vec![(TokenType::EQ, "==".to_string()), (TokenType::EOF, String::new())]);
    assert_eq!(kinds_and_literals("!=", 2), vec![(TokenType::NOT_EQ, "!=".to_string()), (TokenType::EOF, String::new())]);
    assert_eq!(kinds_and_literals("=", 2), vec![(TokenType::ASSIGN, "=".to_string()), (TokenType::EOF, String::new())]);
    assert_eq!(kinds_and_literals("!", 2), vec![(TokenType::BANG, "!".to_string()), (TokenType::EOF, String::new())]);
    assert_eq!(
        kinds_and_literals("= =!!==", 5),
        vec![
            (TokenType::ASSIGN, "=".to_string()),
            (TokenType::ASSIGN, "=".to_string()),
            (TokenType::BANG, "!".to_string()),
            (TokenType::NOT_EQ, "!=".to_string()),
            (TokenType::ASSIGN, "=".to_string()),
        ]
    );
}

#[test]
fn literal_sequence() {
    assert_eq!(
        kinds_and_literals("let five = 5;", 6),
        vec![
            (TokenType::LET, "let".to_string()),
            (TokenType::IDENT, "five".to_string()),
            (TokenType::ASSIGN, "=".to_string()),
            (TokenType::INT, "5".to_string()),
            (TokenType::SEMICOLON, ";".to_string()),
            (TokenType::EOF, String::new()),
        ]
    );
}

#[test]
fn unknown_characters_are_illegal_and_skipped() {
    assert_eq!(
        kinds_and_literals("@5#", 4),
        vec![
            (TokenType::ILLEGAL, "@".to_string()),
            (TokenType::INT, "5".to_string()),
            (TokenType::ILLEGAL, "#".to_string()),
            (TokenType::EOF, String::new()),
        ]
    );
}

#[test]
fn integers_are_read_whole() {
    assert_eq!(
        kinds_and_literals("838383 007", 3),
        vec![
            (TokenType::INT, "838383".to_string()),
            (TokenType::INT, "007".to_string()),
            (TokenType::EOF, String::new()),
        ]
    );
}

#[test]
fn kind_names() {
    assert_eq!(TokenType::IDENT.name(), "IDENT");
    assert_eq!(TokenType::NOT_EQ.name(), "NOT_EQ");
    assert_eq!(TokenType::FUNCTION.name(), "FUNCTION");
}
