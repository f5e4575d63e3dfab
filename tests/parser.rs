use crust::ast::{Expression, Identifier, Precedence, Statement};
use crust::lexer::Lexer;
use crust::parser::{parse_i64, precedence_of, Parser};
use crust::token::TokenType;

fn parse(input: &str) -> (Vec<Statement>, Vec<String>) {
    let lexer = Lexer::new(input);
    let mut parser = Parser::new(lexer);
    let program = parser.parse_program();
    (program.statements, parser.errors)
}

fn ident(name: &str) -> Expression {
    Expression::Identifier(Identifier(name.to_string()))
}

fn lit(v: i64) -> Expression {
    Expression::IntegerLiteral(v)
}

fn infix(left: Expression, operator: &str, right: Expression) -> Expression {
    Expression::InfixExpression { left: Box::new(left), operator: operator.to_string(), right: Box::new(right) }
}

fn prefix(operator: &str, right: Expression) -> Expression {
    Expression::PrefixExpression { operator: operator.to_string(), right: Box::new(right) }
}

fn single_expression(input: &str) -> Expression {
    let (mut statements, errors) = parse(input);
    assert_eq!(errors, Vec::<String>::new());
    assert_eq!(statements.len(), 1);
    match statements.pop() {
        Some(Statement::ExpressionStatement(e)) => e,
        other => panic!("not an expression statement: {:?}", other),
    }
}

#[test]
fn let_statements() {
    let input = "
let x = 5;
   let y = 10;
   let foobar = 838383;
";

    let lexer = Lexer::new(input);
    let mut parser = Parser::new(lexer);

    let program = parser.parse_program();

    if program.statements.len() != 3 {
        panic!("program.statements does not contain 3 statements");
    }

    let expected = vec![
        Statement::LetStatement(Identifier("x".to_string()), Expression::IntegerLiteral(5)),
        Statement::LetStatement(Identifier("y".to_string()), Expression::IntegerLiteral(10)),
        Statement::LetStatement(Identifier("foobar".to_string()), Expression::IntegerLiteral(838383)),
    ];

    assert_eq!(program.statements, expected);
}

#[test]
fn parse_error() {
    let input = "
let x 5;
let y 10;
let foobar 838383;
";

    let lexer = Lexer::new(input);
    let mut parser = Parser::new(lexer);

    parser.parse_program();

    assert!(parser.errors.len() == 3);
}

#[test]
fn return_statements() {
    let input = "
return 5;
return 10;
return (add(5, 10));
";

    let lexer = Lexer::new(input);
    let mut parser = Parser::new(lexer);

    let program = parser.parse_program();

    if program.statements.len() != 3 {
        panic!("program.statements does not contain 3 statements");
    }

    if parser.errors.len() != 0 {
        panic!("parser has {} errors", parser.errors.len());
    }

    let expected = vec![
        Statement::ReturnStatement(Expression::IntegerLiteral(5)),
        Statement::ReturnStatement(Expression::IntegerLiteral(10)),
        Statement::ReturnStatement(Expression::CallExpression {
            function: Box::new(Expression::Identifier(Identifier("add".to_string()))),
            arguments: vec![Expression::IntegerLiteral(5), Expression::IntegerLiteral(10)],
        }),
    ];
    println!("{:?}", program.statements);

    assert_eq!(program.statements, expected);
}

#[test]
fn identifiers() {
    let input = "foobar;";
    let lexer = Lexer::new(input);
    let mut parser = Parser::new(lexer);

    let program = parser.parse_program();

    if program.statements.len() != 1 {
        panic!("program.statements does not contain 1 statements");
    }
    let expected = vec![Statement::ExpressionStatement(Expression::Identifier(Identifier(
        "foobar".to_string(),
    )))];
    assert_eq!(program.statements, expected);
}

#[test]
fn integer_litteral() {
    let input = "5;";
    let lexer = Lexer::new(input);
    let mut parser = Parser::new(lexer);

    let program = parser.parse_program();

    if program.statements.len() != 1 {
        panic!("program.statements does not contain 1 statements");
    }

    let expected = vec![Statement::ExpressionStatement(Expression::IntegerLiteral(5))];

    assert_eq!(program.statements, expected);
}

#[test]
fn parser_reads_two_tokens_ahead_at_start() {
    let parser = Parser::new(Lexer::new("let x"));
    assert_eq!(parser.current_token.token_type, TokenType::LET);
    assert_eq!(parser.peek_token.token_type, TokenType::IDENT);
    assert_eq!(parser.peek_token.literal, "x");
    assert!(parser.errors.is_empty());
}

#[test]
fn product_binds_tighter_than_sum() {
    assert_eq!(single_expression("1 + 2 * 3;"), infix(lit(1), "+", infix(lit(2), "*", lit(3))));
}

#[test]
fn equal_precedence_groups_left() {
    assert_eq!(single_expression("1 - 2 - 3;"), infix(infix(lit(1), "-", lit(2)), "-", lit(3)));
    assert_eq!(single_expression("a * b / c"), infix(infix(ident("a"), "*", ident("b")), "/", ident("c")));
}

#[test]
fn parentheses_override_precedence() {
    assert_eq!(single_expression("(1 + 2) * 3;"), infix(infix(lit(1), "+", lit(2)), "*", lit(3)));
}

#[test]
fn comparison_levels() {
    assert_eq!(
        single_expression("1 < 2 == 3 > 4 != x"),
        infix(infix(infix(lit(1), "<", lit(2)), "==", infix(lit(3), ">", lit(4))), "!=", ident("x"))
    );
}

#[test]
fn prefix_operators() {
    assert_eq!(single_expression("-5;"), prefix("-", lit(5)));
    assert_eq!(single_expression("!x;"), prefix("!", ident("x")));
    assert_eq!(single_expression("-a * b;"), infix(prefix("-", ident("a")), "*", ident("b")));
    assert_eq!(single_expression("!-a"), prefix("!", prefix("-", ident("a"))));
}

#[test]
fn calls() {
    assert_eq!(
        single_expression("f();"),
        Expression::CallExpression { function: Box::new(ident("f")), arguments: vec![] }
    );
    assert_eq!(
        single_expression("add(1, 2 * 3, g(x)) + 4;"),
        infix(
            Expression::CallExpression {
                function: Box::new(ident("add")),
                arguments: vec![
                    lit(1),
                    infix(lit(2), "*", lit(3)),
                    Expression::CallExpression { function: Box::new(ident("g")), arguments: vec![ident("x")] },
                ],
            },
            "+",
            lit(4)
        )
    );
}

#[test]
fn semicolon_is_optional_at_end() {
    let (statements, errors) = parse("x");
    assert!(errors.is_empty());
    assert_eq!(statements, vec![Statement::ExpressionStatement(ident("x"))]);
}

#[test]
fn malformed_lets_each_record_one_error() {
    let (statements, errors) = parse("let x 5;\nlet y 10;\nlet foobar 838383;");
    assert_eq!(
        errors,
        vec![
            "expected ASSIGN, but got 5 instead".to_string(),
            "expected ASSIGN, but got 10 instead".to_string(),
            "expected ASSIGN, but got 838383 instead".to_string(),
        ]
    );
    assert_eq!(
        statements,
        vec![
            Statement::ExpressionStatement(lit(5)),
            Statement::ExpressionStatement(lit(10)),
            Statement::ExpressionStatement(lit(838383)),
        ]
    );
}

#[test]
fn let_without_name() {
    let (statements, errors) = parse("let = 5;");
    assert_eq!(errors[0], "expected IDENT, but got = instead");
    assert!(statements.iter().all(|s| !matches!(s, Statement::LetStatement(..))));
}

#[test]
fn let_statement_count_and_names() {
    let (statements, errors) = parse("let x = 5;\nlet y = 10;\nlet foobar = 838383;");
    assert!(errors.is_empty());
    let names: Vec<String> = statements
        .iter()
        .map(|s| match s {
            Statement::LetStatement(Identifier(n), _) => n.clone(),
            other => panic!("not a let statement: {:?}", other),
        })
        .collect();
    assert_eq!(names, vec!["x".to_string(), "y".to_string(), "foobar".to_string()]);
}

#[test]
fn let_value_is_an_expression() {
    let (statements, errors) = parse("let a = b + 1 * c;");
    assert!(errors.is_empty());
    assert_eq!(
        statements,
        vec![Statement::LetStatement(Identifier("a".to_string()), infix(ident("b"), "+", infix(lit(1), "*", ident("c"))))]
    );
}

#[test]
fn missing_prefix_rule_is_recorded() {
    let (statements, errors) = parse(";");
    assert!(statements.is_empty());
    assert_eq!(errors, vec!["no prefix parse function for SEMICOLON".to_string()]);
}

#[test]
fn unclosed_group_is_recorded() {
    let (_, errors) = parse("(1 + 2;");
    assert_eq!(errors[0], "expected RPAREN, but got ; instead");
}

#[test]
fn integer_overflow_is_recorded() {
    let (statements, errors) = parse("9223372036854775808;");
    assert!(statements.is_empty());
    assert_eq!(errors, vec!["could not parse 9223372036854775808 as integer".to_string()]);
    let (statements, errors) = parse("9223372036854775807;");
    assert!(errors.is_empty());
    assert_eq!(statements, vec![Statement::ExpressionStatement(lit(i64::MAX))]);
}

#[test]
fn return_without_semicolon_reaches_end() {
    let (statements, errors) = parse("return 1 + 2");
    assert!(errors.is_empty());
    assert_eq!(statements, vec![Statement::ReturnStatement(infix(lit(1), "+", lit(2)))]);
}

#[test]
fn garbage_does_not_stop_parsing() {
    let (statements, errors) = parse("@ ; let ok = 1;");
    assert!(!errors.is_empty());
    assert_eq!(statements.last(), Some(&Statement::LetStatement(Identifier("ok".to_string()), lit(1))));
}

#[test]
fn decimal_reading() {
    assert_eq!(parse_i64("0"), Some(0));
    assert_eq!(parse_i64("007"), Some(7));
    assert_eq!(parse_i64("838383"), Some(838383));
    assert_eq!(parse_i64("9223372036854775807"), Some(i64::MAX));
    assert_eq!(parse_i64("9223372036854775808"), None);
    assert_eq!(parse_i64(""), None);
    assert_eq!(parse_i64("12a"), None);
    assert_eq!(parse_i64("-1"), None);
}

#[test]
fn precedence_table() {
    assert_eq!(precedence_of(TokenType::EQ), Precedence::EQUALS);
    assert_eq!(precedence_of(TokenType::NOT_EQ), Precedence::EQUALS);
    assert_eq!(precedence_of(TokenType::LESS), Precedence::LESSGREATER);
    assert_eq!(precedence_of(TokenType::PLUS), Precedence::SUM);
    assert_eq!(precedence_of(TokenType::FSLASH), Precedence::PRODUCT);
    assert_eq!(precedence_of(TokenType::LPAREN), Precedence::CALL);
    assert_eq!(precedence_of(TokenType::SEMICOLON), Precedence::LOWEST);
    assert!(Precedence::LOWEST < Precedence::EQUALS);
    assert!(Precedence::PRODUCT < Precedence::PREFIX);
    assert_eq!(Precedence::LOWEST.rank(), 0);
    assert_eq!(Precedence::CALL.rank(), 6);
}

#[test]
fn statement_at_end_of_input_records_missing_prefix() {
    let mut parser = Parser::new(Lexer::new(""));
    assert_eq!(parser.parse_statement(), None);
    assert_eq!(parser.errors, vec!["no prefix parse function for EOF".to_string()]);
    assert_eq!(parser.current_token.token_type, TokenType::EOF);
}

#[test]
fn return_at_end_of_input() {
    let mut parser = Parser::new(Lexer::new("return"));
    assert_eq!(parser.parse_return_statement(), None);
    assert_eq!(parser.errors, vec!["no prefix parse function for EOF".to_string()]);
}
