use rlox::environment::Environment;
use rlox::error::{Expected, LoxError, RuntimeError, UnboundVariable};
use rlox::eval::{Arithmetic, Value};
use rlox::expr::{BinaryOp, Expr, Literal, UnaryOp};
use rlox::lox::{Event, Lox};
use rlox::parser::Parser;
use rlox::scanner::Scanner;
use rlox::statement::Statement;
use rlox::token::Token;

struct Doubles;

impl Arithmetic for Doubles {
    fn numeral(&self, text: &str) -> u64 {
        text.parse::<f64>().unwrap().to_bits()
    }

    fn arithmetic(&self, op: BinaryOp, x: u64, y: u64) -> u64 {
        let (x, y) = (f64::from_bits(x), f64::from_bits(y));
        let r = match op {
            BinaryOp::Minus => x - y,
            BinaryOp::Plus => x + y,
            BinaryOp::Div => x / y,
            _ => x * y,
        };
        r.to_bits()
    }

    fn compare(&self, op: BinaryOp, x: u64, y: u64) -> bool {
        let (x, y) = (f64::from_bits(x), f64::from_bits(y));
        match op {
            BinaryOp::Equal => x == y,
            BinaryOp::NotEqual => x != y,
            BinaryOp::Less => x < y,
            BinaryOp::LessEqual => x <= y,
            BinaryOp::Greater => x > y,
            _ => x >= y,
        }
    }

    fn negate(&self, x: u64) -> u64 {
        (-f64::from_bits(x)).to_bits()
    }
}

fn tokens(source: &str) -> Vec<Token> {
    let mut scanner = Scanner::new(source);
    scanner.scan_tokens().ok().unwrap().clone()
}

fn program(source: &str) -> Vec<Statement> {
    Parser::new(tokens(source)).parse().ok().unwrap()
}

fn expression(source: &str) -> Expr {
    match program(&format!("{source};")).pop().unwrap() {
        Statement::Expr(e) => e,
        other => panic!("not an expression statement: {other:?}"),
    }
}

fn number(v: &Value) -> f64 {
    match v {
        Value::Number(bits) => f64::from_bits(*bits),
        other => panic!("not a number: {other:?}"),
    }
}

fn run(source: &str, env: &mut Environment) -> (Result<(), LoxError>, Vec<Event>) {
    let mut events = Vec::new();
    let r = Lox::default().run(source, env, &Doubles, &mut events);
    (r, events)
}

fn printed(events: &[Event]) -> Vec<String> {
    events
        .iter()
        .map(|e| match e {
            Event::Print(Value::Number(bits)) => f64::from_bits(*bits).to_string(),
            Event::Print(Value::Boolean(b)) => b.to_string(),
            Event::Print(Value::String(s)) => s.clone(),
            Event::Print(Value::Nil) => "nil".to_string(),
            Event::Failure(RuntimeError::TypeError(_)) => "TypeError".to_string(),
            Event::Failure(RuntimeError::UnboundVariable(UnboundVariable(n))) => format!("Unbound {n}"),
            Event::Syntax(e) => format!("Syntax {:?} at {}", e.expected, e.token.lexeme),
        })
        .collect()
}

#[test]
fn print_ast() {
    let expr = Expr::Binary(
        BinaryOp::Mul,
        Expr::Unary(UnaryOp::Minus, Expr::Literal(Literal::Number("123".to_string())).into()).into(),
        Expr::Grouping(Expr::Literal(Literal::Number("45.67".to_string())).into()).into(),
    );
    assert_eq!(expr.display(), "(* (- 123) (group 45.67))");
}

#[test]
fn parsed_expression_displays_in_prefix_form() {
    assert_eq!(expression("-123 * (45.67)").display(), "(* (- 123) (group 45.67))");
    let e = Parser::new(tokens("-123 * (45.67)")).parse_expression().ok().unwrap();
    assert_eq!(e.display(), "(* (- 123) (group 45.67))");
}

#[test]
fn parse_expression_needs_one_whole_expression() {
    for source in ["1 +", "1 2", "(1", "", "1;", "* 2"] {
        assert!(Parser::new(tokens(source)).parse_expression().is_err(), "{source:?} should not parse");
    }
    let e = Parser::new(tokens("a == b != !c")).parse_expression().ok().unwrap();
    assert_eq!(e.display(), "(!= (= a b) (! c))");
}

#[test]
fn precedence_and_left_associativity() {
    assert_eq!(expression("1 + 2 * 3").display(), "(+ 1 (* 2 3))");
    assert_eq!(expression("1 - 2 - 3").display(), "(- (- 1 2) 3)");
    assert_eq!(expression("8 / 4 / 2").display(), "(/ (/ 8 4) 2)");
    assert_eq!(expression("1 < 2 == 3 >= 4").display(), "(= (< 1 2) (>= 3 4))");
    assert_eq!(expression("!!true != -x").display(), "(!= (! (! true)) (- x))");
    assert_eq!(expression("(1 + 2) * \"s\"").display(), "(* (group (+ 1 2)) s)");
    assert_eq!(expression("nil == false").display(), "(= nil false)");
}

#[test]
fn parse_errors_are_signalled() {
    for source in ["1 +;", "(1;", "print 1", "let x;", "let = 1;", "{ print 1;", ")"] {
        assert!(Parser::new(tokens(source)).parse().is_err(), "{source:?} should not parse");
    }
}

#[test]
fn malformed_let_before_print_is_reported() {
    let (stmts, failures) = Parser::new(tokens("let ; print 1;")).parse_all();
    assert_eq!(failures.len(), 1);
    assert_eq!(failures[0].expected, Expected::VariableName);
    assert_eq!(failures[0].token.lexeme, ";");
    assert_eq!(stmts.len(), 1);
    match &stmts[0] {
        Statement::Print(e) => assert_eq!(e.display(), "1"),
        other => panic!("expected the print statement, got {other:?}"),
    }
}

#[test]
fn failed_binding_consumes_its_semicolon() {
    for (source, expected, at) in [
        ("let = 1; print 2;", Expected::VariableName, "="),
        ("let x = ; print 2;", Expected::Expression, ";"),
        ("let x; print 2;", Expected::Initializer, ";"),
    ] {
        let (stmts, failures) = Parser::new(tokens(source)).parse_all();
        assert_eq!(failures.len(), 1, "{source:?}");
        assert_eq!(failures[0].expected, expected, "{source:?}");
        assert_eq!(failures[0].token.lexeme, at, "{source:?}");
        assert_eq!(stmts.len(), 1, "{source:?}");
        match &stmts[0] {
            Statement::Print(e) => assert_eq!(e.display(), "2"),
            other => panic!("expected the print statement, got {other:?}"),
        }
    }
    let stmts = program("let x = 1;");
    match &stmts[0] {
        Statement::Let(name, e) => {
            assert_eq!(name, "x");
            assert_eq!(e.display(), "1");
        }
        other => panic!("expected a binding, got {other:?}"),
    }
}

#[test]
fn parsing_resumes_after_a_malformed_statement() {
    let (stmts, failures) = Parser::new(tokens("let x 1; print 1;")).parse_all();
    assert_eq!(failures.len(), 1);
    assert_eq!(failures[0].expected, Expected::LetSemicolon);
    assert_eq!(failures[0].token.lexeme, "1");
    assert_eq!(stmts.len(), 1);
    match &stmts[0] {
        Statement::Print(e) => assert_eq!(e.display(), "1"),
        other => panic!("expected the print statement, got {other:?}"),
    }
    let (stmts, failures) = Parser::new(tokens("1 + ; 2; print 3;")).parse_all();
    assert_eq!(failures.len(), 1);
    assert_eq!(failures[0].expected, Expected::Expression);
    assert_eq!(stmts.len(), 2);
}

#[test]
fn each_failed_statement_is_reported() {
    let (stmts, failures) = Parser::new(tokens("print 1 print 2; (3; let y = 4; { 5;")).parse_all();
    let found: Vec<(Expected, String)> = failures.iter().map(|f| (f.expected, f.token.lexeme.clone())).collect();
    assert_eq!(
        found,
        vec![
            (Expected::Semicolon, "print".to_string()),
            (Expected::RightParen, ";".to_string()),
            (Expected::RightBrace, "".to_string()),
        ]
    );
    assert_eq!(stmts.len(), 1);
    let (_, failures) = Parser::new(tokens("let z;")).parse_all();
    assert_eq!(failures.len(), 1);
    assert_eq!(failures[0].expected, Expected::Initializer);
}

#[test]
fn well_formed_program_parses_every_statement() {
    let stmts = program("let a = 1; { print a; a; } print \"s\";");
    assert_eq!(stmts.len(), 3);
    match &stmts[0] {
        Statement::Let(name, e) => {
            assert_eq!(name, "a");
            assert_eq!(e.display(), "1");
        }
        other => panic!("expected a binding, got {other:?}"),
    }
    match &stmts[1] {
        Statement::Block(inner) => assert_eq!(inner.len(), 2),
        other => panic!("expected a block, got {other:?}"),
    }
}

#[test]
fn string_literal_value_drops_the_quotes() {
    assert_eq!(expression("\"hello\"").display(), "hello");
}

#[test]
fn shadowing_does_not_leak_out_of_a_block() {
    let mut env = Environment::new();
    let (r, events) = run("let x = 1; { let x = 2; print x; } print x;", &mut env);
    assert!(r.is_ok());
    assert_eq!(printed(&events), vec!["2", "1"]);
    let x = env.get(&"x".to_string()).ok().unwrap();
    assert_eq!(number(&x), 1.0);
}

#[test]
fn nested_block_leaves_the_environment_as_it_was() {
    let mut env = Environment::new();
    let (r, _) = run("{ let x = 1; { let x = 2; } print x; }", &mut env);
    assert!(r.is_ok());
    assert!(env.get(&"x".to_string()).is_err());
    let stmts = program("{ let x = 1; { let x = 2; } }");
    let mut out = Vec::new();
    assert!(stmts[0].eval(&mut env, &Doubles, &mut out).is_ok());
    assert!(env.get(&"x".to_string()).is_err());
}

#[test]
fn unbound_variable_fails_and_prints_nothing() {
    let mut env = Environment::new();
    let stmts = program("print y;");
    let mut out = Vec::new();
    match stmts[0].eval(&mut env, &Doubles, &mut out) {
        Err(RuntimeError::UnboundVariable(UnboundVariable(name))) => assert_eq!(name, "y"),
        other => panic!("expected an unbound variable, got {other:?}"),
    }
    assert!(out.is_empty());
}

#[test]
fn string_plus_number_is_a_type_error() {
    let env = Environment::new();
    match expression("\"a\" + 1").eval(&env, &Doubles) {
        Err(RuntimeError::TypeError(_)) => {}
        other => panic!("expected a type error, got {other:?}"),
    }
}

#[test]
fn string_plus_string_concatenates() {
    let env = Environment::new();
    match expression("\"a\" + \"b\"").eval(&env, &Doubles) {
        Ok(Value::String(s)) => assert_eq!(s, "ab"),
        other => panic!("expected a string, got {other:?}"),
    }
}

#[test]
fn mismatched_kinds_are_unequal() {
    let env = Environment::new();
    match expression("1 == \"1\"").eval(&env, &Doubles) {
        Ok(Value::Boolean(b)) => assert!(!b),
        other => panic!("expected a boolean, got {other:?}"),
    }
    match expression("nil != false").eval(&env, &Doubles) {
        Ok(Value::Boolean(b)) => assert!(b),
        other => panic!("expected a boolean, got {other:?}"),
    }
    match expression("nil == nil").eval(&env, &Doubles) {
        Ok(Value::Boolean(b)) => assert!(b),
        other => panic!("expected a boolean, got {other:?}"),
    }
}

#[test]
fn arithmetic_and_comparison_on_numbers() {
    let env = Environment::new();
    assert_eq!(number(&expression("1 + 2 * 3").eval(&env, &Doubles).ok().unwrap()), 7.0);
    assert_eq!(number(&expression("(1 + 2) * 3").eval(&env, &Doubles).ok().unwrap()), 9.0);
    assert_eq!(number(&expression("7 / 2 - -1").eval(&env, &Doubles).ok().unwrap()), 4.5);
    match expression("1 < 2").eval(&env, &Doubles) {
        Ok(Value::Boolean(b)) => assert!(b),
        other => panic!("expected a boolean, got {other:?}"),
    }
    match expression("2 <= 1").eval(&env, &Doubles) {
        Ok(Value::Boolean(b)) => assert!(!b),
        other => panic!("expected a boolean, got {other:?}"),
    }
}

#[test]
fn operator_table_rejects_unlisted_pairings() {
    let env = Environment::new();
    for source in ["-\"a\"", "!1", "true < false", "\"a\" * \"b\"", "nil + nil", "1 - true"] {
        match expression(source).eval(&env, &Doubles) {
            Err(RuntimeError::TypeError(_)) => {}
            other => panic!("{source:?}: expected a type error, got {other:?}"),
        }
    }
}

#[test]
fn logical_operators_need_booleans() {
    match BinaryOp::And.eval(Value::Boolean(true), Value::Boolean(false), &Doubles) {
        Ok(Value::Boolean(b)) => assert!(!b),
        _ => panic!("expected false"),
    }
    match BinaryOp::Or.eval(Value::Boolean(true), Value::Boolean(false), &Doubles) {
        Ok(Value::Boolean(b)) => assert!(b),
        _ => panic!("expected true"),
    }
    assert!(BinaryOp::Or.eval(Value::Nil, Value::Boolean(false), &Doubles).is_err());
    match UnaryOp::Not.eval(Value::Boolean(true), &Doubles) {
        Ok(Value::Boolean(b)) => assert!(!b),
        _ => panic!("expected false"),
    }
}

#[test]
fn environment_binds_in_the_innermost_scope() {
    let mut env = Environment::new();
    env.bind("a".to_string(), Value::Boolean(true));
    env.push();
    env.bind("a".to_string(), Value::Nil);
    assert!(matches!(env.get(&"a".to_string()), Ok(Value::Nil)));
    env.pop();
    assert!(matches!(env.get(&"a".to_string()), Ok(Value::Boolean(true))));
    env.bind("a".to_string(), Value::String("s".to_string()));
    match env.get(&"a".to_string()) {
        Ok(Value::String(s)) => assert_eq!(s, "s"),
        other => panic!("expected a string, got {other:?}"),
    }
    match env.get(&"b".to_string()) {
        Err(UnboundVariable(name)) => assert_eq!(name, "b"),
        other => panic!("expected unbound, got {other:?}"),
    }
}

#[test]
fn runtime_error_stops_only_its_statement() {
    let mut env = Environment::default();
    let (r, events) = run("print 1; print z; let w = 2; print w + 1;", &mut env);
    assert!(r.is_ok());
    assert_eq!(printed(&events), vec!["1", "Unbound z", "3"]);
}

#[test]
fn failed_let_binds_nothing() {
    let mut env = Environment::new();
    let (r, events) = run("let v = 1 + nil;", &mut env);
    assert!(r.is_ok());
    assert_eq!(printed(&events), vec!["TypeError"]);
    assert!(env.get(&"v".to_string()).is_err());
}

#[test]
fn lexical_and_parse_failures_stop_the_run() {
    let mut env = Environment::new();
    match run("print 1; @", &mut env) {
        (Err(LoxError::ScannerError(errors)), events) => {
            assert_eq!(errors.len(), 1);
            assert_eq!(errors[0].message, "Unexpected character");
            assert!(events.is_empty());
        }
        _ => panic!("expected lexical errors"),
    }
    match run("print 1; print;", &mut env) {
        (Err(LoxError::ParserError(_)), events) => assert_eq!(printed(&events), vec!["Syntax Expression at ;"]),
        _ => panic!("expected a parse failure"),
    }
}

#[test]
fn numbers_display_as_the_values_they_denote() {
    for (numeral, shown) in [("123", "123"), ("45.67", "45.67"), ("1.0", "1"), ("007.50", "7.5"), ("0", "0"), ("00", "0"), ("100", "100"), ("0.05", "0.05"), ("10.000", "10")] {
        let lit = Literal::Number(numeral.to_string());
        assert_eq!(lit.display(), shown, "{numeral}");
        let expected: f64 = numeral.parse().unwrap();
        assert_eq!(expected.to_string(), shown);
    }
    assert_eq!(expression("2.50 * 1.0").display(), "(* 2.5 1)");
}

#[test]
fn each_parse_failure_becomes_one_event_in_order() {
    let mut env = Environment::new();
    match run("let ; print 1; (2; let x = ; print 3;", &mut env) {
        (Err(LoxError::ParserError(_)), events) => assert_eq!(
            printed(&events),
            vec!["Syntax VariableName at ;", "Syntax RightParen at ;", "Syntax Expression at ;"]
        ),
        _ => panic!("expected a parse failure"),
    }
}
