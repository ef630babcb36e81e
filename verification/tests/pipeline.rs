//! End-to-end tests: parsing and evaluating whole programs.

use tinylang::error::DiagnosticError;
use tinylang::interpreter::Interpreter;
use tinylang::node::Node;
use tinylang::parser::Parser;

/// Parses a clean program and evaluates it, returning the bindings as
/// (name, value) pairs in first-assignment order.
fn run(src: &str) -> Vec<(String, i64)> {
    let mut parser = Parser::new(src);
    let ast = parser.parse().expect("the program should parse cleanly");
    let mut interpreter = Interpreter::new(src, ast);
    interpreter.evaluate().expect("the program should evaluate cleanly");
    interpreter
        .bindings()
        .iter()
        .map(|(name, value)| (String::from_utf8(name.clone()).unwrap(), *value))
        .collect()
}

fn parse_errors(src: &str) -> Vec<DiagnosticError> {
    let mut parser = Parser::new(src);
    match parser.parse() {
        Ok(_) => panic!("expected diagnostics"),
        Err(errors) => errors,
    }
}

#[test]
fn every_left_hand_side_gets_a_binding() {
    let bindings = run("a = 2;\nb = a * 10;\nc = b - a + 4;\nd = -c;");
    assert_eq!(
        bindings,
        vec![
            ("a".to_string(), 2),
            ("b".to_string(), 20),
            ("c".to_string(), 22),
            ("d".to_string(), -22),
        ]
    );
}

#[test]
fn precedence_and_unary_signs() {
    assert_eq!(run("a = (1 + 2) * 3;"), vec![("a".to_string(), 9)]);
    assert_eq!(run("a = -(1+2)*3;"), vec![("a".to_string(), -9)]);
    assert_eq!(run("a = 1 + 2 * 3;"), vec![("a".to_string(), 7)]);
    assert_eq!(run("a = 10 - 2 - 3;"), vec![("a".to_string(), 5)]);
}

#[test]
fn last_assignment_wins() {
    assert_eq!(run("a = 1; a = 2;"), vec![("a".to_string(), 2)]);
}

#[test]
fn clean_parse_has_one_assignment_per_semicolon() {
    let src = "a = 1;\nb = (a + 2) * -a;\nc = b;";
    let mut parser = Parser::new(src);
    let ast = parser.parse().expect("the program should parse cleanly");
    match ast {
        Node::Program(assignments) => assert_eq!(assignments.len(), 3),
        _ => panic!("the root should be a Program node"),
    }
}

#[test]
fn leading_zero_literal_is_one_diagnostic() {
    let errors = parse_errors("x = 007;");
    assert_eq!(errors.len(), 1);
    assert_eq!(
        errors[0].message(),
        "The integer, `007`, is invalid. literals must be either 0 or non-zero digits."
    );
    assert_eq!(errors[0].line(), 1);
    assert_eq!(errors[0].column(), 5);
}

#[test]
fn out_of_range_literal_is_one_diagnostic() {
    let errors = parse_errors("y = 99999999999999999999;");
    assert_eq!(errors.len(), 1);
    assert_eq!(
        errors[0].message(),
        "The integer,`99999999999999999999`, is invalid. integers must be in the range \
         [-9223372036854775808, 9223372036854775807]."
    );
    assert_eq!(errors[0].line(), 1);
    assert_eq!(errors[0].column(), 5);
}

#[test]
fn largest_and_smallest_literals() {
    assert_eq!(
        run("a = 9223372036854775807;"),
        vec![("a".to_string(), i64::MAX)]
    );
    // 2^63 itself no longer fits
    let errors = parse_errors("a = 9223372036854775808;");
    assert_eq!(errors.len(), 1);
    // negation wraps, by the documented arithmetic policy
    assert_eq!(
        run("a = -9223372036854775807 - 1;"),
        vec![("a".to_string(), i64::MIN)]
    );
}

#[test]
fn uninitialized_read_reports_and_counts_as_zero() {
    let src = "z = undefinedVar + 1;";
    let mut parser = Parser::new(src);
    let ast = parser.parse().expect("the program should parse cleanly");
    let mut interpreter = Interpreter::new(src, ast);
    let errors = interpreter.evaluate().expect_err("the read should be reported");
    assert_eq!(errors.len(), 1);
    assert_eq!(
        errors[0].message(),
        "The identifier `undefinedVar`, has not yet been initialized."
    );
    assert_eq!(errors[0].line(), 1);
    assert_eq!(errors[0].column(), 5);
    let bindings = interpreter.bindings();
    assert_eq!(bindings.len(), 1);
    assert_eq!(bindings[0].0, b"z".to_vec());
    assert_eq!(bindings[0].1, 1);
}

#[test]
fn recovery_across_statement_boundaries() {
    // the first assignment misses its expression; the second still binds
    let src = "a = ; b = 5;";
    let mut parser = Parser::new(src);
    let mut errors: Vec<DiagnosticError> = Vec::new();
    let ast = parser.parse_program(&mut errors);
    assert_eq!(errors.len(), 1);
    assert_eq!(
        errors[0].message(),
        "Expected either `+`, `-`, `(`, an `Identifier`, or a `Literal`, but found `;` (Semicolon)"
    );
    let mut interpreter = Interpreter::new(src, ast);
    interpreter.evaluate().expect("the surviving assignment should evaluate");
    let bindings = interpreter.bindings();
    assert_eq!(bindings.len(), 1);
    assert_eq!(bindings[0].0, b"b".to_vec());
    assert_eq!(bindings[0].1, 5);
}

#[test]
fn missing_identifier_diagnostic() {
    let errors = parse_errors("= 5;");
    assert_eq!(errors.len(), 1);
    assert_eq!(errors[0].message(), "Expected an `Identifier`, but found `=` (Equal)");
}

#[test]
fn missing_equal_diagnostic() {
    let errors = parse_errors("a 5;");
    assert_eq!(errors.len(), 1);
    assert_eq!(errors[0].message(), "Expected an `Equal` token, but found `5` (Literal).");
    assert_eq!(errors[0].line(), 1);
    assert_eq!(errors[0].column(), 3);
}

#[test]
fn missing_equal_at_end_of_input() {
    let errors = parse_errors("a");
    assert!(errors.iter().any(|e| e.message() == "Expected an `Equal` token."));
}

#[test]
fn missing_semicolon_diagnostic() {
    let errors = parse_errors("a = 1 b = 2;");
    assert_eq!(errors.len(), 1);
    assert_eq!(
        errors[0].message(),
        "Expected a `Semicolon` after `1`, but found `b` (Identifier)."
    );
    assert_eq!(errors[0].column(), 6);
}

#[test]
fn missing_closing_paren_diagnostic() {
    let errors = parse_errors("a = (1;");
    assert!(errors[0].message().starts_with("Expected a `)` after"));
}

#[test]
fn missing_expression_at_end_of_input() {
    let errors = parse_errors("a =");
    assert!(errors.iter().any(|e| e
        .message()
        .starts_with("Expected either `+`, `-`, `(`, an `Identifier`, or a `Literal`")));
}

#[test]
fn several_defects_in_one_pass() {
    let errors = parse_errors("x = 007;\ny = ;\nz = 1");
    // one leading-zero diagnostic, one missing expression, one missing semicolon
    assert_eq!(errors.len(), 3);
}

#[test]
fn invalid_literal_recovers_as_zero() {
    // the leading-zero literal is reported once and continues as zero, so
    // the assignment stays in the tree and later statements can use it
    let src = "x = 007; y = x;";
    let mut parser = Parser::new(src);
    let mut errors: Vec<DiagnosticError> = Vec::new();
    let ast = parser.parse_program(&mut errors);
    assert_eq!(errors.len(), 1);
    assert_eq!(
        errors[0].message(),
        "The integer, `007`, is invalid. literals must be either 0 or non-zero digits."
    );
    let mut interpreter = Interpreter::new(src, ast);
    interpreter.evaluate().expect("no variable is read unbound");
    let bindings = interpreter.bindings();
    assert_eq!(bindings.len(), 2);
    assert_eq!(bindings[0].0, b"x".to_vec());
    assert_eq!(bindings[0].1, 0);
    assert_eq!(bindings[1].0, b"y".to_vec());
    assert_eq!(bindings[1].1, 0);
}

#[test]
fn invalid_literal_does_not_cascade() {
    // one defect, one diagnostic: the surrounding expression still builds
    let src = "x = 007 + 5;";
    let mut parser = Parser::new(src);
    let mut errors: Vec<DiagnosticError> = Vec::new();
    let ast = parser.parse_program(&mut errors);
    assert_eq!(errors.len(), 1);
    let mut interpreter = Interpreter::new(src, ast);
    interpreter.evaluate().expect("the expression evaluates");
    let bindings = interpreter.bindings();
    assert_eq!(bindings.len(), 1);
    assert_eq!(bindings[0].0, b"x".to_vec());
    assert_eq!(bindings[0].1, 5);
}

#[test]
fn wrapping_multiplication() {
    // 2^62 * 4 wraps to 0 under two's-complement i64 arithmetic
    assert_eq!(
        run("a = 4611686018427387904 * 4;"),
        vec![("a".to_string(), 0)]
    );
}
