//! End-to-end scenarios through the whole pipeline, the edge cases of each
//! stage, and the deterministic source.

use dice_algebra::ast::IntegerAST;
use dice_algebra::ast::ShortRollAST;
use dice_algebra::ast::AST;
use dice_algebra::lexer::tokenize;
use dice_algebra::lexer::Token;
use dice_algebra::lexer::TokenType;
use dice_algebra::parser::parse;
use dice_algebra::rng::FixedSource;
use dice_algebra::rng::RandomSource;
use dice_algebra::rng::ThreadRandomSource;

fn run_fixed(input: &str, draws: Vec<u64>) -> Result<(i128, String), String> {
    let tokens = tokenize(input).map_err(|e| e.message)?;
    let tree = parse(&tokens).map_err(|e| e.message)?;
    let mut source = FixedSource::new(draws);
    let result = tree.execute_ast(&mut source).map_err(|e| e.message)?;
    Ok((result.result, result.description))
}

#[test]
fn pipeline_bare_literal_returns_its_value_with_empty_trace() {
    let tokens = tokenize("10").unwrap();
    assert_eq!(
        vec![Token {
            token_type: TokenType::Integer,
            integer: 10,
        }],
        tokens
    );
    let tree = parse(&tokens).unwrap();
    assert!(matches!(
        tree,
        AST::Integer(IntegerAST { integer: 10 })
    ));
    let (value, trace) = run_fixed("10", vec![]).unwrap();
    assert_eq!(10, value);
    assert_eq!("", trace);
}

#[test]
fn pipeline_division_by_zero_parses_but_fails_evaluation() {
    let tokens = tokenize("10/0").unwrap();
    assert!(parse(&tokens).is_ok());
    assert_eq!(
        Err("Division by zero is not allowed.".to_string()),
        run_fixed("10/0", vec![])
    );
}

#[test]
fn pipeline_parentheses_override_precedence() {
    let (value, trace) = run_fixed("(2+3)*4", vec![]).unwrap();
    assert_eq!(20, value);
    assert_eq!("", trace);
}

#[test]
fn pipeline_keep_high_keeps_larger_of_two_scripted_rolls() {
    let (value, trace) = run_fixed("2d6h1", vec![4, 3]).unwrap();
    assert_eq!(4, value);
    assert_eq!("\nRolling 2d6...\nYou rolled: 4\nYou rolled: 3\n", trace);
}

#[test]
fn pipeline_unclosed_parenthetical_fails_parse() {
    let tokens = tokenize("(1+2").unwrap();
    match parse(&tokens) {
        Err(err) => assert_eq!("Expression contains an unclosed parenthetical.", err.message),
        Ok(_) => panic!("Should have returned an error"),
    }
}

#[test]
fn pipeline_multiplication_binds_tighter_than_addition() {
    let (value, _) = run_fixed("2+3*4", vec![]).unwrap();
    assert_eq!(14, value);
}

#[test]
fn pipeline_subtraction_is_left_associative() {
    let (value, _) = run_fixed("10-2-3", vec![]).unwrap();
    assert_eq!(5, value);
}

#[test]
fn pipeline_division_truncates_toward_zero() {
    let (value, _) = run_fixed("7/2", vec![]).unwrap();
    assert_eq!(3, value);
}

#[test]
fn pipeline_subtraction_can_go_negative() {
    let (value, _) = run_fixed("2-5", vec![]).unwrap();
    assert_eq!(-3, value);
}

#[test]
fn pipeline_nested_division_by_zero_fails() {
    assert_eq!(
        Err("Division by zero is not allowed.".to_string()),
        run_fixed("1+(3*(4/(2-2)))", vec![])
    );
}

#[test]
fn tokenize_whitespace_ends_a_pending_literal() {
    let tokens = tokenize("12 34").unwrap();
    assert_eq!(
        vec![
            Token {
                token_type: TokenType::Integer,
                integer: 12,
            },
            Token {
                token_type: TokenType::Integer,
                integer: 34,
            },
        ],
        tokens
    );
}

#[test]
fn tokenize_oversized_literal_fails_with_overflow_message() {
    match tokenize("99999999999999999999999999") {
        Err(err) => assert_eq!(
            "Unexpected error: number too large to fit in target type",
            err.message
        ),
        Ok(_) => panic!("Should have returned an error"),
    }
}

#[test]
fn tokenize_largest_literal_fits() {
    let tokens = tokenize("18446744073709551615").unwrap();
    assert_eq!(
        vec![Token {
            token_type: TokenType::Integer,
            integer: u64::MAX,
        }],
        tokens
    );
}

#[test]
fn parse_empty_sequence_fails_with_invalid_expression() {
    let tokens: Vec<Token> = vec![];
    match parse(&tokens) {
        Err(err) => assert_eq!("Invalid expression.", err.message),
        Ok(_) => panic!("Should have returned an error"),
    }
}

#[test]
fn parse_leftover_tokens_fail_with_invalid_expression() {
    let tokens = tokenize("1 2").unwrap();
    match parse(&tokens) {
        Err(err) => assert_eq!("Invalid expression.", err.message),
        Ok(_) => panic!("Should have returned an error"),
    }
}

#[test]
fn keep_bound_at_or_above_count_keeps_every_roll() {
    let (value, _) = run_fixed("2d6h5", vec![4, 3]).unwrap();
    assert_eq!(7, value);
    let (value_low, _) = run_fixed("2d6l2", vec![4, 3]).unwrap();
    assert_eq!(7, value_low);
}

#[test]
fn keep_low_keeps_the_smallest_rolls() {
    let (value, trace) = run_fixed("3d10l2", vec![9, 2, 5]).unwrap();
    assert_eq!(7, value);
    assert_eq!(
        "\nRolling 3d10...\nYou rolled: 9\nYou rolled: 2\nYou rolled: 5\n",
        trace
    );
}

#[test]
fn evaluating_the_same_tree_over_the_same_draws_is_deterministic() {
    let tokens = tokenize("2d6h1 + d8").unwrap();
    let tree = parse(&tokens).unwrap();
    let mut first = FixedSource::new(vec![4, 3, 6]);
    let mut second = FixedSource::new(vec![4, 3, 6]);
    let a = tree.execute_ast(&mut first).unwrap();
    let b = tree.execute_ast(&mut second).unwrap();
    assert_eq!(a.result, b.result);
    assert_eq!(a.description, b.description);
}

#[test]
fn fixed_source_clamps_out_of_range_values_to_the_lower_bound() {
    let mut source = FixedSource::new(vec![100]);
    let drawn = source.draw(1, 6);
    assert_eq!(1, drawn);
}

#[test]
fn fixed_source_returns_in_range_values_unchanged() {
    let mut source = FixedSource::new(vec![5, 2]);
    assert_eq!(5, source.draw(1, 6));
    assert_eq!(2, source.draw(1, 6));
}

#[test]
fn thread_source_rolls_stay_inside_the_die_range() {
    let ast = AST::ShortRoll(ShortRollAST { faces: 6 });
    let mut source = ThreadRandomSource::new();
    for _ in 0..50 {
        let result = ast.execute_ast(&mut source).unwrap();
        assert!(1 <= result.result && result.result < 6);
    }
}

#[test]
fn error_message_names_the_unexpected_character() {
    match tokenize("1+q") {
        Err(err) => assert_eq!("Unexpected character: q", err.message),
        Ok(_) => panic!("Should have returned an error"),
    }
}

#[test]
fn shortroll_missing_faces_fails_with_invalid_expression() {
    let tokens = tokenize("d").unwrap();
    match parse(&tokens) {
        Err(err) => assert_eq!("Invalid expression.", err.message),
        Ok(_) => panic!("Should have returned an error"),
    }
}
