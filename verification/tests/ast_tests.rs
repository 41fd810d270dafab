#![allow(non_snake_case)]

use dice_algebra::ast::IntegerAST;
use dice_algebra::ast::LongRollAST;
use dice_algebra::ast::MathAST;
use dice_algebra::ast::MathOperation;
use dice_algebra::ast::ShortRollAST;
use dice_algebra::ast::AST;
use dice_algebra::rng::SeededSource;

fn seeded(seed: u64) -> SeededSource {
    SeededSource::from_seed(seed)
}

#[test]
fn IntegerAST__execute_ast__with_static_value__just_returns_the_value() {
    let ast = AST::Integer(IntegerAST { integer: 10 });
    let mut rng = seeded(1);

    let result = ast.execute_ast(&mut rng).unwrap();

    assert_eq!(10 as i128, result.result);
    assert_eq!("", result.description);
}

#[test]
fn ShortRollAST__execute_ast__N_faces__rolls_one_die_with_N_faces() {
    let ast = AST::ShortRoll(ShortRollAST { faces: 10 });
    let mut rng = seeded(1);

    let result = ast.execute_ast(&mut rng).unwrap();

    assert_eq!(9 as i128, result.result);
    assert_eq!("\nRolling d10...\nYou rolled: 9\n", result.description);
}

#[test]
fn ShortRollAST__execute_ast__0_faces__rolls_one_die_with_0_faces() {
    let ast = AST::ShortRoll(ShortRollAST { faces: 0 });
    let mut rng = seeded(1);

    let result = ast.execute_ast(&mut rng).unwrap();

    assert_eq!(0 as i128, result.result);
    assert_eq!("\nRolling d0...\nYou rolled: 0\n", result.description);
}

#[test]
fn ShortRollAST__execute_ast__1_face__rolls_one_die_with_1_face() {
    let ast = AST::ShortRoll(ShortRollAST { faces: 1 });
    let mut rng = seeded(1);

    let result = ast.execute_ast(&mut rng).unwrap();

    assert_eq!(1 as i128, result.result);
    assert_eq!("\nRolling d1...\nYou rolled: 1\n", result.description);
}

#[test]
fn LongRollAST__execute_ast__N_die_M_faces__rolls_N_die_with_M_faces() {
    let ast = AST::LongRoll(LongRollAST {
        die: 2,
        faces: 10,
        keep_high: None,
        keep_low: None,
    });
    let mut rng = seeded(1);

    let result = ast.execute_ast(&mut rng).unwrap();

    assert_eq!(16, result.result);
    assert_eq!(
        "\nRolling 2d10...\nYou rolled: 9\nYou rolled: 7\n",
        result.description
    );
}

#[test]
fn LongRollAST__execute_ast__0_die_M_faces__rolls_0_die() {
    let ast = AST::LongRoll(LongRollAST {
        die: 0,
        faces: 10,
        keep_high: None,
        keep_low: None,
    });
    let mut rng = seeded(1);

    let result = ast.execute_ast(&mut rng).unwrap();

    assert_eq!(0, result.result);
    assert_eq!("\nRolling 0d10...\n", result.description);
}

#[test]
fn LongRollAST__execute_ast__N_die_0_faces__rolls_N_die_with_0_faces() {
    let ast = AST::LongRoll(LongRollAST {
        die: 2,
        faces: 0,
        keep_high: None,
        keep_low: None,
    });
    let mut rng = seeded(1);

    let result = ast.execute_ast(&mut rng).unwrap();

    assert_eq!(0, result.result);
    assert_eq!(
        "\nRolling 2d0...\nYou rolled: 0\nYou rolled: 0\n",
        result.description
    );
}

#[test]
fn LongRollAST__execute_ast__keep_high_N__keeps_only_the_highest_N_rolls() {
    let ast = AST::LongRoll(LongRollAST {
        die: 2,
        faces: 10,
        keep_high: Some(1),
        keep_low: None,
    });
    let mut rng = seeded(1);

    let result = ast.execute_ast(&mut rng).unwrap();

    assert_eq!(9, result.result);
    assert_eq!(
        "\nRolling 2d10...\nYou rolled: 9\nYou rolled: 7\n",
        result.description
    );
}

#[test]
fn LongRollAST__execute_ast__keep_low_N__keeps_only_the_lowest_N_rolls() {
    let ast = AST::LongRoll(LongRollAST {
        die: 2,
        faces: 10,
        keep_high: None,
        keep_low: Some(1),
    });
    let mut rng = seeded(1);

    let result = ast.execute_ast(&mut rng).unwrap();

    assert_eq!(7, result.result);
    assert_eq!(
        "\nRolling 2d10...\nYou rolled: 9\nYou rolled: 7\n",
        result.description
    );
}

#[test]
fn LongRollAST__execute_ast__keep_low_N_keep_high_M__keeps_only_the_lowest_N_rolls() {
    let ast = AST::LongRoll(LongRollAST {
        die: 2,
        faces: 10,
        keep_high: Some(1),
        keep_low: Some(1),
    });
    let mut rng = seeded(1);

    let result = ast.execute_ast(&mut rng).unwrap();

    assert_eq!(7, result.result);
    assert_eq!(
        "\nRolling 2d10...\nYou rolled: 9\nYou rolled: 7\n",
        result.description
    );
}

#[test]
fn MathAST__execute_ast__add_operation__adds_left_to_right() {
    let left = AST::Integer(IntegerAST { integer: 10 });
    let right = AST::Integer(IntegerAST { integer: 2 });
    let ast = AST::Math(MathAST {
        operation: MathOperation::Add,
        left: Box::new(left),
        right: Box::new(right),
    });
    let mut rng = seeded(1);

    let result = ast.execute_ast(&mut rng).unwrap();

    assert_eq!(12 as i128, result.result);
    assert_eq!("", result.description);
}

#[test]
fn MathAST__execute_ast__subtract_operation__subtracts_left_from_right() {
    let left = AST::Integer(IntegerAST { integer: 10 });
    let right = AST::Integer(IntegerAST { integer: 2 });
    let ast = AST::Math(MathAST {
        operation: MathOperation::Subtract,
        left: Box::new(left),
        right: Box::new(right),
    });
    let mut rng = seeded(1);

    let result = ast.execute_ast(&mut rng).unwrap();

    assert_eq!(8 as i128, result.result);
    assert_eq!("", result.description);
}

#[test]
fn MathAST__execute_ast__multiply_operation__multiplies_left_with_right() {
    let left = AST::Integer(IntegerAST { integer: 10 });
    let right = AST::Integer(IntegerAST { integer: 2 });
    let ast = AST::Math(MathAST {
        operation: MathOperation::Multiply,
        left: Box::new(left),
        right: Box::new(right),
    });
    let mut rng = seeded(1);

    let result = ast.execute_ast(&mut rng).unwrap();

    assert_eq!(20 as i128, result.result);
    assert_eq!("", result.description);
}

#[test]
fn MathAST__execute_ast__divide_operation__divides_left_by_right() {
    let left = AST::Integer(IntegerAST { integer: 10 });
    let right = AST::Integer(IntegerAST { integer: 2 });
    let ast = AST::Math(MathAST {
        operation: MathOperation::Divide,
        left: Box::new(left),
        right: Box::new(right),
    });
    let mut rng = seeded(1);

    let result = ast.execute_ast(&mut rng).unwrap();

    assert_eq!(5 as i128, result.result);
    assert_eq!("", result.description);
}

#[test]
fn MathAST__execute_ast__division_by_zero__returns_DiceError() {
    let left = AST::Integer(IntegerAST { integer: 10 });
    let right = AST::Integer(IntegerAST { integer: 0 });
    let ast = AST::Math(MathAST {
        operation: MathOperation::Divide,
        left: Box::new(left),
        right: Box::new(right),
    });
    let mut rng = seeded(1);

    match ast.execute_ast(&mut rng) {
        Err(err) => {
            assert_eq!("Division by zero is not allowed.", err.message)
        }
        Ok(_) => assert!(false, "Should have returned an error"),
    }
}

#[test]
fn MathAST__execute_ast__left_and_right_have_descriptions__the_descriptions_are_concatenated() {
    let left = AST::ShortRoll(ShortRollAST { faces: (10) });
    let right = AST::ShortRoll(ShortRollAST { faces: (2) });
    let ast = AST::Math(MathAST {
        operation: MathOperation::Add,
        left: Box::new(left),
        right: Box::new(right),
    });
    let mut rng = seeded(1);

    let result = ast.execute_ast(&mut rng).unwrap();

    assert_eq!(10 as i128, result.result);
    assert_eq!(
        "\nRolling d10...\nYou rolled: 9\n\nRolling d2...\nYou rolled: 1\n",
        result.description
    );
}

#[test]
fn run__big_ol_roll_with_all_the_fixings__returns_correct_result() {
    let input = "d5 + 2d6h1 - 3d100l2 + (10 - 2 * 2) / 2";
    let mut rng = seeded(1);

    let tokens = dice_algebra::lexer::tokenize(input).unwrap();
    let tree = dice_algebra::parser::parse(&tokens).unwrap();
    let result = tree.execute_ast(&mut rng).unwrap();

    assert_eq!(-33, result.result);
    assert_eq!(
        "\nRolling d5...\nYou rolled: 4\n\nRolling 2d6...\nYou rolled: 4\nYou rolled: 3\n\nRolling 3d100...\nYou rolled: 18\nYou rolled: 26\nYou rolled: 96\n",
        result.description
    );
}
