use cif_modder::{ApplyError, Decimal, Instruction, Instructions, Operator};
use rand::rngs::StdRng;
use rand::SeedableRng;

fn rng() -> StdRng {
    StdRng::seed_from_u64(0)
}

fn dec(mantissa: i128, scale: u32) -> Decimal {
    Decimal { mantissa, scale }
}

fn as_f64(d: Decimal) -> f64 {
    d.mantissa as f64 / 10f64.powi(d.scale as i32)
}

#[test]
fn test_operator_from() {
    assert_eq!(Operator::from("+"), Operator::Add);
    assert_eq!(Operator::from("-"), Operator::Subtract);
    assert_eq!(Operator::from("*"), Operator::Multiply);
    assert_eq!(Operator::from("/"), Operator::Divide);
    assert_eq!(Operator::from("^"), Operator::Power);
    assert_eq!(Operator::from("--"), Operator::Range);
    assert_eq!(Operator::from("hello"), Operator::Identity);
}

#[test]
fn test_instruction_from() {
    let instruction = Instruction::from("a + 1");
    assert_eq!(instruction.keyword, "_cell_length_a");
    assert_eq!(instruction.operator, Operator::Add);
    assert_eq!(as_f64(instruction.value_a), 1.0);
    assert_eq!(instruction.value_b, None);

    let instruction = Instruction::from("a - 1");
    assert_eq!(instruction.keyword, "_cell_length_a");
    assert_eq!(instruction.operator, Operator::Subtract);
    assert_eq!(as_f64(instruction.value_a), 1.0);
    assert_eq!(instruction.value_b, None);

    let instruction = Instruction::from("a * 1");
    assert_eq!(instruction.keyword, "_cell_length_a");
    assert_eq!(instruction.operator, Operator::Multiply);
    assert_eq!(as_f64(instruction.value_a), 1.0);
    assert_eq!(instruction.value_b, None);

    let instruction = Instruction::from("a / 1");
    assert_eq!(instruction.keyword, "_cell_length_a");
    assert_eq!(instruction.operator, Operator::Divide);
    assert_eq!(as_f64(instruction.value_a), 1.0);
    assert_eq!(instruction.value_b, None);

    let instruction = Instruction::from("a ^ 1");
    assert_eq!(instruction.keyword, "_cell_length_a");
    assert_eq!(instruction.operator, Operator::Power);
    assert_eq!(as_f64(instruction.value_a), 1.0);
    assert_eq!(instruction.value_b, None);

    let instruction = Instruction::from("a -- 1");
    assert_eq!(instruction.keyword, "_cell_length_a");
    assert_eq!(instruction.operator, Operator::Range);
    assert_eq!(as_f64(instruction.value_a), 1.0);
    assert_eq!(instruction.value_b, None);

    let instruction = Instruction::from("0 -- b -- 1");
    assert_eq!(instruction.keyword, "_cell_length_b");
    assert_eq!(instruction.operator, Operator::Range);
    assert_eq!(as_f64(instruction.value_a), 0.0);
    assert_eq!(instruction.value_b.map(as_f64), Some(1.0));
}

#[test]
fn test_apply() {
    let mut rng = rng();
    let instruction = Instruction::from("a + 1");
    let result = instruction.apply("1.0".to_string(), &mut rng).unwrap();
    assert_eq!(result, "2.0");

    let instruction = Instruction::from("a - 1");
    let result = instruction.apply("1.0".to_string(), &mut rng).unwrap();
    assert_eq!(result, "0.0");

    let instruction = Instruction::from("a * 2");
    let result = instruction.apply("1.0".to_string(), &mut rng).unwrap();
    assert_eq!(result, "2.0");

    let instruction = Instruction::from("a / 2");
    let result = instruction.apply("1.0".to_string(), &mut rng).unwrap();
    assert_eq!(result, "0.5");

    let instruction = Instruction::from("a ^ 2");
    let result = instruction.apply("1.0".to_string(), &mut rng).unwrap();
    assert_eq!(result, "1.0");

    let instruction = Instruction::from("a -- 2");
    let result = instruction.apply("1.0".to_string(), &mut rng).unwrap();
    assert!(result.parse::<f64>().unwrap() >= 1.0);
}

#[test]
fn alias_resolves_like_canonical_name() {
    let short = Instruction::from("a + 1");
    let long = Instruction::from("_cell_length_a + 1");
    assert_eq!(short.keyword, long.keyword);
    assert_eq!(short.operator, long.operator);
    assert_eq!(short.value_a, long.value_a);
    for (alias, name) in [
        ("b", "_cell_length_b"),
        ("c", "_cell_length_c"),
        ("alpha", "_cell_angle_alpha"),
        ("beta", "_cell_angle_beta"),
        ("gamma", "_cell_angle_gamma"),
        ("volume", "_cell_volume"),
    ] {
        assert_eq!(Instruction::from(&format!("{} * 2", alias)).keyword, name);
    }
}

#[test]
fn two_operand_range_parses() {
    let instruction = Instruction::from("0 -- b -- 1");
    assert_eq!(instruction.keyword, "_cell_length_b");
    assert_eq!(instruction.operator, Operator::Range);
    assert_eq!(instruction.value_a, dec(0, 0));
    assert_eq!(instruction.value_b, Some(dec(1, 0)));
}

#[test]
fn malformed_instruction_takes_defaults() {
    let instruction = Instruction::from("");
    assert_eq!(instruction.keyword, "");
    assert_eq!(instruction.operator, Operator::Identity);
    assert_eq!(instruction.value_a, dec(0, 0));
    assert_eq!(instruction.value_b, None);

    let instruction = Instruction::from("length + + - 2.50");
    assert_eq!(instruction.keyword, "length");
    assert_eq!(instruction.operator, Operator::Subtract);
    assert_eq!(instruction.value_a, dec(250, 2));
}

#[test]
fn signed_operand_is_a_number() {
    let instruction = Instruction::from("a + -1.5");
    assert_eq!(instruction.operator, Operator::Add);
    assert_eq!(instruction.value_a, dec(-15, 1));
    let result = instruction.apply("4.00".to_string(), &mut rng()).unwrap();
    assert_eq!(result, "2.50");
}

#[test]
fn precision_is_kept() {
    let mut rng = rng();
    let add = Instruction::from("a + 1");
    assert_eq!(add.apply("1.0".to_string(), &mut rng).unwrap(), "2.0");
    let div = Instruction::from("a / 2");
    assert_eq!(div.apply("1.0".to_string(), &mut rng).unwrap(), "0.5");
    let div = Instruction::from("a / 3");
    assert_eq!(div.apply("1.00".to_string(), &mut rng).unwrap(), "0.33");
    let div = Instruction::from("a / 3");
    assert_eq!(div.apply("2.00".to_string(), &mut rng).unwrap(), "0.67");
    let mul = Instruction::from("a * 0.5");
    assert_eq!(mul.apply("3".to_string(), &mut rng).unwrap(), "2");
    let sub = Instruction::from("a - 10");
    assert_eq!(sub.apply("4.0094(2)".to_string(), &mut rng).unwrap(), "-5.9906");
}

#[test]
fn power_with_any_exponent() {
    let mut rng = rng();
    let pow = Instruction::from("a ^ 3");
    assert_eq!(pow.apply("1.5".to_string(), &mut rng).unwrap(), "3.4");
    let pow = Instruction::from("a ^ 0");
    assert_eq!(pow.apply("7.25".to_string(), &mut rng).unwrap(), "1.00");
    let pow = Instruction::from("a ^ -1");
    assert_eq!(pow.apply("2.0".to_string(), &mut rng).unwrap(), "0.5");
    let pow = Instruction::from("a ^ -2");
    assert_eq!(pow.apply("3.00".to_string(), &mut rng).unwrap(), "0.11");
    let pow = Instruction::from("a ^ -1");
    assert_eq!(pow.apply("0.0".to_string(), &mut rng).unwrap(), "inf");
    let pow = Instruction::from("a ^ 0.5");
    assert_eq!(pow.apply("4.0".to_string(), &mut rng).unwrap(), "2.0");
    assert_eq!(pow.apply("90.00".to_string(), &mut rng).unwrap(), "9.49");
    assert_eq!(pow.apply("0.0".to_string(), &mut rng).unwrap(), "0.0");
    assert_eq!(pow.apply("-4.0".to_string(), &mut rng).unwrap(), "NaN");
    let pow = Instruction::from("a ^ -0.5");
    assert_eq!(pow.apply("2.0".to_string(), &mut rng).unwrap(), "0.7");
    assert_eq!(pow.apply("0.0".to_string(), &mut rng).unwrap(), "inf");
    let pow = Instruction::from("a ^ 1.5");
    assert_eq!(pow.apply("2.00".to_string(), &mut rng).unwrap(), "2.83");
    let pow = Instruction::from("a ^ 40");
    assert_eq!(pow.apply("1000".to_string(), &mut rng), Err(ApplyError::Overflow));
}

#[test]
fn large_powers_of_cell_values() {
    let mut rng = rng();
    let pow = Instruction::from("a ^ 9");
    assert_eq!(pow.apply("4.0094(2)".to_string(), &mut rng).unwrap(), "267740.7492");
    let pow = Instruction::from("a ^ 10");
    assert_eq!(pow.apply("64.45".to_string(), &mut rng).unwrap(), "1236599928050669751.50");
    let pow = Instruction::from("a ^ 40");
    assert_eq!(pow.apply("1.5".to_string(), &mut rng).unwrap(), "11057332.3");
}

#[test]
fn identity_keeps_value() {
    let instruction = Instruction::from("a");
    assert_eq!(instruction.operator, Operator::Identity);
    let result = instruction.apply("4.0094(2)".to_string(), &mut rng()).unwrap();
    assert_eq!(result, "4.0094");
    let again = instruction.apply(result.clone(), &mut rng()).unwrap();
    assert_eq!(again, result);
}

#[test]
fn not_a_number_fails_to_parse() {
    let instruction = Instruction::from("a + 1");
    assert_eq!(instruction.apply("?".to_string(), &mut rng()), Err(ApplyError::Parse));
    assert_eq!(instruction.apply("".to_string(), &mut rng()), Err(ApplyError::Parse));
}

#[test]
fn division_by_zero_is_not_finite() {
    let instruction = Instruction::from("a / 0.0");
    assert_eq!(instruction.apply("1.0".to_string(), &mut rng()).unwrap(), "inf");
    assert_eq!(instruction.apply("-2.5".to_string(), &mut rng()).unwrap(), "-inf");
    assert_eq!(instruction.apply("0.00".to_string(), &mut rng()).unwrap(), "NaN");
}

#[test]
fn range_with_equal_bounds_fails() {
    let instruction = Instruction::from("5 -- a -- 5");
    assert_eq!(instruction.apply("1.0".to_string(), &mut rng()), Err(ApplyError::Range));
    let instruction = Instruction::from("a -- 2.0");
    assert_eq!(instruction.apply("2.0".to_string(), &mut rng()), Err(ApplyError::Range));
    let instruction = Instruction::from("a -- 2.00");
    assert_eq!(instruction.apply("2.0".to_string(), &mut rng()), Err(ApplyError::Range));
}

#[test]
fn range_finer_than_the_value_is_rounded() {
    let mut rng = rng();
    let instruction = Instruction::from("1.01 -- a -- 1.02");
    for _ in 0..50 {
        assert_eq!(instruction.apply("1.0".to_string(), &mut rng).unwrap(), "1.0");
    }
    let instruction = Instruction::from("a -- 1.05");
    for _ in 0..50 {
        let result = instruction.apply("1.1".to_string(), &mut rng).unwrap();
        assert!(result == "1.1" || result == "1.0", "{}", result);
    }
}

#[test]
fn range_stays_within_bounds() {
    let instruction = Instruction::from("a -- 2");
    let mut rng = rng();
    for _ in 0..200 {
        let result = instruction.apply("1.0".to_string(), &mut rng).unwrap();
        let value: f64 = result.parse().unwrap();
        assert!(value >= 1.0 && value < 2.0);
        assert_eq!(cif_modder::precision_of_value(&result), 1);
    }
    let instruction = Instruction::from("90.0 -- a -- 45.0");
    for _ in 0..200 {
        let result = instruction.apply("10.00".to_string(), &mut rng).unwrap();
        let value: f64 = result.parse().unwrap();
        assert!(value >= 45.0 && value < 90.0);
        assert_eq!(cif_modder::precision_of_value(&result), 2);
    }
}

#[test]
fn set_applies_instructions_in_order() {
    let instructions = Instructions::from_string("a + 1; b * 2, a * 2\nc - 1");
    let mut rng = rng();
    let a = instructions.apply("_cell_length_a", "1.0".to_string(), &mut rng).unwrap();
    assert_eq!(a, Some("4.0".to_string()));
    let b = instructions.apply("_cell_length_b", "1.5".to_string(), &mut rng).unwrap();
    assert_eq!(b, Some("3.0".to_string()));
}

#[test]
fn unregistered_keyword_is_no_change() {
    let instructions = Instructions::from("a + 1\nb * 2");
    let result = instructions.apply("_cell_volume", "100.0".to_string(), &mut rng());
    assert_eq!(result, Ok(None));
}

#[test]
fn newline_block_reads_semicolons_as_text() {
    // One line: `1;` is no number, and the last keyword and operator win.
    let instructions = Instructions::from("a + 1; b * 2");
    let a = instructions.apply("_cell_length_a", "1.0".to_string(), &mut rng()).unwrap();
    assert_eq!(a, None);
    let b = instructions.apply("_cell_length_b", "1.0".to_string(), &mut rng()).unwrap();
    assert_eq!(b, Some("2.0".to_string()));
}

#[test]
fn first_error_stops_the_chain() {
    let instructions = Instructions::from("a -- 1\na + 1");
    let result = instructions.apply("_cell_length_a", "1.0".to_string(), &mut rng());
    assert_eq!(result, Err(ApplyError::Range));
}

#[test]
fn power_of_unit_mantissa_is_immediate() {
    let mut rng = rng();
    let pow = Instruction::from("a ^ 1000000000000");
    assert_eq!(pow.apply("1".to_string(), &mut rng).unwrap(), "1");
    assert_eq!(pow.apply("0".to_string(), &mut rng).unwrap(), "0");
    assert_eq!(pow.apply("-1".to_string(), &mut rng).unwrap(), "1");
    let pow = Instruction::from("a ^ 3");
    assert_eq!(pow.apply("-1".to_string(), &mut rng).unwrap(), "-1");
    assert_eq!(pow.apply("-0.1".to_string(), &mut rng).unwrap(), "0.0");
}

#[test]
fn exponent_notation_is_a_number() {
    let mut rng = rng();
    let instruction = Instruction::from("a * 1e1");
    assert_eq!(instruction.value_a, dec(10, 0));
    assert_eq!(instruction.apply("2.5".to_string(), &mut rng).unwrap(), "25.0");
    let instruction = Instruction::from("a + 1");
    assert_eq!(instruction.apply("1.5e-1".to_string(), &mut rng).unwrap(), "1.15");
    let instruction = Instruction::from("a + 2.5E-3");
    assert_eq!(instruction.value_a, dec(25, 4));
    assert_eq!(instruction.apply("1e".to_string(), &mut rng), Err(ApplyError::Parse));
    assert_eq!(instruction.apply("1e2.".to_string(), &mut rng), Err(ApplyError::Parse));
}
