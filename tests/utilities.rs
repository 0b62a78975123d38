use cif_modder::{
    precision_of_value, remove_uncertainty_digits, whitespace_between_two_values,
    RemoveUncertaintyDigits,
};

#[test]
fn test_remove_uncertainty_digits() {
    let value = "4.0094(2)";
    let result = remove_uncertainty_digits(value);
    assert_eq!(result, "4.0094");
}

#[test]
fn test_precision_of_value() {
    let value = "4.0094";
    let result = precision_of_value(value);
    assert_eq!(result, 4);
}

#[test]
fn test_whitespace_between_two_values() {
    let line = "_cell_length_a     4.0094(2)";
    let result = whitespace_between_two_values(line);
    assert_eq!(result, Some(5));
}

#[test]
fn uncertainty_without_parenthesis_is_kept() {
    assert_eq!(remove_uncertainty_digits("90.00"), "90.00");
    assert_eq!(remove_uncertainty_digits(""), "");
    assert_eq!(remove_uncertainty_digits("(3)"), "");
}

#[test]
fn uncertainty_trait_on_str() {
    assert_eq!("5.4(12)".remove_uncertainty_digits(), "5.4");
}

#[test]
fn precision_without_point_is_zero() {
    assert_eq!(precision_of_value("45"), 0);
    assert_eq!(precision_of_value(""), 0);
    assert_eq!(precision_of_value("1."), 0);
    assert_eq!(precision_of_value("90.00"), 2);
}

#[test]
fn whitespace_with_one_token_is_none() {
    assert_eq!(whitespace_between_two_values("_cell_length_a"), None);
    assert_eq!(whitespace_between_two_values("   "), None);
    assert_eq!(whitespace_between_two_values("  key\t\t value"), Some(3));
}
