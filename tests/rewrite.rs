use cif_modder::{apply_instructions_to_lines, rewrite_line, ApplyError, Instructions};
use rand::rngs::StdRng;
use rand::SeedableRng;

fn structure_lines() -> Vec<String> {
    let mut lines: Vec<String> = Vec::new();
    lines.push("data_BaTiO3".to_string());
    for i in 1..27 {
        lines.push(format!("_line_{}    text", i));
    }
    lines.push("_cell_length_a                     4.0094(2)".to_string());
    lines.push("_cell_length_b                     4.0094(2)".to_string());
    lines.push("_cell_length_c                     4.0094(2)".to_string());
    lines.push("_cell_angle_alpha                  90.00".to_string());
    lines.push("_cell_angle_beta                   90.00".to_string());
    lines.push("_cell_angle_gamma                  90.00".to_string());
    lines.push("_cell_volume                       64.45(1)".to_string());
    lines
}

#[test]
fn test_cif_map_from_cif_file() {
    let instructions = Instructions::from(
        "a + 1.0\nb * 2.0\nc - 1.0\nalpha + 1.0\n45.0 -- beta -- 90.0\ngamma / 2.0",
    );
    let mut rng = StdRng::seed_from_u64(0);
    let (new_lines, modified) =
        apply_instructions_to_lines(&structure_lines(), &instructions, &mut rng)
            .expect("Failed to modify CIF file");

    assert_eq!(new_lines[27], "_cell_length_a                     5.0094");
    assert_eq!(new_lines[28], "_cell_length_b                     8.0188");
    assert_eq!(new_lines[29], "_cell_length_c                     3.0094");
    assert_eq!(new_lines[30], "_cell_angle_alpha                  91.00");

    let beta = new_lines[31].strip_prefix("_cell_angle_beta                   ").unwrap();
    let value: f64 = beta.parse().unwrap();
    assert!(value >= 45.0 && value < 90.0);
    assert_eq!(cif_modder::precision_of_value(beta), 2);

    assert_eq!(new_lines[32], "_cell_angle_gamma                  45.00");
    assert_eq!(new_lines[33], "_cell_volume                       64.45(1)");
    assert_eq!(new_lines[0], "data_BaTiO3");
    assert_eq!(new_lines.len(), 34);
    assert_eq!(modified, 6);
}

#[test]
fn unknown_or_bare_lines_pass_through() {
    let instructions = Instructions::from("a + 1\nfoo * 2");
    let mut rng = StdRng::seed_from_u64(1);
    assert_eq!(rewrite_line("foo 1.0", &instructions, &mut rng), Ok(None));
    assert_eq!(rewrite_line("_cell_length_a", &instructions, &mut rng), Ok(None));
    assert_eq!(rewrite_line("", &instructions, &mut rng), Ok(None));
    assert_eq!(rewrite_line("_cell_length_b 2.0", &instructions, &mut rng), Ok(None));
}

#[test]
fn whitespace_run_is_kept() {
    let instructions = Instructions::from("a + 1");
    let mut rng = StdRng::seed_from_u64(1);
    let out = rewrite_line("_cell_length_a \t  2.50", &instructions, &mut rng);
    assert_eq!(out, Ok(Some("_cell_length_a \t  3.50".to_string())));
}

#[test]
fn error_in_any_line_fails_the_file() {
    let instructions = Instructions::from("a + 1");
    let lines = vec!["_cell_length_b 1.0".to_string(), "_cell_length_a ?".to_string()];
    let mut rng = StdRng::seed_from_u64(1);
    let result = apply_instructions_to_lines(&lines, &instructions, &mut rng);
    assert_eq!(result, Err(ApplyError::Parse));
}
