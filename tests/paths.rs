use cif_modder::paths::{is_target_path, modified_path};

#[test]
fn only_unmodified_cif_files_are_targets() {
    assert!(is_target_path("data/BaTiO3.cif"));
    assert!(!is_target_path("data/BaTiO3_modified.cif"));
    assert!(!is_target_path("data/notes.txt"));
    assert!(!is_target_path(".ci"));
    assert!(!is_target_path(""));
}

#[test]
fn modified_path_marks_every_suffix() {
    assert_eq!(modified_path("data/BaTiO3.cif"), "data/BaTiO3_modified.cif");
    assert_eq!(modified_path("a.cif/b.cif"), "a_modified.cif/b_modified.cif");
    assert_eq!(modified_path("plain"), "plain");
}
