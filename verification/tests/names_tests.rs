use folder_stats::names::{base_name_of, contains_char, extension_of, has_ascii_upper, is_hidden};

#[test]
fn extension_is_lowercased_suffix() {
    assert_eq!(extension_of("a.txt"), "txt");
    assert_eq!(extension_of("B_final.TXT"), "txt");
    assert_eq!(extension_of("archive.tar.gz"), "gz");
    assert_eq!(extension_of("Mixed.JpEg"), "jpeg");
}

#[test]
fn extension_empty_cases() {
    assert_eq!(extension_of("README"), "");
    assert_eq!(extension_of(".hidden"), "");
    assert_eq!(extension_of("trailing."), "");
    assert_eq!(extension_of(""), "");
}

#[test]
fn base_name_strips_extension() {
    assert_eq!(base_name_of("a.txt"), "a");
    assert_eq!(base_name_of("B_final.TXT"), "B_final");
    assert_eq!(base_name_of("archive.tar.gz"), "archive.tar");
    assert_eq!(base_name_of("README"), "README");
    assert_eq!(base_name_of(".hidden"), ".hidden");
    assert_eq!(base_name_of("trailing."), "trailing");
}

#[test]
fn hidden_names_start_with_a_dot() {
    assert!(is_hidden(".hidden"));
    assert!(is_hidden(".git"));
    assert!(!is_hidden("visible.txt"));
    assert!(!is_hidden(""));
}

#[test]
fn character_scans() {
    assert!(contains_char("snake_case.rs", '_'));
    assert!(!contains_char("kebab-case.rs", '_'));
    assert!(contains_char("kebab-case.rs", '-'));
    assert!(has_ascii_upper("CamelCase.rs"));
    assert!(!has_ascii_upper("flat.rs"));
}
