use sniffers::utils::normalize_path;

#[test]
fn plain_directory_gets_recursive_wildcard() {
    assert_eq!(normalize_path("src"), "src/**/*");
    assert_eq!(normalize_path("/abs/dir"), "/abs/dir/**/*");
}

#[test]
fn trailing_separator_gets_recursive_wildcard() {
    assert_eq!(normalize_path("src/"), "src//**/*");
}

#[test]
fn current_directory_marker_gets_recursive_wildcard() {
    assert_eq!(normalize_path("."), "./**/*");
}

#[test]
fn explicit_pattern_passes_through() {
    assert_eq!(normalize_path("src/**/*.rs"), "src/**/*.rs");
    assert_eq!(normalize_path("a*b"), "a*b");
}

#[test]
fn pattern_with_trailing_separator_still_gets_wildcard() {
    // the trailing-separator rule is checked before the wildcard rule
    assert_eq!(normalize_path("src/*/"), "src/*//**/*");
}

#[test]
fn empty_input_treated_as_plain_root() {
    assert_eq!(normalize_path(""), "/**/*");
}
