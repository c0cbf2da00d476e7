use markdown_preview::minifier::{normalize, should_reparse};

#[test]
fn trailing_whitespace_and_blank_runs_collapse() {
    assert_eq!(normalize(b"a  \r\n\n\n\nb\n"), b"a\n\nb".to_vec());
}

#[test]
fn single_blank_line_is_kept() {
    assert_eq!(normalize(b"a\n\nb"), b"a\n\nb".to_vec());
    assert_eq!(normalize(b"a\nb"), b"a\nb".to_vec());
}

#[test]
fn leading_indentation_is_kept() {
    assert_eq!(normalize(b"- a\n  - b"), b"- a\n  - b".to_vec());
}

#[test]
fn leading_and_trailing_blank_lines_are_dropped() {
    assert_eq!(normalize(b"\n\n  \n# h\n\n \n"), b"# h".to_vec());
    assert_eq!(normalize(b"   \n\n  "), Vec::<u8>::new());
    assert_eq!(normalize(b""), Vec::<u8>::new());
}

#[test]
fn line_ending_styles_normalize_alike() {
    assert_eq!(normalize(b"a\r\nb\r\n"), normalize(b"a\nb\n"));
}

#[test]
fn syntax_characters_make_a_difference() {
    assert_ne!(normalize(b"a*b"), normalize(b"a b"));
    assert_ne!(normalize(b"# a"), normalize(b"## a"));
}

#[test]
fn normalization_is_idempotent() {
    for t in [&b"x  \n\n\n\ty \r\n"[..], b"\n\n", b"a\n \n \nb", b"  lead\n\n\n"] {
        let once = normalize(t);
        assert_eq!(normalize(&once), once);
    }
}

#[test]
fn reparse_only_on_a_difference() {
    assert!(!should_reparse(b"abc", b"abc"));
    assert!(should_reparse(b"abc", b"abd"));
    assert!(should_reparse(b"abc", b"ab"));
    assert!(!should_reparse(b"", b""));
}
