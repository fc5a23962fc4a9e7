use scrutt::path::{components, join_text, strip_prefix_text, PathComponent};
use scrutt::text::{split_lines, str_chars, trimmed};

fn normal(s: &str) -> PathComponent {
    PathComponent::Normal(s.to_string())
}

#[test]
fn splits_paths_like_std_path() {
    assert_eq!(components("a/b"), vec![normal("a"), normal("b")]);
    assert_eq!(
        components("/a//./b/"),
        vec![PathComponent::RootDir, normal("a"), normal("b")]
    );
    assert_eq!(components("./a/../b"), vec![PathComponent::CurDir, normal("a"), PathComponent::ParentDir, normal("b")]);
    assert_eq!(components(""), Vec::<PathComponent>::new());
    assert_eq!(components("/"), vec![PathComponent::RootDir]);
}

#[test]
fn strips_a_prefix_like_std_path() {
    assert_eq!(strip_prefix_text("/r/nm/pkg//a/./b.js", "/r/nm"), Some("pkg//a/./b.js".to_string()));
    assert_eq!(strip_prefix_text("/r/nm/./pkg/", "/r//nm/"), Some("pkg".to_string()));
    assert_eq!(strip_prefix_text("/r/nm/a/.", "/r/nm"), Some("a".to_string()));
    assert_eq!(strip_prefix_text("/r/nm", "/r/nm"), Some(String::new()));
    assert_eq!(strip_prefix_text("/r/nmx/a", "/r/nm"), None);
    assert_eq!(strip_prefix_text("r/nm/a", "/r/nm"), None);
}

#[test]
fn joins_paths_like_std_path() {
    assert_eq!(join_text("node_modules", "pkg/a.js"), "node_modules/pkg/a.js");
    assert_eq!(join_text("node_modules/", "pkg"), "node_modules/pkg");
    assert_eq!(join_text("node_modules", "/abs"), "/abs");
    assert_eq!(join_text("node_modules", ""), "node_modules/");
    assert_eq!(join_text("", "a"), "a");
}

#[test]
fn lines_follow_str_lines() {
    for text in ["", "a", "a\n", "a\r\nb", "a\r", "\n\n", "x\r\r\ny\r"] {
        let expected: Vec<Vec<char>> = text.lines().map(|l| l.chars().collect()).collect();
        assert_eq!(split_lines(&str_chars(text)), expected, "input {text:?}");
    }
}

#[test]
fn trims_unicode_whitespace_like_str_trim() {
    for text in [" a ", "\u{a0}b\u{3000}", "\t\r\n", "c", "\u{2009}d e\u{85}"] {
        let expected: Vec<char> = text.trim().chars().collect();
        assert_eq!(trimmed(&str_chars(text)), expected, "input {text:?}");
    }
}
