use patchwork::context::{insert_at, insertion_position_ok, patch, source_lines};

#[test]
fn patch_inserts_where_the_context_block_ends() {
    let source = r#"public static final class Main {
    public static void main(String[] args) {
        System.out.println("Hello, World!");
    }
}"#;
    let out = patch(
        source,
        r#"System.out.println("Hello, World!");"#,
        "\nSystem.out.println(\"Bye, World!\");",
    )
    .unwrap();
    assert_eq!(
        out,
        "public static final class Main {\n    public static void main(String[] args) {\n        System.out.println(\"Hello, World!\");\n    \nSystem.out.println(\"Bye, World!\");}\n}"
    );
}

#[test]
fn patch_reports_missing_context() {
    let err = patch("class A {}", "while (true) { x(); }", "y").unwrap_err();
    assert_eq!(err, "Could not find the context in the source");
}

#[test]
fn patch_refuses_an_empty_context() {
    assert_eq!(patch("class A {}", "", "y").unwrap_err(), "Context holds no code");
}

#[test]
fn lines_split_like_str_lines() {
    assert_eq!(source_lines("a\nb\r\nc"), vec!["a", "b", "c"]);
    assert_eq!(source_lines("a\n"), vec!["a"]);
    assert_eq!(source_lines(""), Vec::<String>::new());
    assert_eq!(source_lines("\n\n"), vec!["", ""]);
    assert_eq!(source_lines("x\r"), vec!["x\r"]);
}

#[test]
fn insertion_goes_before_the_given_column() {
    assert_eq!(insert_at("ab\ncd\n", 1, 2, "X"), "ab\ncXd");
    assert_eq!(insert_at("ab\r\ncd", 0, 1, "X"), "Xab\ncd");
    assert_eq!(insert_at("ab\ncd", 5, 1, "X"), "ab\ncd");
}

#[test]
fn insertion_positions() {
    assert!(insertion_position_ok("ab\ncd", 1, 3));
    assert!(!insertion_position_ok("ab\ncd", 1, 4));
    assert!(!insertion_position_ok("ab\ncd", 0, 0));
    assert!(insertion_position_ok("ab\ncd", 7, 0));
    // "é" is two bytes: byte 2 lies inside it.
    assert!(!insertion_position_ok("aé", 0, 3));
    assert!(insertion_position_ok("aé", 0, 2));
}
