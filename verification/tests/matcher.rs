use patchwork::language::Lang;
use patchwork::matcher::{find_query_matches, find_snippet_matches};

fn java_lang() -> Lang {
    Lang::Java
}

fn python_lang() -> Lang {
    Lang::Python
}

fn js_lang() -> Lang {
    Lang::JavaScript
}

#[test]
fn test_same_kind_leaves_match() {
    let source = "class A { void f() { return 1; } }";
    let matches = find_snippet_matches(source, "return 1;", &java_lang()).unwrap();
    assert_eq!(matches.len(), 1);
}

#[test]
fn test_leaf_value_ignored() {
    let source = "class A { void f() { return 42; } }";
    let matches = find_snippet_matches(source, "return 1;", &java_lang()).unwrap();
    assert_eq!(matches.len(), 1);
}

#[test]
fn test_different_structure_no_match() {
    let source = "class A { void f() { if (a) {} } }";
    let matches = find_snippet_matches(source, "return 1;", &java_lang()).unwrap();
    assert!(matches.is_empty());
}

#[test]
fn test_snippet_collects_matches() {
    let source = r#"
class A {
    void f() {
        System.out.println("hello");
        System.out.println("world");
    }
}"#;
    let matches =
        find_snippet_matches(source, r#"System.out.println("...");"#, &java_lang()).unwrap();
    assert_eq!(matches.len(), 2);
}

#[test]
fn test_no_match_for_absent_code() {
    let source = "class A { void f() { return 1; } }";
    let matches = find_snippet_matches(source, "System.out.println(\"x\");", &java_lang()).unwrap();
    assert!(matches.is_empty());
}

#[test]
fn test_empty_source_no_match() {
    let matches = find_snippet_matches("", "return 1;", &java_lang()).unwrap();
    assert!(matches.is_empty());
}

#[test]
fn test_multiple_matches() {
    let source = r#"
class A {
    void f() { return 1; }
    void g() { return 2; }
    void h() { return 3; }
}"#;
    let matches = find_snippet_matches(source, "return 1;", &java_lang()).unwrap();
    assert_eq!(matches.len(), 3);
}

#[test]
fn test_snippet_error_returns_err() {
    let result = find_snippet_matches("class A {}", "return ", &java_lang());
    assert!(result.is_err());
}

#[test]
fn test_deeply_nested_match() {
    let source = r#"
class Outer {
    class Inner {
        void f() {
            if (true) {
                return 1;
            }
        }
    }
}"#;
    let matches = find_snippet_matches(source, "return 1;", &java_lang()).unwrap();
    assert_eq!(matches.len(), 1);
}

#[test]
fn test_match_byte_ranges_correct() {
    let source = "class A { int x; void f() { return 1; } }";
    let matches = find_snippet_matches(source, "return 1;", &java_lang()).unwrap();
    assert_eq!(matches.len(), 1);
    let m = &matches[0];
    let matched_text = &source[m.start_byte..m.end_byte];
    assert_eq!(matched_text, "return 1;");
}

#[test]
fn test_python_snippet_match() {
    let source = "x = 42\n";
    let matches = find_snippet_matches(source, "x = 1", &python_lang()).unwrap();
    assert_eq!(matches.len(), 1);
    assert!(matches[0].end_byte >= 6);
    assert!(source[matches[0].start_byte..].starts_with("x = 42"));
}

#[test]
fn test_python_multiple_matches() {
    let source = "a = 1\nb = 2\n";
    let matches = find_snippet_matches(source, "a = 1", &python_lang()).unwrap();
    assert_eq!(matches.len(), 2);
}

#[test]
fn test_python_no_match() {
    let source = "def f():\n    pass\n";
    let matches = find_snippet_matches(source, "return 1", &python_lang()).unwrap();
    assert!(matches.is_empty());
}

#[test]
fn test_js_snippet_match() {
    let source = "function f() { return 42; }";
    let matches = find_snippet_matches(source, "return 1;", &js_lang()).unwrap();
    assert_eq!(matches.len(), 1);
}

#[test]
fn test_js_no_match() {
    let source = "const x = 1;";
    let matches = find_snippet_matches(source, "return 1;", &js_lang()).unwrap();
    assert!(matches.is_empty());
}

#[test]
fn test_query_find() {
    let source = "class A { void f() { return 42; } }";
    let matches = find_query_matches(source, "(return_statement) @matched", &java_lang()).unwrap();
    assert_eq!(matches.len(), 1);
}

#[test]
fn test_query_no_matches() {
    let source = "class A { void f() { return 42; } }";
    let matches = find_query_matches(source, "(if_statement) @matched", &java_lang()).unwrap();
    assert!(matches.is_empty());
}

#[test]
fn test_query_prefers_matched_capture() {
    let source = "class A { void f() { return 42; } }";
    let matches = find_query_matches(
        source,
        "(method_declaration name: (identifier) @matched)",
        &java_lang(),
    )
    .unwrap();
    assert_eq!(matches.len(), 1);
    assert_eq!(&source[matches[0].start_byte..matches[0].end_byte], "f");
}

#[test]
fn test_query_syntax_error() {
    let result = find_query_matches("class A {}", "((", &java_lang());
    assert!(result.is_err());
}

#[test]
fn test_python_query() {
    let source = "def f():\n    return 42\n";
    let matches = find_query_matches(source, "(return_statement) @matched", &python_lang()).unwrap();
    assert_eq!(matches.len(), 1);
}

#[test]
fn test_structurally_matches_fails_on_kind_mismatch() {
    let source = "class A { void f() { return 1; } }";
    let matches = find_snippet_matches(source, "if (true) {}", &java_lang()).unwrap();
    assert!(matches.is_empty());
}

#[test]
fn query_error_message_gives_position() {
    let err = find_query_matches("class A {}", "(no_such_node) @x", &java_lang()).unwrap_err();
    assert!(err.starts_with("Query error at "), "{}", err);
}

#[test]
fn query_falls_back_to_first_capture() {
    let source = "class A { void f() { return 42; } }";
    let matches =
        find_query_matches(source, "(method_declaration name: (identifier) @name)", &java_lang())
            .unwrap();
    assert_eq!(matches.len(), 1);
    assert_eq!(&source[matches[0].start_byte..matches[0].end_byte], "f");
}

#[test]
fn query_prefers_target_over_earlier_capture() {
    let source = "class A { void f() { return 42; } }";
    let matches = find_query_matches(
        source,
        "(method_declaration name: (identifier) @name body: (block) @target)",
        &java_lang(),
    )
    .unwrap();
    assert_eq!(matches.len(), 1);
    assert_eq!(&source[matches[0].start_byte..matches[0].end_byte], "{ return 42; }");
}

#[test]
fn match_points_are_zero_based() {
    let source = "class A {\n  void f() {\n    return 1;\n  }\n}";
    let matches = find_snippet_matches(source, "return 1;", &java_lang()).unwrap();
    assert_eq!(matches.len(), 1);
    assert_eq!((matches[0].start_point.row, matches[0].start_point.column), (2, 4));
    assert_eq!((matches[0].end_point.row, matches[0].end_point.column), (2, 13));
}

#[test]
fn string_literals_match_whatever_their_contents() {
    let source = "class A { void f() { g(\"hello\"); g(\"\"); g(1); } }";
    let matches = find_snippet_matches(source, "g(\"\");", &java_lang()).unwrap();
    assert_eq!(matches.len(), 2);
    let matches = find_snippet_matches(source, "g(\"hello\");", &java_lang()).unwrap();
    assert_eq!(matches.len(), 2);
}

#[test]
fn python_strings_match_whatever_their_contents() {
    let source = "x = \"abc\"\ny = \"\"\nz = 3\n";
    let matches = find_snippet_matches(source, "x = \"\"", &python_lang()).unwrap();
    assert_eq!(matches.len(), 2);
}

#[test]
fn go_closures_compare_their_parameters() {
    // A Go snippet parses to a whole `source_file`, which is the pattern.
    let source = "package main\nvar f = func(a int) {}\n";
    let other = find_snippet_matches(source, "package p\nvar g = func() {}\n", &Lang::Go).unwrap();
    assert!(other.is_empty());
    let same = find_snippet_matches(source, "package p\nvar g = func(b int) {}\n", &Lang::Go).unwrap();
    assert_eq!(same.len(), 1);
}

#[test]
fn matches_lie_on_character_boundaries() {
    let source = "class A { void f() { g(\"é\"); return 1; } }";
    let matches = find_snippet_matches(source, "return 2;", &Lang::Java).unwrap();
    assert_eq!(matches.len(), 1);
    let m = &matches[0];
    assert!(source.is_char_boundary(m.start_byte) && source.is_char_boundary(m.end_byte));
    assert_eq!(&source[m.start_byte..m.end_byte], "return 1;");
}
