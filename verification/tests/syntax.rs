use patchwork::matcher::{
    collect_matches, extract_pattern, has_error, is_literal_kind, is_root_wrapper, match_snippet,
    structurally_matches, Point,
};
use patchwork::syntax::{build_tree, SyntaxNode, SyntaxRecord};

fn leaf(kind: &str, named: bool, start: usize, end: usize) -> SyntaxNode {
    SyntaxNode {
        kind: kind.to_string(),
        named,
        start_byte: start,
        end_byte: end,
        start_point: Point { row: 0, column: start },
        end_point: Point { row: 0, column: end },
        children: vec![],
    }
}

fn node(kind: &str, start: usize, end: usize, children: Vec<SyntaxNode>) -> SyntaxNode {
    SyntaxNode { children, ..leaf(kind, true, start, end) }
}

fn ret(start: usize, value_kind: &str) -> SyntaxNode {
    node(
        "return_statement",
        start,
        start + 9,
        vec![
            leaf("return", false, start, start + 6),
            leaf(value_kind, true, start + 7, start + 8),
            leaf(";", false, start + 8, start + 9),
        ],
    )
}

#[test]
fn same_shape_matches_and_leaf_text_is_ignored() {
    let a = ret(0, "decimal_integer_literal");
    let b = ret(40, "decimal_integer_literal");
    assert!(structurally_matches(&a, &b));
}

#[test]
fn different_kinds_do_not_match() {
    let a = ret(0, "decimal_integer_literal");
    let b = ret(0, "identifier");
    assert!(!structurally_matches(&a, &b));
    assert!(!structurally_matches(&leaf("x", true, 0, 1), &leaf("y", true, 0, 1)));
}

#[test]
fn anonymous_children_are_ignored() {
    let a = node("call", 0, 4, vec![leaf("(", false, 0, 1), leaf("identifier", true, 1, 2)]);
    let b = node("call", 0, 4, vec![leaf("identifier", true, 1, 2), leaf(")", false, 2, 3)]);
    assert!(structurally_matches(&a, &b));
}

#[test]
fn named_child_counts_must_agree() {
    let a = node("args", 0, 4, vec![leaf("identifier", true, 0, 1)]);
    let b = node("args", 0, 4, vec![leaf("identifier", true, 0, 1), leaf("identifier", true, 2, 3)]);
    assert!(!structurally_matches(&a, &b));
    assert!(!structurally_matches(&b, &a));
}

#[test]
fn collects_in_preorder() {
    let pattern = ret(0, "decimal_integer_literal");
    let inner = node("block", 10, 30, vec![ret(12, "decimal_integer_literal")]);
    let root = node("program", 0, 40, vec![ret(0, "decimal_integer_literal"), inner]);
    let mut found = Vec::new();
    collect_matches(&root, &pattern, &mut found);
    assert_eq!(found.len(), 2);
    assert_eq!(found[0].start_byte, 0);
    assert_eq!(found[1].start_byte, 12);
}

#[test]
fn root_wrappers() {
    assert!(is_root_wrapper("program"));
    assert!(is_root_wrapper("module"));
    assert!(!is_root_wrapper("source_file"));
}

#[test]
fn pattern_is_the_single_named_child_of_a_wrapper() {
    let snippet = node("program", 0, 9, vec![ret(0, "decimal_integer_literal")]);
    let p = extract_pattern(&snippet).unwrap();
    assert_eq!(p.kind, "return_statement");
    let two = node("program", 0, 9, vec![leaf("a", true, 0, 1), leaf("b", true, 1, 2)]);
    assert_eq!(extract_pattern(&two).unwrap().kind, "program");
    let other = node("source_file", 0, 9, vec![leaf("a", true, 0, 1)]);
    assert_eq!(extract_pattern(&other).unwrap().kind, "source_file");
}

#[test]
fn errors_anywhere_are_found() {
    let ok = node("program", 0, 9, vec![ret(0, "x")]);
    assert!(!has_error(&ok));
    let bad = node("program", 0, 9, vec![node("block", 0, 5, vec![leaf("ERROR", true, 1, 2)])]);
    assert!(has_error(&bad));
}

#[test]
fn snippet_with_error_is_refused() {
    let source = node("program", 0, 9, vec![ret(0, "x")]);
    let snippet = node("program", 0, 9, vec![node("ERROR", 0, 7, vec![])]);
    assert_eq!(match_snippet(&source, &snippet).unwrap_err(), "Snippet contains syntax errors");
    let good = node("program", 0, 9, vec![ret(0, "x")]);
    assert_eq!(match_snippet(&source, &good).unwrap().len(), 1);
}

fn rec(depth: usize, kind: &str, start: usize) -> SyntaxRecord {
    SyntaxRecord {
        depth,
        kind: kind.to_string(),
        named: true,
        start_byte: start,
        end_byte: start + 1,
        start_point: Point { row: 0, column: start },
        end_point: Point { row: 0, column: start + 1 },
    }
}

#[test]
fn tree_from_preorder_records() {
    let records = vec![rec(0, "a", 0), rec(1, "b", 1), rec(2, "c", 2), rec(1, "d", 3), rec(2, "e", 4), rec(2, "f", 5)];
    let t = build_tree(&records);
    assert_eq!(t.kind, "a");
    assert_eq!(t.children.len(), 2);
    assert_eq!(t.children[0].kind, "b");
    assert_eq!(t.children[0].children.len(), 1);
    assert_eq!(t.children[0].children[0].kind, "c");
    assert_eq!(t.children[1].kind, "d");
    assert_eq!(t.children[1].children.len(), 2);
    assert_eq!(t.children[1].children[1].start_byte, 5);
}

#[test]
fn structural_matching_is_an_equivalence() {
    let a = ret(0, "identifier");
    let b = ret(20, "identifier");
    let c = node(
        "return_statement",
        40,
        49,
        vec![leaf("identifier", true, 47, 48)],
    );
    let d = ret(0, "string_literal");
    assert!(structurally_matches(&a, &a));
    assert_eq!(structurally_matches(&a, &b), structurally_matches(&b, &a));
    assert_eq!(structurally_matches(&a, &d), structurally_matches(&d, &a));
    assert!(structurally_matches(&a, &b) && structurally_matches(&b, &c));
    assert!(structurally_matches(&a, &c));
}

#[test]
fn leaves_match_by_kind_only() {
    assert!(structurally_matches(
        &leaf("string_literal", true, 0, 5),
        &leaf("string_literal", true, 9, 30)
    ));
    assert!(!structurally_matches(
        &leaf("string_literal", true, 0, 5),
        &leaf("character_literal", true, 0, 5)
    ));
}

#[test]
fn records_of_a_tree_read_back() {
    // Reading a tree's own preorder records gives the same tree back.
    let records = vec![rec(0, "root", 0), rec(1, "x", 1), rec(1, "y", 2), rec(2, "z", 3)];
    let t = build_tree(&records);
    let mut seen = Vec::new();
    fn walk(n: &SyntaxNode, d: usize, out: &mut Vec<(usize, String)>) {
        out.push((d, n.kind.clone()));
        for c in &n.children {
            walk(c, d + 1, out);
        }
    }
    walk(&t, 0, &mut seen);
    let expected: Vec<(usize, String)> =
        records.iter().map(|r| (r.depth, r.kind.clone())).collect();
    assert_eq!(seen, expected);
}

#[test]
fn literals_are_compared_by_kind_only() {
    // `""` has no named child; `"hello"` has its content as one.
    let empty = node(
        "string_literal",
        0,
        2,
        vec![leaf("\"", false, 0, 1), leaf("\"", false, 1, 2)],
    );
    let hello = node(
        "string_literal",
        10,
        17,
        vec![
            leaf("\"", false, 10, 11),
            leaf("string_fragment", true, 11, 16),
            leaf("\"", false, 16, 17),
        ],
    );
    assert!(structurally_matches(&empty, &hello));
    assert!(structurally_matches(&hello, &empty));
    // Other kinds still compare their named children.
    let a = node("argument_list", 0, 2, vec![]);
    let b = node("argument_list", 0, 3, vec![leaf("identifier", true, 1, 2)]);
    assert!(!structurally_matches(&a, &b));
}

#[test]
fn literal_kinds() {
    assert!(is_literal_kind("string_literal"));
    assert!(is_literal_kind("decimal_integer_literal"));
    assert!(is_literal_kind("string"));
    assert!(!is_literal_kind("identifier"));
    assert!(!is_literal_kind("literal_list"));
    assert!(!is_literal_kind("strings"));
    assert!(!is_literal_kind("iteral"));
}

#[test]
fn closures_and_composites_compare_their_children() {
    // Go `func_literal`: a closure, not a leaf value.
    let one_param = node(
        "func_literal",
        0,
        20,
        vec![
            node("parameter_list", 4, 10, vec![leaf("parameter_declaration", true, 5, 9)]),
            node("block", 11, 20, vec![]),
        ],
    );
    let no_params = node(
        "func_literal",
        30,
        45,
        vec![node("parameter_list", 34, 36, vec![]), node("block", 37, 45, vec![])],
    );
    assert!(!structurally_matches(&one_param, &no_params));
    assert!(structurally_matches(&one_param, &one_param));
    // A string with code interpolated in it is compared by its children too.
    let interpolated = node(
        "string",
        0,
        6,
        vec![
            leaf("string_start", true, 0, 2),
            node("interpolation", 2, 5, vec![leaf("identifier", true, 3, 4)]),
            leaf("string_end", true, 5, 6),
        ],
    );
    let plain = node(
        "string",
        10,
        15,
        vec![
            leaf("string_start", true, 10, 11),
            leaf("string_content", true, 11, 14),
            leaf("string_end", true, 14, 15),
        ],
    );
    assert!(!structurally_matches(&interpolated, &plain));
}
