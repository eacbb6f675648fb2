use patchwork::edit::{all_edits_fit, apply_edits, has_overlap, matches_to_edits, Edit, Operation};
use patchwork::matcher::{Match, Point};

#[test]
fn test_replace() {
    let edits = vec![Edit { start_byte: 0, end_byte: 5, replacement: "hello".into() }];
    assert_eq!(apply_edits("world", &edits).unwrap(), "hello");
}

#[test]
fn test_delete() {
    let edits = vec![Edit { start_byte: 5, end_byte: 11, replacement: String::new() }];
    assert_eq!(apply_edits("hello world", &edits).unwrap(), "hello");
}

#[test]
fn test_bottom_up_order() {
    let edits = vec![
        Edit { start_byte: 3, end_byte: 4, replacement: "Y".into() },
        Edit { start_byte: 0, end_byte: 1, replacement: "X".into() },
    ];
    assert_eq!(apply_edits("ab cd", &edits).unwrap(), "Xb Yd");
}

#[test]
fn test_overlapping_edits_error() {
    let edits = vec![
        Edit { start_byte: 0, end_byte: 5, replacement: "x".into() },
        Edit { start_byte: 3, end_byte: 8, replacement: "y".into() },
    ];
    assert!(apply_edits("hello world", &edits).is_err());
}

#[test]
fn test_insert_before() {
    let source = "b";
    let edits = vec![Edit { start_byte: 0, end_byte: 0, replacement: "a".into() }];
    assert_eq!(apply_edits(source, &edits).unwrap(), "ab");
}

#[test]
fn test_insert_after() {
    let source = "a";
    let edits = vec![Edit { start_byte: 1, end_byte: 1, replacement: "b".into() }];
    assert_eq!(apply_edits(source, &edits).unwrap(), "ab");
}

#[test]
fn overlap_message_names_the_later_edit() {
    let edits = vec![
        Edit { start_byte: 0, end_byte: 5, replacement: "x".into() },
        Edit { start_byte: 3, end_byte: 8, replacement: "y".into() },
    ];
    assert_eq!(
        apply_edits("hello world", &edits).unwrap_err(),
        "Overlapping edits detected at byte 0..5: matches overlap, refine your pattern"
    );
}

#[test]
fn no_edits_keeps_the_source() {
    assert_eq!(apply_edits("héllo", &[]).unwrap(), "héllo");
}

#[test]
fn edits_around_multibyte_text() {
    // "é" takes two bytes.
    let edits = vec![
        Edit { start_byte: 1, end_byte: 3, replacement: "e".into() },
        Edit { start_byte: 6, end_byte: 6, replacement: "!".into() },
    ];
    assert_eq!(apply_edits("héllo", &edits).unwrap(), "hello!");
}

#[test]
fn insertions_at_one_place_keep_input_order_reversed() {
    // Equal starts keep their input order, and are applied last-to-first
    // in that order, so the later insertion ends up first.
    let edits = vec![
        Edit { start_byte: 1, end_byte: 1, replacement: "1".into() },
        Edit { start_byte: 1, end_byte: 1, replacement: "2".into() },
    ];
    assert_eq!(apply_edits("ab", &edits).unwrap(), "a21b");
}

#[test]
fn adjacent_edits_are_not_overlapping() {
    let edits = vec![
        Edit { start_byte: 0, end_byte: 2, replacement: "X".into() },
        Edit { start_byte: 2, end_byte: 4, replacement: "Y".into() },
    ];
    assert_eq!(apply_edits("abcd", &edits).unwrap(), "XY");
}

#[test]
fn edit_inside_another_is_refused() {
    let edits = vec![
        Edit { start_byte: 2, end_byte: 3, replacement: "x".into() },
        Edit { start_byte: 0, end_byte: 6, replacement: "y".into() },
    ];
    assert_eq!(
        apply_edits("abcdef", &edits).unwrap_err(),
        "Overlapping edits detected at byte 0..6: matches overlap, refine your pattern"
    );
}

fn m(start: usize, end: usize) -> Match {
    Match {
        start_byte: start,
        end_byte: end,
        start_point: Point { row: 0, column: start },
        end_point: Point { row: 0, column: end },
    }
}

#[test]
fn edits_for_each_operation() {
    let ms = vec![m(2, 5), m(7, 9)];
    let r = matches_to_edits(&ms, &Operation::Replace("R".into()));
    assert_eq!(r.len(), 2);
    assert_eq!((r[0].start_byte, r[0].end_byte, r[0].replacement.as_str()), (2, 5, "R"));
    assert_eq!((r[1].start_byte, r[1].end_byte, r[1].replacement.as_str()), (7, 9, "R"));
    let d = matches_to_edits(&ms, &Operation::Delete);
    assert_eq!((d[1].start_byte, d[1].end_byte, d[1].replacement.as_str()), (7, 9, ""));
    let b = matches_to_edits(&ms, &Operation::InsertBefore("B".into()));
    assert_eq!((b[0].start_byte, b[0].end_byte, b[0].replacement.as_str()), (2, 2, "B"));
    let a = matches_to_edits(&ms, &Operation::InsertAfter("A".into()));
    assert_eq!((a[0].start_byte, a[0].end_byte, a[0].replacement.as_str()), (5, 5, "A"));
    assert!(matches_to_edits(&[], &Operation::Delete).is_empty());
}

#[test]
fn replace_matches_end_to_end() {
    let source = "f(a); g(b); f(c);";
    let ms = vec![m(0, 5), m(12, 17)];
    let edits = matches_to_edits(&ms, &Operation::Replace("h();".into()));
    assert_eq!(apply_edits(source, &edits).unwrap(), "h(); g(b); h();");
}

#[test]
fn every_edit_uses_offsets_of_the_source_text() {
    // The first edit grows the text; the second still refers to the
    // source offsets.
    let edits = vec![
        Edit { start_byte: 1, end_byte: 2, replacement: "XXX".into() },
        Edit { start_byte: 4, end_byte: 5, replacement: String::new() },
    ];
    assert_eq!(apply_edits("abcdef", &edits).unwrap(), "aXXXcdf");
}

#[test]
fn overlap_is_found_before_applying() {
    let overlapping = vec![
        Edit { start_byte: 0, end_byte: 5, replacement: "x".into() },
        Edit { start_byte: 3, end_byte: 8, replacement: "y".into() },
    ];
    assert!(has_overlap(&overlapping));
    let apart = vec![
        Edit { start_byte: 3, end_byte: 4, replacement: "Y".into() },
        Edit { start_byte: 0, end_byte: 1, replacement: "X".into() },
    ];
    assert!(!has_overlap(&apart));
}

#[test]
fn edits_must_lie_on_character_boundaries() {
    // "é" takes the bytes 1 and 2.
    let inside = vec![Edit { start_byte: 1, end_byte: 3, replacement: "e".into() }];
    assert!(all_edits_fit("héllo", &inside));
    let splits = vec![Edit { start_byte: 2, end_byte: 3, replacement: "e".into() }];
    assert!(!all_edits_fit("héllo", &splits));
    let beyond = vec![Edit { start_byte: 5, end_byte: 7, replacement: String::new() }];
    assert!(!all_edits_fit("héllo", &beyond));
    let reversed = vec![Edit { start_byte: 3, end_byte: 1, replacement: String::new() }];
    assert!(!all_edits_fit("héllo", &reversed));
}
