use linepatch::manifest::{InsertPosition, Patch, PatternPatch};

fn pattern_patch(
    pattern: &str,
    position: InsertPosition,
    target: &str,
    payload: &str,
    match_indent: bool,
    times: Option<usize>,
) -> PatternPatch {
    PatternPatch {
        pattern: pattern.to_string(),
        position,
        target: target.to_string(),
        payload: payload.to_string(),
        match_indent,
        times,
        overwrite: false,
    }
}

#[test]
fn at_replaces_window_with_captured_indent() {
    let patch = pattern_patch("foo", InsertPosition::At, "t", "baz", true, None);
    let mut rope = crop::Rope::from("  foo\nbar");
    let changed = patch.apply("t", &mut rope);
    assert!(changed);
    assert_eq!(rope.to_string(), "  baz\nbar");
}

#[test]
fn two_line_pattern_times_one_replaces_only_first_window() {
    let patch = pattern_patch("a\nb", InsertPosition::At, "t", "X", false, Some(1));
    let mut rope = crop::Rope::from("a\nb\na\nb");
    let changed = patch.apply("t", &mut rope);
    assert!(changed);
    assert_eq!(rope.to_string(), "X\na\nb");
}

#[test]
fn wildcard_matches_arbitrary_tail_but_not_other_names() {
    let patch = pattern_patch("local x = *", InsertPosition::At, "t", "Y", false, None);
    let mut rope = crop::Rope::from("local x = 42\nlocal x = some.value()\nlocal y = 1");
    let changed = patch.apply("t", &mut rope);
    assert!(changed);
    assert_eq!(rope.to_string(), "Y\nY\nlocal y = 1");
}

#[test]
fn question_mark_matches_exactly_one_character() {
    let patch = pattern_patch("c?t", InsertPosition::At, "t", "hit", false, None);
    let mut rope = crop::Rope::from("cat\ncot\ncart");
    let changed = patch.apply("t", &mut rope);
    assert!(changed);
    assert_eq!(rope.to_string(), "hit\nhit\ncart");
}

#[test]
fn target_mismatch_is_a_no_op() {
    let patch = pattern_patch("foo", InsertPosition::At, "other", "baz", false, None);
    let mut rope = crop::Rope::from("foo\nbar");
    let changed = patch.apply("t", &mut rope);
    assert!(!changed);
    assert_eq!(rope.to_string(), "foo\nbar");
}

#[test]
fn empty_pattern_is_a_no_op() {
    let patch = pattern_patch("", InsertPosition::At, "t", "baz", false, None);
    let mut rope = crop::Rope::from("foo\nbar");
    let changed = patch.apply("t", &mut rope);
    assert!(!changed);
    assert_eq!(rope.to_string(), "foo\nbar");
}

#[test]
fn no_match_is_a_no_op() {
    let patch = pattern_patch("nope", InsertPosition::At, "t", "baz", false, None);
    let mut rope = crop::Rope::from("foo\nbar");
    let changed = patch.apply("t", &mut rope);
    assert!(!changed);
    assert_eq!(rope.to_string(), "foo\nbar");
}

#[test]
fn before_inserts_payload_above_each_match() {
    let patch = pattern_patch("foo", InsertPosition::Before, "t", "pre", false, None);
    let mut rope = crop::Rope::from("foo\nmid\nfoo\n");
    let changed = patch.apply("t", &mut rope);
    assert!(changed);
    assert_eq!(rope.to_string(), "pre\nfoo\nmid\npre\nfoo\n");
}

#[test]
fn after_inserts_payload_below_each_match() {
    let patch = pattern_patch("foo", InsertPosition::After, "t", "post", false, None);
    let mut rope = crop::Rope::from("foo\nmid\nfoo\n");
    let changed = patch.apply("t", &mut rope);
    assert!(changed);
    assert_eq!(rope.to_string(), "foo\npost\nmid\nfoo\npost\n");
}

#[test]
fn insert_grows_line_count_by_matches_times_payload_lines() {
    let patch = pattern_patch("x", InsertPosition::After, "t", "p\nq", false, None);
    let mut rope = crop::Rope::from("x\nx\nx\n");
    let changed = patch.apply("t", &mut rope);
    assert!(changed);
    // three matches, two rendered lines each: 3 + 3 * 2 lines
    assert_eq!(rope.line_len(), 9);
    assert_eq!(rope.to_string(), "x\np\nq\nx\np\nq\nx\np\nq\n");
}

#[test]
fn at_with_equal_line_count_keeps_total_line_count() {
    let patch = pattern_patch("a\nb", InsertPosition::At, "t", "c\nd", false, None);
    let mut rope = crop::Rope::from("a\nb\nz\n");
    let changed = patch.apply("t", &mut rope);
    assert!(changed);
    assert_eq!(rope.line_len(), 3);
    assert_eq!(rope.to_string(), "c\nd\nz\n");
}

#[test]
fn excess_matches_are_truncated_to_first_times_by_position() {
    let patch = pattern_patch("m", InsertPosition::After, "t", "tag", false, Some(2));
    let mut rope = crop::Rope::from("m\nm\nm\nm\n");
    let changed = patch.apply("t", &mut rope);
    assert!(changed);
    assert_eq!(rope.to_string(), "m\ntag\nm\ntag\nm\nm\n");
}

#[test]
fn fewer_matches_than_times_applies_all_found() {
    let patch = pattern_patch("m", InsertPosition::After, "t", "tag", false, Some(5));
    let mut rope = crop::Rope::from("m\nz\n");
    let changed = patch.apply("t", &mut rope);
    assert!(changed);
    assert_eq!(rope.to_string(), "m\ntag\nz\n");
}

#[test]
fn every_payload_line_gets_the_captured_indent() {
    let patch = pattern_patch("foo", InsertPosition::Before, "t", "one\ntwo", true, None);
    let mut rope = crop::Rope::from("\t  foo\n");
    let changed = patch.apply("t", &mut rope);
    assert!(changed);
    assert_eq!(rope.to_string(), "\t  one\n\t  two\n\t  foo\n");
}

#[test]
fn without_match_indent_no_prefix_is_added() {
    let patch = pattern_patch("foo", InsertPosition::Before, "t", "one", false, None);
    let mut rope = crop::Rope::from("    foo\n");
    let changed = patch.apply("t", &mut rope);
    assert!(changed);
    assert_eq!(rope.to_string(), "one\n    foo\n");
}

#[test]
fn payload_trailing_newline_keeps_a_trailing_empty_segment() {
    let patch = pattern_patch("foo", InsertPosition::Before, "t", "baz\n", true, None);
    let mut rope = crop::Rope::from("  foo\nbar");
    let changed = patch.apply("t", &mut rope);
    assert!(changed);
    assert_eq!(rope.to_string(), "  baz\n  \n  foo\nbar");
}

#[test]
fn pattern_lines_are_matched_against_trimmed_candidates() {
    let patch = pattern_patch("  foo  ", InsertPosition::At, "t", "ok", false, None);
    let mut rope = crop::Rope::from("\t foo \n");
    let changed = patch.apply("t", &mut rope);
    assert!(changed);
    assert_eq!(rope.to_string(), "ok\n");
}

#[test]
fn matches_never_overlap_in_greedy_scan() {
    // "a\na" over "a\na\na": the window at line 0 consumes lines 0 and 1,
    // so only one match is found even though lines 1 and 2 also pair up.
    let patch = pattern_patch("a\na", InsertPosition::After, "t", "x", false, None);
    let mut rope = crop::Rope::from("a\na\na\n");
    let changed = patch.apply("t", &mut rope);
    assert!(changed);
    assert_eq!(rope.to_string(), "a\na\nx\na\n");
}

#[test]
fn after_at_unterminated_end_splices_at_final_byte() {
    let patch = pattern_patch("foo", InsertPosition::After, "t", "X", false, None);
    let mut rope = crop::Rope::from("a\nfoo");
    let changed = patch.apply("t", &mut rope);
    assert!(changed);
    assert_eq!(rope.to_string(), "a\nfooX\n");
}

#[test]
fn empty_payload_injects_one_indented_blank_line() {
    let patch = pattern_patch("foo", InsertPosition::Before, "t", "", true, None);
    let mut rope = crop::Rope::from("  foo\n");
    let changed = patch.apply("t", &mut rope);
    assert!(changed);
    assert_eq!(rope.to_string(), "  \n  foo\n");
}

#[test]
fn patch_variants_share_one_apply_contract() {
    let patch = Patch::Pattern(pattern_patch("foo", InsertPosition::At, "t", "baz", false, None));
    let mut rope = crop::Rope::from("foo\n");
    assert!(patch.apply("t", &mut rope));
    assert_eq!(rope.to_string(), "baz\n");
    assert!(!patch.apply("elsewhere", &mut rope));
    assert_eq!(rope.to_string(), "baz\n");
}
