use hashline::anchor::parse_line_ref;
use hashline::edits::{apply_hashline_edits, validate_or_relocate, HashlineEdit};
use hashline::errors::HashlineError;
use hashline::fingerprint::compute_line_hash;
use hashline::text::{
    detect_line_ending, normalize_to_lf, restore_line_endings, split_dst_lines,
    split_preserve_last_empty,
};

fn lines(v: &[&str]) -> Vec<String> {
    v.iter().map(|s| s.to_string()).collect()
}

fn set_line(anchor: String, new_text: &str) -> HashlineEdit {
    HashlineEdit::SetLine {
        anchor,
        new_text: new_text.to_string(),
    }
}

#[test]
fn fingerprint_is_whitespace_insensitive() {
    assert_eq!(compute_line_hash("  beta\t "), compute_line_hash("beta"));
    assert_eq!(compute_line_hash("a b c"), compute_line_hash("abc"));
    assert_eq!(compute_line_hash("\r"), compute_line_hash(""));
}

#[test]
fn fingerprint_is_four_lowercase_hex_digits() {
    for input in ["alpha", "beta", "", "such a long line with many words"] {
        let h = compute_line_hash(input);
        assert_eq!(h.len(), 4);
        assert!(h.chars().all(|c| c.is_ascii_hexdigit() && !c.is_ascii_uppercase()));
    }
}

#[test]
fn fingerprint_distinguishes_lines() {
    assert_ne!(compute_line_hash("alpha"), compute_line_hash("beta"));
}

#[test]
fn parse_line_ref_accepts_well_formed_anchors() {
    let r = parse_line_ref("2:AB cd ").unwrap();
    assert_eq!(r.line, 2);
    assert_eq!(r.hash, "ab cd");
    let r = parse_line_ref("+7:ffff").unwrap();
    assert_eq!(r.line, 7);
    assert_eq!(r.hash, "ffff");
}

#[test]
fn parse_line_ref_rejects_malformed_anchors() {
    assert!(matches!(parse_line_ref("abcd"), Err(HashlineError::InvalidAnchor { .. })));
    assert!(matches!(parse_line_ref("1:2:3"), Err(HashlineError::InvalidAnchor { .. })));
    assert!(matches!(parse_line_ref("0:ffff"), Err(HashlineError::InvalidAnchor { .. })));
    assert!(matches!(parse_line_ref("x:ffff"), Err(HashlineError::InvalidAnchor { .. })));
    assert!(matches!(parse_line_ref("1:   "), Err(HashlineError::InvalidAnchor { .. })));
    assert!(matches!(parse_line_ref(""), Err(HashlineError::InvalidAnchor { .. })));
}

#[test]
fn resolve_keeps_valid_anchor_unchanged() {
    let file = lines(&["alpha", "beta", "gamma"]);
    let fps: Vec<String> = file.iter().map(|l| compute_line_hash(l)).collect();
    let mut r = parse_line_ref(&format!("2:{}", compute_line_hash("beta"))).unwrap();
    let mut mismatches = Vec::new();
    validate_or_relocate(&mut r, &fps, &mut mismatches).unwrap();
    assert_eq!(r.line, 2);
    assert!(mismatches.is_empty());
}

#[test]
fn resolve_relocates_to_unique_hash() {
    let file = lines(&["alpha", "beta", "gamma"]);
    let fps: Vec<String> = file.iter().map(|l| compute_line_hash(l)).collect();
    let mut r = parse_line_ref(&format!("1:{}", compute_line_hash("gamma"))).unwrap();
    let mut mismatches = Vec::new();
    validate_or_relocate(&mut r, &fps, &mut mismatches).unwrap();
    assert_eq!(r.line, 3);
    assert!(mismatches.is_empty());
}

#[test]
fn resolve_never_picks_among_duplicates() {
    let file = lines(&["dup", "dup", "other"]);
    let fps: Vec<String> = file.iter().map(|l| compute_line_hash(l)).collect();
    let mut r = parse_line_ref(&format!("3:{}", compute_line_hash("dup"))).unwrap();
    let mut mismatches = Vec::new();
    validate_or_relocate(&mut r, &fps, &mut mismatches).unwrap();
    assert_eq!(r.line, 3, "an ambiguous hash must not relocate");
    assert_eq!(mismatches.len(), 1);
    assert_eq!(mismatches[0].line, 3);
    assert_eq!(mismatches[0].expected, compute_line_hash("dup"));
    assert_eq!(mismatches[0].actual, compute_line_hash("other"));
}

#[test]
fn resolve_rejects_line_beyond_bounds() {
    let file = lines(&["alpha"]);
    let fps: Vec<String> = file.iter().map(|l| compute_line_hash(l)).collect();
    let mut r = parse_line_ref("99:abcd").unwrap();
    let mut mismatches = Vec::new();
    let e = validate_or_relocate(&mut r, &fps, &mut mismatches).unwrap_err();
    assert!(matches!(e, HashlineError::OutOfRange { line: 99, len: 1 }));
}

#[test]
fn set_line_splits_multi_line_replacement() {
    let file = lines(&["alpha", "beta", "gamma"]);
    let anchor = format!("2:{}", compute_line_hash("beta"));
    let edits = vec![set_line(anchor, "B1\nB2")];
    let out = apply_hashline_edits(file, &edits).unwrap();
    assert_eq!(out, lines(&["alpha", "B1", "B2", "gamma"]));
}

#[test]
fn stale_anchor_fails_whole_batch() {
    let file = lines(&["alpha", "beta", "gamma"]);
    let actual = compute_line_hash("beta");
    assert_ne!(actual, "ffff");
    let edits = vec![set_line("2:ffff".to_string(), "B")];
    let e = apply_hashline_edits(file, &edits).unwrap_err();
    match e {
        HashlineError::StaleAnchors { mismatches } => {
            assert_eq!(mismatches.len(), 1);
            assert_eq!(mismatches[0].line, 2);
            assert_eq!(mismatches[0].expected, "ffff");
            assert_eq!(mismatches[0].actual, actual);
        }
        other => panic!("expected StaleAnchors, got {:?}", other),
    }
}

#[test]
fn replace_substring_first_occurrence() {
    let file = lines(&["alpha", "beta", "gamma"]);
    let edits = vec![HashlineEdit::Replace {
        old_text: "beta".to_string(),
        new_text: "BETA".to_string(),
        all: false,
    }];
    let out = apply_hashline_edits(file, &edits).unwrap();
    assert_eq!(out, lines(&["alpha", "BETA", "gamma"]));
}

#[test]
fn replace_substring_all_occurrences() {
    let file = lines(&["aba", "bab"]);
    let edits = vec![HashlineEdit::Replace {
        old_text: "b".to_string(),
        new_text: "x".to_string(),
        all: true,
    }];
    let out = apply_hashline_edits(file, &edits).unwrap();
    assert_eq!(out, lines(&["axa", "xax"]));
}

#[test]
fn replace_substring_can_change_line_count() {
    let file = lines(&["alpha", "beta"]);
    let edits = vec![HashlineEdit::Replace {
        old_text: "beta".to_string(),
        new_text: "b1\nb2".to_string(),
        all: false,
    }];
    let out = apply_hashline_edits(file, &edits).unwrap();
    assert_eq!(out, lines(&["alpha", "b1", "b2"]));
}

#[test]
fn insert_after_appends_line() {
    let file = lines(&["alpha", "beta", "gamma"]);
    let anchor = format!("3:{}", compute_line_hash("gamma"));
    let edits = vec![HashlineEdit::InsertAfter {
        anchor,
        text: "delta".to_string(),
    }];
    let out = apply_hashline_edits(file, &edits).unwrap();
    assert_eq!(out.len(), 4);
    assert_eq!(out, lines(&["alpha", "beta", "gamma", "delta"]));
}

#[test]
fn replace_lines_splices_inclusive_span() {
    let file = lines(&["a", "b", "c", "d"]);
    let start = format!("2:{}", compute_line_hash("b"));
    let end = format!("3:{}", compute_line_hash("c"));
    let edits = vec![HashlineEdit::ReplaceLines {
        start_anchor: start,
        end_anchor: end,
        new_text: "X".to_string(),
    }];
    let out = apply_hashline_edits(file, &edits).unwrap();
    assert_eq!(out, lines(&["a", "X", "d"]));
}

#[test]
fn set_line_with_empty_text_deletes_line() {
    let file = lines(&["a", "b", "c"]);
    let anchor = format!("2:{}", compute_line_hash("b"));
    let edits = vec![set_line(anchor, "")];
    let out = apply_hashline_edits(file, &edits).unwrap();
    assert_eq!(out, lines(&["a", "c"]));
}

#[test]
fn empty_batch_is_a_noop() {
    let file = lines(&["alpha", "beta"]);
    let out = apply_hashline_edits(file.clone(), &Vec::new()).unwrap();
    assert_eq!(out, file);
}

#[test]
fn identical_output_is_rejected() {
    let file = lines(&["alpha", "beta"]);
    let anchor = format!("2:{}", compute_line_hash("beta"));
    let edits = vec![set_line(anchor, "beta")];
    let e = apply_hashline_edits(file, &edits).unwrap_err();
    assert!(matches!(e, HashlineError::NoEffectiveChange));
}

#[test]
fn replace_all_without_match_changes_nothing_and_is_rejected() {
    let file = lines(&["alpha"]);
    let edits = vec![HashlineEdit::Replace {
        old_text: "zzz".to_string(),
        new_text: "x".to_string(),
        all: true,
    }];
    let e = apply_hashline_edits(file, &edits).unwrap_err();
    assert!(matches!(e, HashlineError::NoEffectiveChange));
}

#[test]
fn declared_order_does_not_matter() {
    let file = lines(&["l1", "l2", "l3", "l4", "l5"]);
    let a2 = format!("2:{}", compute_line_hash("l2"));
    let a4 = format!("4:{}", compute_line_hash("l4"));
    let top_down = vec![set_line(a2.clone(), "L2a\nL2b"), set_line(a4.clone(), "L4")];
    let bottom_up = vec![set_line(a4, "L4"), set_line(a2, "L2a\nL2b")];
    let out1 = apply_hashline_edits(file.clone(), &top_down).unwrap();
    let out2 = apply_hashline_edits(file, &bottom_up).unwrap();
    assert_eq!(out1, out2);
    assert_eq!(out1, lines(&["l1", "L2a", "L2b", "l3", "L4", "l5"]));
}

#[test]
fn failure_leaves_no_partial_state_observable() {
    let file = lines(&["alpha", "beta", "gamma"]);
    let good = format!("1:{}", compute_line_hash("alpha"));
    let edits = vec![set_line(good, "ALPHA"), set_line("2:ffff".to_string(), "B")];
    let e = apply_hashline_edits(file.clone(), &edits).unwrap_err();
    assert!(matches!(e, HashlineError::StaleAnchors { .. }));
    let unchanged = apply_hashline_edits(file.clone(), &Vec::new()).unwrap();
    assert_eq!(unchanged, file);
}

#[test]
fn empty_insert_text_is_rejected() {
    let file = lines(&["alpha"]);
    let anchor = format!("1:{}", compute_line_hash("alpha"));
    let edits = vec![HashlineEdit::InsertAfter {
        anchor,
        text: String::new(),
    }];
    let e = apply_hashline_edits(file, &edits).unwrap_err();
    assert!(matches!(e, HashlineError::EmptyInsertText));
}

#[test]
fn empty_old_text_is_rejected() {
    let file = lines(&["alpha"]);
    let edits = vec![HashlineEdit::Replace {
        old_text: String::new(),
        new_text: "x".to_string(),
        all: false,
    }];
    let e = apply_hashline_edits(file, &edits).unwrap_err();
    assert!(matches!(e, HashlineError::EmptyOldText));
}

#[test]
fn missing_substring_is_rejected() {
    let file = lines(&["alpha"]);
    let edits = vec![HashlineEdit::Replace {
        old_text: "zzz".to_string(),
        new_text: "x".to_string(),
        all: false,
    }];
    let e = apply_hashline_edits(file, &edits).unwrap_err();
    assert!(matches!(e, HashlineError::SubstringNotFound));
}

#[test]
fn inverted_range_is_rejected() {
    let file = lines(&["a", "b", "c"]);
    let start = format!("3:{}", compute_line_hash("c"));
    let end = format!("1:{}", compute_line_hash("a"));
    let edits = vec![HashlineEdit::ReplaceLines {
        start_anchor: start,
        end_anchor: end,
        new_text: "X".to_string(),
    }];
    let e = apply_hashline_edits(file, &edits).unwrap_err();
    assert!(matches!(e, HashlineError::InvalidRange));
}

#[test]
fn out_of_range_anchor_is_fatal_not_stale() {
    let file = lines(&["alpha"]);
    let edits = vec![set_line("99:abcd".to_string(), "X")];
    let e = apply_hashline_edits(file, &edits).unwrap_err();
    assert!(matches!(e, HashlineError::OutOfRange { line: 99, len: 1 }));
}

#[test]
fn relocation_heals_whole_batch() {
    let file = lines(&["alpha", "beta", "gamma"]);
    let anchor = format!("1:{}", compute_line_hash("gamma"));
    let edits = vec![set_line(anchor, "G")];
    let out = apply_hashline_edits(file, &edits).unwrap();
    assert_eq!(out, lines(&["alpha", "beta", "G"]));
}

#[test]
fn stale_anchors_are_collected_across_the_batch() {
    let file = lines(&["alpha", "beta", "gamma"]);
    let edits = vec![
        set_line("1:eeee".to_string(), "X"),
        set_line("3:ffff".to_string(), "Y"),
    ];
    let e = apply_hashline_edits(file, &edits).unwrap_err();
    match e {
        HashlineError::StaleAnchors { mismatches } => {
            assert_eq!(mismatches.len(), 2);
            assert_eq!(mismatches[0].line, 1);
            assert_eq!(mismatches[0].expected, "eeee");
            assert_eq!(mismatches[1].line, 3);
            assert_eq!(mismatches[1].expected, "ffff");
        }
        other => panic!("expected StaleAnchors, got {:?}", other),
    }
}

#[test]
fn same_line_insert_does_not_disturb_replacement() {
    let file = lines(&["a", "b"]);
    let anchor = format!("2:{}", compute_line_hash("b"));
    let edits = vec![
        set_line(anchor.clone(), "B"),
        HashlineEdit::InsertAfter {
            anchor,
            text: "c".to_string(),
        },
    ];
    let out = apply_hashline_edits(file, &edits).unwrap();
    assert_eq!(out, lines(&["a", "B", "c"]));
}

#[test]
fn replace_substring_can_span_lines() {
    let file = lines(&["alpha", "beta", "gamma"]);
    let edits = vec![HashlineEdit::Replace {
        old_text: "beta\ngamma".to_string(),
        new_text: "X".to_string(),
        all: false,
    }];
    let out = apply_hashline_edits(file, &edits).unwrap();
    assert_eq!(out, lines(&["alpha", "X"]));
}

#[test]
fn crlf_file_edits_round_trip() {
    let raw = "a\r\nb\r\n";
    let ending = detect_line_ending(raw);
    let normalized = normalize_to_lf(raw);
    let file = split_preserve_last_empty(&normalized);
    let anchor = format!("2:{}", compute_line_hash("b"));
    let out = apply_hashline_edits(file, &vec![set_line(anchor, "B")]).unwrap();
    let mut joined = out.join("\n");
    joined.push('\n');
    assert_eq!(restore_line_endings(&joined, ending), "a\r\nB\r\n");
}

#[test]
fn detect_line_ending_prefers_crlf() {
    assert_eq!(detect_line_ending("a\r\nb"), "\r\n");
    assert_eq!(detect_line_ending("a\nb"), "\n");
    assert_eq!(detect_line_ending(""), "\n");
}

#[test]
fn normalize_and_restore_round_trip() {
    assert_eq!(normalize_to_lf("a\r\nb\r\n"), "a\nb\n");
    assert_eq!(restore_line_endings("a\nb\n", "\r\n"), "a\r\nb\r\n");
    assert_eq!(restore_line_endings("a\nb", "\n"), "a\nb");
}

#[test]
fn split_preserve_last_empty_drops_one_trailing_segment() {
    assert_eq!(split_preserve_last_empty("a\nb\n"), lines(&["a", "b"]));
    assert_eq!(split_preserve_last_empty("a\nb"), lines(&["a", "b"]));
    assert_eq!(split_preserve_last_empty("a\n\n"), lines(&["a", ""]));
    assert_eq!(split_preserve_last_empty(""), lines(&[""]));
}

#[test]
fn split_dst_lines_of_empty_is_empty() {
    assert_eq!(split_dst_lines(""), Vec::<String>::new());
    assert_eq!(split_dst_lines("a\nb"), lines(&["a", "b"]));
    assert_eq!(split_dst_lines("a\n"), lines(&["a", ""]));
}
