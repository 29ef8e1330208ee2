use hashline::errors::Mismatch;
use hashline::fingerprint::compute_line_hash;
use hashline::render::{render_basic_diff, render_mismatch_error, render_read_lines};

fn lines(v: &[&str]) -> Vec<String> {
    v.iter().map(|s| s.to_string()).collect()
}

#[test]
fn mismatch_report_lists_every_stale_anchor() {
    let file = lines(&["alpha", "beta"]);
    let actual = compute_line_hash("beta");
    let ms = vec![Mismatch {
        line: 2,
        expected: "ffff".to_string(),
        actual: actual.clone(),
    }];
    let report = render_mismatch_error(&file, &ms);
    let expected = format!(
        "1 line(s) have changed since last read. Re-read the file and use updated LINE:HASH refs.\n\n\
         >>> 2:{actual}|beta\n    expected ffff\n\n\
         Quick fix: replace stale refs:\n  2:ffff -> 2:{actual}\n"
    );
    assert_eq!(report, expected);
}

#[test]
fn mismatch_report_tolerates_out_of_bounds_line() {
    let file = lines(&["alpha"]);
    let ms = vec![Mismatch {
        line: 9,
        expected: "aaaa".to_string(),
        actual: "bbbb".to_string(),
    }];
    let report = render_mismatch_error(&file, &ms);
    assert!(report.contains(">>> 9:bbbb|\n"));
}

#[test]
fn basic_diff_shows_changed_added_and_removed_lines() {
    let old_lines = lines(&["a", "b"]);
    let new_lines = lines(&["a", "c", "d"]);
    assert_eq!(render_basic_diff(&old_lines, &new_lines), "-b\n+c\n+d\n");
    let shrunk = lines(&["a"]);
    assert_eq!(render_basic_diff(&old_lines, &shrunk), "-b\n");
    assert_eq!(render_basic_diff(&old_lines, &old_lines), "");
}

#[test]
fn read_listing_prefixes_each_line_with_number_and_hash() {
    let file = lines(&["alpha", "beta"]);
    let ha = compute_line_hash("alpha");
    let hb = compute_line_hash("beta");
    let out = render_read_lines(&file, 1, 10);
    assert_eq!(out, format!("1:{ha}|alpha\n2:{hb}|beta\n"));
}

#[test]
fn read_listing_honours_offset_and_limit() {
    let file = lines(&["a", "b", "c", "d"]);
    let hb = compute_line_hash("b");
    let hc = compute_line_hash("c");
    let out = render_read_lines(&file, 2, 2);
    assert_eq!(out, format!("2:{hb}|b\n3:{hc}|c\n"));
}
