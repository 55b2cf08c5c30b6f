use konserve::manifest::{decode, encode, FormatError};
use konserve::paths::{adjust, basename, path_related};
use konserve::progress::{ProgressCell, PROGRESS_DONE};
use konserve::selection::{path_is_valid, SelectionSet};
use konserve::text::{split_string, str_eq, str_lt, u64_to_dec, SepMode};

fn sel_of(paths: &[&str]) -> SelectionSet {
    let mut s = SelectionSet::new();
    for p in paths {
        s.add(p.to_string());
    }
    s
}

#[test]
fn adjust_remaps_profile_path() {
    assert_eq!(
        adjust("C:\\Users\\alice\\Docs\\f.txt", "C:\\Users\\bob"),
        "C:\\Users\\bob\\Docs\\f.txt"
    );
}

#[test]
fn adjust_leaves_shared_path_alone() {
    assert_eq!(adjust("/opt/shared/data.bin", "C:\\Users\\bob"), "/opt/shared/data.bin");
}

#[test]
fn adjust_profile_root_itself() {
    assert_eq!(adjust("C:\\Users\\alice", "D:\\Users\\bob"), "D:\\Users\\bob");
}

#[test]
fn adjust_mixed_separators() {
    assert_eq!(adjust("C:/Users/alice/x.bin", "C:\\Users\\bob"), "C:\\Users\\bob/x.bin");
}

#[test]
fn adjust_requires_users_segment() {
    assert_eq!(adjust("C:\\Homes\\alice\\f.txt", "C:\\Users\\bob"), "C:\\Homes\\alice\\f.txt");
}

#[test]
fn basename_takes_last_segment() {
    assert_eq!(basename("C:\\Users\\alice\\Notes.txt"), "Notes.txt");
    assert_eq!(basename("a/b/c"), "c");
    assert_eq!(basename("plain"), "plain");
}

#[test]
fn split_on_both_separators() {
    let segs = split_string("C:\\Users/alice", SepMode::AnySep);
    assert_eq!(segs, vec!["C:".to_string(), "Users".to_string(), "alice".to_string()]);
}

#[test]
fn split_keeps_empty_segments() {
    let segs = split_string("a//b/", SepMode::Slash);
    assert_eq!(segs, vec!["a".to_string(), "".to_string(), "b".to_string(), "".to_string()]);
}

#[test]
fn decimal_rendering() {
    assert_eq!(u64_to_dec(0), "0");
    assert_eq!(u64_to_dec(7), "7");
    assert_eq!(u64_to_dec(10), "10");
    assert_eq!(u64_to_dec(305), "305");
    assert_eq!(u64_to_dec(18446744073709551615), "18446744073709551615");
}

#[test]
fn string_order_and_equality() {
    assert!(str_lt("abc", "abd"));
    assert!(str_lt("ab", "abc"));
    assert!(!str_lt("abc", "abc"));
    assert!(str_eq("abc", "abc"));
    assert!(!str_eq("abc", "abd"));
}

#[test]
fn path_relation() {
    assert!(path_related("a/c", "a/c/d.txt"));
    assert!(path_related("a/c/d.txt", "a/c"));
    assert!(path_related("a/c", "a/c"));
    assert!(!path_related("a/c", "a/cd"));
    assert!(!path_related("a/b.txt", "a/c"));
}

#[test]
fn selection_sorts_and_dedups() {
    let mut s = SelectionSet::new();
    s.add("b".to_string());
    s.add("a".to_string());
    s.add("c".to_string());
    s.add("a".to_string());
    assert_eq!(s.len(), 3);
    assert_eq!(s.get(0).as_str(), "a");
    assert_eq!(s.get(1).as_str(), "b");
    assert_eq!(s.get(2).as_str(), "c");
}

#[test]
fn path_validity() {
    assert!(path_is_valid("C:\\Users\\alice\\Notes.txt"));
    assert!(!path_is_valid(""));
    assert!(!path_is_valid("dir/"));
    assert!(!path_is_valid("a\nb"));
}

#[test]
fn encode_emits_signature_header_and_lines() {
    let s = sel_of(&["C:\\Users\\alice\\Notes.txt", "C:\\Users\\alice\\Projects"]);
    let text = encode(&s);
    assert_eq!(
        text,
        "KONSERVE_FINGERPRINT\nBacked up folders\n\
         Folder 1: C:\\Users\\alice\\Notes.txt\nFolder 2: C:\\Users\\alice\\Projects\n"
    );
}

#[test]
fn decode_recovers_basename_keys() {
    let s = sel_of(&["C:\\Users\\alice\\Notes.txt", "C:\\Users\\alice\\Projects"]);
    let text = encode(&s);
    let m = decode(&text).unwrap();
    assert_eq!(m.get("Notes.txt").unwrap().as_str(), "C:\\Users\\alice\\Notes.txt");
    assert_eq!(m.get("Projects").unwrap().as_str(), "C:\\Users\\alice\\Projects");
    assert!(m.get("absent").is_none());
}

#[test]
fn decode_duplicate_basenames_later_wins() {
    let s = sel_of(&["C:\\Users\\alice\\Notes.txt", "D:\\Backup\\Notes.txt"]);
    // Sorted order puts C:... first, D:... second: the later line wins.
    let text = encode(&s);
    let m = decode(&text).unwrap();
    assert_eq!(m.get("Notes.txt").unwrap().as_str(), "D:\\Backup\\Notes.txt");
}

#[test]
fn decode_rejects_missing_signature() {
    let r = decode("Folder 1: C:\\x\n");
    assert!(matches!(r, Err(FormatError::InvalidFingerprint)));
}

#[test]
fn decode_ignores_odd_lines() {
    let text = "KONSERVE_FINGERPRINT\nnoise without separator\nkey: C:\\data\\file.bin\n";
    let m = decode(text).unwrap();
    assert_eq!(m.get("file.bin").unwrap().as_str(), "C:\\data\\file.bin");
    assert!(m.get("noise without separator").is_none());
}

#[test]
fn decode_splits_on_first_separator() {
    let text = "KONSERVE_FINGERPRINT\nFolder 1: C:\\odd: name\\f.txt\n";
    let m = decode(text).unwrap();
    assert_eq!(m.get("f.txt").unwrap().as_str(), "C:\\odd: name\\f.txt");
}

#[test]
fn progress_reports_percentages() {
    let mut p = ProgressCell::new();
    assert_eq!(p.get(), 0);
    p.report(1, 3);
    assert_eq!(p.get(), 33);
    p.report(2, 3);
    assert_eq!(p.get(), 66);
    p.report(3, 3);
    assert_eq!(p.get(), 100);
    p.finish();
    assert_eq!(p.get(), PROGRESS_DONE);
    assert_eq!(PROGRESS_DONE, 101);
}

#[test]
fn progress_is_monotone_over_a_run() {
    let mut p = ProgressCell::new();
    let mut last = p.get();
    for i in 1..=17usize {
        p.report(i, 17);
        assert!(p.get() >= last);
        assert!(p.get() <= 100);
        last = p.get();
    }
    p.finish();
    assert!(p.get() > 100);
}
