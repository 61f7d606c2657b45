use prompt_pack::ignore::{is_ignored, pattern_matches, verdict};
use prompt_pack::scan::{entry_line, DirEntry, ScanError, Scanner, Step};
use prompt_pack::text::indent;

fn file(name: &str, path: &str) -> DirEntry {
    DirEntry { name: name.to_string(), path: path.to_string(), is_dir: false }
}

fn dir(name: &str, path: &str) -> DirEntry {
    DirEntry { name: name.to_string(), path: path.to_string(), is_dir: true }
}

/// Two small trees. `/r` holds `a.txt` and `b/`, and `b/` holds `c.txt`.
/// `/deep` holds `top.txt` and `x/`, `x/` holds `mid.txt` and `y/`, `y/`
/// holds `low.txt`. `/s` holds `locked/`, which cannot be read, and `z`.
fn read(path: &str) -> Option<Vec<DirEntry>> {
    match path {
        "/r" => Some(vec![file("a.txt", "/r/a.txt"), dir("b", "/r/b")]),
        "/r/b" => Some(vec![file("c.txt", "/r/b/c.txt")]),
        "/deep" => Some(vec![file("top.txt", "/deep/top.txt"), dir("x", "/deep/x")]),
        "/deep/x" => Some(vec![file("mid.txt", "/deep/x/mid.txt"), dir("y", "/deep/x/y")]),
        "/deep/x/y" => Some(vec![file("low.txt", "/deep/x/y/low.txt")]),
        "/s" => Some(vec![dir("locked", "/s/locked"), file("z", "/s/z")]),
        _ => None,
    }
}

fn scan(root: &str, patterns: &[&str]) -> Result<Vec<String>, String> {
    let ignores: Vec<String> = patterns.iter().map(|p| p.to_string()).collect();
    let listing = read(root).ok_or("cannot open".to_string());
    let mut scanner = match Scanner::begin(ignores, listing) {
        Ok(s) => s,
        Err(ScanError::RootUnreadable(cause)) => return Err(cause),
    };
    let mut reads: Vec<String> = Vec::new();
    while let Some(path) = scanner.advance() {
        assert!(scanner.is_waiting());
        assert!(!reads.contains(&path));
        scanner.enter(read(&path));
        assert!(!scanner.is_waiting());
        reads.push(path);
    }
    assert!(!scanner.is_waiting());
    Ok(scanner.finish())
}

fn lines(of: &[&str]) -> Result<Vec<String>, String> {
    Ok(of.iter().map(|l| l.to_string()).collect())
}

#[test]
fn ignored_directory_and_its_content_are_not_listed() {
    assert_eq!(scan("/r", &["/r/b$"]), lines(&["a.txt"]));
    assert_eq!(scan("/r", &["/r/b"]), lines(&["a.txt"]));
}

#[test]
fn pattern_for_a_part_of_the_path_prunes_nothing() {
    assert_eq!(scan("/r", &["b$"]), lines(&["a.txt", "b/", "  c.txt"]));
    assert_eq!(scan("/r", &["b"]), lines(&["a.txt", "b/", "  c.txt"]));
    assert_eq!(scan("/r", &["/r"]), lines(&["a.txt", "b/", "  c.txt"]));
    assert_eq!(scan("/r", &["a\\.txt", "^/r/", "c.txt$"]), lines(&["a.txt", "b/", "  c.txt"]));
}

#[test]
fn full_tree_is_listed_depth_first() {
    assert_eq!(scan("/r", &[]), lines(&["a.txt", "b/", "  c.txt"]));
    assert_eq!(
        scan("/deep", &[]),
        lines(&["top.txt", "x/", "  mid.txt", "  y/", "    low.txt"])
    );
}

#[test]
fn nested_directory_is_pruned_with_its_subtree() {
    assert_eq!(scan("/deep", &[".*/y"]), lines(&["top.txt", "x/", "  mid.txt"]));
    assert_eq!(scan("/deep", &["/deep/x"]), lines(&["top.txt"]));
}

#[test]
fn pattern_is_matched_against_the_full_path() {
    assert_eq!(scan("/r", &["a\\.txt"]).unwrap().len(), 3);
    assert_eq!(scan("/r", &["/r/a\\.txt"]), lines(&["b/", "  c.txt"]));
    assert_eq!(scan("/r", &[".*\\.txt"]), lines(&["b/"]));
}

#[test]
fn every_entry_is_listed_once() {
    let listed = scan("/deep", &[]).unwrap();
    for name in ["top.txt", "x/", "mid.txt", "y/", "low.txt"] {
        assert_eq!(listed.iter().filter(|l| l.trim_start() == name).count(), 1);
    }
}

#[test]
fn invalid_pattern_ignores_nothing() {
    assert_eq!(scan("/r", &["("]).unwrap().len(), 3);
    assert!(!pattern_matches("(", "("));
    assert!(!pattern_matches("[", "/r/a.txt"));
}

#[test]
fn invalid_pattern_leaves_valid_ones_in_force() {
    assert_eq!(scan("/r", &["(", "/r/b$"]), lines(&["a.txt"]));
    assert_eq!(scan("/r", &["/r/b$", "("]), lines(&["a.txt"]));
    let rules = vec!["(".to_string(), ".*\\.txt$".to_string(), "[".to_string()];
    assert!(is_ignored("/r/a.txt", &rules));
    assert!(!is_ignored("/r/b", &rules));
}

#[test]
fn pattern_must_cover_the_whole_path() {
    assert!(pattern_matches("/r/b$", "/r/b"));
    assert!(pattern_matches("/r/b", "/r/b"));
    assert!(pattern_matches("^/r/.*$", "/r/b"));
    assert!(pattern_matches(".*node_modules.*", "/r/node_modules/x.js"));
    assert!(!pattern_matches("b$", "/r/b"));
    assert!(!pattern_matches("/r", "/r/b"));
    assert!(!pattern_matches("node_modules", "/r/node_modules/x.js"));
    assert!(!pattern_matches("a", "bcd"));
    assert!(!pattern_matches("/r/b", "/r/a"));
}

#[test]
fn path_length_is_counted_in_bytes() {
    assert!(pattern_matches("/r/.*", "/r/\u{e9}t\u{e9}.txt"));
    assert!(pattern_matches("/r/...\\.txt", "/r/\u{e9}t\u{e9}.txt"));
    assert!(!pattern_matches("/r/\u{e9}t", "/r/\u{e9}t\u{e9}"));
}

#[test]
fn empty_pattern_covers_only_the_empty_path() {
    assert!(pattern_matches("", ""));
    assert!(!pattern_matches("", "/r"));
}

#[test]
fn no_rules_ignore_nothing() {
    assert!(!is_ignored("/r/a.txt", &Vec::new()));
}

#[test]
fn verdict_wants_a_match_from_start_to_end() {
    assert!(verdict(Some(Some((0, 4))), 4));
    assert!(verdict(Some(Some((0, 0))), 0));
    assert!(!verdict(Some(Some((3, 4))), 4));
    assert!(!verdict(Some(Some((0, 3))), 4));
    assert!(!verdict(Some(None), 4));
    assert!(!verdict(None, 4));
    assert!(!verdict(None, 0));
}

#[test]
fn unreadable_root_is_an_error() {
    assert_eq!(scan("/missing", &[]), Err("cannot open".to_string()));
    let r = Scanner::begin(Vec::new(), Err("denied".to_string()));
    assert!(matches!(r, Err(ScanError::RootUnreadable(c)) if c == "denied"));
}

#[test]
fn unreadable_subdirectory_keeps_its_line_and_its_siblings() {
    assert_eq!(scan("/s", &[]), lines(&["locked/", "z"]));
}

#[test]
fn empty_root_gives_empty_listing() {
    let mut s = Scanner::begin(Vec::new(), Ok(Vec::new())).unwrap();
    assert!(!s.is_waiting());
    assert!(s.advance().is_none());
    assert!(s.finish().is_empty());
}

#[test]
fn steps_look_at_one_entry_each() {
    let entries = vec![file("x", "/t/x"), dir("y", "/t/y"), file("skip", "/t/skip")];
    let mut s = Scanner::begin(vec!["/t/skip".to_string()], Ok(entries)).unwrap();
    assert!(matches!(s.step(), Step::More));
    assert!(!s.is_waiting());
    assert_eq!(s.lines(), &vec!["x".to_string()]);
    assert!(matches!(s.step(), Step::Open(p) if p == "/t/y"));
    assert!(s.is_waiting());
    assert_eq!(s.lines(), &vec!["x".to_string(), "y/".to_string()]);
    s.enter(Some(vec![file("in", "/t/y/in")]));
    assert!(!s.is_waiting());
    assert!(matches!(s.step(), Step::More));
    assert_eq!(s.lines().len(), 3);
    assert_eq!(s.lines()[2], "  in");
    assert!(matches!(s.step(), Step::More));
    assert!(matches!(s.step(), Step::More));
    assert_eq!(s.lines().len(), 3);
    assert!(matches!(s.step(), Step::More));
    assert!(matches!(s.step(), Step::Done));
    assert!(matches!(s.step(), Step::Done));
    assert_eq!(s.finish().len(), 3);
}

#[test]
fn indentation_is_two_spaces_per_level() {
    assert_eq!(indent(0), "");
    assert_eq!(indent(1), "  ");
    assert_eq!(indent(3), "      ");
}

#[test]
fn entry_line_marks_directories() {
    assert_eq!(entry_line(0, &file("a.txt", "/r/a.txt")), "a.txt");
    assert_eq!(entry_line(2, &dir("b", "/r/x/y/b")), "    b/");
    assert_eq!(entry_line(1, &file("c", "/r/x/c")), "  c");
}
