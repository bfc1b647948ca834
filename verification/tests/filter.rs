use treee::entry::{entry_survives, select_survivors, Entry};
use treee::filter::{compile_all, matches_any, PathFilter};

fn texts(items: &[&str]) -> Vec<String> {
    items.iter().map(|s| s.to_string()).collect()
}

fn filter(inclusion: &[&str], exclusion: &[&str], names: &[&str]) -> PathFilter {
    PathFilter::new(&texts(inclusion), &texts(exclusion), &texts(names)).unwrap()
}

#[test]
fn empty_filter_accepts_everything() {
    let f = filter(&[], &[], &[]);
    assert!(f.should_include("root/a.txt", false));
    assert!(f.should_include("root/b", true));
    assert!(f.should_include("", false));
}

#[test]
fn exclusion_matches_full_path_or_file_name() {
    let f = filter(&[], &["*.log"], &[]);
    assert!(!f.should_include("root/x.log", false));
    assert!(!f.should_include("x.log", false));
    assert!(f.should_include("root/y.txt", false));
    let g = filter(&[], &["root/sub/*"], &[]);
    assert!(!g.should_include("root/sub/z.txt", false));
    assert!(g.should_include("root/other/z.txt", false));
}

#[test]
fn exclusion_wins_over_inclusion_and_file_name_patterns() {
    let f = filter(&["*.log"], &["*.log"], &["*.log"]);
    assert!(!f.should_include("root/x.log", false));
    assert!(!f.should_include("root/x.log", true));
}

#[test]
fn directories_pass_unless_excluded() {
    let f = filter(&["*.rs"], &["target"], &["main.*"]);
    assert!(f.should_include("root/src", true));
    assert!(f.should_include("root/docs", true));
    assert!(!f.should_include("root/target", true));
    assert!(!f.should_include("root/src", false));
}

#[test]
fn inclusion_patterns_constrain_files() {
    let f = filter(&["*.rs", "*.toml"], &[], &[]);
    assert!(f.should_include("src/main.rs", false));
    assert!(f.should_include("Cargo.toml", false));
    assert!(!f.should_include("README.md", false));
}

#[test]
fn file_name_patterns_match_the_bare_name_only() {
    let f = filter(&[], &[], &["main.*"]);
    assert!(f.should_include("src/main.rs", false));
    assert!(!f.should_include("main/lib.rs", false));
    let g = filter(&[], &[], &["src/*"]);
    assert!(!g.should_include("src/main.rs", false));
}

#[test]
fn inclusion_and_file_name_patterns_must_both_pass() {
    let f = filter(&["*.rs"], &[], &["main.*"]);
    assert!(f.should_include("src/main.rs", false));
    assert!(!f.should_include("src/lib.rs", false));
    assert!(!f.should_include("src/main.c", false));
}

#[test]
fn invalid_pattern_is_reported() {
    let r = PathFilter::new(&texts(&["*.rs"]), &texts(&["a", "[", "***"]), &texts(&["[z-a]"]));
    let e = r.err().unwrap();
    assert_eq!(e.pattern, "[");
    assert!(e.message.contains("Pattern syntax error"));
}

#[test]
fn first_invalid_list_is_reported_first() {
    let r = PathFilter::new(&texts(&["a**b"]), &texts(&["["]), &texts(&[]));
    let e = r.err().unwrap();
    assert_eq!(e.pattern, "a**b");
    let r = PathFilter::new(&texts(&[]), &texts(&[]), &texts(&["ok", "[!"]));
    assert_eq!(r.err().unwrap().pattern, "[!");
}

#[test]
fn compile_all_keeps_order_and_count() {
    let patterns = compile_all(&texts(&["a*", "b?", "[c]"])).unwrap();
    assert_eq!(patterns.len(), 3);
    assert_eq!(patterns[0].as_str(), "a*");
    assert_eq!(patterns[1].as_str(), "b?");
    assert_eq!(patterns[2].as_str(), "[c]");
    assert!(compile_all(&texts(&[])).unwrap().is_empty());
}

#[test]
fn matches_any_is_false_on_empty_list() {
    let none = compile_all(&texts(&[])).unwrap();
    assert!(!matches_any(&none, "anything"));
    let some = compile_all(&texts(&["x*", "*.md"])).unwrap();
    assert!(matches_any(&some, "README.md"));
    assert!(matches_any(&some, "xyz"));
    assert!(!matches_any(&some, "main.rs"));
}

#[test]
fn survivor_rules() {
    let f = filter(&[], &["*.log"], &[]);
    let root = "root".to_string();
    let file = Entry::new("root/a.txt".to_string(), false);
    let dir = Entry::new("root/b".to_string(), true);
    let log = Entry::new("root/x.log".to_string(), false);
    let top = Entry::new("root".to_string(), true);
    assert!(entry_survives(&file, &root, &f, false, false));
    assert!(entry_survives(&dir, &root, &f, false, false));
    assert!(!entry_survives(&log, &root, &f, false, false));
    assert!(!entry_survives(&top, &root, &f, false, false));
    assert!(!entry_survives(&file, &root, &f, true, false));
    assert!(entry_survives(&dir, &root, &f, true, false));
    assert!(entry_survives(&file, &root, &f, false, true));
    assert!(!entry_survives(&dir, &root, &f, false, true));
}

#[test]
fn survivors_keep_their_order() {
    let f = filter(&[], &["*.log"], &[]);
    let root = "root".to_string();
    let entries = vec![
        Entry::new("root".to_string(), true),
        Entry::new("root/z".to_string(), false),
        Entry::new("root/x.log".to_string(), false),
        Entry::new("root/a".to_string(), true),
    ];
    let kept = select_survivors(&entries, &root, &f, false, false);
    let paths: Vec<&str> = kept.iter().map(|e| e.path.as_str()).collect();
    assert_eq!(paths, vec!["root/z", "root/a"]);
}
