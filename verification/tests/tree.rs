use treee::entry::Entry;
use treee::filter::PathFilter;
use treee::index::{assemble, ParentIndex};
use treee::printer::{print_tree_recursive, TreePrinter};
use treee::run::{render, Config, Plan, RunError, WalkSettings};

fn texts(items: &[&str]) -> Vec<String> {
    items.iter().map(|s| s.to_string()).collect()
}

fn config(path: &str) -> Config {
    Config {
        path: path.to_string(),
        depth: 10,
        all: false,
        no_color: true,
        directories_only: false,
        files_only: false,
        include_patterns: Vec::new(),
        exclude_patterns: Vec::new(),
        file_patterns: Vec::new(),
        no_git_ignore: false,
        full_path: false,
    }
}

fn sample() -> Vec<Entry> {
    vec![
        Entry::new("root".to_string(), true),
        Entry::new("root/b".to_string(), true),
        Entry::new("root/b/c.txt".to_string(), false),
        Entry::new("root/a.txt".to_string(), false),
    ]
}

fn run(c: &Config, entries: &Vec<Entry>) -> Vec<String> {
    let plan = c.plan(true, false).unwrap();
    render(c, &plan, &c.path, entries)
}

fn child_paths(index: &ParentIndex, dir: &str) -> Vec<String> {
    index.children(&dir.to_string()).into_iter().map(|e| e.path).collect()
}

#[test]
fn tree_of_two_levels() {
    let out = run(&config("root"), &sample());
    assert_eq!(out, vec!["root", "├── a.txt", "└── b", "    └── c.txt"]);
}

#[test]
fn full_paths_of_two_levels() {
    let mut c = config("root");
    c.full_path = true;
    let out = run(&c, &sample());
    assert_eq!(out, vec!["root/a.txt", "root/b", "root/b/c.txt"]);
}

#[test]
fn excluded_log_files_are_left_out() {
    let mut c = config("d");
    c.exclude_patterns = texts(&["*.log"]);
    let entries = vec![
        Entry::new("d".to_string(), true),
        Entry::new("d/x.log".to_string(), false),
        Entry::new("d/y.txt".to_string(), false),
    ];
    assert_eq!(run(&c, &entries), vec!["d", "└── y.txt"]);
}

#[test]
fn conflicting_kind_flags_are_refused() {
    let mut c = config("root");
    c.directories_only = true;
    c.files_only = true;
    let e = c.plan(true, true).err().unwrap();
    assert!(matches!(e, RunError::ConflictingKinds));
    assert_eq!(
        e.message("root"),
        "Error: Cannot use both --directories-only and --files-only"
    );
}

#[test]
fn missing_root_is_refused() {
    let c = config("does-not-exist");
    let e = c.plan(false, true).err().unwrap();
    assert!(matches!(e, RunError::MissingRoot));
    assert_eq!(e.message("does-not-exist"), "Error: Path 'does-not-exist' does not exist");
}

#[test]
fn invalid_pattern_is_refused_before_the_root_is_looked_at() {
    let mut c = config("does-not-exist");
    c.file_patterns = texts(&["["]);
    let e = c.plan(false, true).err().unwrap();
    let text = e.message("does-not-exist");
    assert!(text.starts_with("Error: Pattern syntax error near position"));
    match e {
        RunError::InvalidPattern(inner) => assert_eq!(inner.pattern, "["),
        _ => panic!("another error"),
    }
}

#[test]
fn conflict_is_found_before_an_invalid_pattern() {
    let mut c = config("root");
    c.directories_only = true;
    c.files_only = true;
    c.include_patterns = texts(&["["]);
    assert!(matches!(c.plan(false, false), Err(RunError::ConflictingKinds)));
}

#[test]
fn colors_need_a_terminal_and_no_veto() {
    let mut c = config("root");
    assert!(!c.plan(true, true).unwrap().printer.use_color);
    c.no_color = false;
    assert!(c.plan(true, true).unwrap().printer.use_color);
    assert!(!c.plan(true, false).unwrap().printer.use_color);
    c.full_path = true;
    assert!(c.plan(true, false).unwrap().printer.full_path);
}

#[test]
fn walker_settings_follow_the_flags() {
    let mut c = config("root");
    assert_eq!(
        c.walk_settings(),
        WalkSettings {
            max_depth: 10,
            skip_hidden: true,
            git_ignore: true,
            git_exclude: true,
            git_global: true
        }
    );
    c.all = true;
    c.no_git_ignore = true;
    c.depth = 0;
    assert_eq!(
        c.walk_settings(),
        WalkSettings {
            max_depth: 0,
            skip_hidden: false,
            git_ignore: false,
            git_exclude: false,
            git_global: false
        }
    );
}

#[test]
fn directories_only_and_files_only() {
    let mut c = config("root");
    c.directories_only = true;
    assert_eq!(run(&c, &sample()), vec!["root", "└── b"]);
    let mut c = config("root");
    c.files_only = true;
    assert_eq!(run(&c, &sample()), vec!["root", "└── a.txt"]);
}

#[test]
fn file_under_a_dropped_directory_is_not_reached() {
    let mut c = config("root");
    c.exclude_patterns = texts(&["b"]);
    assert_eq!(run(&c, &sample()), vec!["root", "└── a.txt"]);
}

#[test]
fn inclusion_keeps_directories_on_the_way() {
    let mut c = config("root");
    c.include_patterns = texts(&["*.txt"]);
    let mut entries = sample();
    entries.push(Entry::new("root/b/d.rs".to_string(), false));
    entries.push(Entry::new("root/e".to_string(), true));
    assert_eq!(
        run(&c, &entries),
        vec!["root", "├── a.txt", "├── b", "│   └── c.txt", "└── e"]
    );
}

#[test]
fn continuing_bar_under_a_directory_that_is_not_last() {
    let entries = vec![
        Entry::new("r/a".to_string(), true),
        Entry::new("r/a/x".to_string(), true),
        Entry::new("r/a/x/deep".to_string(), false),
        Entry::new("r/a/y".to_string(), false),
        Entry::new("r/z".to_string(), false),
    ];
    assert_eq!(
        run(&config("r"), &entries),
        vec!["r", "├── a", "│   ├── x", "│   │   └── deep", "│   └── y", "└── z"]
    );
}

#[test]
fn output_does_not_depend_on_the_order_found() {
    let mut entries = sample();
    let first = run(&config("root"), &entries);
    entries.reverse();
    assert_eq!(run(&config("root"), &entries), first);
}

#[test]
fn root_without_a_base_name_is_shown_as_given() {
    let entries = vec![Entry::new("./a".to_string(), false)];
    let c = config(".");
    let plan = c.plan(true, false).unwrap();
    assert_eq!(render(&c, &plan, &".".to_string(), &entries), vec![".", "└── a"]);
    let c = config("..");
    let plan = c.plan(true, false).unwrap();
    assert_eq!(render(&c, &plan, &"..".to_string(), &Vec::new()), vec![".."]);
}

#[test]
fn root_line_is_the_base_name() {
    let p = TreePrinter::new(false, false);
    assert_eq!(p.root_line("some/where/root"), Some("root".to_string()));
    assert_eq!(p.root_line("root/"), Some("root".to_string()));
    assert_eq!(TreePrinter::new(false, true).root_line("root"), None);
    assert_eq!(TreePrinter::new(true, true).root_line("root"), None);
}

#[test]
fn empty_tree_is_the_root_alone() {
    assert_eq!(run(&config("root"), &Vec::new()), vec!["root"]);
    let mut c = config("root");
    c.full_path = true;
    assert!(run(&c, &Vec::new()).is_empty());
}

#[test]
fn entry_lines() {
    let p = TreePrinter::new(false, false);
    let mut out = vec!["kept".to_string()];
    p.print_entry(&mut out, "root/b/c.txt", "│   ", true, false);
    p.print_entry(&mut out, "root/b", "", false, true);
    assert_eq!(out, vec!["kept", "│   └── c.txt", "├── b"]);
    let q = TreePrinter::new(false, true);
    let mut out = Vec::new();
    q.print_entry(&mut out, "root/b/c.txt", "│   ", true, false);
    q.print_entry(&mut out, "root/b", "    ", false, true);
    assert_eq!(out, vec!["root/b/c.txt", "root/b"]);
}

#[test]
fn child_prefixes() {
    let p = TreePrinter::new(false, false);
    assert_eq!(p.get_child_prefix("", true), "    ");
    assert_eq!(p.get_child_prefix("", false), "│   ");
    assert_eq!(p.get_child_prefix("│   ", true), "│       ");
    assert_eq!(p.get_child_prefix("    ", false), "    │   ");
    let q = TreePrinter::new(false, true);
    assert_eq!(q.get_child_prefix("│   ", false), "");
}

#[test]
fn directories_are_bold_blue_where_colors_are_on() {
    colored::control::set_override(true);
    let p = TreePrinter::new(true, false);
    let mut out = Vec::new();
    p.print_entry(&mut out, "root/b", "", true, true);
    p.print_entry(&mut out, "root/a.txt", "", true, false);
    assert_eq!(out, vec!["└── \u{1b}[1;34mb\u{1b}[0m", "└── a.txt"]);
    assert_eq!(p.root_line("root"), Some("\u{1b}[1;34mroot\u{1b}[0m".to_string()));
    let q = TreePrinter::new(true, true);
    let mut out = Vec::new();
    q.print_entry(&mut out, "root/b", "", true, true);
    q.print_entry(&mut out, "root/a.txt", "", true, false);
    assert_eq!(out, vec!["\u{1b}[1;34mroot/b\u{1b}[0m", "root/a.txt"]);
    colored::control::unset_override();
}

#[test]
fn index_groups_by_parent() {
    let mut index = ParentIndex::new();
    assert!(index.insert(Entry::new("root/b".to_string(), true)));
    assert!(index.insert(Entry::new("root/b/c.txt".to_string(), false)));
    assert!(index.insert(Entry::new("root/a.txt".to_string(), false)));
    assert_eq!(child_paths(&index, "root"), vec!["root/b", "root/a.txt"]);
    assert_eq!(child_paths(&index, "root/b"), vec!["root/b/c.txt"]);
    assert!(child_paths(&index, "root/a.txt").is_empty());
    assert!(child_paths(&index, "elsewhere").is_empty());
    assert_eq!(index.position(&"root/b".to_string()), Some(1));
    assert_eq!(index.position(&"nowhere".to_string()), None);
}

#[test]
fn index_takes_no_entry_without_parent_or_name() {
    let mut index = ParentIndex::new();
    assert!(!index.insert(Entry::new("/".to_string(), true)));
    assert!(!index.insert(Entry::new("".to_string(), true)));
    assert!(!index.insert(Entry::new("a/..".to_string(), true)));
    assert!(index.insert(Entry::new("a".to_string(), true)));
    assert_eq!(child_paths(&index, ""), vec!["a"]);
    assert!(child_paths(&index, "a").is_empty());
}

#[test]
fn assembled_index_is_sorted_and_without_the_root() {
    let f = PathFilter::new(&Vec::new(), &Vec::new(), &Vec::new()).unwrap();
    let entries = vec![
        Entry::new("root/z".to_string(), false),
        Entry::new("root".to_string(), true),
        Entry::new("root/m".to_string(), true),
        Entry::new("root/m/k".to_string(), false),
        Entry::new("root/a".to_string(), false),
    ];
    let index = assemble(&entries, &"root".to_string(), &f, false, false);
    assert_eq!(child_paths(&index, "root"), vec!["root/a", "root/m", "root/z"]);
    assert_eq!(child_paths(&index, "root/m"), vec!["root/m/k"]);
    assert!(child_paths(&index, "").is_empty());
}

#[test]
fn children_are_sorted_again_when_drawn() {
    let mut index = ParentIndex::new();
    index.insert(Entry::new("r/b".to_string(), false));
    index.insert(Entry::new("r/a".to_string(), false));
    let mut out = Vec::new();
    let p = TreePrinter::new(false, false);
    print_tree_recursive(&"r".to_string(), &index, &p, "", &mut out);
    assert_eq!(out, vec!["├── a", "└── b"]);
}

#[test]
fn plan_holds_the_compiled_patterns() {
    let mut c = config("root");
    c.include_patterns = texts(&["*.rs"]);
    c.exclude_patterns = texts(&["target", "*.log"]);
    let Plan { filter, printer } = c.plan(true, true).unwrap();
    assert_eq!(filter.include_patterns.len(), 1);
    assert_eq!(filter.exclude_patterns[1].as_str(), "*.log");
    assert!(filter.file_patterns.is_empty());
    assert!(!printer.use_color);
}
