use fileassetbuilder::config::Config;
use fileassetbuilder::entry::{PruneSet, WalkEntry};
use fileassetbuilder::output::document_text;
use fileassetbuilder::roots::{check_root, RootCheck};
use fileassetbuilder::scanner::{classify, finish_scan, worker_count, FileEntry, Selection};
use fileassetbuilder::tree::build_file_list;

fn entry(path: &str, is_dir: bool) -> WalkEntry {
    let segments = if path.is_empty() {
        vec![]
    } else {
        path.split('/').map(|s| s.to_string()).collect()
    };
    WalkEntry { segments, is_dir }
}

fn paths(files: &[FileEntry]) -> Vec<String> {
    files.iter().map(|f| f.relative_path.clone()).collect()
}

fn scenario_entries() -> Vec<WalkEntry> {
    vec![
        entry("", true),
        entry("a.txt", false),
        entry("b.png", false),
        entry("sub", true),
        entry("sub/c.txt", false),
    ]
}

fn policy_png() -> Config {
    let (c, _) = Config::from_lines(&vec![".png".to_string()]);
    c
}

#[test]
fn three_files_one_excluded() {
    let sel = classify(&scenario_entries(), &policy_png(), &PruneSet::standard(), "fileassets.txt");
    assert_eq!(sel.total_files, 3);
    assert_eq!(sel.files_excluded, 1);
    let rel: Vec<String> = sel.candidates.iter().map(|c| c.relative_path.clone()).collect();
    assert_eq!(rel, vec!["a.txt", "sub/c.txt"]);
    assert_eq!(sel.candidates[1].index, 4);
    let r = finish_scan(sel, vec![Some("hello".to_string()), Some("world".to_string())]);
    assert_eq!(r.stats.total_files, 3);
    assert_eq!(r.stats.files_excluded, 1);
    assert_eq!(r.stats.files_processed, 2);
    assert_eq!(r.stats.worker_count, 1);
    assert_eq!(paths(&r.files), vec!["a.txt", "sub/c.txt"]);
    assert_eq!(r.files[0].content, "hello");
    assert_eq!(r.files[1].content, "world");
    assert_eq!(r.file_list, "├───a.txt\n└───sub\n    └───c.txt");
    let doc = document_text(&r, "2024-01-02 03:04:05");
    let a = doc.find("File: a.txt\n").unwrap();
    let c = doc.find("File: sub/c.txt\n").unwrap();
    assert!(a < c);
    assert!(doc.contains("================\nFile: a.txt\n================\nhello\n\n"));
    assert!(doc.contains("Directory List\n"));
    assert!(doc.contains("├───a.txt\n└───sub\n    └───c.txt\n"));
}

#[test]
fn document_has_exact_layout() {
    let sel = classify(&vec![entry("x.rs", false)], &policy_png(), &PruneSet::standard(), "out.txt");
    let r = finish_scan(sel, vec![Some("fn x() {}".to_string())]);
    let sep = "=".repeat(64);
    let expected = format!(
        "This file is a merged representation of the directory, combining all text-based files into a single document.\nGenerated on: T\n\n{sep}\nDirectory List\n{sep}\n\n└───x.rs\n{sep}\nFiles\n{sep}\n\n================\nFile: x.rs\n================\nfn x() {{}}\n\n"
    );
    assert_eq!(document_text(&r, "T"), expected);
}

#[test]
fn counters_add_up_with_failed_reads() {
    let entries = vec![
        entry("a.txt", false),
        entry("b.PNG", false),
        entry("c.txt", false),
        entry("d", true),
        entry("d/e.md", false),
    ];
    let sel: Selection = classify(&entries, &policy_png(), &PruneSet::standard(), "fileassets.txt");
    assert_eq!(sel.total_files, sel.files_excluded + sel.candidates.len());
    assert_eq!(sel.total_files, 4);
    let n = sel.candidates.len();
    let r = finish_scan(sel, vec![None, Some("c".to_string()), None]);
    assert_eq!(r.stats.files_processed, 1);
    assert!(r.stats.files_processed <= n);
    assert_eq!(paths(&r.files), vec!["c.txt"]);
    assert_eq!(r.file_list, "├───a.txt\n├───c.txt\n└───d\n    └───e.md");
}

#[test]
fn records_sorted_by_path_whatever_the_walk_order() {
    let entries = vec![
        entry("z.txt", false),
        entry("b", true),
        entry("b/y.txt", false),
        entry("a-b.txt", false),
        entry("B.txt", false),
    ];
    let sel = classify(&entries, &policy_png(), &PruneSet::standard(), "o");
    let contents: Vec<Option<String>> = sel.candidates.iter().map(|c| Some(c.relative_path.to_uppercase())).collect();
    let r = finish_scan(sel, contents);
    assert_eq!(paths(&r.files), vec!["B.txt", "a-b.txt", "b/y.txt", "z.txt"]);
    assert_eq!(r.files[2].content, "B/Y.TXT");
}

#[test]
fn rescan_gives_identical_order() {
    let p = PruneSet::standard();
    let c = policy_png();
    let run = || {
        let sel = classify(&scenario_entries(), &c, &p, "fileassets.txt");
        let contents = sel.candidates.iter().map(|c| Some(c.relative_path.clone())).collect();
        finish_scan(sel, contents)
    };
    let r1 = run();
    let r2 = run();
    assert_eq!(paths(&r1.files), paths(&r2.files));
    assert_eq!(r1.file_list, r2.file_list);
}

#[test]
fn pruned_directory_yields_no_candidates() {
    let entries = vec![
        entry(".git", true),
        entry(".git/config", false),
        entry(".git/objects", true),
        entry(".git/objects/ab.txt", false),
        entry("src", true),
        entry("src/target", true),
        entry("src/target/out.txt", false),
        entry("src/main.rs", false),
        entry("target", false),
    ];
    let sel = classify(&entries, &policy_png(), &PruneSet::standard(), "fileassets.txt");
    let rel: Vec<String> = sel.candidates.iter().map(|c| c.relative_path.clone()).collect();
    assert_eq!(rel, vec!["src/main.rs", "target"]);
    assert_eq!(sel.total_files, 2);
    let custom = PruneSet::new(&vec!["src".to_string()]);
    assert!(custom.is_pruned(&"src".to_string()));
    assert!(!custom.is_pruned(&".git".to_string()));
    let sel = classify(&entries, &policy_png(), &custom, "fileassets.txt");
    let rel: Vec<String> = sel.candidates.iter().map(|c| c.relative_path.clone()).collect();
    assert_eq!(rel, vec![".git/config", ".git/objects/ab.txt", "target"]);
}

#[test]
fn output_file_is_not_scanned() {
    let entries = vec![entry("fileassets.txt", false), entry("a.txt", false), entry("sub/fileassets.txt", false)];
    let sel = classify(&entries, &policy_png(), &PruneSet::standard(), "fileassets.txt");
    assert_eq!(sel.total_files, 2);
    let rel: Vec<String> = sel.candidates.iter().map(|c| c.relative_path.clone()).collect();
    assert_eq!(rel, vec!["a.txt", "sub/fileassets.txt"]);
}

#[test]
fn worker_count_one_per_ten() {
    assert_eq!(worker_count(0), 1);
    assert_eq!(worker_count(1), 1);
    assert_eq!(worker_count(10), 1);
    assert_eq!(worker_count(11), 2);
    assert_eq!(worker_count(100), 10);
    assert_eq!(worker_count(101), 11);
}

#[test]
fn existing_output_skips_root() {
    assert_eq!(check_root(true, true, true), RootCheck::OutputExists);
    assert!(!check_root(true, true, true).is_failure());
    assert_eq!(check_root(true, true, false), RootCheck::Ready);
    assert_eq!(check_root(false, false, false), RootCheck::Missing);
    assert!(check_root(false, false, true).is_failure());
    assert_eq!(check_root(true, false, false), RootCheck::NotDirectory);
    assert!(check_root(true, false, false).is_failure());
}

#[test]
fn tree_lists_directories_once_in_name_order() {
    let ps: Vec<Vec<String>> = ["src/b.rs", "src/a/x.rs", "README", "src/a/y.rs", "src/b.rs", "Cargo.toml"]
        .iter()
        .map(|p| p.split('/').map(|s| s.to_string()).collect())
        .collect();
    let expected = "├───Cargo.toml\n├───README\n└───src\n    ├───a\n    │   ├───x.rs\n    │   └───y.rs\n    └───b.rs";
    assert_eq!(build_file_list(&ps), expected);
    assert_eq!(build_file_list(&vec![]), "");
    assert_eq!(build_file_list(&vec![vec![]]), "");
}

#[test]
fn tree_shows_a_name_that_is_file_and_directory_once() {
    let ps: Vec<Vec<String>> = vec![
        vec!["a".to_string()],
        vec!["a".to_string(), "b".to_string()],
        vec!["c".to_string()],
    ];
    assert_eq!(build_file_list(&ps), "├───a\n│   └───b\n└───c");
}
