use loc_counter::rules::{Language, RuleSet};
use loc_counter::scan::{Action, EntryKind, WalkEntry};
use loc_counter::total::{run, Aggregator, Child};

fn total_rules() -> RuleSet {
    RuleSet {
        ignore_dirs: vec!["node_modules".to_string()],
        ignore_files: vec!["*.min.js".to_string()],
        languages: vec![
            Language { name: "go".to_string(), extensions: vec![".go".to_string()] },
            Language { name: "rust".to_string(), extensions: vec![".rs".to_string()] },
        ],
    }
}

fn entry(depth: usize, kind: EntryKind, name: &str, text: Option<&str>) -> WalkEntry {
    WalkEntry { depth, kind, name: name.to_string(), content: text.map(|t| t.as_bytes().to_vec()) }
}

fn lines(n: usize) -> String {
    "x\n".repeat(n)
}

fn repository(name: &str, files: &[(&str, usize)]) -> Child {
    let mut walk = vec![entry(0, EntryKind::Directory, name, None)];
    for (file_name, n) in files {
        walk.push(entry(1, EntryKind::File, file_name, Some(&lines(*n))));
    }
    Child { is_directory: true, walk }
}

fn plain_file(name: &str, n: usize) -> Child {
    Child { is_directory: false, walk: vec![entry(0, EntryKind::File, name, Some(&lines(n)))] }
}

#[test]
fn no_children_give_empty_totals() {
    let rules = total_rules();
    let children: Vec<Child> = Vec::new();
    let total = run(&children, &rules).unwrap();
    assert_eq!(total.get("go"), None);
    assert_eq!(total.to_json(), Some("{}".to_string()));
}

#[test]
fn repositories_add_up() {
    let rules = total_rules();
    let children = vec![
        repository("a", &[("main.go", 10)]),
        repository("b", &[("util.go", 5), ("lib.rs", 3)]),
    ];
    let total = run(&children, &rules).unwrap();
    assert_eq!(total.get("go"), Some(15));
    assert_eq!(total.get("rust"), Some(3));
    assert_eq!(total.to_json(), Some("{\"go\":15,\"rust\":3}".to_string()));
}

#[test]
fn total_is_the_sum_of_the_totals_of_the_parts() {
    let rules = total_rules();
    let first = vec![repository("a", &[("main.go", 10)]), repository("b", &[("b.rs", 2)])];
    let second = vec![repository("c", &[("c.go", 5), ("c.rs", 3)])];
    let both = vec![
        repository("a", &[("main.go", 10)]),
        repository("b", &[("b.rs", 2)]),
        repository("c", &[("c.go", 5), ("c.rs", 3)]),
    ];
    let mut summed = run(&first, &rules).unwrap();
    assert!(summed.merge(&run(&second, &rules).unwrap()).is_ok());
    let whole = run(&both, &rules).unwrap();
    for language in ["go", "rust"] {
        assert_eq!(whole.get(language), summed.get(language));
    }
    assert_eq!(whole.get("go"), Some(15));
    assert_eq!(whole.get("rust"), Some(5));
}

#[test]
fn file_beside_the_repositories_counts_nothing() {
    let rules = total_rules();
    let with = vec![
        repository("a", &[("main.go", 10)]),
        plain_file("stray.go", 7),
        repository("b", &[("lib.rs", 3)]),
    ];
    let without = vec![repository("a", &[("main.go", 10)]), repository("b", &[("lib.rs", 3)])];
    let counted_with = run(&with, &rules).unwrap();
    let counted_without = run(&without, &rules).unwrap();
    assert_eq!(counted_with.get("go"), Some(10));
    assert_eq!(counted_with.get("rust"), Some(3));
    assert_eq!(counted_with.to_json(), counted_without.to_json());
}

#[test]
fn only_files_beside_the_repositories_give_empty_totals() {
    let rules = total_rules();
    let children = vec![plain_file("stray.go", 7), plain_file("stray.rs", 1)];
    let total = run(&children, &rules).unwrap();
    assert_eq!(total.get("go"), None);
    assert_eq!(total.get("rust"), None);
}

#[test]
fn unreadable_file_does_not_stop_any_repository() {
    let rules = total_rules();
    let mut first = repository("a", &[("main.go", 10)]);
    first.walk.push(entry(1, EntryKind::File, "blob.go", None));
    first.walk.push(WalkEntry {
        depth: 1,
        kind: EntryKind::File,
        name: "image.go".to_string(),
        content: Some(vec![0xff, 0xd8, 0xff, 0xe0, 0x0a, 0x0a]),
    });
    first.walk.push(entry(1, EntryKind::File, "more.go", Some("x\n")));
    let children = vec![first, repository("b", &[("util.go", 5)])];
    let total = run(&children, &rules).unwrap();
    assert_eq!(total.get("go"), Some(16));
}

#[test]
fn one_repository_with_one_counted_file() {
    let rules = RuleSet {
        ignore_dirs: Vec::new(),
        ignore_files: Vec::new(),
        languages: vec![Language { name: "rust".to_string(), extensions: vec![".rs".to_string()] }],
    };
    let children = vec![Child {
        is_directory: true,
        walk: vec![
            entry(0, EntryKind::Directory, "repoA", None),
            entry(1, EntryKind::File, "main.rs", Some("fn main() {\n    run();\n}\n")),
            entry(1, EntryKind::File, "README.md", Some("# repoA\n\nText.\n")),
        ],
    }];
    let total = run(&children, &rules).unwrap();
    assert_eq!(total.get("rust"), Some(3));
    assert_eq!(total.to_json(), Some("{\"rust\":3}".to_string()));
}

#[test]
fn running_twice_gives_the_same_output() {
    let rules = total_rules();
    let children = vec![
        repository("b", &[("util.go", 5), ("lib.rs", 3)]),
        plain_file("notes.rs", 2),
        repository("a", &[("main.go", 10), ("app.min.js", 4)]),
    ];
    let first = run(&children, &rules).unwrap().to_json();
    let second = run(&children, &rules).unwrap().to_json();
    assert_eq!(first, second);
    assert_eq!(first, Some("{\"go\":15,\"rust\":3}".to_string()));
}

#[test]
fn output_does_not_depend_on_the_order_of_the_repositories() {
    let rules = total_rules();
    let forward = vec![repository("a", &[("a.rs", 1)]), repository("b", &[("b.go", 2)])];
    let backward = vec![repository("b", &[("b.go", 2)]), repository("a", &[("a.rs", 1)])];
    assert_eq!(run(&forward, &rules).unwrap().to_json(), run(&backward, &rules).unwrap().to_json());
}

#[test]
fn aggregator_scans_directories_only() {
    let rules = total_rules();
    let aggregator = Aggregator::new(&rules);
    assert!(aggregator.enter(true).is_some());
    assert!(aggregator.enter(false).is_none());
}

#[test]
fn aggregator_adds_up_what_its_scanners_counted() {
    let rules = total_rules();
    let mut aggregator = Aggregator::new(&rules);

    let mut first = aggregator.enter(true).unwrap();
    assert_eq!(first.visit(0, EntryKind::Directory, "a"), Action::Continue);
    assert_eq!(first.visit(1, EntryKind::File, "main.go"), Action::ReadFile);
    assert!(first.record(Some(lines(10).as_bytes())).is_ok());
    assert!(aggregator.leave(first).is_ok());

    let mut second = aggregator.enter(true).unwrap();
    assert_eq!(second.visit(0, EntryKind::Directory, "b"), Action::Continue);
    assert_eq!(second.visit(1, EntryKind::File, "util.go"), Action::ReadFile);
    assert!(second.record(Some(lines(5).as_bytes())).is_ok());
    assert_eq!(second.visit(1, EntryKind::File, "lib.rs"), Action::ReadFile);
    assert!(second.record(Some(lines(3).as_bytes())).is_ok());
    assert!(aggregator.leave(second).is_ok());

    let total = aggregator.finish();
    assert_eq!(total.get("go"), Some(15));
    assert_eq!(total.get("rust"), Some(3));
}

#[test]
fn aggregator_without_children_gives_empty_totals() {
    let rules = total_rules();
    let total = Aggregator::new(&rules).finish();
    assert!(total.tallies().is_empty());
}
