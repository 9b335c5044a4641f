use codecity_backend::history::Commit;
use codecity_backend::models::DirectoryNode;
use codecity_backend::stats::DirectoryStats;
use codecity_backend::tree::{build_directory_tree, display_name_of};

fn dirs_of(records: &[(&str, &str, u64)]) -> DirectoryStats {
    let mut dirs = DirectoryStats::new();
    for (path, language, lines) in records {
        dirs.add(path, language, *lines);
    }
    dirs
}

fn paths(level: &[DirectoryNode]) -> Vec<&str> {
    level.iter().map(|n| n.path.as_str()).collect()
}

fn every_level_is_descending(level: &[DirectoryNode]) -> bool {
    level.windows(2).all(|w| w[0].lines >= w[1].lines)
        && level.iter().all(|n| every_level_is_descending(&n.children))
}

fn count_nodes(level: &[DirectoryNode]) -> usize {
    level.iter().map(|n| 1 + count_nodes(&n.children)).sum()
}

fn find<'a>(level: &'a [DirectoryNode], path: &str) -> Option<&'a DirectoryNode> {
    for node in level {
        if node.path == path {
            return Some(node);
        }
        if let Some(found) = find(&node.children, path) {
            return Some(found);
        }
    }
    None
}

#[test]
fn display_names() {
    assert_eq!(display_name_of(""), "(root)");
    assert_eq!(display_name_of("src"), "src");
    assert_eq!(display_name_of("src/api"), "api");
    assert_eq!(display_name_of("a/b/c"), "c");
    assert_eq!(display_name_of(".."), "..");
}

#[test]
fn empty_statistics_give_an_empty_forest() {
    let forest = build_directory_tree(&DirectoryStats::new(), &Vec::new(), 0);
    assert!(forest.is_empty());
}

#[test]
fn scenario_subdirectory_hangs_under_the_root() {
    let dirs = dirs_of(&[("", "Rust", 10), ("sub", "Python", 5)]);
    let forest = build_directory_tree(&dirs, &Vec::new(), 0);
    assert_eq!(forest.len(), 1);
    let root = &forest[0];
    assert_eq!(root.name, "(root)");
    assert_eq!(root.path, "");
    assert_eq!(root.lines, 10);
    assert_eq!(root.languages.len(), 1);
    assert_eq!(root.languages[0].language, "Rust");
    assert_eq!(root.languages[0].lines, 10);
    assert_eq!(root.languages[0].total, 10);
    assert_eq!(root.children.len(), 1);
    let sub = &root.children[0];
    assert_eq!(sub.name, "sub");
    assert_eq!(sub.path, "sub");
    assert_eq!(sub.lines, 5);
    assert_eq!(sub.languages.len(), 1);
    assert_eq!(sub.languages[0].language, "Python");
    assert_eq!(sub.languages[0].lines, 5);
    assert_eq!(sub.languages[0].total, 5);
    assert!(sub.children.is_empty());
}

#[test]
fn directory_without_a_recorded_parent_is_promoted() {
    let dirs = dirs_of(&[("", "Rust", 10), ("a/b", "Rust", 3)]);
    let forest = build_directory_tree(&dirs, &Vec::new(), 0);
    assert_eq!(paths(&forest), vec!["", "a/b"]);
    assert_eq!(forest[1].name, "b");
    assert!(forest[0].children.is_empty());
}

#[test]
fn without_a_root_record_top_directories_are_promoted() {
    let dirs = dirs_of(&[("src", "Rust", 3), ("docs", "Markdown", 8), ("src/api", "Rust", 1)]);
    let forest = build_directory_tree(&dirs, &Vec::new(), 0);
    assert_eq!(paths(&forest), vec!["docs", "src"]);
    assert_eq!(paths(&forest[1].children), vec!["src/api"]);
}

#[test]
fn deep_chain_is_nested_level_by_level() {
    let dirs = dirs_of(&[
        ("a/b/c", "Rust", 1),
        ("a", "Rust", 1),
        ("", "Rust", 1),
        ("a/b", "Rust", 1),
        ("a/b/c/d", "Rust", 1),
    ]);
    let forest = build_directory_tree(&dirs, &Vec::new(), 0);
    assert_eq!(paths(&forest), vec![""]);
    let a = &forest[0].children;
    assert_eq!(paths(a), vec!["a"]);
    let b = &a[0].children;
    assert_eq!(paths(b), vec!["a/b"]);
    let c = &b[0].children;
    assert_eq!(paths(c), vec!["a/b/c"]);
    assert_eq!(paths(&c[0].children), vec!["a/b/c/d"]);
    assert_eq!(count_nodes(&forest), 5);
}

#[test]
fn children_are_in_descending_order_with_stable_ties() {
    let dirs = dirs_of(&[
        ("", "Rust", 1),
        ("one", "Rust", 5),
        ("two", "Rust", 9),
        ("three", "Rust", 5),
        ("four", "Rust", 9),
        ("five", "Rust", 2),
        ("six", "Rust", 5),
    ]);
    let forest = build_directory_tree(&dirs, &Vec::new(), 0);
    assert_eq!(paths(&forest), vec![""]);
    assert_eq!(paths(&forest[0].children), vec!["two", "four", "one", "three", "six", "five"]);
    assert!(every_level_is_descending(&forest));
}

#[test]
fn top_level_is_in_descending_order_with_the_root_first_among_equals() {
    let dirs = dirs_of(&[
        ("x/a", "Rust", 4),
        ("y/b", "Rust", 7),
        ("", "Rust", 7),
        ("z/c", "Rust", 4),
    ]);
    let forest = build_directory_tree(&dirs, &Vec::new(), 0);
    assert_eq!(paths(&forest), vec!["", "y/b", "x/a", "z/c"]);
}

#[test]
fn root_is_first_where_no_promoted_directory_has_more_lines() {
    let dirs = dirs_of(&[("p/q", "Rust", 2), ("r/s", "Rust", 3), ("", "Rust", 3), ("t", "Go", 50)]);
    let forest = build_directory_tree(&dirs, &Vec::new(), 0);
    assert_eq!(forest[0].path, "");
    assert_eq!(paths(&forest), vec!["", "r/s", "p/q"]);
    assert_eq!(paths(&forest[0].children), vec!["t"]);
}

#[test]
fn promoted_directory_with_more_lines_stands_before_the_root() {
    let dirs = dirs_of(&[("", "Rust", 1), ("a/b", "Rust", 100)]);
    let forest = build_directory_tree(&dirs, &Vec::new(), 0);
    assert_eq!(paths(&forest), vec!["a/b", ""]);
}

#[test]
fn root_is_never_a_child() {
    let dirs = dirs_of(&[("a", "Rust", 9), ("", "Rust", 1), ("a/b", "Rust", 5)]);
    let forest = build_directory_tree(&dirs, &Vec::new(), 0);
    fn no_empty_child(level: &[DirectoryNode]) -> bool {
        level.iter().all(|n| n.children.iter().all(|c| !c.path.is_empty()) && no_empty_child(&n.children))
    }
    assert!(no_empty_child(&forest));
    assert_eq!(forest.iter().filter(|n| n.path.is_empty()).count(), 1);
}

#[test]
fn no_directory_is_dropped() {
    let records = [
        ("", "Rust", 3),
        ("a", "Rust", 1),
        ("a/b/c", "Rust", 8),
        ("x/y", "Go", 2),
        ("x/y/z", "Go", 4),
        ("a/d", "Python", 6),
        ("q/r/s/t", "C", 5),
    ];
    let forest = build_directory_tree(&dirs_of(&records), &Vec::new(), 0);
    assert_eq!(count_nodes(&forest), records.len());
    for (path, _, lines) in records {
        let node = find(&forest, path).unwrap();
        assert_eq!(node.lines, lines, "{}", path);
    }
    assert_eq!(paths(&forest), vec!["a/b/c", "q/r/s/t", "", "x/y"]);
    assert!(every_level_is_descending(&forest));
}

#[test]
fn node_lines_are_its_own_and_not_those_below() {
    let dirs = dirs_of(&[("", "Rust", 2), ("src", "Rust", 3), ("src/api", "Rust", 40)]);
    let forest = build_directory_tree(&dirs, &Vec::new(), 0);
    assert_eq!(forest[0].lines, 2);
    assert_eq!(forest[0].children[0].lines, 3);
    assert_eq!(forest[0].children[0].children[0].lines, 40);
}

#[test]
fn node_languages_are_broken_down_against_the_node_lines() {
    let dirs = dirs_of(&[("src", "Python", 2), ("src", "Rust", 6), ("src", "Go", 2)]);
    let forest = build_directory_tree(&dirs, &Vec::new(), 0);
    let src = &forest[0];
    assert_eq!(src.lines, 10);
    let rows: Vec<(&str, u64, u64)> =
        src.languages.iter().map(|e| (e.language.as_str(), e.lines, e.total)).collect();
    assert_eq!(rows, vec![("Rust", 6, 10), ("Python", 2, 10), ("Go", 2, 10)]);
}

#[test]
fn directory_without_lines_has_no_breakdown() {
    let dirs = dirs_of(&[("src", "Rust", 0)]);
    let forest = build_directory_tree(&dirs, &Vec::new(), 0);
    assert_eq!(forest.len(), 1);
    assert_eq!(forest[0].lines, 0);
    assert!(forest[0].languages.is_empty());
}

#[test]
fn nodes_carry_the_age_of_their_directory() {
    let history = vec![
        Commit { seconds: 0, paths: vec!["src".to_string()] },
        Commit { seconds: 86400, paths: vec!["src".to_string(), "src/api".to_string()] },
    ];
    let dirs = dirs_of(&[("", "Rust", 1), ("src", "Rust", 1), ("src/api", "Rust", 1), ("docs", "Markdown", 1)]);
    let forest = build_directory_tree(&dirs, &history, 5 * 86400);
    assert_eq!(find(&forest, "").unwrap().age_days, 5);
    assert_eq!(find(&forest, "src").unwrap().age_days, 5);
    assert_eq!(find(&forest, "src/api").unwrap().age_days, 4);
    assert_eq!(find(&forest, "docs").unwrap().age_days, 0);
}

fn lines_of_all(level: &[DirectoryNode]) -> u64 {
    level.iter().map(|n| n.lines + lines_of_all(&n.children)).sum()
}

fn occurrences(level: &[DirectoryNode], path: &str) -> usize {
    level
        .iter()
        .map(|n| usize::from(n.path == path) + occurrences(&n.children, path))
        .sum()
}

#[test]
fn lines_of_all_nodes_add_up_to_the_lines_of_all_records() {
    let records = [
        ("", "Rust", 3),
        ("a", "Rust", 1),
        ("a/b/c", "Rust", 8),
        ("x/y", "Go", 2),
        ("x/y/z", "Go", 4),
        ("a/d", "Python", 6),
    ];
    let forest = build_directory_tree(&dirs_of(&records), &Vec::new(), 0);
    assert_eq!(lines_of_all(&forest), 24);
    assert_eq!(count_nodes(&forest), 6);
}

#[test]
fn each_path_stands_in_the_forest_once() {
    let records = [
        ("src/api", "Rust", 3),
        ("src", "Rust", 1),
        ("", "Rust", 8),
        ("docs/img", "Markdown", 2),
        ("src", "Go", 4),
    ];
    let forest = build_directory_tree(&dirs_of(&records), &Vec::new(), 0);
    for path in ["", "src", "src/api", "docs/img"] {
        assert_eq!(occurrences(&forest, path), 1, "{}", path);
    }
    assert_eq!(occurrences(&forest, "docs"), 0);
    assert_eq!(count_nodes(&forest), 4);
}
