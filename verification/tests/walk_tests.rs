use codecity_backend::stats::{DirStats, DirectoryStats, LanguageStats};
use codecity_backend::walk::{
    analyze_files, count_lines, count_walk_lines, language_of_file, lines_added_by,
    try_analyze_files, SourceFile,
};

fn text_of(lines: usize) -> String {
    "line\n".repeat(lines)
}

fn file(path: &str, lines: usize) -> SourceFile {
    SourceFile { path: path.to_string(), content: Some(text_of(lines)) }
}

fn languages_of(stats: &LanguageStats) -> Vec<(String, u64)> {
    (0..stats.len()).map(|k| (stats.language(k).to_string(), stats.lines(k))).collect()
}

fn directories_of(dirs: &DirectoryStats) -> Vec<(String, u64)> {
    (0..dirs.len()).map(|k| (dirs.path(k).to_string(), dirs.stats(k).lines())).collect()
}

#[test]
fn counts_lines_as_line_feeds_and_an_open_last_line() {
    assert_eq!(count_lines(""), 0);
    assert_eq!(count_lines("a"), 1);
    assert_eq!(count_lines("a\n"), 1);
    assert_eq!(count_lines("a\nb"), 2);
    assert_eq!(count_lines("a\nb\n"), 2);
    assert_eq!(count_lines("\n"), 1);
    assert_eq!(count_lines("\n\n"), 2);
    assert_eq!(count_lines("a\r\nb\r\n"), 2);
    assert_eq!(count_lines("a\rb"), 1);
    assert_eq!(count_lines("é\nñ\n日本語"), 3);
}

#[test]
fn line_count_agrees_with_the_standard_library() {
    for text in ["", "x", "x\n", "\n\nx", "a\r\nb", "a\n\r\n\n", "one\ntwo\nthree"] {
        assert_eq!(count_lines(text), text.lines().count() as u64, "{:?}", text);
    }
}

#[test]
fn a_file_is_counted_in_the_language_of_its_extension() {
    assert_eq!(language_of_file("repo/src/main.rs", "repo"), Some("Rust"));
    assert_eq!(language_of_file("repo/web/App.TSX", "repo"), Some("TypeScript"));
    assert_eq!(language_of_file("repo/data.bin", "repo"), None);
    assert_eq!(language_of_file("repo/Makefile", "repo"), None);
    assert_eq!(language_of_file("repo/node_modules/x.js", "repo"), None);
    assert_eq!(language_of_file("repo/.hidden.rs", "repo"), None);
}

#[test]
fn scenario_root_file_and_file_in_subdirectory() {
    let files = vec![file("repo/a.rs", 10), file("repo/sub/b.py", 5)];
    let (total, languages, dirs) = analyze_files("repo", &files);
    assert_eq!(total, 15);
    assert_eq!(
        languages_of(&languages),
        vec![("Rust".to_string(), 10), ("Python".to_string(), 5)]
    );
    assert_eq!(directories_of(&dirs), vec![("".to_string(), 10), ("sub".to_string(), 5)]);
    assert_eq!(languages_of(dirs.stats(0).languages()), vec![("Rust".to_string(), 10)]);
    assert_eq!(languages_of(dirs.stats(1).languages()), vec![("Python".to_string(), 5)]);
}

#[test]
fn scenario_only_ignored_files() {
    let files = vec![file("repo/node_modules/x.js", 7)];
    let (total, languages, dirs) = analyze_files("repo", &files);
    assert_eq!(total, 0);
    assert_eq!(languages.len(), 0);
    assert_eq!(dirs.len(), 0);
}

#[test]
fn scenario_unrecognized_extension_adds_nothing() {
    let files = vec![file("repo/data.bin", 100), file("repo/a.rs", 3)];
    let (total, languages, dirs) = analyze_files("repo", &files);
    assert_eq!(total, 3);
    assert_eq!(languages_of(&languages), vec![("Rust".to_string(), 3)]);
    assert_eq!(directories_of(&dirs), vec![("".to_string(), 3)]);
    assert_eq!(lines_added_by("repo", &file("repo/data.bin", 100)), 0);
}

#[test]
fn a_file_that_could_not_be_read_is_skipped() {
    let files = vec![
        SourceFile { path: "repo/broken.rs".to_string(), content: None },
        file("repo/ok.rs", 4),
    ];
    let (total, languages, dirs) = analyze_files("repo", &files);
    assert_eq!(total, 4);
    assert_eq!(languages_of(&languages), vec![("Rust".to_string(), 4)]);
    assert_eq!(directories_of(&dirs), vec![("".to_string(), 4)]);
}

#[test]
fn directory_counts_are_not_rolled_up() {
    let files = vec![
        file("repo/a.rs", 1),
        file("repo/src/b.rs", 2),
        file("repo/src/api/c.rs", 4),
        file("repo/src/api/d.py", 8),
        file("repo/src/e.rs", 16),
    ];
    let (total, _, dirs) = analyze_files("repo", &files);
    assert_eq!(total, 31);
    assert_eq!(
        directories_of(&dirs),
        vec![("".to_string(), 1), ("src".to_string(), 18), ("src/api".to_string(), 12)]
    );
    assert_eq!(
        languages_of(dirs.stats(2).languages()),
        vec![("Rust".to_string(), 4), ("Python".to_string(), 8)]
    );
}

#[test]
fn total_is_the_sum_of_languages_and_of_directories() {
    let files = vec![
        file("r/a.rs", 3),
        file("r/x/b.py", 5),
        file("r/x/c.rs", 7),
        file("r/y/z/d.go", 11),
        file("r/y/e.bin", 13),
        file("r/target/f.rs", 17),
    ];
    let (total, languages, dirs) = analyze_files("r", &files);
    assert_eq!(total, 26);
    assert_eq!(languages_of(&languages).iter().map(|l| l.1).sum::<u64>(), total);
    assert_eq!(directories_of(&dirs).iter().map(|d| d.1).sum::<u64>(), total);
}

#[test]
fn languages_and_directories_keep_the_order_of_first_meeting() {
    let files = vec![
        file("r/b/one.py", 1),
        file("r/a/two.rs", 1),
        file("r/b/three.rs", 1),
        file("r/four.py", 1),
    ];
    let (_, languages, dirs) = analyze_files("r", &files);
    assert_eq!(
        languages_of(&languages),
        vec![("Python".to_string(), 2), ("Rust".to_string(), 2)]
    );
    assert_eq!(
        directories_of(&dirs),
        vec![("b".to_string(), 2), ("a".to_string(), 1), ("".to_string(), 1)]
    );
}

#[test]
fn an_empty_counted_file_still_records_its_directory() {
    let files = vec![file("r/src/empty.rs", 0)];
    let (total, languages, dirs) = analyze_files("r", &files);
    assert_eq!(total, 0);
    assert_eq!(languages_of(&languages), vec![("Rust".to_string(), 0)]);
    assert_eq!(directories_of(&dirs), vec![("src".to_string(), 0)]);
}

#[test]
fn checked_walk_agrees_with_the_plain_one() {
    let files = vec![file("r/a.rs", 3), file("r/x/b.py", 5), file("r/x/c.bin", 9)];
    assert_eq!(count_walk_lines("r", &files), Some(8));
    let (total, languages, dirs) = try_analyze_files("r", &files).unwrap();
    assert_eq!(total, 8);
    assert_eq!(languages.len(), 2);
    assert_eq!(dirs.len(), 2);
    assert_eq!(count_walk_lines("r", &Vec::new()), Some(0));
}

#[test]
fn language_statistics_add_up_per_language() {
    let mut stats = LanguageStats::new();
    assert_eq!(stats.len(), 0);
    stats.add("Rust", 10);
    stats.add("Python", 5);
    stats.add("Rust", 7);
    assert_eq!(languages_of(&stats), vec![("Rust".to_string(), 17), ("Python".to_string(), 5)]);
    assert_eq!(stats.position("Python"), 1);
    assert_eq!(stats.position("Go"), 2);
}

#[test]
fn new_directory_statistics_are_empty() {
    let stats = DirStats::new();
    assert_eq!(stats.lines(), 0);
    assert_eq!(stats.languages().len(), 0);
}

#[test]
fn directory_statistics_add_up_per_directory() {
    let mut stats = DirStats::new();
    stats.add("Rust", 4);
    stats.add("Go", 6);
    stats.add("Rust", 1);
    assert_eq!(stats.lines(), 11);
    assert_eq!(languages_of(stats.languages()), vec![("Rust".to_string(), 5), ("Go".to_string(), 6)]);

    let mut dirs = DirectoryStats::new();
    dirs.add("src", "Rust", 4);
    dirs.add("", "Rust", 2);
    dirs.add("src", "Go", 6);
    assert_eq!(directories_of(&dirs), vec![("src".to_string(), 10), ("".to_string(), 2)]);
    assert_eq!(dirs.position(""), 1);
    assert_eq!(dirs.position("docs"), 2);
}

#[test]
fn a_file_that_is_not_counted_changes_nothing_wherever_it_is_met() {
    let counted = [("r/a.rs", 3), ("r/x/b.py", 5), ("r/x/c.rs", 7)];
    let plain: Vec<SourceFile> = counted.iter().map(|(p, n)| file(p, *n)).collect();
    let (total, languages, dirs) = analyze_files("r", &plain);
    let extras = [
        file("r/x/data.bin", 9),
        file("r/only/assets/logo.png", 2),
        file("r/Makefile", 4),
        file("r/build/out.rs", 6),
        SourceFile { path: "r/x/unreadable.rs".to_string(), content: None },
    ];
    for extra in &extras {
        for at in 0..=counted.len() {
            let mut files: Vec<SourceFile> = counted.iter().map(|(p, n)| file(p, *n)).collect();
            files.insert(at, SourceFile { path: extra.path.clone(), content: extra.content.clone() });
            let (total2, languages2, dirs2) = analyze_files("r", &files);
            assert_eq!(total2, total);
            assert_eq!(languages_of(&languages2), languages_of(&languages));
            assert_eq!(directories_of(&dirs2), directories_of(&dirs));
        }
    }
    assert_eq!(dirs.position("only/assets"), dirs.len());
}

#[test]
fn a_language_is_listed_only_with_a_counted_file_of_it() {
    let files = vec![
        file("r/a.rs", 3),
        file("r/node_modules/b.js", 5),
        SourceFile { path: "r/c.py".to_string(), content: None },
        file("r/d.go", 0),
    ];
    let (_, languages, _) = analyze_files("r", &files);
    assert_eq!(languages_of(&languages), vec![("Rust".to_string(), 3), ("Go".to_string(), 0)]);
    assert_eq!(languages.position("JavaScript"), languages.len());
    assert_eq!(languages.position("Python"), languages.len());
}
