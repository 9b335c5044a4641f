use codecity_backend::analysis::{
    analyze_repository, assemble_analysis, check_snapshot, repository_name_of,
    try_analyze_repository, RepoSnapshot,
};
use codecity_backend::error::GitError;
use codecity_backend::history::Commit;
use codecity_backend::models::{
    AnalyzeGithubRequest, AnalyzeLocalRequest, DirectoryNode, ErrorResponse,
};
use codecity_backend::walk::SourceFile;

fn file(path: &str, lines: usize) -> SourceFile {
    SourceFile { path: path.to_string(), content: Some("x\n".repeat(lines)) }
}

fn snapshot(history: Vec<Commit>, files: Vec<SourceFile>) -> RepoSnapshot {
    RepoSnapshot { exists: true, open_error: None, history, walk_error: None, files }
}

fn one_commit() -> Vec<Commit> {
    vec![Commit { seconds: 0, paths: vec!["sub".to_string()] }]
}

#[test]
fn missing_path_is_invalid() {
    let mut s = snapshot(one_commit(), Vec::new());
    s.exists = false;
    s.open_error = Some("no repository".to_string());
    s.walk_error = Some("unreadable".to_string());
    assert!(matches!(analyze_repository("/nowhere", &s), Err(GitError::InvalidPath)));
}

#[test]
fn path_without_repository_reports_what_opening_met() {
    let mut s = snapshot(Vec::new(), Vec::new());
    s.open_error = Some("could not find repository".to_string());
    match analyze_repository("/tmp/plain", &s) {
        Err(GitError::OpenRepo(detail)) => assert_eq!(detail, "could not find repository"),
        other => panic!("{:?}", other.map(|a| a.id)),
    }
}

#[test]
fn repository_without_commits_is_refused() {
    let mut s = snapshot(Vec::new(), vec![file("r/a.rs", 1)]);
    s.walk_error = Some("unreadable".to_string());
    assert!(matches!(analyze_repository("r", &s), Err(GitError::NoCommits)));
}

#[test]
fn unreadable_root_is_an_io_error() {
    let mut s = snapshot(one_commit(), Vec::new());
    s.walk_error = Some("permission denied".to_string());
    match analyze_repository("r", &s) {
        Err(GitError::Io(detail)) => assert_eq!(detail, "permission denied"),
        other => panic!("{:?}", other.map(|a| a.id)),
    }
    assert!(matches!(check_snapshot(&s), Err(GitError::Io(_))));
}

#[test]
fn a_failing_snapshot_fails_whatever_its_files_hold() {
    let mut s = snapshot(Vec::new(), vec![file("r/a.rs", 3), file("r/b/c.py", 4)]);
    assert!(matches!(try_analyze_repository("r", &s), Some(Err(GitError::NoCommits))));
    s.exists = false;
    assert!(matches!(try_analyze_repository("r", &s), Some(Err(GitError::InvalidPath))));
    assert!(matches!(assemble_analysis("r", &s, 0, "id".to_string()), Err(GitError::InvalidPath)));
}

#[test]
fn report_of_a_commit_stamped_after_now() {
    let history = vec![Commit { seconds: 50 * 86400, paths: vec!["sub".to_string()] }];
    let s = snapshot(history, vec![file("r/a.rs", 1), file("r/sub/b.rs", 1)]);
    let report = assemble_analysis("r", &s, 86400, "id".to_string()).unwrap();
    assert_eq!(report.age_days, 0);
    assert_eq!(report.directories[0].age_days, 0);
    assert_eq!(report.directories[0].children[0].age_days, 0);
}

#[test]
fn error_messages() {
    assert_eq!(
        GitError::OpenRepo("not found".to_string()).message(),
        "Failed to open repository: not found"
    );
    assert_eq!(GitError::Io("denied".to_string()).message(), "IO error: denied");
    assert_eq!(GitError::NoCommits.message(), "Repository has no commits");
    assert_eq!(GitError::InvalidPath.message(), "Invalid repository path");
}

#[test]
fn repository_name_is_the_final_name_of_the_path() {
    assert_eq!(repository_name_of("/home/u/project"), "project");
    assert_eq!(repository_name_of("/home/u/project/"), "project");
    assert_eq!(repository_name_of("project"), "project");
    assert_eq!(repository_name_of("."), "unknown");
    assert_eq!(repository_name_of("/"), "unknown");
    assert_eq!(repository_name_of(".."), "unknown");
    assert_eq!(repository_name_of(""), "unknown");
}

#[test]
fn scenario_report_of_two_files() {
    let s = snapshot(one_commit(), vec![file("/w/repo/a.rs", 10), file("/w/repo/sub/b.py", 5)]);
    let report = assemble_analysis("/w/repo", &s, 3 * 86400, "fixed-id".to_string()).unwrap();
    assert_eq!(report.id, "fixed-id");
    assert_eq!(report.name, "repo");
    assert_eq!(report.path, "/w/repo");
    assert_eq!(report.age_days, 3);
    assert_eq!(report.total_lines, 15);
    let rows: Vec<(&str, u64, u64, &str)> = report
        .languages
        .iter()
        .map(|e| (e.language.as_str(), e.lines, e.total, e.color.as_str()))
        .collect();
    assert_eq!(rows, vec![("Rust", 10, 15, "#DEA584"), ("Python", 5, 15, "#3776AB")]);
    assert_eq!(report.directories.len(), 1);
    let root = &report.directories[0];
    assert_eq!((root.name.as_str(), root.path.as_str(), root.lines, root.age_days), ("(root)", "", 10, 3));
    assert_eq!(root.children.len(), 1);
    let sub = &root.children[0];
    assert_eq!((sub.name.as_str(), sub.path.as_str(), sub.lines, sub.age_days), ("sub", "sub", 5, 3));
    assert_eq!(report.languages.iter().map(|e| e.lines).sum::<u64>(), report.total_lines);
}

#[test]
fn scenario_report_of_only_ignored_files() {
    let s = snapshot(one_commit(), vec![file("repo/node_modules/x.js", 9)]);
    let report = assemble_analysis("repo", &s, 0, "id".to_string()).unwrap();
    assert_eq!(report.total_lines, 0);
    assert!(report.languages.is_empty());
    assert!(report.directories.is_empty());
}

#[test]
fn scenario_report_with_an_unrecognized_file() {
    let s = snapshot(one_commit(), vec![file("repo/data.bin", 9), file("repo/lib.rs", 2)]);
    let report = assemble_analysis("repo", &s, 0, "id".to_string()).unwrap();
    assert_eq!(report.total_lines, 2);
    assert_eq!(report.languages.len(), 1);
    assert_eq!(report.languages[0].language, "Rust");
    assert_eq!(report.directories.len(), 1);
    assert_eq!(report.directories[0].lines, 2);
}

#[test]
fn analysis_gets_a_fresh_identifier_each_time() {
    let s = snapshot(one_commit(), vec![file("repo/a.rs", 1)]);
    let first = analyze_repository("repo", &s).unwrap();
    let second = analyze_repository("repo", &s).unwrap();
    for id in [&first.id, &second.id] {
        assert_eq!(id.len(), 36);
        let bytes = id.as_bytes();
        for (k, b) in bytes.iter().enumerate() {
            if k == 8 || k == 13 || k == 18 || k == 23 {
                assert_eq!(*b, b'-');
            } else {
                assert!(b.is_ascii_hexdigit());
            }
        }
    }
    assert_ne!(first.id, second.id);
    assert_eq!(first.total_lines, second.total_lines);
}

#[test]
fn analysis_reads_the_clock() {
    let s = snapshot(one_commit(), vec![file("repo/a.rs", 1)]);
    let report = try_analyze_repository("repo", &s).unwrap().unwrap();
    assert!(report.age_days > 19_000);
    assert!(report.age_days < 400_000);
    assert_eq!(report.directories[0].age_days, report.age_days);
}

#[test]
fn request_types_hold_their_fields() {
    let local = AnalyzeLocalRequest { path: "/tmp/x".to_string() };
    let hosted = AnalyzeGithubRequest { owner: "o".to_string(), repo: "r".to_string() };
    let failed = ErrorResponse { error: "Repository not found".to_string() };
    assert_eq!(local.path, "/tmp/x");
    assert_eq!((hosted.owner.as_str(), hosted.repo.as_str()), ("o", "r"));
    assert_eq!(failed.error, "Repository not found");
}

fn forest_lines(level: &[DirectoryNode]) -> u64 {
    level.iter().map(|n| n.lines + forest_lines(&n.children)).sum()
}

#[test]
fn report_counts_every_line_in_one_language_and_one_node() {
    let s = snapshot(
        one_commit(),
        vec![
            file("r/a.rs", 3),
            file("r/x/b.py", 5),
            file("r/x/c.rs", 7),
            file("r/y/z/d.go", 11),
            file("r/y/e.bin", 13),
            file("r/q/w/e/f.rs", 2),
        ],
    );
    let report = assemble_analysis("r", &s, 0, "id".to_string()).unwrap();
    assert_eq!(report.total_lines, 28);
    assert_eq!(report.languages.iter().map(|e| e.lines).sum::<u64>(), 28);
    assert_eq!(forest_lines(&report.directories), 28);
    let mut names: Vec<&str> = report.languages.iter().map(|e| e.language.as_str()).collect();
    assert_eq!(names, vec!["Rust", "Go", "Python"]);
    names.sort();
    names.dedup();
    assert_eq!(names.len(), report.languages.len());
}
