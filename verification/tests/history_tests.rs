use codecity_backend::error::GitError;
use codecity_backend::history::{days_between, get_directory_age, get_repo_age_days, Commit};

fn commit(seconds: i64, paths: &[&str]) -> Commit {
    Commit { seconds, paths: paths.iter().map(|p| p.to_string()).collect() }
}

#[test]
fn days_are_whole_days_rounded_down() {
    assert_eq!(days_between(0, 0), 0);
    assert_eq!(days_between(86399, 0), 0);
    assert_eq!(days_between(86400, 0), 1);
    assert_eq!(days_between(172800, 0), 2);
    assert_eq!(days_between(1_700_000_000, 1_600_000_000), 1157);
    assert_eq!(days_between(10, -86390), 1);
}

#[test]
fn a_time_after_now_has_age_zero() {
    assert_eq!(days_between(0, 1), 0);
    assert_eq!(days_between(0, 86399), 0);
    assert_eq!(days_between(0, 86400), 0);
    assert_eq!(days_between(0, 172800), 0);
    assert_eq!(days_between(-5, 10 * 86400), 0);
}

#[test]
fn days_between_the_ends_of_the_range() {
    assert_eq!(days_between(i64::MAX, i64::MIN), 213503982334601);
    assert_eq!(days_between(i64::MIN, i64::MAX), 0);
    assert_eq!(days_between(i64::MAX, i64::MAX), 0);
}

#[test]
fn commit_stamped_after_now_gives_age_zero() {
    let history = vec![commit(86400, &["src"])];
    assert_eq!(get_repo_age_days(&history, 0).unwrap(), 0);
    assert_eq!(get_directory_age(&history, "", 0), 0);
    assert_eq!(get_directory_age(&history, "src", 0), 0);
}

#[test]
fn repository_age_does_not_go_down_across_the_commit_time() {
    let history = vec![commit(10 * 86400, &[])];
    let mut last = 0;
    for step in 0..40 {
        let age = get_repo_age_days(&history, step * 43_200).unwrap();
        assert!(age >= last);
        last = age;
    }
    assert_eq!(last, 9);
}

#[test]
fn no_directory_is_older_than_the_repository() {
    let history = vec![
        commit(86400, &["a"]),
        commit(3 * 86400, &["a", "b"]),
        commit(40 * 86400, &["a", "b", "c"]),
    ];
    for now in [0, 2 * 86400, 20 * 86400, 100 * 86400] {
        let repository = get_repo_age_days(&history, now).unwrap();
        assert_eq!(get_directory_age(&history, "", now), repository);
        for dir in ["a", "b", "c", "d"] {
            assert!(get_directory_age(&history, dir, now) <= repository);
        }
    }
    assert_eq!(get_directory_age(&history, "c", 20 * 86400), 0);
    assert_eq!(get_directory_age(&history, "b", 20 * 86400), 17);
}

#[test]
fn repository_age_is_that_of_the_oldest_commit() {
    let history = vec![commit(1000, &[]), commit(500_000, &[])];
    assert_eq!(get_repo_age_days(&history, 1000 + 3 * 86400).unwrap(), 3);
}

#[test]
fn repository_without_commits_has_no_age() {
    let history: Vec<Commit> = Vec::new();
    assert!(matches!(get_repo_age_days(&history, 1_700_000_000), Err(GitError::NoCommits)));
}

#[test]
fn repository_age_does_not_go_down_as_time_goes_on() {
    let history = vec![commit(1_000_000, &[])];
    let mut last = 0;
    for step in 0..50 {
        let now = 1_000_000 + step * 40_000;
        let age = get_repo_age_days(&history, now).unwrap();
        assert!(age >= last);
        last = age;
    }
    assert_eq!(last, 22);
}

#[test]
fn directory_age_is_that_of_the_oldest_commit_that_touches_it() {
    let history = vec![
        commit(0, &["src"]),
        commit(86400, &["src", "docs"]),
        commit(2 * 86400, &["src", "docs", "src/api"]),
    ];
    let now = 10 * 86400;
    assert_eq!(get_directory_age(&history, "src", now), 10);
    assert_eq!(get_directory_age(&history, "docs", now), 9);
    assert_eq!(get_directory_age(&history, "src/api", now), 8);
}

#[test]
fn every_commit_touches_the_root() {
    let history = vec![commit(86400, &[]), commit(5 * 86400, &["src"])];
    assert_eq!(get_directory_age(&history, "", 11 * 86400), 10);
}

#[test]
fn untouched_directory_has_age_zero() {
    let history = vec![commit(0, &["src"])];
    assert_eq!(get_directory_age(&history, "docs", 10 * 86400), 0);
    assert_eq!(get_directory_age(&Vec::new(), "docs", 10 * 86400), 0);
    assert_eq!(get_directory_age(&Vec::new(), "", 10 * 86400), 0);
}

#[test]
fn paths_are_matched_whole() {
    let history = vec![commit(0, &["src/api"]), commit(86400, &["src"])];
    assert_eq!(get_directory_age(&history, "src", 5 * 86400), 4);
}
