use codecity_backend::paths::{
    extension_of, file_name_of, is_ignored, parent_of, relative_path,
};

#[test]
fn relative_path_strips_the_root() {
    assert_eq!(relative_path("repo/src/a.rs", "repo"), "src/a.rs");
    assert_eq!(relative_path("repo/src/a.rs", "repo/"), "src/a.rs");
    assert_eq!(relative_path("/home/u/repo/a.rs", "/home/u/repo"), "a.rs");
    assert_eq!(relative_path("./src/a.rs", "."), "src/a.rs");
    assert_eq!(relative_path("repo", "repo"), "");
    assert_eq!(relative_path("repo//src", "repo"), "src");
}

#[test]
fn relative_path_keeps_a_path_outside_the_root() {
    assert_eq!(relative_path("other/a.rs", "repo"), "other/a.rs");
    assert_eq!(relative_path("repository/a.rs", "repo"), "repository/a.rs");
    assert_eq!(relative_path("a.rs", ""), "a.rs");
    assert_eq!(relative_path("re", "repo"), "re");
}

#[test]
fn parent_is_what_stands_before_the_last_slash() {
    assert_eq!(parent_of("src/api/mod.rs"), "src/api");
    assert_eq!(parent_of("src/api"), "src");
    assert_eq!(parent_of("src"), "");
    assert_eq!(parent_of(""), "");
    assert_eq!(parent_of("/x"), "");
}

#[test]
fn file_name_is_the_last_proper_segment() {
    assert_eq!(file_name_of("src/api/mod.rs"), Some("mod.rs"));
    assert_eq!(file_name_of("/home/u/repo"), Some("repo"));
    assert_eq!(file_name_of("/home/u/repo/"), Some("repo"));
    assert_eq!(file_name_of("repo/."), Some("repo"));
    assert_eq!(file_name_of("a//"), Some("a"));
    assert_eq!(file_name_of("..a"), Some("..a"));
}

#[test]
fn file_name_is_missing_where_the_path_names_nothing() {
    assert_eq!(file_name_of(""), None);
    assert_eq!(file_name_of("/"), None);
    assert_eq!(file_name_of("."), None);
    assert_eq!(file_name_of("./."), None);
    assert_eq!(file_name_of(".."), None);
    assert_eq!(file_name_of("a/.."), None);
    assert_eq!(file_name_of("a/../."), None);
}

#[test]
fn extension_follows_the_last_dot() {
    assert_eq!(extension_of("src/main.rs"), Some("rs"));
    assert_eq!(extension_of("archive.tar.gz"), Some("gz"));
    assert_eq!(extension_of("a."), Some(""));
    assert_eq!(extension_of("dir.d/file.py"), Some("py"));
}

#[test]
fn extension_is_missing_without_an_inner_dot() {
    assert_eq!(extension_of("Makefile"), None);
    assert_eq!(extension_of(".bashrc"), None);
    assert_eq!(extension_of("dir.d/file"), None);
    assert_eq!(extension_of(""), None);
    assert_eq!(extension_of(".."), None);
}

#[test]
fn ignores_denied_directories() {
    for name in [
        ".git",
        "node_modules",
        "target",
        "dist",
        "build",
        ".next",
        "__pycache__",
        ".venv",
        "venv",
        ".idea",
        ".vscode",
        "vendor",
        ".cargo",
        "deps",
        "_build",
    ] {
        let top = format!("repo/{}", name);
        let nested = format!("repo/a/{}/b.rs", name);
        assert!(is_ignored(&top, "repo"), "{}", top);
        assert!(is_ignored(&nested, "repo"), "{}", nested);
    }
}

#[test]
fn denied_names_match_whole_segments_only() {
    assert!(!is_ignored("repo/targets/a.rs", "repo"));
    assert!(!is_ignored("repo/src/rebuild/a.rs", "repo"));
    assert!(!is_ignored("repo/my_vendor/a.rs", "repo"));
    assert!(!is_ignored("repo/distance.rs", "repo"));
}

#[test]
fn ignores_hidden_segments_at_any_depth() {
    assert!(is_ignored("repo/.hidden", "repo"));
    assert!(is_ignored("repo/.hidden/a.rs", "repo"));
    assert!(is_ignored("repo/src/.env", "repo"));
    assert!(is_ignored("repo/.github/workflows/ci.yml", "repo"));
    assert!(is_ignored("repo/a/b/c/.d/e.rs", "repo"));
}

#[test]
fn keeps_ordinary_paths() {
    assert!(!is_ignored("repo", "repo"));
    assert!(!is_ignored("repo/src", "repo"));
    assert!(!is_ignored("repo/src/main.rs", "repo"));
    assert!(!is_ignored("repo/a.b/c.d.rs", "repo"));
}

#[test]
fn ignore_rules_apply_to_the_relative_path_only() {
    assert!(!is_ignored("/home/.cache/build/repo/src/a.rs", "/home/.cache/build/repo"));
    assert!(is_ignored("/home/.cache/build/repo/src/a.rs", "/elsewhere"));
}

#[test]
fn everything_below_an_ignored_directory_is_ignored() {
    assert!(is_ignored("repo/node_modules", "repo"));
    assert!(is_ignored("repo/node_modules/x.js", "repo"));
    assert!(is_ignored("repo/node_modules/pkg/lib/index.js", "repo"));
}
