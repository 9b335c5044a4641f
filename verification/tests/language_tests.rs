use codecity_backend::language::{
    color_for_lowercase, get_language_color, get_language_from_extension, language_for_lowercase,
};

#[test]
fn classifies_known_extensions() {
    assert_eq!(get_language_from_extension("rs"), Some("Rust"));
    assert_eq!(get_language_from_extension("mjs"), Some("JavaScript"));
    assert_eq!(get_language_from_extension("jsx"), Some("JavaScript"));
    assert_eq!(get_language_from_extension("tsx"), Some("TypeScript"));
    assert_eq!(get_language_from_extension("cts"), Some("TypeScript"));
    assert_eq!(get_language_from_extension("pyw"), Some("Python"));
    assert_eq!(get_language_from_extension("c++"), Some("C++"));
    assert_eq!(get_language_from_extension("hh"), Some("C++"));
    assert_eq!(get_language_from_extension("h"), Some("C"));
    assert_eq!(get_language_from_extension("htm"), Some("HTML"));
    assert_eq!(get_language_from_extension("sass"), Some("Sass"));
    assert_eq!(get_language_from_extension("scss"), Some("SCSS"));
    assert_eq!(get_language_from_extension("yml"), Some("YAML"));
    assert_eq!(get_language_from_extension("markdown"), Some("Markdown"));
    assert_eq!(get_language_from_extension("zsh"), Some("Shell"));
    assert_eq!(get_language_from_extension("kts"), Some("Kotlin"));
    assert_eq!(get_language_from_extension("sc"), Some("Scala"));
    assert_eq!(get_language_from_extension("lhs"), Some("Haskell"));
    assert_eq!(get_language_from_extension("exs"), Some("Elixir"));
    assert_eq!(get_language_from_extension("cljc"), Some("Clojure"));
    assert_eq!(get_language_from_extension("r"), Some("R"));
    assert_eq!(get_language_from_extension("gql"), Some("GraphQL"));
    assert_eq!(get_language_from_extension("toml"), Some("TOML"));
    assert_eq!(get_language_from_extension("xml"), Some("XML"));
}

#[test]
fn classification_ignores_case() {
    assert_eq!(get_language_from_extension("RS"), Some("Rust"));
    assert_eq!(get_language_from_extension("Py"), Some("Python"));
    assert_eq!(get_language_from_extension("Html"), Some("HTML"));
}

#[test]
fn lowercase_table_is_case_sensitive() {
    assert_eq!(language_for_lowercase("rs"), Some("Rust"));
    assert_eq!(language_for_lowercase("RS"), None);
    assert_eq!(color_for_lowercase("rust"), "#DEA584");
    assert_eq!(color_for_lowercase("Rust"), "#8B8B8B");
}

#[test]
fn unrecognized_extension_has_no_language() {
    assert_eq!(get_language_from_extension("bin"), None);
    assert_eq!(get_language_from_extension(""), None);
    assert_eq!(get_language_from_extension("png"), None);
    assert_eq!(get_language_from_extension("rss"), None);
}

#[test]
fn colors_of_known_languages() {
    assert_eq!(get_language_color("rust"), "#DEA584");
    assert_eq!(get_language_color("javascript"), "#F7DF1E");
    assert_eq!(get_language_color("js"), "#F7DF1E");
    assert_eq!(get_language_color("ts"), "#3178C6");
    assert_eq!(get_language_color("python"), "#3776AB");
    assert_eq!(get_language_color("go"), "#00ADD8");
    assert_eq!(get_language_color("c++"), "#F34B7D");
    assert_eq!(get_language_color("cpp"), "#F34B7D");
    assert_eq!(get_language_color("c"), "#555555");
    assert_eq!(get_language_color("sass"), "#C6538C");
    assert_eq!(get_language_color("bash"), "#89E051");
    assert_eq!(get_language_color("lua"), "#000080");
    assert_eq!(get_language_color("xml"), "#0060AC");
}

#[test]
fn color_ignores_case() {
    assert_eq!(get_language_color("Rust"), "#DEA584");
    assert_eq!(get_language_color("TypeScript"), "#3178C6");
    assert_eq!(get_language_color("HTML"), "#E34C26");
    assert_eq!(get_language_color("GraphQL"), "#E10098");
}

#[test]
fn unknown_language_gets_the_neutral_color() {
    assert_eq!(get_language_color("Fortran"), "#8B8B8B");
    assert_eq!(get_language_color(""), "#8B8B8B");
}

#[test]
fn every_classified_language_has_a_color_of_seven_characters() {
    for ext in ["rs", "js", "ts", "py", "go", "java", "cpp", "c", "rb", "html", "css"] {
        let language = get_language_from_extension(ext).unwrap();
        let color = get_language_color(language);
        assert_eq!(color.len(), 7);
        assert!(color.starts_with('#'));
        assert_ne!(color, "#8B8B8B");
    }
}
