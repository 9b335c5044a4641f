//! The language table: which language an extension belongs to, and the
//! display color of each language.

use crate::text::{lowercase_of, str_eq, to_lowercase};
use vstd::prelude::*;

verus! {

/// The color shown for languages that the table does not list.
pub open spec fn neutral_color() -> Seq<char> {
    "#8B8B8B"@
}

/// The display color of a language, by its name or short name in lower case.
pub open spec fn color_of_lowercase(name: Seq<char>) -> Seq<char> {
    if name == "rust"@ {
        "#DEA584"@
    } else     if name == "javascript"@ || name == "js"@ {
        "#F7DF1E"@
    } else     if name == "typescript"@ || name == "ts"@ {
        "#3178C6"@
    } else     if name == "python"@ || name == "py"@ {
        "#3776AB"@
    } else     if name == "go"@ {
        "#00ADD8"@
    } else     if name == "java"@ {
        "#B07219"@
    } else     if name == "c++"@ || name == "cpp"@ {
        "#F34B7D"@
    } else     if name == "c"@ {
        "#555555"@
    } else     if name == "ruby"@ || name == "rb"@ {
        "#CC342D"@
    } else     if name == "html"@ {
        "#E34C26"@
    } else     if name == "css"@ {
        "#563D7C"@
    } else     if name == "scss"@ || name == "sass"@ {
        "#C6538C"@
    } else     if name == "json"@ {
        "#292929"@
    } else     if name == "yaml"@ || name == "yml"@ {
        "#CB171E"@
    } else     if name == "markdown"@ || name == "md"@ {
        "#083FA1"@
    } else     if name == "shell"@ || name == "sh"@ || name == "bash"@ {
        "#89E051"@
    } else     if name == "php"@ {
        "#4F5D95"@
    } else     if name == "swift"@ {
        "#F05138"@
    } else     if name == "kotlin"@ {
        "#A97BFF"@
    } else     if name == "scala"@ {
        "#DC322F"@
    } else     if name == "haskell"@ || name == "hs"@ {
        "#5E5086"@
    } else     if name == "elixir"@ || name == "ex"@ {
        "#6E4A7E"@
    } else     if name == "clojure"@ || name == "clj"@ {
        "#DB5855"@
    } else     if name == "lua"@ {
        "#000080"@
    } else     if name == "r"@ {
        "#198CE7"@
    } else     if name == "dart"@ {
        "#00B4AB"@
    } else     if name == "vue"@ {
        "#41B883"@
    } else     if name == "svelte"@ {
        "#FF3E00"@
    } else     if name == "sql"@ {
        "#E38C00"@
    } else     if name == "graphql"@ || name == "gql"@ {
        "#E10098"@
    } else     if name == "toml"@ {
        "#9C4221"@
    } else     if name == "xml"@ {
        "#0060AC"@
    } else {
        neutral_color()
    }
}

/// The language that an extension in lower case belongs to, where the table
/// lists it. Files with any other extension are never counted.
pub open spec fn language_of_lowercase(ext: Seq<char>) -> Option<Seq<char>> {
    if ext == "rs"@ {
        Some("Rust"@)
    } else     if ext == "js"@ || ext == "mjs"@ || ext == "cjs"@ {
        Some("JavaScript"@)
    } else     if ext == "ts"@ || ext == "mts"@ || ext == "cts"@ {
        Some("TypeScript"@)
    } else     if ext == "tsx"@ {
        Some("TypeScript"@)
    } else     if ext == "jsx"@ {
        Some("JavaScript"@)
    } else     if ext == "py"@ || ext == "pyw"@ {
        Some("Python"@)
    } else     if ext == "go"@ {
        Some("Go"@)
    } else     if ext == "java"@ {
        Some("Java"@)
    } else     if ext == "cpp"@ || ext == "cc"@ || ext == "cxx"@ || ext == "c++"@ {
        Some("C++"@)
    } else     if ext == "c"@ || ext == "h"@ {
        Some("C"@)
    } else     if ext == "hpp"@ || ext == "hxx"@ || ext == "hh"@ {
        Some("C++"@)
    } else     if ext == "rb"@ {
        Some("Ruby"@)
    } else     if ext == "html"@ || ext == "htm"@ {
        Some("HTML"@)
    } else     if ext == "css"@ {
        Some("CSS"@)
    } else     if ext == "scss"@ {
        Some("SCSS"@)
    } else     if ext == "sass"@ {
        Some("Sass"@)
    } else     if ext == "json"@ {
        Some("JSON"@)
    } else     if ext == "yaml"@ || ext == "yml"@ {
        Some("YAML"@)
    } else     if ext == "md"@ || ext == "markdown"@ {
        Some("Markdown"@)
    } else     if ext == "sh"@ || ext == "bash"@ || ext == "zsh"@ {
        Some("Shell"@)
    } else     if ext == "php"@ {
        Some("PHP"@)
    } else     if ext == "swift"@ {
        Some("Swift"@)
    } else     if ext == "kt"@ || ext == "kts"@ {
        Some("Kotlin"@)
    } else     if ext == "scala"@ || ext == "sc"@ {
        Some("Scala"@)
    } else     if ext == "hs"@ || ext == "lhs"@ {
        Some("Haskell"@)
    } else     if ext == "ex"@ || ext == "exs"@ {
        Some("Elixir"@)
    } else     if ext == "clj"@ || ext == "cljs"@ || ext == "cljc"@ {
        Some("Clojure"@)
    } else     if ext == "lua"@ {
        Some("Lua"@)
    } else     if ext == "r"@ {
        Some("R"@)
    } else     if ext == "dart"@ {
        Some("Dart"@)
    } else     if ext == "vue"@ {
        Some("Vue"@)
    } else     if ext == "svelte"@ {
        Some("Svelte"@)
    } else     if ext == "sql"@ {
        Some("SQL"@)
    } else     if ext == "graphql"@ || ext == "gql"@ {
        Some("GraphQL"@)
    } else     if ext == "toml"@ {
        Some("TOML"@)
    } else     if ext == "xml"@ {
        Some("XML"@)
    } else {
        None
    }
}

/// The display color for a language name that is already in lower case.
pub fn color_for_lowercase(name: &str) -> (color: &'static str)
    ensures
        color@ == color_of_lowercase(name@),
{
    if str_eq(name, "rust") {
        "#DEA584"
    } else     if str_eq(name, "javascript") || str_eq(name, "js") {
        "#F7DF1E"
    } else     if str_eq(name, "typescript") || str_eq(name, "ts") {
        "#3178C6"
    } else     if str_eq(name, "python") || str_eq(name, "py") {
        "#3776AB"
    } else     if str_eq(name, "go") {
        "#00ADD8"
    } else     if str_eq(name, "java") {
        "#B07219"
    } else     if str_eq(name, "c++") || str_eq(name, "cpp") {
        "#F34B7D"
    } else     if str_eq(name, "c") {
        "#555555"
    } else     if str_eq(name, "ruby") || str_eq(name, "rb") {
        "#CC342D"
    } else     if str_eq(name, "html") {
        "#E34C26"
    } else     if str_eq(name, "css") {
        "#563D7C"
    } else     if str_eq(name, "scss") || str_eq(name, "sass") {
        "#C6538C"
    } else     if str_eq(name, "json") {
        "#292929"
    } else     if str_eq(name, "yaml") || str_eq(name, "yml") {
        "#CB171E"
    } else     if str_eq(name, "markdown") || str_eq(name, "md") {
        "#083FA1"
    } else     if str_eq(name, "shell") || str_eq(name, "sh") || str_eq(name, "bash") {
        "#89E051"
    } else     if str_eq(name, "php") {
        "#4F5D95"
    } else     if str_eq(name, "swift") {
        "#F05138"
    } else     if str_eq(name, "kotlin") {
        "#A97BFF"
    } else     if str_eq(name, "scala") {
        "#DC322F"
    } else     if str_eq(name, "haskell") || str_eq(name, "hs") {
        "#5E5086"
    } else     if str_eq(name, "elixir") || str_eq(name, "ex") {
        "#6E4A7E"
    } else     if str_eq(name, "clojure") || str_eq(name, "clj") {
        "#DB5855"
    } else     if str_eq(name, "lua") {
        "#000080"
    } else     if str_eq(name, "r") {
        "#198CE7"
    } else     if str_eq(name, "dart") {
        "#00B4AB"
    } else     if str_eq(name, "vue") {
        "#41B883"
    } else     if str_eq(name, "svelte") {
        "#FF3E00"
    } else     if str_eq(name, "sql") {
        "#E38C00"
    } else     if str_eq(name, "graphql") || str_eq(name, "gql") {
        "#E10098"
    } else     if str_eq(name, "toml") {
        "#9C4221"
    } else     if str_eq(name, "xml") {
        "#0060AC"
    } else {
        "#8B8B8B"
    }
}

/// The language for an extension that is already in lower case.
pub fn language_for_lowercase(ext: &str) -> (language: Option<&'static str>)
    ensures
        match language {
            Some(l) => language_of_lowercase(ext@) == Some(l@),
            None => language_of_lowercase(ext@) is None,
        },
{
    if str_eq(ext, "rs") {
        Some("Rust")
    } else     if str_eq(ext, "js") || str_eq(ext, "mjs") || str_eq(ext, "cjs") {
        Some("JavaScript")
    } else     if str_eq(ext, "ts") || str_eq(ext, "mts") || str_eq(ext, "cts") {
        Some("TypeScript")
    } else     if str_eq(ext, "tsx") {
        Some("TypeScript")
    } else     if str_eq(ext, "jsx") {
        Some("JavaScript")
    } else     if str_eq(ext, "py") || str_eq(ext, "pyw") {
        Some("Python")
    } else     if str_eq(ext, "go") {
        Some("Go")
    } else     if str_eq(ext, "java") {
        Some("Java")
    } else     if str_eq(ext, "cpp") || str_eq(ext, "cc") || str_eq(ext, "cxx") || str_eq(ext, "c++") {
        Some("C++")
    } else     if str_eq(ext, "c") || str_eq(ext, "h") {
        Some("C")
    } else     if str_eq(ext, "hpp") || str_eq(ext, "hxx") || str_eq(ext, "hh") {
        Some("C++")
    } else     if str_eq(ext, "rb") {
        Some("Ruby")
    } else     if str_eq(ext, "html") || str_eq(ext, "htm") {
        Some("HTML")
    } else     if str_eq(ext, "css") {
        Some("CSS")
    } else     if str_eq(ext, "scss") {
        Some("SCSS")
    } else     if str_eq(ext, "sass") {
        Some("Sass")
    } else     if str_eq(ext, "json") {
        Some("JSON")
    } else     if str_eq(ext, "yaml") || str_eq(ext, "yml") {
        Some("YAML")
    } else     if str_eq(ext, "md") || str_eq(ext, "markdown") {
        Some("Markdown")
    } else     if str_eq(ext, "sh") || str_eq(ext, "bash") || str_eq(ext, "zsh") {
        Some("Shell")
    } else     if str_eq(ext, "php") {
        Some("PHP")
    } else     if str_eq(ext, "swift") {
        Some("Swift")
    } else     if str_eq(ext, "kt") || str_eq(ext, "kts") {
        Some("Kotlin")
    } else     if str_eq(ext, "scala") || str_eq(ext, "sc") {
        Some("Scala")
    } else     if str_eq(ext, "hs") || str_eq(ext, "lhs") {
        Some("Haskell")
    } else     if str_eq(ext, "ex") || str_eq(ext, "exs") {
        Some("Elixir")
    } else     if str_eq(ext, "clj") || str_eq(ext, "cljs") || str_eq(ext, "cljc") {
        Some("Clojure")
    } else     if str_eq(ext, "lua") {
        Some("Lua")
    } else     if str_eq(ext, "r") {
        Some("R")
    } else     if str_eq(ext, "dart") {
        Some("Dart")
    } else     if str_eq(ext, "vue") {
        Some("Vue")
    } else     if str_eq(ext, "svelte") {
        Some("Svelte")
    } else     if str_eq(ext, "sql") {
        Some("SQL")
    } else     if str_eq(ext, "graphql") || str_eq(ext, "gql") {
        Some("GraphQL")
    } else     if str_eq(ext, "toml") {
        Some("TOML")
    } else     if str_eq(ext, "xml") {
        Some("XML")
    } else {
        None
    }
}

/// The display color of a language, whatever the case of its name; the
/// neutral color for a language that the table does not list.
pub fn get_language_color(language: &str) -> (color: &'static str)
    ensures
        color@ == color_of_lowercase(lowercase_of(language@)),
{
    let lower = to_lowercase(language);
    color_for_lowercase(lower.as_str())
}

/// The language that a file extension belongs to, whatever its case; none
/// for an extension that the table does not list.
pub fn get_language_from_extension(ext: &str) -> (language: Option<&'static str>)
    ensures
        match language {
            Some(l) => language_of_lowercase(lowercase_of(ext@)) == Some(l@),
            None => language_of_lowercase(lowercase_of(ext@)) is None,
        },
{
    let lower = to_lowercase(ext);
    language_for_lowercase(lower.as_str())
}

} // verus!
