//! The accumulation of line counts over the files that a walk met.
//!
//! The walk itself, which reads directories and files, is the caller's. It
//! hands over what it met: each regular file with its path and, where the
//! file could be read as text, its content.

use crate::language::{get_language_from_extension, language_of_lowercase};
use crate::paths::{
    extension, extension_of, is_ignored, parent_of, parent_path, relative_path, relative_to,
    should_ignore,
};
use crate::stats::{
    add_lines, add_to_dirs, dir_lines, dirs_valid, distinct_languages, has_dir, has_language,
    lemma_add_lines,
    lemma_add_to_dirs, lines_of, sum_dir_lines, sum_lines, DirectoryStats, DirectoryView,
    LanguageCountView, LanguageStats,
};
use crate::text::lowercase_of;
use vstd::prelude::*;
use vstd::string::*;

verus! {

/// A regular file that the walk met: its path as walked, and its content
/// where it could be read as text.
#[derive(Debug)]
pub struct SourceFile {
    pub path: String,
    pub content: Option<String>,
}

pub ghost struct SourceFileView {
    pub path: Seq<char>,
    pub content: Option<Seq<char>>,
}

impl View for SourceFile {
    type V = SourceFileView;

    open spec fn view(&self) -> SourceFileView {
        SourceFileView {
            path: self.path@,
            content: match self.content {
                Some(text) => Some(text@),
                None => None,
            },
        }
    }
}

/// The files as models, in the same order.
pub open spec fn files_view(files: Seq<SourceFile>) -> Seq<SourceFileView> {
    Seq::new(files.len(), |k: int| files[k]@)
}

/// The number of line feeds in a text.
pub open spec fn newline_count(text: Seq<char>) -> nat
    decreases text.len(),
{
    if text.len() == 0 {
        0
    } else if text.last() == '\n' {
        newline_count(text.drop_last()) + 1
    } else {
        newline_count(text.drop_last())
    }
}

/// The number of lines of a text: one for each line feed, and one more for
/// a last line that no line feed ends.
pub open spec fn line_count(text: Seq<char>) -> nat {
    if text.len() > 0 && text.last() != '\n' {
        newline_count(text) + 1
    } else {
        newline_count(text)
    }
}

/// The number of lines of a text.
pub fn count_lines(content: &str) -> (lines: u64)
    ensures
        lines as nat == line_count(content@),
{
    let length: usize = content.unicode_len();
    let mut newlines: u64 = 0;
    let mut open_line: bool = false;
    for c in it: content.chars()
        invariant
            it.seq() == content@,
            length == content@.len(),
            newlines as nat == newline_count(content@.take(it.index() as int)),
            newlines <= it.index() <= length,
            open_line ==> newlines < it.index(),
            open_line == (it.index() > 0 && content@[it.index() - 1] != '\n'),
    {
        proof {
            assert(content@.take(it.index() + 1).drop_last() =~= content@.take(it.index() as int));
        }
        if c == '\n' {
            newlines += 1;
            open_line = false;
        } else {
            open_line = true;
        }
    }
    proof {
        assert(content@.take(content@.len() as int) =~= content@);
    }
    if open_line {
        newlines + 1
    } else {
        newlines
    }
}

/// What a file adds to the statistics: its directory relative to the
/// repository root, its language, and its lines.
pub ghost struct CountedFile {
    pub dir: Seq<char>,
    pub language: Seq<char>,
    pub lines: nat,
}

/// The language in which a file at `path` is counted: that of its
/// extension, where the path is not ignored and the language table lists
/// the extension.
pub open spec fn source_language(root: Seq<char>, path: Seq<char>) -> Option<Seq<char>> {
    if should_ignore(relative_to(path, root)) {
        None
    } else {
        match extension(path) {
            Some(ext) => language_of_lowercase(lowercase_of(ext)),
            None => None,
        }
    }
}

/// What a file adds, where it is counted at all: a file with a language
/// whose content could be read. It is counted for the directory that holds
/// it directly.
pub open spec fn counted(root: Seq<char>, file: SourceFileView) -> Option<CountedFile> {
    match (source_language(root, file.path), file.content) {
        (Some(language), Some(text)) => Some(
            CountedFile {
                dir: parent_path(relative_to(file.path, root)),
                language,
                lines: line_count(text),
            },
        ),
        _ => None,
    }
}

/// What a walk has gathered: the lines in all, per language, and per
/// directory.
pub ghost struct WalkView {
    pub total: nat,
    pub languages: Seq<LanguageCountView>,
    pub directories: Seq<DirectoryView>,
}

/// The statistics after one more file.
pub open spec fn walk_step(seen: WalkView, root: Seq<char>, file: SourceFileView) -> WalkView {
    match counted(root, file) {
        Some(c) => WalkView {
            total: seen.total + c.lines,
            languages: add_lines(seen.languages, c.language, c.lines),
            directories: add_to_dirs(seen.directories, c.dir, c.language, c.lines),
        },
        None => seen,
    }
}

/// The statistics of a walk that met `files` in this order.
pub open spec fn walk(root: Seq<char>, files: Seq<SourceFileView>) -> WalkView
    decreases files.len(),
{
    if files.len() == 0 {
        WalkView { total: 0, languages: Seq::empty(), directories: Seq::empty() }
    } else {
        walk_step(walk(root, files.drop_last()), root, files.last())
    }
}

/// The lines of the counted files that lie directly in `dir`.
pub open spec fn lines_directly_in(
    root: Seq<char>,
    files: Seq<SourceFileView>,
    dir: Seq<char>,
) -> nat
    decreases files.len(),
{
    if files.len() == 0 {
        0
    } else {
        lines_directly_in(root, files.drop_last(), dir) + match counted(root, files.last()) {
            Some(c) => if c.dir == dir {
                c.lines
            } else {
                0
            },
            None => 0,
        }
    }
}

/// The lines of the counted files of `language`.
pub open spec fn lines_in_language(
    root: Seq<char>,
    files: Seq<SourceFileView>,
    language: Seq<char>,
) -> nat
    decreases files.len(),
{
    if files.len() == 0 {
        0
    } else {
        lines_in_language(root, files.drop_last(), language) + match counted(root, files.last()) {
            Some(c) => if c.language == language {
                c.lines
            } else {
                0
            },
            None => 0,
        }
    }
}

/// Whether a counted file lies directly in `dir`.
pub open spec fn holds_counted_file(
    root: Seq<char>,
    files: Seq<SourceFileView>,
    dir: Seq<char>,
) -> bool {
    exists|k: int|
        0 <= k < files.len() && (#[trigger] counted(root, files[k])) is Some && counted(
            root,
            files[k],
        )->Some_0.dir == dir
}

/// Whether a counted file is of `language`.
pub open spec fn holds_counted_language(
    root: Seq<char>,
    files: Seq<SourceFileView>,
    language: Seq<char>,
) -> bool {
    exists|k: int|
        0 <= k < files.len() && (#[trigger] counted(root, files[k])) is Some && counted(
            root,
            files[k],
        )->Some_0.language == language
}

/// The total of a walk is the sum of its language counts and the sum of
/// its directory counts; no language and no directory is listed twice, and
/// each directory's count is the sum of its own language counts.
pub proof fn lemma_walk_is_consistent(root: Seq<char>, files: Seq<SourceFileView>)
    ensures
        sum_lines(walk(root, files).languages) == walk(root, files).total,
        sum_dir_lines(walk(root, files).directories) == walk(root, files).total,
        distinct_languages(walk(root, files).languages),
        dirs_valid(walk(root, files).directories),
    decreases files.len(),
{
    if files.len() > 0 {
        let seen = walk(root, files.drop_last());
        lemma_walk_is_consistent(root, files.drop_last());
        match counted(root, files.last()) {
            Some(c) => {
                lemma_add_lines(seen.languages, c.language, c.lines);
                lemma_add_to_dirs(seen.directories, c.dir, c.language, c.lines);
            },
            None => {},
        }
    }
}

/// A directory's count is the sum of the lines of the counted files that
/// lie directly in it: files in directories below it add nothing to it.
/// The directory has a record exactly where such a file exists.
pub proof fn lemma_walk_counts_directories(
    root: Seq<char>,
    files: Seq<SourceFileView>,
    dir: Seq<char>,
)
    ensures
        dir_lines(walk(root, files).directories, dir) == lines_directly_in(root, files, dir),
        has_dir(walk(root, files).directories, dir) == holds_counted_file(root, files, dir),
    decreases files.len(),
{
    if files.len() > 0 {
        let rest = files.drop_last();
        let seen = walk(root, rest);
        lemma_walk_counts_directories(root, rest, dir);
        lemma_walk_is_consistent(root, rest);
        match counted(root, files.last()) {
            Some(c) => {
                lemma_add_to_dirs(seen.directories, c.dir, c.language, c.lines);
            },
            None => {},
        }
        if holds_counted_file(root, rest, dir) {
            let k = choose|k: int|
                0 <= k < rest.len() && (#[trigger] counted(root, rest[k])) is Some && counted(
                    root,
                    rest[k],
                )->Some_0.dir == dir;
            assert(files[k] == rest[k]);
        }
        if holds_counted_file(root, files, dir) {
            let k = choose|k: int|
                0 <= k < files.len() && (#[trigger] counted(root, files[k])) is Some && counted(
                    root,
                    files[k],
                )->Some_0.dir == dir;
            if k < rest.len() {
                assert(files[k] == rest[k]);
            }
        }
        if counted(root, files.last()) is Some && counted(root, files.last())->Some_0.dir == dir {
            assert(files[files.len() - 1] == files.last());
        }
    } else {
        crate::stats::lemma_dir_position(walk(root, files).directories, dir);
    }
}

/// A language's count is the sum of the lines of the counted files of
/// that language. The language is listed exactly where such a file exists.
pub proof fn lemma_walk_counts_languages(
    root: Seq<char>,
    files: Seq<SourceFileView>,
    language: Seq<char>,
)
    ensures
        lines_of(walk(root, files).languages, language) == lines_in_language(
            root,
            files,
            language,
        ),
        has_language(walk(root, files).languages, language) == holds_counted_language(
            root,
            files,
            language,
        ),
    decreases files.len(),
{
    if files.len() > 0 {
        let rest = files.drop_last();
        let seen = walk(root, rest);
        lemma_walk_counts_languages(root, rest, language);
        lemma_walk_is_consistent(root, rest);
        match counted(root, files.last()) {
            Some(c) => {
                lemma_add_lines(seen.languages, c.language, c.lines);
            },
            None => {},
        }
        if holds_counted_language(root, rest, language) {
            let k = choose|k: int|
                0 <= k < rest.len() && (#[trigger] counted(root, rest[k])) is Some && counted(
                    root,
                    rest[k],
                )->Some_0.language == language;
            assert(files[k] == rest[k]);
        }
        if holds_counted_language(root, files, language) {
            let k = choose|k: int|
                0 <= k < files.len() && (#[trigger] counted(root, files[k])) is Some && counted(
                    root,
                    files[k],
                )->Some_0.language == language;
            if k < rest.len() {
                assert(files[k] == rest[k]);
            }
        }
        if counted(root, files.last()) is Some && counted(root, files.last())->Some_0.language
            == language {
            assert(files[files.len() - 1] == files.last());
        }
    }
}

/// A file that is not counted changes nothing, wherever the walk meets
/// it: an ignored file, one whose extension the language table does not
/// list or that has none, and one that could not be read.
pub proof fn lemma_uncounted_file_changes_nothing(
    root: Seq<char>,
    files: Seq<SourceFileView>,
    at: int,
    file: SourceFileView,
)
    requires
        0 <= at <= files.len(),
        counted(root, file) is None,
    ensures
        walk(root, files.insert(at, file)) == walk(root, files),
    decreases files.len(),
{
    let more = files.insert(at, file);
    if at == files.len() {
        assert(more.drop_last() =~= files);
        assert(more.last() == file);
    } else {
        assert(more.drop_last() =~= files.drop_last().insert(at, file));
        assert(more.last() == files.last());
        lemma_uncounted_file_changes_nothing(root, files.drop_last(), at, file);
    }
}

/// A walk of fewer files has counted no more lines.
pub proof fn lemma_walk_total_grows(root: Seq<char>, files: Seq<SourceFileView>, upto: int)
    requires
        0 <= upto <= files.len(),
    ensures
        walk(root, files.take(upto)).total <= walk(root, files).total,
    decreases files.len() - upto,
{
    if upto < files.len() {
        lemma_walk_total_grows(root, files, upto + 1);
        assert(files.take(upto + 1).drop_last() =~= files.take(upto));
    } else {
        assert(files.take(upto) =~= files);
    }
}

/// The language in which a file at `path` would be counted, if in any.
/// A walk needs to read only the files for which there is one.
pub fn language_of_file(path: &str, repo_path: &str) -> (language: Option<&'static str>)
    ensures
        match language {
            Some(l) => source_language(repo_path@, path@) == Some(l@),
            None => source_language(repo_path@, path@) is None,
        },
{
    if is_ignored(path, repo_path) {
        return None;
    }
    match extension_of(path) {
        Some(ext) => get_language_from_extension(ext),
        None => None,
    }
}

/// Gathers the statistics of a walk: the lines of all counted files, the
/// same per language, and per directory that holds a counted file
/// directly. A file is counted where its path is not ignored, the language
/// table lists its extension, and its content could be read.
pub fn analyze_files(repo_path: &str, files: &Vec<SourceFile>) -> (result: (
    u64,
    LanguageStats,
    DirectoryStats,
))
    requires
        walk(repo_path@, files_view(files@)).total <= u64::MAX,
    ensures
        result.0 as nat == walk(repo_path@, files_view(files@)).total,
        result.1@ == walk(repo_path@, files_view(files@)).languages,
        result.2@ == walk(repo_path@, files_view(files@)).directories,
{
    let ghost all = files_view(files@);
    let mut total_lines: u64 = 0;
    let mut language_stats = LanguageStats::new();
    let mut dir_stats = DirectoryStats::new();
    let mut i: usize = 0;
    proof {
        assert(all.take(0) =~= Seq::<SourceFileView>::empty());
    }
    while i < files.len()
        invariant
            i <= files.len(),
            all == files_view(files@),
            walk(repo_path@, all).total <= u64::MAX,
            total_lines as nat == walk(repo_path@, all.take(i as int)).total,
            language_stats@ == walk(repo_path@, all.take(i as int)).languages,
            dir_stats@ == walk(repo_path@, all.take(i as int)).directories,
        decreases files.len() - i,
    {
        proof {
            assert(all.take(i + 1).drop_last() =~= all.take(i as int));
            assert(all.take(i + 1).last() == files@[i as int]@);
            lemma_walk_is_consistent(repo_path@, all.take(i as int));
            lemma_walk_total_grows(repo_path@, all, i + 1);
        }
        let file = &files[i];
        match (language_of_file(file.path.as_str(), repo_path), &file.content) {
            (Some(language), Some(text)) => {
                let lines = count_lines(text.as_str());
                let dir = parent_of(relative_path(file.path.as_str(), repo_path));
                total_lines += lines;
                language_stats.add(language, lines);
                dir_stats.add(dir, language, lines);
            },
            _ => {},
        }
        i += 1;
    }
    proof {
        assert(all.take(i as int) =~= all);
    }
    (total_lines, language_stats, dir_stats)
}

/// The lines that one file adds to a walk: those of its content where it
/// is counted, and none where it is not.
pub open spec fn lines_added(root: Seq<char>, file: SourceFileView) -> nat {
    match counted(root, file) {
        Some(c) => c.lines,
        None => 0,
    }
}

/// The lines that one file adds to a walk.
pub fn lines_added_by(repo_path: &str, file: &SourceFile) -> (lines: u64)
    ensures
        lines as nat == lines_added(repo_path@, file@),
{
    match (language_of_file(file.path.as_str(), repo_path), &file.content) {
        (Some(_), Some(text)) => count_lines(text.as_str()),
        _ => 0,
    }
}

/// The lines that a walk counts in all, where their number fits in 64
/// bits, and nothing where it does not.
pub fn count_walk_lines(repo_path: &str, files: &Vec<SourceFile>) -> (total: Option<u64>)
    ensures
        match total {
            Some(t) => t as nat == walk(repo_path@, files_view(files@)).total,
            None => walk(repo_path@, files_view(files@)).total > u64::MAX,
        },
{
    let ghost all = files_view(files@);
    let mut total: u64 = 0;
    let mut i: usize = 0;
    proof {
        assert(all.take(0) =~= Seq::<SourceFileView>::empty());
    }
    while i < files.len()
        invariant
            i <= files.len(),
            all == files_view(files@),
            total as nat == walk(repo_path@, all.take(i as int)).total,
        decreases files.len() - i,
    {
        proof {
            assert(all.take(i + 1).drop_last() =~= all.take(i as int));
            assert(all.take(i + 1).last() == files@[i as int]@);
            lemma_walk_total_grows(repo_path@, all, i + 1);
        }
        let lines = lines_added_by(repo_path, &files[i]);
        match total.checked_add(lines) {
            Some(sum) => {
                total = sum;
            },
            None => {
                return None;
            },
        }
        i += 1;
    }
    proof {
        assert(all.take(i as int) =~= all);
    }
    Some(total)
}

/// Gathers the statistics of a walk as `analyze_files` does, where the
/// lines that it counts in all fit in 64 bits, and gives nothing where
/// they do not.
pub fn try_analyze_files(repo_path: &str, files: &Vec<SourceFile>) -> (result: Option<
    (u64, LanguageStats, DirectoryStats),
>)
    ensures
        match result {
            Some(found) => {
                &&& found.0 as nat == walk(repo_path@, files_view(files@)).total
                &&& found.1@ == walk(repo_path@, files_view(files@)).languages
                &&& found.2@ == walk(repo_path@, files_view(files@)).directories
            },
            None => walk(repo_path@, files_view(files@)).total > u64::MAX,
        },
{
    match count_walk_lines(repo_path, files) {
        Some(_) => Some(analyze_files(repo_path, files)),
        None => None,
    }
}

} // verus!
