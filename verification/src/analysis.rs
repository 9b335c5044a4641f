//! One analysis from start to end.
//!
//! The caller looks at the outside world: whether the path exists, whether
//! a repository opens there, its commits, and the files of the walk. It
//! hands what it saw over as a snapshot, and the report is made from that.

use crate::breakdown::{
    calculate_language_breakdown, language_breakdown, lemma_breakdown_languages_are_distinct,
    lemma_breakdown_shares,
    lemma_breakdown_sums_to_total, share_is_percentage, sum_breakdown_lines,
};
use crate::error::{GitError, GitErrorView};
use crate::forest_laws::{forest_holds, lemma_forest_nodes_are_records};
use crate::history::{
    age_in_days, days_between, history_view, lemma_age_is_whole_days,
    lemma_directory_age_is_not_negative, lemma_no_directory_is_older, starts_with_oldest, Commit,
    CommitView,
};
use crate::models::{DirectoryNodeView, RepoAnalysis, RepoAnalysisView};
use crate::paths::{file_name, file_name_of};
use crate::tree::{build_directory_tree, forest, node_for};
use crate::walk::{
    analyze_files, count_walk_lines, files_view, lemma_walk_is_consistent, walk, SourceFile,
    SourceFileView,
};
use vstd::prelude::*;
use vstd::string::*;

verus! {

/// What the caller saw of the repository.
#[derive(Debug)]
pub struct RepoSnapshot {
    /// Whether anything exists at the path.
    pub exists: bool,
    /// What opening the repository met, where it did not open.
    pub open_error: Option<String>,
    /// The commits reachable from the branch tip, oldest first.
    pub history: Vec<Commit>,
    /// What reading the root directory met, where it could not be read.
    pub walk_error: Option<String>,
    /// The regular files that the walk met.
    pub files: Vec<SourceFile>,
}

pub ghost struct RepoSnapshotView {
    pub exists: bool,
    pub open_error: Option<Seq<char>>,
    pub history: Seq<CommitView>,
    pub walk_error: Option<Seq<char>>,
    pub files: Seq<SourceFileView>,
}

impl View for RepoSnapshot {
    type V = RepoSnapshotView;

    open spec fn view(&self) -> RepoSnapshotView {
        RepoSnapshotView {
            exists: self.exists,
            open_error: match self.open_error {
                Some(detail) => Some(detail@),
                None => None,
            },
            history: history_view(self.history@),
            walk_error: match self.walk_error {
                Some(detail) => Some(detail@),
                None => None,
            },
            files: files_view(self.files@),
        }
    }
}

/// Why the analysis of a snapshot fails, if it does. The first of these
/// that holds decides: nothing exists at the path; no repository opened;
/// the repository has no commit; the root directory could not be read.
pub open spec fn failure(snapshot: RepoSnapshotView) -> Option<GitErrorView> {
    if !snapshot.exists {
        Some(GitErrorView::InvalidPath)
    } else if snapshot.open_error is Some {
        Some(GitErrorView::OpenRepo(snapshot.open_error->Some_0))
    } else if snapshot.history.len() == 0 {
        Some(GitErrorView::NoCommits)
    } else if snapshot.walk_error is Some {
        Some(GitErrorView::Io(snapshot.walk_error->Some_0))
    } else {
        None
    }
}

/// The name of the repository at a path: the final name of the path, and
/// `unknown` where it has none.
pub open spec fn repository_name(path: Seq<char>) -> Seq<char> {
    match file_name(path) {
        Some(name) => name,
        None => "unknown"@,
    }
}

/// The report of a snapshot that does not fail, at the time `now` and
/// under the identifier `id`.
pub open spec fn report(
    path: Seq<char>,
    snapshot: RepoSnapshotView,
    now: int,
    id: Seq<char>,
) -> RepoAnalysisView {
    let seen = walk(path, snapshot.files);
    RepoAnalysisView {
        id,
        name: repository_name(path),
        path,
        age_days: age_in_days(now, snapshot.history[0].seconds) as nat,
        total_lines: seen.total,
        languages: language_breakdown(seen.languages, seen.total),
        directories: forest(seen.directories, snapshot.history, now),
    }
}

/// The form in which an identifier is written: 36 characters, in five
/// groups that hyphens part.
pub open spec fn is_identifier(id: Seq<char>) -> bool {
    id.len() == 36 && id[8] == '-' && id[13] == '-' && id[18] == '-' && id[23] == '-'
}

/// Calls `chrono::Utc::now` and takes the `timestamp` of what it returns:
/// the seconds since the Unix epoch on the system clock. The contract
/// claims nothing of the number. `Utc::now` does not return where the
/// clock stands before the epoch.
#[verifier::external_body]
fn current_time() -> (now: i64) {
    chrono::Utc::now().timestamp()
}

/// Calls `uuid::Uuid::new_v4` and writes the result out with `to_string`,
/// which gives the hyphenated form. The contract claims its shape only: 36
/// characters with a hyphen at positions 8, 13, 18 and 23. What stands
/// between the hyphens is left to chance, and nothing is claimed of it.
#[verifier::external_body]
fn fresh_id() -> (id: String)
    ensures
        is_identifier(id@),
{
    uuid::Uuid::new_v4().to_string()
}

/// The name of the repository at a path.
pub fn repository_name_of(path: &str) -> (name: String)
    ensures
        name@ == repository_name(path@),
{
    match file_name_of(path) {
        Some(name) => String::from_str(name),
        None => String::from_str("unknown"),
    }
}

/// Tells why a snapshot cannot be analyzed, if it cannot.
pub fn check_snapshot(snapshot: &RepoSnapshot) -> (outcome: Result<(), GitError>)
    ensures
        match outcome {
            Ok(_) => failure(snapshot@) is None,
            Err(e) => failure(snapshot@) == Some(e@),
        },
{
    if !snapshot.exists {
        return Err(GitError::InvalidPath);
    }
    if let Some(detail) = &snapshot.open_error {
        return Err(GitError::OpenRepo(detail.clone()));
    }
    if snapshot.history.len() == 0 {
        return Err(GitError::NoCommits);
    }
    if let Some(detail) = &snapshot.walk_error {
        return Err(GitError::Io(detail.clone()));
    }
    Ok(())
}

/// Makes the report of a snapshot at a given time and under a given
/// identifier, or tells why there is none.
pub fn assemble_analysis(path: &str, snapshot: &RepoSnapshot, now: i64, id: String) -> (outcome:
    Result<RepoAnalysis, GitError>)
    requires
        failure(snapshot@) is None ==> walk(path@, files_view(snapshot.files@)).total <= u64::MAX,
    ensures
        match outcome {
            Ok(analysis) => failure(snapshot@) is None && analysis@ == report(
                path@,
                snapshot@,
                now as int,
                id@,
            ),
            Err(e) => failure(snapshot@) == Some(e@),
        },
{
    match check_snapshot(snapshot) {
        Err(e) => Err(e),
        Ok(_) => {
            let age_days = days_between(now, snapshot.history[0].seconds);
            let (total_lines, language_stats, dir_stats) = analyze_files(path, &snapshot.files);
            let directories = build_directory_tree(&dir_stats, &snapshot.history, now);
            let languages = calculate_language_breakdown(&language_stats, total_lines);
            Ok(
                RepoAnalysis {
                    id,
                    name: repository_name_of(path),
                    path: String::from_str(path),
                    age_days,
                    total_lines,
                    languages,
                    directories,
                },
            )
        },
    }
}

/// Analyzes the repository at `path` as the snapshot shows it. A snapshot
/// that fails gives its error and no report; the walk is not looked at
/// then. Of any other the report is that of the snapshot at the time of
/// the call, under a new identifier.
pub fn analyze_repository(path: &str, snapshot: &RepoSnapshot) -> (outcome: Result<
    RepoAnalysis,
    GitError,
>)
    requires
        failure(snapshot@) is None ==> walk(path@, files_view(snapshot.files@)).total <= u64::MAX,
    ensures
        match outcome {
            Ok(analysis) => failure(snapshot@) is None && exists|now: int, id: Seq<char>|
                is_identifier(id) && analysis@ == #[trigger] report(path@, snapshot@, now, id),
            Err(e) => failure(snapshot@) == Some(e@),
        },
{
    match check_snapshot(snapshot) {
        Err(e) => Err(e),
        Ok(_) => {
            let now = current_time();
            let id = fresh_id();
            let outcome = assemble_analysis(path, snapshot, now, id);
            proof {
                if outcome is Ok {
                    assert(is_identifier(id@) && outcome->Ok_0@ == report(
                        path@,
                        snapshot@,
                        now as int,
                        id@,
                    ));
                }
            }
            outcome
        },
    }
}

/// Analyzes the repository as `analyze_repository` does. It gives nothing
/// in one case only: the snapshot does not fail, and the lines that the
/// walk counts in all do not fit in 64 bits.
pub fn try_analyze_repository(path: &str, snapshot: &RepoSnapshot) -> (outcome: Option<
    Result<RepoAnalysis, GitError>,
>)
    ensures
        match outcome {
            Some(Ok(analysis)) => failure(snapshot@) is None && exists|now: int, id: Seq<char>|
                is_identifier(id) && analysis@ == #[trigger] report(path@, snapshot@, now, id),
            Some(Err(e)) => failure(snapshot@) == Some(e@),
            None => failure(snapshot@) is None && walk(path@, snapshot@.files).total > u64::MAX,
        },
{
    match check_snapshot(snapshot) {
        Err(e) => Some(Err(e)),
        Ok(_) => match count_walk_lines(path, &snapshot.files) {
            Some(_) => Some(analyze_repository(path, snapshot)),
            None => None,
        },
    }
}

/// In every report, the total is the sum of the lines of its language
/// breakdown.
pub proof fn lemma_report_total_is_sum(
    path: Seq<char>,
    snapshot: RepoSnapshotView,
    now: int,
    id: Seq<char>,
)
    ensures
        sum_breakdown_lines(report(path, snapshot, now, id).languages) == report(
            path,
            snapshot,
            now,
            id,
        ).total_lines,
{
    lemma_walk_is_consistent(path, snapshot.files);
    let seen = walk(path, snapshot.files);
    lemma_breakdown_sums_to_total(seen.languages, seen.total);
}

/// In every report, the language breakdown is empty exactly where no line
/// was counted, and each of its entries has a share between 0 and 100
/// percent.
pub proof fn lemma_report_shares(
    path: Seq<char>,
    snapshot: RepoSnapshotView,
    now: int,
    id: Seq<char>,
)
    ensures
        report(path, snapshot, now, id).languages.len() == 0 <==> report(
            path,
            snapshot,
            now,
            id,
        ).total_lines == 0,
        forall|k: int|
            0 <= k < report(path, snapshot, now, id).languages.len() ==> share_is_percentage(
                #[trigger] report(path, snapshot, now, id).languages[k],
            ),
{
    lemma_walk_is_consistent(path, snapshot.files);
    let seen = walk(path, snapshot.files);
    lemma_breakdown_shares(seen.languages, seen.total);
}

/// In every report, no language stands twice in the language breakdown.
pub proof fn lemma_report_languages_are_distinct(
    path: Seq<char>,
    snapshot: RepoSnapshotView,
    now: int,
    id: Seq<char>,
)
    ensures
        forall|i: int, j: int|
            0 <= i < j < report(path, snapshot, now, id).languages.len() ==> report(
                path,
                snapshot,
                now,
                id,
            ).languages[i].language != report(path, snapshot, now, id).languages[j].language,
{
    lemma_walk_is_consistent(path, snapshot.files);
    let seen = walk(path, snapshot.files);
    lemma_breakdown_languages_are_distinct(seen.languages, seen.total);
}

/// In every report of a history that starts with its oldest commit, no
/// directory of the forest is older than the repository.
pub proof fn lemma_report_ages(
    path: Seq<char>,
    snapshot: RepoSnapshotView,
    now: int,
    id: Seq<char>,
    target: DirectoryNodeView,
)
    requires
        snapshot.history.len() > 0,
        starts_with_oldest(snapshot.history),
        forest_holds(report(path, snapshot, now, id).directories, target),
    ensures
        target.age_days <= report(path, snapshot, now, id).age_days,
{
    let dirs = walk(path, snapshot.files).directories;
    lemma_forest_nodes_are_records(dirs, snapshot.history, now, target);
    let j = choose|j: int|
        0 <= j < dirs.len() && target == #[trigger] node_for(dirs, snapshot.history, now, j);
    lemma_directory_age_is_not_negative(snapshot.history, dirs[j].path, now);
    lemma_no_directory_is_older(snapshot.history, dirs[j].path, now);
    lemma_age_is_whole_days(now, snapshot.history[0].seconds);
}

} // verus!
