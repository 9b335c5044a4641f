//! Commit history as plain values, and the age of a path in it.
//!
//! A history lists the commits reachable from the branch tip, oldest first.
//! Each commit carries its time and the paths that its tree holds.

use crate::error::GitError;
use crate::text::str_eq;
use vstd::prelude::*;

verus! {

/// One commit: its time in seconds since the Unix epoch, and the paths,
/// relative to the repository root, at which its tree has an entry.
#[derive(Debug)]
pub struct Commit {
    pub seconds: i64,
    pub paths: Vec<String>,
}

pub ghost struct CommitView {
    pub seconds: int,
    pub paths: Seq<Seq<char>>,
}

impl View for Commit {
    type V = CommitView;

    open spec fn view(&self) -> CommitView {
        CommitView {
            seconds: self.seconds as int,
            paths: Seq::new(self.paths@.len(), |k: int| self.paths@[k]@),
        }
    }
}

/// The commits of a history as models, in the same order.
pub open spec fn history_view(history: Seq<Commit>) -> Seq<CommitView> {
    Seq::new(history.len(), |k: int| history[k]@)
}

/// Whole days from `then` to `now`, rounded down, and 0 where `then` lies
/// after `now`: what is dated in the future has no age yet.
pub open spec fn age_in_days(now: int, then: int) -> int {
    if now >= then {
        (now - then) / 86400
    } else {
        0
    }
}

/// Whether a commit touches a path: every commit touches the root, the
/// empty path; any other path it touches where its tree has an entry there.
pub open spec fn touches(commit: CommitView, path: Seq<char>) -> bool {
    path.len() == 0 || commit.paths.contains(path)
}

/// The age in days of the oldest commit that touches the path, and 0 where
/// no commit does.
pub open spec fn directory_age(history: Seq<CommitView>, path: Seq<char>, now: int) -> int
    decreases history.len(),
{
    if history.len() == 0 {
        0
    } else if touches(history[0], path) {
        age_in_days(now, history[0].seconds)
    } else {
        directory_age(history.skip(1), path, now)
    }
}

/// Whole days between two times, as `age_in_days` defines them.
pub fn days_between(now: i64, then: i64) -> (days: u64)
    ensures
        days as int == age_in_days(now as int, then as int),
{
    let wide_now: i128 = now as i128;
    let wide_then: i128 = then as i128;
    if wide_now >= wide_then {
        let days: i128 = (wide_now - wide_then) / 86400;
        days as u64
    } else {
        0
    }
}

/// The age of the repository: that of its oldest commit. A history
/// without commits has no age.
pub fn get_repo_age_days(history: &Vec<Commit>, now: i64) -> (age: Result<u64, GitError>)
    ensures
        history@.len() == 0 ==> age is Err && age->Err_0@ == crate::error::GitErrorView::NoCommits,
        history@.len() > 0 ==> age is Ok && age->Ok_0 as int == age_in_days(
            now as int,
            history@[0].seconds as int,
        ),
{
    if history.len() == 0 {
        Err(GitError::NoCommits)
    } else {
        Ok(days_between(now, history[0].seconds))
    }
}

/// Whether the list holds the path.
fn holds_path(paths: &Vec<String>, path: &str) -> (found: bool)
    ensures
        found == Seq::new(paths@.len(), |k: int| paths@[k]@).contains(path@),
{
    let ghost listed = Seq::new(paths@.len(), |k: int| paths@[k]@);
    let mut i: usize = 0;
    while i < paths.len()
        invariant
            i <= paths.len(),
            listed == Seq::new(paths@.len(), |k: int| paths@[k]@),
            forall|m: int| 0 <= m < i ==> listed[m] != path@,
        decreases paths.len() - i,
    {
        if str_eq(paths[i].as_str(), path) {
            assert(listed[i as int] == path@);
            return true;
        }
        i += 1;
    }
    false
}

/// The age in days of a directory: that of the oldest commit that touches
/// it, and 0 where none does. The empty path is the repository root, which
/// every commit touches.
pub fn get_directory_age(history: &Vec<Commit>, dir_path: &str, now: i64) -> (age: u64)
    ensures
        age as int == directory_age(history_view(history@), dir_path@, now as int),
{
    let ghost all = history_view(history@);
    let mut i: usize = 0;
    proof {
        assert(all.skip(0) =~= all);
    }
    while i < history.len()
        invariant
            i <= history.len(),
            all == history_view(history@),
            directory_age(all, dir_path@, now as int) == directory_age(
                all.skip(i as int),
                dir_path@,
                now as int,
            ),
        decreases history.len() - i,
    {
        proof {
            assert(all.skip(i as int)[0] == history@[i as int]@);
            assert(all.skip(i as int).skip(1) =~= all.skip(i + 1));
        }
        if dir_path.is_empty() || holds_path(&history[i].paths, dir_path) {
            return days_between(now, history[i].seconds);
        }
        i += 1;
    }
    0
}

/// Whether the first commit of a history is its oldest, as it is in a
/// history that lists its commits oldest first.
pub open spec fn starts_with_oldest(history: Seq<CommitView>) -> bool {
    forall|k: int| 0 <= k < history.len() ==> history[0].seconds <= (#[trigger] history[k]).seconds
}

/// An age is a count of whole days between the two times: it is not
/// negative, that many days fit between `then` and `now`, and one more
/// does not. Of a time after `now` it is 0.
pub proof fn lemma_age_is_whole_days(now: int, then: int)
    ensures
        0 <= age_in_days(now, then),
        now >= then ==> age_in_days(now, then) * 86400 <= now - then < (age_in_days(now, then)
            + 1) * 86400,
        now < then ==> age_in_days(now, then) == 0,
{
}

/// As time goes on, the age counted from a fixed commit does not go down.
pub proof fn lemma_age_is_monotonic(oldest: int, earlier: int, later: int)
    requires
        earlier <= later,
    ensures
        age_in_days(earlier, oldest) <= age_in_days(later, oldest),
{
}

/// With the history fixed, the age of the repository does not go down as
/// time goes on.
pub proof fn lemma_repo_age_is_monotonic(history: Seq<CommitView>, earlier: int, later: int)
    requires
        history.len() > 0,
        earlier <= later,
    ensures
        age_in_days(earlier, history[0].seconds) <= age_in_days(later, history[0].seconds),
        directory_age(history, Seq::empty(), earlier) <= directory_age(
            history,
            Seq::empty(),
            later,
        ),
{
    lemma_age_is_monotonic(history[0].seconds, earlier, later);
}

/// No path has a negative age.
pub proof fn lemma_directory_age_is_not_negative(
    history: Seq<CommitView>,
    path: Seq<char>,
    now: int,
)
    ensures
        0 <= directory_age(history, path, now),
    decreases history.len(),
{
    if history.len() > 0 && !touches(history[0], path) {
        lemma_directory_age_is_not_negative(history.skip(1), path, now);
    }
}

/// No path is older than what is older than every commit.
proof fn lemma_directory_age_bound(
    history: Seq<CommitView>,
    path: Seq<char>,
    now: int,
    oldest: int,
)
    requires
        forall|k: int| 0 <= k < history.len() ==> oldest <= (#[trigger] history[k]).seconds,
    ensures
        directory_age(history, path, now) <= age_in_days(now, oldest),
    decreases history.len(),
{
    if history.len() > 0 {
        assert(oldest <= history[0].seconds);
        if !touches(history[0], path) {
            let rest = history.skip(1);
            assert forall|k: int| 0 <= k < rest.len() implies oldest <= (
            #[trigger] rest[k]).seconds by {
                assert(rest[k] == history[k + 1]);
            }
            lemma_directory_age_bound(rest, path, now, oldest);
        }
    }
}

/// The age of the root is the age of the repository, and no directory is
/// older than the repository, in a history that starts with its oldest
/// commit.
pub proof fn lemma_no_directory_is_older(history: Seq<CommitView>, path: Seq<char>, now: int)
    requires
        history.len() > 0,
        starts_with_oldest(history),
    ensures
        directory_age(history, Seq::empty(), now) == age_in_days(now, history[0].seconds),
        directory_age(history, path, now) <= directory_age(history, Seq::empty(), now),
{
    lemma_directory_age_bound(history, path, now, history[0].seconds);
}

} // verus!
