//! Why an analysis can fail.

use vstd::prelude::*;
use vstd::string::*;

verus! {

/// The four ways an analysis ends without a report. None is retried.
#[derive(Debug)]
pub enum GitError {
    /// The path holds no repository; the text says what opening it met.
    OpenRepo(String),
    /// The walk could not read the root directory.
    Io(String),
    /// The repository has no commit, so it has no age.
    NoCommits,
    /// The path does not exist.
    InvalidPath,
}

pub ghost enum GitErrorView {
    OpenRepo(Seq<char>),
    Io(Seq<char>),
    NoCommits,
    InvalidPath,
}

impl View for GitError {
    type V = GitErrorView;

    open spec fn view(&self) -> GitErrorView {
        match self {
            GitError::OpenRepo(detail) => GitErrorView::OpenRepo(detail@),
            GitError::Io(detail) => GitErrorView::Io(detail@),
            GitError::NoCommits => GitErrorView::NoCommits,
            GitError::InvalidPath => GitErrorView::InvalidPath,
        }
    }
}

/// The sentence that describes an error.
pub open spec fn error_text(e: GitErrorView) -> Seq<char> {
    match e {
        GitErrorView::OpenRepo(detail) => "Failed to open repository: "@ + detail,
        GitErrorView::Io(detail) => "IO error: "@ + detail,
        GitErrorView::NoCommits => "Repository has no commits"@,
        GitErrorView::InvalidPath => "Invalid repository path"@,
    }
}

impl GitError {
    /// The sentence that describes this error.
    pub fn message(&self) -> (text: String)
        ensures
            text@ == error_text(self@),
    {
        match self {
            GitError::OpenRepo(detail) => {
                let mut text = String::from_str("Failed to open repository: ");
                text.append(detail.as_str());
                text
            },
            GitError::Io(detail) => {
                let mut text = String::from_str("IO error: ");
                text.append(detail.as_str());
                text
            },
            GitError::NoCommits => String::from_str("Repository has no commits"),
            GitError::InvalidPath => String::from_str("Invalid repository path"),
        }
    }
}

} // verus!
