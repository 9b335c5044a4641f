//! The report types.

use vstd::prelude::*;

verus! {

/// One language's share of a line total. The percentage is not stored: it
/// is `lines` out of `total`, and is worked out from the two where it is
/// shown.
#[derive(Debug)]
pub struct LanguageBreakdown {
    pub language: String,
    pub lines: u64,
    pub total: u64,
    pub color: String,
}

pub ghost struct LanguageBreakdownView {
    pub language: Seq<char>,
    pub lines: nat,
    pub total: nat,
    pub color: Seq<char>,
}

impl View for LanguageBreakdown {
    type V = LanguageBreakdownView;

    open spec fn view(&self) -> LanguageBreakdownView {
        LanguageBreakdownView {
            language: self.language@,
            lines: self.lines as nat,
            total: self.total as nat,
            color: self.color@,
        }
    }
}

/// The entries as models, in the same order.
pub open spec fn breakdown_view(entries: Seq<LanguageBreakdown>) -> Seq<LanguageBreakdownView> {
    Seq::new(entries.len(), |k: int| entries[k]@)
}

/// The key by which breakdowns are ordered: the line count.
pub open spec fn by_lines() -> spec_fn(LanguageBreakdownView) -> int {
    |entry: LanguageBreakdownView| entry.lines as int
}

/// A directory of the forest. Its line count and its languages are those
/// of the files that lie directly in it; what its children hold is not
/// added in.
#[derive(Debug)]
pub struct DirectoryNode {
    pub name: String,
    pub path: String,
    pub age_days: u64,
    pub lines: u64,
    pub languages: Vec<LanguageBreakdown>,
    pub children: Vec<DirectoryNode>,
}

pub ghost struct DirectoryNodeView {
    pub name: Seq<char>,
    pub path: Seq<char>,
    pub age_days: nat,
    pub lines: nat,
    pub languages: Seq<LanguageBreakdownView>,
    pub children: Seq<DirectoryNodeView>,
}

/// The model of a node: its own fields and the models of its children.
pub open spec fn node_view(node: DirectoryNode) -> DirectoryNodeView
    decreases node,
{
    DirectoryNodeView {
        name: node.name@,
        path: node.path@,
        age_days: node.age_days as nat,
        lines: node.lines as nat,
        languages: breakdown_view(node.languages@),
        children: Seq::new(
            node.children@.len(),
            |k: int|
                if 0 <= k < node.children@.len() {
                    node_view(node.children@[k])
                } else {
                    arbitrary()
                },
        ),
    }
}

impl View for DirectoryNode {
    type V = DirectoryNodeView;

    open spec fn view(&self) -> DirectoryNodeView {
        node_view(*self)
    }
}

/// The nodes as models, in the same order.
pub open spec fn nodes_view(nodes: Seq<DirectoryNode>) -> Seq<DirectoryNodeView> {
    Seq::new(nodes.len(), |k: int| nodes[k]@)
}

/// The key by which the nodes of one level are ordered: the line count.
pub open spec fn by_node_lines() -> spec_fn(DirectoryNodeView) -> int {
    |node: DirectoryNodeView| node.lines as int
}

/// The children of a node's model are the models of its children.
pub proof fn lemma_children_view(node: DirectoryNode)
    ensures
        node@.children == nodes_view(node.children@),
{
    assert(node@.children =~= nodes_view(node.children@));
}

/// The report of one analysis. It is made once and not changed after.
#[derive(Debug)]
pub struct RepoAnalysis {
    pub id: String,
    pub name: String,
    pub path: String,
    pub age_days: u64,
    pub total_lines: u64,
    pub languages: Vec<LanguageBreakdown>,
    pub directories: Vec<DirectoryNode>,
}

pub ghost struct RepoAnalysisView {
    pub id: Seq<char>,
    pub name: Seq<char>,
    pub path: Seq<char>,
    pub age_days: nat,
    pub total_lines: nat,
    pub languages: Seq<LanguageBreakdownView>,
    pub directories: Seq<DirectoryNodeView>,
}

impl View for RepoAnalysis {
    type V = RepoAnalysisView;

    open spec fn view(&self) -> RepoAnalysisView {
        RepoAnalysisView {
            id: self.id@,
            name: self.name@,
            path: self.path@,
            age_days: self.age_days as nat,
            total_lines: self.total_lines as nat,
            languages: breakdown_view(self.languages@),
            directories: nodes_view(self.directories@),
        }
    }
}

/// A request to analyze the repository at a local path.
#[derive(Debug)]
pub struct AnalyzeLocalRequest {
    pub path: String,
}

/// A request to analyze a repository hosted on GitHub.
#[derive(Debug)]
pub struct AnalyzeGithubRequest {
    pub owner: String,
    pub repo: String,
}

/// What a failed request is answered with.
#[derive(Debug)]
pub struct ErrorResponse {
    pub error: String,
}

} // verus!
