//! The directory forest: the directories of a walk, each under its parent.
//!
//! A directory hangs under the directory that holds it where that one has
//! a record of its own. Where it has none, because no counted file lies
//! directly in it, the directory is promoted to the top level instead of
//! being dropped. Every level is in descending order of lines.

use crate::breakdown::{calculate_language_breakdown, language_breakdown};
use crate::history::{directory_age, get_directory_age, history_view, Commit, CommitView};
use crate::models::{
    breakdown_view, by_node_lines, lemma_children_view, nodes_view, DirectoryNode,
    DirectoryNodeView,
};
use crate::order::{
    insert_descending, lemma_insertion_point_unique, sort_descending,
};
use crate::paths::{file_name, file_name_of, lemma_parent_is_shorter, parent_of, parent_path};
use crate::stats::{dir_position, has_dir, DirectoryStats, DirectoryView};
use crate::text::str_eq;
use vstd::prelude::*;
use vstd::string::*;

verus! {

/// The name under which the repository root is shown.
pub open spec fn root_label() -> Seq<char> {
    "(root)"@
}

/// The name under which a directory is shown: the final name of its path,
/// the whole path where it has no final name, and the root label where
/// that leaves nothing.
pub open spec fn display_name(path: Seq<char>) -> Seq<char> {
    let name = match file_name(path) {
        Some(name) => name,
        None => path,
    };
    if name.len() == 0 {
        root_label()
    } else {
        name
    }
}

/// Whether the directory at `child` lies directly in the one at `parent`.
/// The root, whose path is empty, lies in no directory.
pub open spec fn is_child_path(child: Seq<char>, parent: Seq<char>) -> bool {
    child.len() > 0 && parent_path(child) == parent
}

/// The length of the longest path among the records.
pub open spec fn longest_path(dirs: Seq<DirectoryView>) -> nat
    decreases dirs.len(),
{
    if dirs.len() == 0 {
        0
    } else if dirs.last().path.len() > longest_path(dirs.drop_last()) {
        dirs.last().path.len()
    } else {
        longest_path(dirs.drop_last())
    }
}

/// No path is longer than the longest.
pub proof fn lemma_longest_path(dirs: Seq<DirectoryView>, k: int)
    requires
        0 <= k < dirs.len(),
    ensures
        dirs[k].path.len() <= longest_path(dirs),
    decreases dirs.len(),
{
    if k < dirs.len() - 1 {
        assert(dirs.drop_last()[k] == dirs[k]);
        lemma_longest_path(dirs.drop_last(), k);
    }
}

/// The node of the record at position `i`: the directory's own name, path,
/// age, lines and languages, and below it the nodes of the directories
/// that lie directly in it, in descending order of lines.
pub open spec fn node_for(
    dirs: Seq<DirectoryView>,
    history: Seq<CommitView>,
    now: int,
    i: int,
) -> DirectoryNodeView
    decreases longest_path(dirs) - dirs[i].path.len(), dirs.len() + 1,
{
    DirectoryNodeView {
        name: display_name(dirs[i].path),
        path: dirs[i].path,
        age_days: directory_age(history, dirs[i].path, now) as nat,
        lines: dirs[i].lines,
        languages: language_breakdown(dirs[i].languages, dirs[i].lines),
        children: if 0 <= i < dirs.len() {
            proof {
                lemma_longest_path(dirs, i);
            }
            sort_descending(child_nodes(dirs, history, now, i, dirs.len()), by_node_lines())
        } else {
            Seq::empty()
        },
    }
}

/// The nodes of those among the first `upto` records that lie directly in
/// the directory at position `i`, in the order of the records.
pub open spec fn child_nodes(
    dirs: Seq<DirectoryView>,
    history: Seq<CommitView>,
    now: int,
    i: int,
    upto: nat,
) -> Seq<DirectoryNodeView>
    decreases longest_path(dirs) - dirs[i].path.len(), upto,
{
    if upto == 0 || upto > dirs.len() || !(0 <= i < dirs.len()) {
        Seq::empty()
    } else if is_child_path(dirs[upto - 1].path, dirs[i].path) {
        proof {
            lemma_longest_path(dirs, upto - 1);
            lemma_longest_path(dirs, i);
            lemma_parent_is_shorter(dirs[upto - 1].path);
        }
        child_nodes(dirs, history, now, i, (upto - 1) as nat).push(
            node_for(dirs, history, now, upto - 1),
        )
    } else {
        proof {
            lemma_longest_path(dirs, i);
        }
        child_nodes(dirs, history, now, i, (upto - 1) as nat)
    }
}

/// Whether the record at position `j` is promoted to the top level: it is
/// not the root, and the directory that holds it has no record.
pub open spec fn is_promoted(dirs: Seq<DirectoryView>, j: int) -> bool {
    dirs[j].path.len() > 0 && !has_dir(dirs, parent_path(dirs[j].path))
}

/// The nodes of the promoted among the first `upto` records, in the order
/// of the records.
pub open spec fn promoted_nodes(
    dirs: Seq<DirectoryView>,
    history: Seq<CommitView>,
    now: int,
    upto: nat,
) -> Seq<DirectoryNodeView>
    decreases upto,
{
    if upto == 0 || upto > dirs.len() {
        Seq::empty()
    } else if is_promoted(dirs, upto - 1) {
        promoted_nodes(dirs, history, now, (upto - 1) as nat).push(
            node_for(dirs, history, now, upto - 1),
        )
    } else {
        promoted_nodes(dirs, history, now, (upto - 1) as nat)
    }
}

/// The node of the root where the root has a record, and nothing where it
/// has none.
pub open spec fn root_nodes(
    dirs: Seq<DirectoryView>,
    history: Seq<CommitView>,
    now: int,
) -> Seq<DirectoryNodeView> {
    if has_dir(dirs, Seq::empty()) {
        Seq::empty().push(node_for(dirs, history, now, dir_position(dirs, Seq::empty())))
    } else {
        Seq::empty()
    }
}

/// The top level as it is met: the root first, then the promoted
/// directories in the order of the records.
pub open spec fn top_level(
    dirs: Seq<DirectoryView>,
    history: Seq<CommitView>,
    now: int,
) -> Seq<DirectoryNodeView> {
    root_nodes(dirs, history, now) + promoted_nodes(dirs, history, now, dirs.len())
}

/// The forest of a walk: its top level in descending order of lines.
pub open spec fn forest(
    dirs: Seq<DirectoryView>,
    history: Seq<CommitView>,
    now: int,
) -> Seq<DirectoryNodeView> {
    sort_descending(top_level(dirs, history, now), by_node_lines())
}

/// Whether the directory at `child` lies directly in the one at `parent`.
fn is_child(child: &str, parent: &str) -> (yes: bool)
    ensures
        yes == is_child_path(child@, parent@),
{
    !child.is_empty() && str_eq(parent_of(child), parent)
}

/// The name under which the directory at `path` is shown.
pub fn display_name_of(path: &str) -> (name: String)
    ensures
        name@ == display_name(path@),
{
    let name: &str = match file_name_of(path) {
        Some(name) => name,
        None => path,
    };
    if name.is_empty() {
        String::from_str("(root)")
    } else {
        String::from_str(name)
    }
}

/// Puts `node` into a level that is in descending order of lines, behind
/// the nodes with as many lines or more.
fn insert_node(level: &mut Vec<DirectoryNode>, node: DirectoryNode)
    ensures
        nodes_view(final(level)@) == insert_descending(
            nodes_view(old(level)@),
            by_node_lines(),
            node@,
        ),
{
    let ghost before = nodes_view(level@);
    let mut k: usize = 0;
    while k < level.len() && level[k].lines >= node.lines
        invariant
            k <= level.len(),
            before == nodes_view(level@),
            forall|m: int|
                0 <= m < k ==> by_node_lines()(#[trigger] before[m]) >= by_node_lines()(node@),
        decreases level.len() - k,
    {
        k += 1;
    }
    proof {
        lemma_insertion_point_unique(before, by_node_lines(), node@, k as int);
    }
    level.insert(k, node);
    proof {
        assert(nodes_view(level@) =~= before.insert(k as int, node@));
    }
}

/// Builds the node of the record at position `i` with all that lies
/// below it.
fn build_node(dir_stats: &DirectoryStats, history: &Vec<Commit>, now: i64, i: usize) -> (node:
    DirectoryNode)
    requires
        i < dir_stats@.len(),
    ensures
        node@ == node_for(dir_stats@, history_view(history@), now as int, i as int),
    decreases longest_path(dir_stats@) - dir_stats@[i as int].path.len(),
{
    let ghost dirs = dir_stats@;
    let ghost past = history_view(history@);
    let path = dir_stats.path(i);
    let n: usize = dir_stats.len();
    let mut children: Vec<DirectoryNode> = Vec::new();
    let mut j: usize = 0;
    proof {
        assert(nodes_view(children@) =~= Seq::<DirectoryNodeView>::empty());
    }
    while j < n
        invariant
            j <= n,
            n == dirs.len(),
            i < n,
            dirs == dir_stats@,
            past == history_view(history@),
            path@ == dirs[i as int].path,
            nodes_view(children@) == sort_descending(
                child_nodes(dirs, past, now as int, i as int, j as nat),
                by_node_lines(),
            ),
        decreases n - j,
    {
        let ghost found = child_nodes(dirs, past, now as int, i as int, j as nat);
        if is_child(dir_stats.path(j), path) {
            proof {
                lemma_longest_path(dirs, j as int);
                lemma_longest_path(dirs, i as int);
                lemma_parent_is_shorter(dirs[j as int].path);
            }
            let child = build_node(dir_stats, history, now, j);
            proof {
                assert(found.push(child@).drop_last() =~= found);
            }
            insert_node(&mut children, child);
        }
        j += 1;
    }
    let stats = dir_stats.stats(i);
    let node = DirectoryNode {
        name: display_name_of(path),
        path: String::from_str(path),
        age_days: get_directory_age(history, path, now),
        lines: stats.lines(),
        languages: calculate_language_breakdown(stats.languages(), stats.lines()),
        children,
    };
    proof {
        lemma_children_view(node);
    }
    node
}

/// Builds the forest of the directories of a walk. Each directory becomes
/// one node with its own lines, languages and age; it hangs under the
/// directory that holds it where that one has a record, and stands at the
/// top level where it is the root or its parent has none.
pub fn build_directory_tree(dir_stats: &DirectoryStats, history: &Vec<Commit>, now: i64) -> (roots:
    Vec<DirectoryNode>)
    ensures
        nodes_view(roots@) == forest(dir_stats@, history_view(history@), now as int),
{
    let ghost dirs = dir_stats@;
    let ghost past = history_view(history@);
    let n: usize = dir_stats.len();
    let mut roots: Vec<DirectoryNode> = Vec::new();
    let nothing = String::new();
    let root_at: usize = dir_stats.position(nothing.as_str());
    proof {
        assert(nodes_view(roots@) =~= Seq::<DirectoryNodeView>::empty());
        assert(nothing@ =~= Seq::<char>::empty());
    }
    if root_at < n {
        let root = build_node(dir_stats, history, now, root_at);
        proof {
            assert(Seq::<DirectoryNodeView>::empty().push(root@).drop_last() =~= Seq::<
                DirectoryNodeView,
            >::empty());
        }
        insert_node(&mut roots, root);
    }
    let mut j: usize = 0;
    proof {
        let first = root_nodes(dirs, past, now as int);
        assert(first + promoted_nodes(dirs, past, now as int, 0) =~= first);
        if root_at < n {
            assert(first.drop_last() =~= Seq::<DirectoryNodeView>::empty());
            assert(sort_descending(first.drop_last(), by_node_lines()) =~= Seq::<
                DirectoryNodeView,
            >::empty());
        }
    }
    while j < n
        invariant
            j <= n,
            n == dirs.len(),
            dirs == dir_stats@,
            past == history_view(history@),
            nodes_view(roots@) == sort_descending(
                root_nodes(dirs, past, now as int) + promoted_nodes(
                    dirs,
                    past,
                    now as int,
                    j as nat,
                ),
                by_node_lines(),
            ),
        decreases n - j,
    {
        let ghost met = root_nodes(dirs, past, now as int) + promoted_nodes(
            dirs,
            past,
            now as int,
            j as nat,
        );
        let path = dir_stats.path(j);
        if !path.is_empty() && dir_stats.position(parent_of(path)) >= n {
            let node = build_node(dir_stats, history, now, j);
            proof {
                assert(root_nodes(dirs, past, now as int) + promoted_nodes(
                    dirs,
                    past,
                    now as int,
                    (j + 1) as nat,
                ) =~= met.push(node@));
                assert(met.push(node@).drop_last() =~= met);
            }
            insert_node(&mut roots, node);
        }
        j += 1;
    }
    roots
}

} // verus!
