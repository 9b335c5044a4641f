//! What holds of every forest.
//!
//! The laws speak of the forest of any valid directory records: no record
//! is lost, no node is invented, a node carries the lines of its own
//! directory alone, the root is no one's child, and every level is in
//! stable descending order.

use crate::breakdown::{lemma_breakdown_shares, lemma_breakdown_totals, share_is_percentage};
use crate::history::CommitView;
use crate::models::{by_node_lines, DirectoryNodeView};
use crate::order::{
    is_descending, lemma_sort_contains, lemma_sort_descending, lemma_sort_is_stable,
    lemma_sort_keeps_leader, sort_descending, with_key,
};
use crate::paths::{lemma_parent_is_shorter, parent_path};
use crate::stats::{
    dir_position, dir_stats_valid, dirs_valid, has_dir, lemma_dir_position,
    lemma_dir_position_of_record, DirStatsView, DirectoryView,
};
use crate::tree::{
    child_nodes, forest, is_child_path, is_promoted, lemma_longest_path, longest_path, node_for,
    promoted_nodes, root_nodes, top_level,
};
use crate::walk::{
    holds_counted_file, lemma_walk_counts_directories, lemma_walk_is_consistent,
    lines_directly_in, walk, SourceFileView,
};
use vstd::prelude::*;

verus! {

/// Whether `target` is `node` or stands anywhere below it.
pub open spec fn holds_node(node: DirectoryNodeView, target: DirectoryNodeView) -> bool
    decreases node,
{
    node == target || exists|k: int|
        0 <= k < node.children.len() && holds_node(#[trigger] node.children[k], target)
}

/// Whether `target` stands anywhere in the forest.
pub open spec fn forest_holds(level: Seq<DirectoryNodeView>, target: DirectoryNodeView) -> bool {
    exists|k: int| 0 <= k < level.len() && holds_node(#[trigger] level[k], target)
}

/// Whether `node` is the node of one of the records.
pub open spec fn is_record_node(
    dirs: Seq<DirectoryView>,
    history: Seq<CommitView>,
    now: int,
    node: DirectoryNodeView,
) -> bool {
    exists|j: int| 0 <= j < dirs.len() && node == #[trigger] node_for(dirs, history, now, j)
}

/// Whether `node` is the node of a record that lies directly in the
/// directory of the record at position `i`.
pub open spec fn is_child_node(
    dirs: Seq<DirectoryView>,
    history: Seq<CommitView>,
    now: int,
    i: int,
    node: DirectoryNodeView,
) -> bool {
    exists|j: int|
        0 <= j < dirs.len() && is_child_path(dirs[j].path, dirs[i].path) && node
            == #[trigger] node_for(dirs, history, now, j)
}

/// Whether `node` is the node of a promoted record.
pub open spec fn is_promoted_node(
    dirs: Seq<DirectoryView>,
    history: Seq<CommitView>,
    now: int,
    node: DirectoryNodeView,
) -> bool {
    exists|j: int|
        0 <= j < dirs.len() && is_promoted(dirs, j) && node == #[trigger] node_for(
            dirs,
            history,
            now,
            j,
        )
}

/// What stands below a node that stands below another stands below that
/// other.
pub proof fn lemma_holds_node_chain(
    top: DirectoryNodeView,
    middle: DirectoryNodeView,
    target: DirectoryNodeView,
)
    requires
        holds_node(top, middle),
        holds_node(middle, target),
    ensures
        holds_node(top, target),
    decreases top,
{
    if top != middle {
        let k = choose|k: int|
            0 <= k < top.children.len() && holds_node(#[trigger] top.children[k], middle);
        lemma_holds_node_chain(top.children[k], middle, target);
    }
}

/// The children gathered for a record are the nodes of the records that
/// lie directly in its directory: all of them, and no others.
pub proof fn lemma_child_nodes(
    dirs: Seq<DirectoryView>,
    history: Seq<CommitView>,
    now: int,
    i: int,
    upto: nat,
)
    requires
        0 <= i < dirs.len(),
        upto <= dirs.len(),
    ensures
        forall|k: int|
            0 <= k < child_nodes(dirs, history, now, i, upto).len() ==> is_child_node(
                dirs,
                history,
                now,
                i,
                #[trigger] child_nodes(dirs, history, now, i, upto)[k],
            ),
        forall|j: int|
            0 <= j < upto && is_child_path(dirs[j].path, dirs[i].path) ==> child_nodes(
                dirs,
                history,
                now,
                i,
                upto,
            ).contains(#[trigger] node_for(dirs, history, now, j)),
    decreases upto,
{
    if upto > 0 {
        let before = child_nodes(dirs, history, now, i, (upto - 1) as nat);
        let all = child_nodes(dirs, history, now, i, upto);
        lemma_child_nodes(dirs, history, now, i, (upto - 1) as nat);
        assert forall|k: int| 0 <= k < all.len() implies is_child_node(
            dirs,
            history,
            now,
            i,
            #[trigger] all[k],
        ) by {
            if k < before.len() {
                assert(all[k] == before[k]);
            } else {
                assert(all[k] == node_for(dirs, history, now, upto - 1));
            }
        }
        assert forall|j: int|
            0 <= j < upto && is_child_path(dirs[j].path, dirs[i].path) implies all.contains(
            #[trigger] node_for(dirs, history, now, j),
        ) by {
            if j < upto - 1 {
                let k = choose|k: int|
                    0 <= k < before.len() && before[k] == node_for(dirs, history, now, j);
                assert(all[k] == before[k]);
            } else {
                assert(all[all.len() - 1] == node_for(dirs, history, now, j));
            }
        }
    }
}

/// The promoted nodes are the nodes of the promoted records: all of them,
/// and no others.
pub proof fn lemma_promoted_nodes(
    dirs: Seq<DirectoryView>,
    history: Seq<CommitView>,
    now: int,
    upto: nat,
)
    requires
        upto <= dirs.len(),
    ensures
        forall|k: int|
            0 <= k < promoted_nodes(dirs, history, now, upto).len() ==> is_promoted_node(
                dirs,
                history,
                now,
                #[trigger] promoted_nodes(dirs, history, now, upto)[k],
            ),
        forall|j: int|
            0 <= j < upto && is_promoted(dirs, j) ==> promoted_nodes(
                dirs,
                history,
                now,
                upto,
            ).contains(#[trigger] node_for(dirs, history, now, j)),
    decreases upto,
{
    if upto > 0 {
        let before = promoted_nodes(dirs, history, now, (upto - 1) as nat);
        let all = promoted_nodes(dirs, history, now, upto);
        lemma_promoted_nodes(dirs, history, now, (upto - 1) as nat);
        assert forall|k: int| 0 <= k < all.len() implies is_promoted_node(
            dirs,
            history,
            now,
            #[trigger] all[k],
        ) by {
            if k < before.len() {
                assert(all[k] == before[k]);
            } else {
                assert(all[k] == node_for(dirs, history, now, upto - 1));
            }
        }
        assert forall|j: int| 0 <= j < upto && is_promoted(dirs, j) implies all.contains(
            #[trigger] node_for(dirs, history, now, j),
        ) by {
            if j < upto - 1 {
                let k = choose|k: int|
                    0 <= k < before.len() && before[k] == node_for(dirs, history, now, j);
                assert(all[k] == before[k]);
            } else {
                assert(all[all.len() - 1] == node_for(dirs, history, now, j));
            }
        }
    }
}

/// Every node at the top level of the forest is the node of a record.
pub proof fn lemma_top_level_nodes(
    dirs: Seq<DirectoryView>,
    history: Seq<CommitView>,
    now: int,
    k: int,
)
    requires
        0 <= k < forest(dirs, history, now).len(),
    ensures
        is_record_node(dirs, history, now, forest(dirs, history, now)[k]),
{
    let top = top_level(dirs, history, now);
    let node = forest(dirs, history, now)[k];
    lemma_sort_contains(top, by_node_lines(), node);
    assert(forest(dirs, history, now).contains(node));
    let m = choose|m: int| 0 <= m < top.len() && top[m] == node;
    let first = root_nodes(dirs, history, now);
    lemma_dir_position(dirs, Seq::empty());
    if m < first.len() {
        assert(node == node_for(dirs, history, now, dir_position(dirs, Seq::empty())));
    } else {
        lemma_promoted_nodes(dirs, history, now, dirs.len());
        let promoted = promoted_nodes(dirs, history, now, dirs.len());
        assert(top[m] == promoted[m - first.len()]);
        assert(is_promoted_node(dirs, history, now, promoted[m - first.len()]));
    }
}

/// Whatever stands at or below the node of a record is the node of a
/// record.
pub proof fn lemma_below_record_node(
    dirs: Seq<DirectoryView>,
    history: Seq<CommitView>,
    now: int,
    i: int,
    target: DirectoryNodeView,
)
    requires
        0 <= i < dirs.len(),
        holds_node(node_for(dirs, history, now, i), target),
    ensures
        is_record_node(dirs, history, now, target),
    decreases longest_path(dirs) - dirs[i].path.len(),
{
    let node = node_for(dirs, history, now, i);
    if node != target {
        let k = choose|k: int|
            0 <= k < node.children.len() && holds_node(#[trigger] node.children[k], target);
        let gathered = child_nodes(dirs, history, now, i, dirs.len());
        lemma_sort_contains(gathered, by_node_lines(), node.children[k]);
        assert(node.children.contains(node.children[k]));
        let m = choose|m: int| 0 <= m < gathered.len() && gathered[m] == node.children[k];
        lemma_child_nodes(dirs, history, now, i, dirs.len());
        assert(is_child_node(dirs, history, now, i, gathered[m]));
        let j = choose|j: int|
            0 <= j < dirs.len() && is_child_path(dirs[j].path, dirs[i].path) && gathered[m]
                == #[trigger] node_for(dirs, history, now, j);
        lemma_longest_path(dirs, j);
        lemma_longest_path(dirs, i);
        lemma_parent_is_shorter(dirs[j].path);
        lemma_below_record_node(dirs, history, now, j, target);
    }
}

/// No node of the forest is invented: each is the node of a record, with
/// that record's path and lines.
pub proof fn lemma_forest_nodes_are_records(
    dirs: Seq<DirectoryView>,
    history: Seq<CommitView>,
    now: int,
    target: DirectoryNodeView,
)
    requires
        forest_holds(forest(dirs, history, now), target),
    ensures
        is_record_node(dirs, history, now, target),
        exists|j: int|
            0 <= j < dirs.len() && target.path == (#[trigger] dirs[j]).path && target.lines
                == dirs[j].lines,
{
    let level = forest(dirs, history, now);
    let k = choose|k: int| 0 <= k < level.len() && holds_node(#[trigger] level[k], target);
    lemma_top_level_nodes(dirs, history, now, k);
    let i = choose|i: int|
        0 <= i < dirs.len() && level[k] == #[trigger] node_for(dirs, history, now, i);
    lemma_below_record_node(dirs, history, now, i, target);
    let j = choose|j: int|
        0 <= j < dirs.len() && target == #[trigger] node_for(dirs, history, now, j);
    assert(target.path == dirs[j].path && target.lines == dirs[j].lines);
}

/// No record is lost: the node of every record stands in the forest, under
/// its parent's node where the parent has a record and at the top level
/// where it has none.
pub proof fn lemma_forest_holds_every_record(
    dirs: Seq<DirectoryView>,
    history: Seq<CommitView>,
    now: int,
    i: int,
)
    requires
        dirs_valid(dirs),
        0 <= i < dirs.len(),
    ensures
        forest_holds(forest(dirs, history, now), node_for(dirs, history, now, i)),
    decreases dirs[i].path.len(),
{
    let level = forest(dirs, history, now);
    let top = top_level(dirs, history, now);
    let node = node_for(dirs, history, now, i);
    let path = dirs[i].path;
    if path.len() == 0 || is_promoted(dirs, i) {
        if path.len() == 0 {
            assert(path =~= Seq::<char>::empty());
            lemma_dir_position_of_record(dirs, i);
            let first = root_nodes(dirs, history, now);
            assert(first[0] == node);
            assert(top[0] == node);
        } else {
            lemma_promoted_nodes(dirs, history, now, dirs.len());
            let promoted = promoted_nodes(dirs, history, now, dirs.len());
            let m = choose|m: int| 0 <= m < promoted.len() && promoted[m] == node;
            let first = root_nodes(dirs, history, now);
            assert(top[first.len() + m] == node);
        }
        assert(top.contains(node));
        lemma_sort_contains(top, by_node_lines(), node);
        let k = choose|k: int| 0 <= k < level.len() && level[k] == node;
        assert(holds_node(level[k], node));
    } else {
        let above = parent_path(path);
        let p = dir_position(dirs, above);
        lemma_dir_position(dirs, above);
        lemma_parent_is_shorter(path);
        lemma_forest_holds_every_record(dirs, history, now, p);
        let parent = node_for(dirs, history, now, p);
        let gathered = child_nodes(dirs, history, now, p, dirs.len());
        lemma_child_nodes(dirs, history, now, p, dirs.len());
        assert(gathered.contains(node));
        lemma_sort_contains(gathered, by_node_lines(), node);
        let c = choose|c: int| 0 <= c < parent.children.len() && parent.children[c] == node;
        assert(holds_node(parent.children[c], node));
        assert(holds_node(parent, node));
        let k = choose|k: int| 0 <= k < level.len() && holds_node(#[trigger] level[k], parent);
        lemma_holds_node_chain(level[k], parent, node);
    }
}

/// The root is no one's child: below every node of the forest stand only
/// directories whose path is not empty.
pub proof fn lemma_root_is_no_child(
    dirs: Seq<DirectoryView>,
    history: Seq<CommitView>,
    now: int,
    target: DirectoryNodeView,
    k: int,
)
    requires
        forest_holds(forest(dirs, history, now), target),
        0 <= k < target.children.len(),
    ensures
        target.children[k].path.len() > 0,
        parent_path(target.children[k].path) == target.path,
{
    lemma_forest_nodes_are_records(dirs, history, now, target);
    let i = choose|i: int|
        0 <= i < dirs.len() && target == #[trigger] node_for(dirs, history, now, i);
    let gathered = child_nodes(dirs, history, now, i, dirs.len());
    lemma_sort_contains(gathered, by_node_lines(), target.children[k]);
    assert(target.children.contains(target.children[k]));
    let m = choose|m: int| 0 <= m < gathered.len() && gathered[m] == target.children[k];
    lemma_child_nodes(dirs, history, now, i, dirs.len());
    assert(is_child_node(dirs, history, now, i, gathered[m]));
}

/// The root stands first in the forest where it has a record and no
/// promoted directory has more lines than it.
pub proof fn lemma_root_is_first(dirs: Seq<DirectoryView>, history: Seq<CommitView>, now: int)
    requires
        has_dir(dirs, Seq::empty()),
        forall|j: int|
            0 <= j < dirs.len() && is_promoted(dirs, j) ==> (#[trigger] dirs[j]).lines
                <= dirs[dir_position(dirs, Seq::empty())].lines,
    ensures
        forest(dirs, history, now).len() > 0,
        forest(dirs, history, now)[0] == node_for(
            dirs,
            history,
            now,
            dir_position(dirs, Seq::empty()),
        ),
        forest(dirs, history, now)[0].path.len() == 0,
{
    let r = dir_position(dirs, Seq::empty());
    lemma_dir_position(dirs, Seq::empty());
    let top = top_level(dirs, history, now);
    let first = root_nodes(dirs, history, now);
    let promoted = promoted_nodes(dirs, history, now, dirs.len());
    lemma_promoted_nodes(dirs, history, now, dirs.len());
    assert(top[0] == first[0]);
    assert forall|m: int| 0 <= m < top.len() implies by_node_lines()(#[trigger] top[m])
        <= by_node_lines()(top[0]) by {
        if m > 0 {
            assert(top[m] == promoted[m - 1]);
            assert(is_promoted_node(dirs, history, now, promoted[m - 1]));
            let j = choose|j: int|
                0 <= j < dirs.len() && is_promoted(dirs, j) && promoted[m - 1]
                    == #[trigger] node_for(dirs, history, now, j);
            assert(dirs[j].lines <= dirs[r].lines);
        }
    }
    lemma_sort_keeps_leader(top, by_node_lines());
}

/// The top level is in descending order of lines, and directories with as
/// many lines stand in the order in which they were met, the root before
/// all promoted ones.
pub proof fn lemma_top_level_order(
    dirs: Seq<DirectoryView>,
    history: Seq<CommitView>,
    now: int,
    lines: int,
)
    ensures
        is_descending(forest(dirs, history, now), by_node_lines()),
        with_key(forest(dirs, history, now), by_node_lines(), lines) == with_key(
            top_level(dirs, history, now),
            by_node_lines(),
            lines,
        ),
{
    lemma_sort_descending(top_level(dirs, history, now), by_node_lines());
    lemma_sort_is_stable(top_level(dirs, history, now), by_node_lines(), lines);
}

/// The children of every node of the forest are in descending order of
/// lines, and children with as many lines stand in the order in which
/// their records were met.
pub proof fn lemma_children_order(
    dirs: Seq<DirectoryView>,
    history: Seq<CommitView>,
    now: int,
    target: DirectoryNodeView,
    lines: int,
)
    requires
        forest_holds(forest(dirs, history, now), target),
    ensures
        is_descending(target.children, by_node_lines()),
        exists|i: int|
            0 <= i < dirs.len() && target == #[trigger] node_for(dirs, history, now, i)
                && with_key(target.children, by_node_lines(), lines) == with_key(
                child_nodes(dirs, history, now, i, dirs.len()),
                by_node_lines(),
                lines,
            ),
{
    lemma_forest_nodes_are_records(dirs, history, now, target);
    let i = choose|i: int|
        0 <= i < dirs.len() && target == #[trigger] node_for(dirs, history, now, i);
    let gathered = child_nodes(dirs, history, now, i, dirs.len());
    lemma_sort_descending(gathered, by_node_lines());
    lemma_sort_is_stable(gathered, by_node_lines(), lines);
}

/// In the forest of a walk, a node carries the lines of the counted files
/// that lie directly in its directory, and of no others: what lies in a
/// directory below is counted there and is not added in again.
pub proof fn lemma_node_lines_are_direct(
    root: Seq<char>,
    files: Seq<SourceFileView>,
    history: Seq<CommitView>,
    now: int,
    target: DirectoryNodeView,
)
    requires
        forest_holds(forest(walk(root, files).directories, history, now), target),
    ensures
        target.lines == lines_directly_in(root, files, target.path),
{
    let dirs = walk(root, files).directories;
    lemma_walk_is_consistent(root, files);
    lemma_forest_nodes_are_records(dirs, history, now, target);
    let j = choose|j: int|
        0 <= j < dirs.len() && target.path == (#[trigger] dirs[j]).path && target.lines
            == dirs[j].lines;
    lemma_dir_position_of_record(dirs, j);
    lemma_walk_counts_directories(root, files, target.path);
}

/// In the forest of a walk, every directory that holds a counted file
/// directly has a node, whether or not the directories above it have one.
pub proof fn lemma_no_directory_is_dropped(
    root: Seq<char>,
    files: Seq<SourceFileView>,
    history: Seq<CommitView>,
    now: int,
    dir: Seq<char>,
)
    requires
        holds_counted_file(root, files, dir),
    ensures
        exists|node: DirectoryNodeView|
            #[trigger] forest_holds(forest(walk(root, files).directories, history, now), node)
                && node.path == dir,
{
    let dirs = walk(root, files).directories;
    lemma_walk_is_consistent(root, files);
    lemma_walk_counts_directories(root, files, dir);
    let i = dir_position(dirs, dir);
    lemma_dir_position(dirs, dir);
    lemma_forest_holds_every_record(dirs, history, now, i);
    let node = node_for(dirs, history, now, i);
    assert(forest_holds(forest(dirs, history, now), node) && node.path == dir);
}

/// The language breakdown of every node of the forest is empty exactly
/// where the node has no lines, and each of its entries has a share
/// between 0 and 100 percent of the node's lines.
pub proof fn lemma_node_shares(
    dirs: Seq<DirectoryView>,
    history: Seq<CommitView>,
    now: int,
    target: DirectoryNodeView,
)
    requires
        dirs_valid(dirs),
        forest_holds(forest(dirs, history, now), target),
    ensures
        target.languages.len() == 0 <==> target.lines == 0,
        forall|k: int|
            0 <= k < target.languages.len() ==> share_is_percentage(
                #[trigger] target.languages[k],
            ) && target.languages[k].total == target.lines,
{
    lemma_forest_nodes_are_records(dirs, history, now, target);
    let i = choose|i: int|
        0 <= i < dirs.len() && target == #[trigger] node_for(dirs, history, now, i);
    assert(dir_stats_valid(DirStatsView { lines: dirs[i].lines, languages: dirs[i].languages }));
    lemma_breakdown_shares(dirs[i].languages, dirs[i].lines);
    lemma_breakdown_totals(dirs[i].languages, dirs[i].lines);
}

} // verus!
