//! Sums over all nodes of a forest.
//!
//! Every record of a walk has exactly one node in the forest. So whatever
//! is summed over the nodes, at all depths, is the same summed over the
//! records: the lines, the number of nodes, the nodes of one path.

use crate::history::CommitView;
use crate::models::{by_node_lines, DirectoryNodeView};
use crate::order::{insertion_point, lemma_insertion_point, sort_descending};
use crate::paths::parent_path;
use crate::stats::{
    dir_position, dirs_valid, has_dir, lemma_dir_position, lemma_dir_position_of_record,
    sum_dir_lines, DirectoryView,
};
use crate::tree::{
    child_nodes, forest, is_child_path, is_promoted, node_for, promoted_nodes, root_nodes,
    top_level,
};
use crate::walk::{lemma_walk_is_consistent, walk, SourceFileView};
use vstd::prelude::*;

verus! {

/// The weight of a node and of all that stands below it.
pub open spec fn tree_weight(
    node: DirectoryNodeView,
    weight: spec_fn(DirectoryNodeView) -> nat,
) -> nat
    decreases node,
{
    weight(node) + level_weight(node.children, weight)
}

/// The weight of all nodes of a level and of all that stands below them.
pub open spec fn level_weight(
    level: Seq<DirectoryNodeView>,
    weight: spec_fn(DirectoryNodeView) -> nat,
) -> nat
    decreases level,
{
    if level.len() == 0 {
        0
    } else {
        level_weight(level.drop_last(), weight) + tree_weight(level.last(), weight)
    }
}

/// The weight of the nodes of the first `upto` records, each taken by
/// itself.
pub open spec fn records_weight(
    dirs: Seq<DirectoryView>,
    history: Seq<CommitView>,
    now: int,
    weight: spec_fn(DirectoryNodeView) -> nat,
    upto: nat,
) -> nat
    decreases upto,
{
    if upto == 0 {
        0
    } else {
        records_weight(dirs, history, now, weight, (upto - 1) as nat) + weight(
            node_for(dirs, history, now, upto - 1),
        )
    }
}

/// The weight that counts the lines of a node.
pub open spec fn lines_weight() -> spec_fn(DirectoryNodeView) -> nat {
    |node: DirectoryNodeView| node.lines
}

/// The weight that counts a node as one.
pub open spec fn unit_weight() -> spec_fn(DirectoryNodeView) -> nat {
    |node: DirectoryNodeView| 1nat
}

/// The weight that counts a node as one where its path is `path`.
pub open spec fn path_weight(path: Seq<char>) -> spec_fn(DirectoryNodeView) -> nat {
    |node: DirectoryNodeView|
        if node.path == path {
            1nat
        } else {
            0nat
        }
}

/// The lines of all nodes of a forest, at all depths.
pub open spec fn forest_lines(level: Seq<DirectoryNodeView>) -> nat {
    level_weight(level, lines_weight())
}

/// The number of nodes of a forest, at all depths.
pub open spec fn forest_size(level: Seq<DirectoryNodeView>) -> nat {
    level_weight(level, unit_weight())
}

/// How many nodes of a forest, at all depths, have the path `path`.
pub open spec fn occurrences(level: Seq<DirectoryNodeView>, path: Seq<char>) -> nat {
    level_weight(level, path_weight(path))
}

spec fn subtree_sum(
    dirs: Seq<DirectoryView>,
    history: Seq<CommitView>,
    now: int,
    weight: spec_fn(DirectoryNodeView) -> nat,
    upto: nat,
) -> nat
    decreases upto,
{
    if upto == 0 {
        0
    } else {
        subtree_sum(dirs, history, now, weight, (upto - 1) as nat) + tree_weight(
            node_for(dirs, history, now, upto - 1),
            weight,
        )
    }
}

spec fn children_sum(
    dirs: Seq<DirectoryView>,
    history: Seq<CommitView>,
    now: int,
    weight: spec_fn(DirectoryNodeView) -> nat,
    met: nat,
    upto: nat,
) -> nat
    decreases upto,
{
    if upto == 0 {
        0
    } else {
        children_sum(dirs, history, now, weight, met, (upto - 1) as nat) + level_weight(
            child_nodes(dirs, history, now, upto - 1, met),
            weight,
        )
    }
}

spec fn root_sum(
    dirs: Seq<DirectoryView>,
    history: Seq<CommitView>,
    now: int,
    weight: spec_fn(DirectoryNodeView) -> nat,
    upto: nat,
) -> nat
    decreases upto,
{
    if upto == 0 {
        0
    } else if dirs[upto - 1].path.len() == 0 {
        root_sum(dirs, history, now, weight, (upto - 1) as nat) + tree_weight(
            node_for(dirs, history, now, upto - 1),
            weight,
        )
    } else {
        root_sum(dirs, history, now, weight, (upto - 1) as nat)
    }
}

spec fn hit_sum(dirs: Seq<DirectoryView>, path: Seq<char>, amount: nat, upto: nat) -> nat
    decreases upto,
{
    if upto == 0 {
        0
    } else if dirs[upto - 1].path == path {
        hit_sum(dirs, path, amount, (upto - 1) as nat) + amount
    } else {
        hit_sum(dirs, path, amount, (upto - 1) as nat)
    }
}

/// A node put into a level adds its own weight and that of all below it.
pub proof fn lemma_level_weight_insert(
    level: Seq<DirectoryNodeView>,
    at: int,
    node: DirectoryNodeView,
    weight: spec_fn(DirectoryNodeView) -> nat,
)
    requires
        0 <= at <= level.len(),
    ensures
        level_weight(level.insert(at, node), weight) == level_weight(level, weight) + tree_weight(
            node,
            weight,
        ),
    decreases level.len(),
{
    let more = level.insert(at, node);
    if at == level.len() {
        assert(more.drop_last() =~= level);
        assert(more.last() == node);
    } else {
        assert(more.drop_last() =~= level.drop_last().insert(at, node));
        assert(more.last() == level.last());
        lemma_level_weight_insert(level.drop_last(), at, node, weight);
    }
}

/// The order of a level does not change its weight.
pub proof fn lemma_level_weight_sorted(
    level: Seq<DirectoryNodeView>,
    weight: spec_fn(DirectoryNodeView) -> nat,
)
    ensures
        level_weight(sort_descending(level, by_node_lines()), weight) == level_weight(
            level,
            weight,
        ),
    decreases level.len(),
{
    if level.len() > 0 {
        let sorted = sort_descending(level.drop_last(), by_node_lines());
        lemma_level_weight_sorted(level.drop_last(), weight);
        lemma_insertion_point(sorted, by_node_lines(), level.last());
        lemma_level_weight_insert(
            sorted,
            insertion_point(sorted, by_node_lines(), level.last()),
            level.last(),
            weight,
        );
    }
}

/// The weight of two levels put together is the sum of their weights.
pub proof fn lemma_level_weight_concat(
    front: Seq<DirectoryNodeView>,
    back: Seq<DirectoryNodeView>,
    weight: spec_fn(DirectoryNodeView) -> nat,
)
    ensures
        level_weight(front + back, weight) == level_weight(front, weight) + level_weight(
            back,
            weight,
        ),
    decreases back.len(),
{
    if back.len() == 0 {
        assert(front + back =~= front);
    } else {
        assert((front + back).drop_last() =~= front + back.drop_last());
        assert((front + back).last() == back.last());
        lemma_level_weight_concat(front, back.drop_last(), weight);
    }
}

proof fn lemma_hit_sum(dirs: Seq<DirectoryView>, path: Seq<char>, amount: nat, upto: nat)
    requires
        dirs_valid(dirs),
        upto <= dirs.len(),
    ensures
        hit_sum(dirs, path, amount, upto) == if dir_position(dirs, path) < upto {
            amount
        } else {
            0
        },
    decreases upto,
{
    lemma_dir_position(dirs, path);
    if upto > 0 {
        lemma_hit_sum(dirs, path, amount, (upto - 1) as nat);
        if dirs[upto - 1].path == path {
            lemma_dir_position_of_record(dirs, upto - 1);
        } else if dir_position(dirs, path) == upto - 1 {
            assert(dirs[dir_position(dirs, path)].path == path);
        }
    }
}

proof fn lemma_root_sum(
    dirs: Seq<DirectoryView>,
    history: Seq<CommitView>,
    now: int,
    weight: spec_fn(DirectoryNodeView) -> nat,
    upto: nat,
)
    requires
        dirs_valid(dirs),
        upto <= dirs.len(),
    ensures
        root_sum(dirs, history, now, weight, upto) == if dir_position(dirs, Seq::empty())
            < upto {
            tree_weight(node_for(dirs, history, now, dir_position(dirs, Seq::empty())), weight)
        } else {
            0
        },
    decreases upto,
{
    let nothing = Seq::<char>::empty();
    lemma_dir_position(dirs, nothing);
    if upto > 0 {
        lemma_root_sum(dirs, history, now, weight, (upto - 1) as nat);
        if dirs[upto - 1].path.len() == 0 {
            assert(dirs[upto - 1].path =~= nothing);
            lemma_dir_position_of_record(dirs, upto - 1);
        } else if dir_position(dirs, nothing) == upto - 1 {
            assert(dirs[dir_position(dirs, nothing)].path == nothing);
        }
    }
}

proof fn lemma_subtree_sum(
    dirs: Seq<DirectoryView>,
    history: Seq<CommitView>,
    now: int,
    weight: spec_fn(DirectoryNodeView) -> nat,
    upto: nat,
)
    requires
        upto <= dirs.len(),
    ensures
        subtree_sum(dirs, history, now, weight, upto) == records_weight(
            dirs,
            history,
            now,
            weight,
            upto,
        ) + children_sum(dirs, history, now, weight, dirs.len(), upto),
    decreases upto,
{
    if upto > 0 {
        lemma_subtree_sum(dirs, history, now, weight, (upto - 1) as nat);
        lemma_level_weight_sorted(child_nodes(dirs, history, now, upto - 1, dirs.len()), weight);
    }
}

proof fn lemma_children_sum_start(
    dirs: Seq<DirectoryView>,
    history: Seq<CommitView>,
    now: int,
    weight: spec_fn(DirectoryNodeView) -> nat,
    upto: nat,
)
    ensures
        children_sum(dirs, history, now, weight, 0, upto) == 0,
    decreases upto,
{
    if upto > 0 {
        lemma_children_sum_start(dirs, history, now, weight, (upto - 1) as nat);
    }
}

proof fn lemma_children_sum_step(
    dirs: Seq<DirectoryView>,
    history: Seq<CommitView>,
    now: int,
    weight: spec_fn(DirectoryNodeView) -> nat,
    met: nat,
    upto: nat,
)
    requires
        met < dirs.len(),
        upto <= dirs.len(),
    ensures
        children_sum(dirs, history, now, weight, met + 1, upto) == children_sum(
            dirs,
            history,
            now,
            weight,
            met,
            upto,
        ) + if dirs[met as int].path.len() > 0 {
            hit_sum(
                dirs,
                parent_path(dirs[met as int].path),
                tree_weight(node_for(dirs, history, now, met as int), weight),
                upto,
            )
        } else {
            0
        },
    decreases upto,
{
    if upto > 0 {
        lemma_children_sum_step(dirs, history, now, weight, met, (upto - 1) as nat);
        let before = child_nodes(dirs, history, now, upto - 1, met);
        let after = child_nodes(dirs, history, now, upto - 1, met + 1);
        if is_child_path(dirs[met as int].path, dirs[upto - 1].path) {
            let node = node_for(dirs, history, now, met as int);
            assert(after == before.push(node));
            assert(before.push(node).drop_last() =~= before);
        } else {
            assert(after == before);
        }
    }
}

proof fn lemma_forest_accounts(
    dirs: Seq<DirectoryView>,
    history: Seq<CommitView>,
    now: int,
    weight: spec_fn(DirectoryNodeView) -> nat,
    met: nat,
)
    requires
        dirs_valid(dirs),
        met <= dirs.len(),
    ensures
        level_weight(promoted_nodes(dirs, history, now, met), weight) + root_sum(
            dirs,
            history,
            now,
            weight,
            met,
        ) + children_sum(dirs, history, now, weight, met, dirs.len()) == subtree_sum(
            dirs,
            history,
            now,
            weight,
            met,
        ),
    decreases met,
{
    if met == 0 {
        lemma_children_sum_start(dirs, history, now, weight, dirs.len());
    } else {
        let c = (met - 1) as nat;
        lemma_forest_accounts(dirs, history, now, weight, c);
        lemma_children_sum_step(dirs, history, now, weight, c, dirs.len());
        let path = dirs[c as int].path;
        let node = node_for(dirs, history, now, c as int);
        let before = promoted_nodes(dirs, history, now, c);
        if path.len() > 0 {
            lemma_hit_sum(dirs, parent_path(path), tree_weight(node, weight), dirs.len());
            if is_promoted(dirs, c as int) {
                assert(promoted_nodes(dirs, history, now, met) == before.push(node));
                assert(before.push(node).drop_last() =~= before);
            }
        }
    }
}

/// Whatever is summed over all nodes of the forest, at all depths, is the
/// same summed over the records: each record has exactly one node.
pub proof fn lemma_forest_weight(
    dirs: Seq<DirectoryView>,
    history: Seq<CommitView>,
    now: int,
    weight: spec_fn(DirectoryNodeView) -> nat,
)
    requires
        dirs_valid(dirs),
    ensures
        level_weight(forest(dirs, history, now), weight) == records_weight(
            dirs,
            history,
            now,
            weight,
            dirs.len(),
        ),
{
    let first = root_nodes(dirs, history, now);
    let promoted = promoted_nodes(dirs, history, now, dirs.len());
    lemma_level_weight_sorted(top_level(dirs, history, now), weight);
    lemma_level_weight_concat(first, promoted, weight);
    lemma_root_sum(dirs, history, now, weight, dirs.len());
    lemma_dir_position(dirs, Seq::empty());
    if has_dir(dirs, Seq::empty()) {
        assert(first.drop_last() =~= Seq::<DirectoryNodeView>::empty());
        assert(level_weight(first.drop_last(), weight) == 0);
    }
    lemma_forest_accounts(dirs, history, now, weight, dirs.len());
    lemma_subtree_sum(dirs, history, now, weight, dirs.len());
}

/// The lines of all nodes of the forest add up to the lines of all
/// records: nesting counts nothing twice.
pub proof fn lemma_forest_lines(dirs: Seq<DirectoryView>, history: Seq<CommitView>, now: int)
    requires
        dirs_valid(dirs),
    ensures
        forest_lines(forest(dirs, history, now)) == sum_dir_lines(dirs),
{
    lemma_forest_weight(dirs, history, now, lines_weight());
    lemma_records_lines(dirs, history, now, dirs.len());
    assert(dirs.take(dirs.len() as int) =~= dirs);
}

proof fn lemma_records_lines(
    dirs: Seq<DirectoryView>,
    history: Seq<CommitView>,
    now: int,
    upto: nat,
)
    requires
        upto <= dirs.len(),
    ensures
        records_weight(dirs, history, now, lines_weight(), upto) == sum_dir_lines(
            dirs.take(upto as int),
        ),
    decreases upto,
{
    if upto > 0 {
        lemma_records_lines(dirs, history, now, (upto - 1) as nat);
        assert(dirs.take(upto as int).drop_last() =~= dirs.take(upto - 1));
        assert(dirs.take(upto as int).last() == dirs[upto - 1]);
    }
}

/// The forest has as many nodes as there are records.
pub proof fn lemma_forest_size(dirs: Seq<DirectoryView>, history: Seq<CommitView>, now: int)
    requires
        dirs_valid(dirs),
    ensures
        forest_size(forest(dirs, history, now)) == dirs.len(),
{
    lemma_forest_weight(dirs, history, now, unit_weight());
    lemma_records_size(dirs, history, now, dirs.len());
}

proof fn lemma_records_size(
    dirs: Seq<DirectoryView>,
    history: Seq<CommitView>,
    now: int,
    upto: nat,
)
    ensures
        records_weight(dirs, history, now, unit_weight(), upto) == upto,
    decreases upto,
{
    if upto > 0 {
        lemma_records_size(dirs, history, now, (upto - 1) as nat);
    }
}

/// Each path stands in the forest exactly once where it has a record, and
/// not at all where it has none.
pub proof fn lemma_each_path_once(
    dirs: Seq<DirectoryView>,
    history: Seq<CommitView>,
    now: int,
    path: Seq<char>,
)
    requires
        dirs_valid(dirs),
    ensures
        occurrences(forest(dirs, history, now), path) == if has_dir(dirs, path) {
            1nat
        } else {
            0nat
        },
{
    lemma_forest_weight(dirs, history, now, path_weight(path));
    lemma_records_hits(dirs, history, now, path, dirs.len());
    lemma_hit_sum(dirs, path, 1, dirs.len());
}

proof fn lemma_records_hits(
    dirs: Seq<DirectoryView>,
    history: Seq<CommitView>,
    now: int,
    path: Seq<char>,
    upto: nat,
)
    requires
        upto <= dirs.len(),
    ensures
        records_weight(dirs, history, now, path_weight(path), upto) == hit_sum(
            dirs,
            path,
            1,
            upto,
        ),
    decreases upto,
{
    if upto > 0 {
        lemma_records_hits(dirs, history, now, path, (upto - 1) as nat);
    }
}

/// In the forest of a walk, the lines of all nodes at all depths add up
/// to the lines that the walk counted in all: every counted file is
/// counted in exactly one node.
pub proof fn lemma_walk_forest_lines(
    root: Seq<char>,
    files: Seq<SourceFileView>,
    history: Seq<CommitView>,
    now: int,
)
    ensures
        forest_lines(forest(walk(root, files).directories, history, now)) == walk(
            root,
            files,
        ).total,
{
    lemma_walk_is_consistent(root, files);
    lemma_forest_lines(walk(root, files).directories, history, now);
}

} // verus!
