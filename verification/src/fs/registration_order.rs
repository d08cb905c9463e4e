//! What the walker's order gives the aggregator: whoever registers the
//! entities in the order in which they are yielded never meets an orphan.

use vstd::prelude::*;
use crate::fs::du_tree::DiskUsageTree;
use crate::fs::path::{is_name, joined, key_of, lemma_key_of_entry, SEPARATOR};
use crate::fs::walk_dir_level_order::{is_child_of, parent_precedes, LevelOrderDirTraversal};

verus! {

/// The tree holds every entity that the traversal yielded before position
/// `k`, under its key relative to the root.
pub open spec fn holds_yielded_before(
    tree: DiskUsageTree,
    traversal: LevelOrderDirTraversal,
    k: int,
) -> bool {
    forall|j: int|
        0 <= j < k && j < traversal.emitted().len() && (#[trigger] traversal.emitted()[j]) is Ok
            ==> {
            &&& key_of(tree.spec_root_path(), traversal.emitted()[j]->Ok_0.path) is Some
            &&& tree.has_key(key_of(tree.spec_root_path(), traversal.emitted()[j]->Ok_0.path)->0)
        }
}

/// Level order means parent before child: once everything that was yielded
/// before an entity is registered, the entity lies under the root and the
/// tree accepts it, because it is the root or its parent is registered.
/// The path of the entity is the root's, or does not end in a separator.
pub proof fn lemma_walk_order_has_no_orphan(
    tree: DiskUsageTree,
    traversal: LevelOrderDirTraversal,
    k: int,
)
    requires
        traversal.wf(),
        tree.spec_root_path() == traversal.spec_root_path(),
        tree.spec_root_path().len() > 0,
        0 <= k < traversal.emitted().len(),
        traversal.emitted()[k] is Ok,
        holds_yielded_before(tree, traversal, k),
    ensures
        key_of(tree.spec_root_path(), traversal.emitted()[k]->Ok_0.path) is Some,
        tree.accepts(key_of(tree.spec_root_path(), traversal.emitted()[k]->Ok_0.path)->0),
        traversal.emitted()[k]->Ok_0.path == tree.spec_root_path()
            || traversal.emitted()[k]->Ok_0.path.last() != SEPARATOR,
    decreases k,
{
    let root = tree.spec_root_path();
    let yielded = traversal.emitted();
    let all = yielded + traversal.queue();
    let child = yielded[k]->Ok_0;
    if child.depth > 0 {
        assert(parent_precedes(all, yielded.len() as int, k));
        let j = choose|j: int|
            0 <= j < k && j < yielded.len() && (#[trigger] all[j]) is Ok && is_child_of(
                all[k]->Ok_0,
                all[j]->Ok_0,
            );
        let parent = yielded[j]->Ok_0;
        lemma_walk_order_has_no_orphan(tree, traversal, j);
        let name = choose|name: Seq<char>|
            is_name(name) && child.path == #[trigger] joined(parent.path, name);
        lemma_key_of_entry(root, parent.path, name);
    }
}

} // verus!
