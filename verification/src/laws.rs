//! Laws of the materializer, stated over the tree model: what a whole
//! instruction stream leaves in the descriptor.

use vstd::prelude::*;

use crate::json::children_entries;
use crate::json::descriptor_header;
use crate::json::descriptor_json;
use crate::protocol::Instruction;
use crate::protocol::PartitionModel;
use crate::protocol::TreeModel;
use crate::protocol::TreePartition;
use crate::protocol::lemma_tree_insert_lookup;
use crate::protocol::lemma_tree_insert_sorted;
use crate::protocol::pm;
use crate::protocol::prefix_opt;
use crate::protocol::prefix_partition;
use crate::protocol::run_tree;
use crate::protocol::step_tree;
use crate::protocol::tree_contains;
use crate::protocol::tree_lookup;
use crate::protocol::tree_sorted;

verus! {

/// The `AddToTree` names of an instruction stream, in arrival order.
pub open spec fn add_names(instrs: Seq<Instruction>) -> Seq<Seq<char>>
    decreases instrs.len(),
{
    if instrs.len() == 0 {
        Seq::empty()
    } else {
        let rest = add_names(instrs.drop_first());
        match instrs[0] {
            Instruction::AddToTree { name, .. } => seq![name@] + rest,
            Instruction::CreateFile { .. } => rest,
            Instruction::CreateFolder { .. } => rest,
        }
    }
}

/// Law: a run keeps the tree sorted, and the names it holds afterwards are
/// exactly those it held before together with the `AddToTree` names of the
/// stream.
pub proof fn lemma_run_tree_from(t: TreeModel, instrs: Seq<Instruction>)
    requires
        tree_sorted(t),
    ensures
        tree_sorted(run_tree(t, instrs)),
        forall|x: Seq<char>|
            #[trigger] tree_contains(run_tree(t, instrs), x) <==> (tree_contains(t, x)
                || add_names(instrs).contains(x)),
    decreases instrs.len(),
{
    if instrs.len() == 0 {
        assert forall|x: Seq<char>| !add_names(instrs).contains(x) by {
            assert(add_names(instrs).len() == 0);
        }
    } else {
        let i0 = instrs[0];
        let t1 = step_tree(t, i0);
        let rest = instrs.drop_first();
        match i0 {
            Instruction::AddToTree { name, partition } => {
                if !tree_contains(t, name@) {
                    lemma_tree_insert_sorted(t, name@, prefix_partition(pm(partition)));
                    lemma_tree_insert_lookup(t, name@, prefix_partition(pm(partition)));
                }
                lemma_run_tree_from(t1, rest);
                assert forall|x: Seq<char>|
                    #[trigger] tree_contains(run_tree(t, instrs), x) <==> (tree_contains(t, x)
                        || add_names(instrs).contains(x)) by {
                    let ns = add_names(instrs);
                    assert(ns == seq![name@] + add_names(rest));
                    if tree_contains(run_tree(t, instrs), x) {
                        if !tree_contains(t, x) && x != name@ {
                            let j = choose|j: int|
                                0 <= j < add_names(rest).len() && add_names(rest)[j] == x;
                            assert(ns[j + 1] == x);
                        } else if x == name@ {
                            assert(ns[0] == x);
                        }
                    }
                    if ns.contains(x) {
                        let j = choose|j: int| 0 <= j < ns.len() && ns[j] == x;
                        if j == 0 {
                            assert(tree_contains(t1, x));
                        } else {
                            assert(add_names(rest)[j - 1] == x);
                            assert(add_names(rest).contains(x));
                        }
                    }
                }
            },
            Instruction::CreateFile { .. } => {
                lemma_run_tree_from(t1, rest);
            },
            Instruction::CreateFolder { .. } => {
                lemma_run_tree_from(t1, rest);
            },
        }
    }
}

/// Law: after a run from the empty tree, the tree holds exactly the
/// `AddToTree` names of the stream, in strictly ascending name order —
/// so the descriptor's branch entries are those names, sorted.
pub proof fn lemma_run_tree_keys(instrs: Seq<Instruction>)
    ensures
        tree_sorted(run_tree(Seq::empty(), instrs)),
        forall|x: Seq<char>|
            #[trigger] tree_contains(run_tree(Seq::empty(), instrs), x) <==> add_names(
                instrs,
            ).contains(x),
{
    lemma_run_tree_from(Seq::empty(), instrs);
}

/// Law: the first write wins. Adding a fresh name binds it to the
/// rewritten partition; adding the same name again, with any other
/// partition, leaves the tree exactly as it was.
pub proof fn lemma_duplicate_add(
    t: TreeModel,
    name: String,
    first: TreePartition,
    second: TreePartition,
)
    requires
        !tree_contains(t, name@),
    ensures
        tree_lookup(
            step_tree(t, (Instruction::AddToTree { name, partition: first })),
            name@,
        ) == Some(prefix_partition(pm(first))),
        step_tree(
            step_tree(t, (Instruction::AddToTree { name, partition: first })),
            (Instruction::AddToTree { name, partition: second }),
        ) == step_tree(t, (Instruction::AddToTree { name, partition: first })),
{
    lemma_tree_insert_lookup(t, name@, prefix_partition(pm(first)));
}

/// Law: the path rewrite is one level deep. The partition's own path and
/// each immediate child's path take the source prefix, each independently
/// of the other; child names and everything below the first level — the
/// grandchildren and their paths — stay exactly as the producer supplied
/// them.
pub proof fn lemma_prefix_depth_one(m: PartitionModel)
    ensures
        prefix_partition(m).path == prefix_opt(m.path),
        prefix_partition(m).children.len() == m.children.len(),
        forall|i: int|
            0 <= i < m.children.len() ==> #[trigger] prefix_partition(m).children[i]
                == (m.children[i].0, PartitionModel {
                path: prefix_opt(m.children[i].1.path),
                children: m.children[i].1.children,
            }),
{
}

/// Law: an empty run's descriptor holds only the discriminator entry.
pub proof fn lemma_empty_descriptor()
    ensures
        descriptor_json(Seq::empty()) == descriptor_header() + seq!['\n', '}'],
{
    assert(children_entries(Seq::empty(), seq![' ', ' ']) =~= Seq::<char>::empty());
    assert(descriptor_json(Seq::empty()) =~= descriptor_header() + seq!['\n', '}']);
}

} // verus!
