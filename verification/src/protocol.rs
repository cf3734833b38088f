//! The instruction protocol: the commands a producer emits and the data
//! shapes they carry, together with the mathematical model of the project
//! tree that the contracts speak of.

use vstd::prelude::*;

use crate::order::lemma_lex_lt_asymmetric;
use crate::order::lex_lt;
use crate::order::lemma_lex_lt_connected;
use crate::order::lemma_lex_lt_transitive;

verus! {

/// A node of the output descriptor's tree: an optional physical path this
/// branch maps to, and nested branches keyed by name, unique within the
/// parent and kept sorted by name.
pub struct TreePartition {
    pub path: Option<String>,
    pub children: Vec<(String, TreePartition)>,
}

/// One command of the instruction stream, consumed one value per call.
pub enum Instruction {
    /// Registers a new top-level branch of the logical tree.
    AddToTree { name: String, partition: TreePartition },
    /// Writes a leaf file under the source root.
    CreateFile { filename: String, contents: Vec<u8> },
    /// Ensures a directory exists under the source root.
    CreateFolder { folder: String },
}

/// Mathematical model of a `TreePartition`: paths and names as character
/// sequences.
#[verifier::ext_equal]
pub ghost struct PartitionModel {
    pub path: Option<Seq<char>>,
    pub children: Seq<(Seq<char>, PartitionModel)>,
}

/// The model of a partition value.
pub open spec fn pm(p: TreePartition) -> PartitionModel
    decreases p,
{
    PartitionModel {
        path: match p.path {
            Some(s) => Some(s@),
            None => None,
        },
        children: pm_children(p.children@),
    }
}

/// The model of a list of named child partitions.
pub open spec fn pm_children(cs: Seq<(String, TreePartition)>) -> Seq<(Seq<char>, PartitionModel)>
    decreases cs,
{
    if cs.len() == 0 {
        Seq::empty()
    } else {
        pm_children(cs.drop_last()).push((cs.last().0@, pm(cs.last().1)))
    }
}

pub proof fn lemma_pm_children(cs: Seq<(String, TreePartition)>)
    ensures
        pm_children(cs).len() == cs.len(),
        forall|i: int|
            0 <= i < cs.len() ==> #[trigger] pm_children(cs)[i] == (cs[i].0@, pm(cs[i].1)),
    decreases cs.len(),
{
    if cs.len() > 0 {
        lemma_pm_children(cs.drop_last());
    }
}

/// The fixed name of the source subdirectory under the output root.
pub open spec fn src_dir() -> Seq<char> {
    seq!['s', 'r', 'c']
}

/// A raw producer path, rewritten to live under the source subdirectory.
pub open spec fn prefix_path(p: Seq<char>) -> Seq<char> {
    src_dir() + seq!['/'] + p
}

pub open spec fn prefix_opt(o: Option<Seq<char>>) -> Option<Seq<char>> {
    match o {
        Some(p) => Some(prefix_path(p)),
        None => None,
    }
}

/// Rewrites the path of one child partition, leaving its own children (the
/// grandchildren of the branch) untouched.
pub open spec fn prefix_child(m: PartitionModel) -> PartitionModel {
    PartitionModel { path: prefix_opt(m.path), children: m.children }
}

/// The single-level path rewrite a branch undergoes when it is added to the
/// tree: the partition's own path and the paths of its immediate children
/// are prefixed with the source subdirectory; deeper descendants keep the
/// paths the producer supplied.
pub open spec fn prefix_partition(m: PartitionModel) -> PartitionModel {
    PartitionModel {
        path: prefix_opt(m.path),
        children: Seq::new(
            m.children.len(),
            |i: int| (m.children[i].0, prefix_child(m.children[i].1)),
        ),
    }
}

/// The model of the top-level tree: branches keyed by name, sorted.
pub type TreeModel = Seq<(Seq<char>, PartitionModel)>;

pub open spec fn tree_contains(t: TreeModel, name: Seq<char>) -> bool {
    exists|i: int| 0 <= i < t.len() && t[i].0 == name
}

pub open spec fn tree_lookup(t: TreeModel, name: Seq<char>) -> Option<PartitionModel>
    decreases t.len(),
{
    if t.len() == 0 {
        None
    } else if t[0].0 == name {
        Some(t[0].1)
    } else {
        tree_lookup(t.drop_first(), name)
    }
}

/// Branch names strictly increase: sorted with no duplicates.
pub open spec fn tree_sorted(t: TreeModel) -> bool {
    forall|i: int, j: int| 0 <= i < j < t.len() ==> lex_lt(t[i].0, t[j].0)
}

/// Inserts a branch at its position in the name order.
pub open spec fn tree_insert(t: TreeModel, name: Seq<char>, m: PartitionModel) -> TreeModel
    decreases t.len(),
{
    if t.len() == 0 {
        seq![(name, m)]
    } else if lex_lt(name, t[0].0) {
        seq![(name, m)] + t
    } else {
        seq![t[0]] + tree_insert(t.drop_first(), name, m)
    }
}

/// How one instruction transforms the tree: `AddToTree` inserts the
/// rewritten partition unless the name is already taken (first write wins);
/// the file and folder commands leave the tree alone.
pub open spec fn step_tree(t: TreeModel, instr: Instruction) -> TreeModel {
    match instr {
        Instruction::AddToTree { name, partition } => if tree_contains(t, name@) {
            t
        } else {
            tree_insert(t, name@, prefix_partition(pm(partition)))
        },
        Instruction::CreateFile { .. } => t,
        Instruction::CreateFolder { .. } => t,
    }
}

/// The tree after a whole instruction stream.
pub open spec fn run_tree(t: TreeModel, instrs: Seq<Instruction>) -> TreeModel
    decreases instrs.len(),
{
    if instrs.len() == 0 {
        t
    } else {
        run_tree(step_tree(t, instrs[0]), instrs.drop_first())
    }
}

/// Where the new branch lands: before the first name it is below, after
/// every name it is above.
pub proof fn lemma_tree_insert_at(t: TreeModel, name: Seq<char>, m: PartitionModel, idx: int)
    requires
        0 <= idx <= t.len(),
        forall|k: int| 0 <= k < idx ==> lex_lt(#[trigger] t[k].0, name),
        idx < t.len() ==> lex_lt(name, t[idx].0),
    ensures
        tree_insert(t, name, m) == t.subrange(0, idx) + seq![(name, m)] + t.subrange(
            idx,
            t.len() as int,
        ),
    decreases t.len(),
{
    let r = tree_insert(t, name, m);
    if t.len() == 0 {
        assert(r =~= t.subrange(0, idx) + seq![(name, m)] + t.subrange(idx, t.len() as int));
    } else if idx == 0 {
        assert(lex_lt(name, t[0].0));
        assert(r =~= t.subrange(0, idx) + seq![(name, m)] + t.subrange(idx, t.len() as int));
    } else {
        assert(lex_lt(t[0].0, name));
        lemma_lex_lt_asymmetric(t[0].0, name);
        assert(!lex_lt(name, t[0].0));
        assert forall|k: int| 0 <= k < idx - 1 implies lex_lt(
            #[trigger] t.drop_first()[k].0,
            name,
        ) by {
            assert(t.drop_first()[k] == t[k + 1]);
        }
        assert(idx - 1 < t.drop_first().len() ==> lex_lt(name, t.drop_first()[idx - 1].0));
        lemma_tree_insert_at(t.drop_first(), name, m, idx - 1);
        assert(r =~= seq![t[0]] + (t.drop_first().subrange(0, idx - 1) + seq![(name, m)]
            + t.drop_first().subrange(idx - 1, t.drop_first().len() as int)));
        assert(r =~= t.subrange(0, idx) + seq![(name, m)] + t.subrange(idx, t.len() as int));
    }
}

/// Every element of an inserted tree is the new branch or one of the old
/// elements.
pub proof fn lemma_tree_insert_mem(t: TreeModel, name: Seq<char>, m: PartitionModel)
    ensures
        tree_insert(t, name, m).len() == t.len() + 1,
        forall|i: int|
            0 <= i < tree_insert(t, name, m).len() ==> (#[trigger] tree_insert(t, name, m)[i]
                == (name, m) || t.contains(tree_insert(t, name, m)[i])),
    decreases t.len(),
{
    let r = tree_insert(t, name, m);
    if t.len() == 0 {
    } else if lex_lt(name, t[0].0) {
        assert forall|i: int| 0 <= i < r.len() implies (#[trigger] r[i] == (name, m)
            || t.contains(r[i])) by {
            if i > 0 {
                assert(r[i] == t[i - 1]);
            }
        }
    } else {
        lemma_tree_insert_mem(t.drop_first(), name, m);
        let rr = tree_insert(t.drop_first(), name, m);
        assert forall|i: int| 0 <= i < r.len() implies (#[trigger] r[i] == (name, m)
            || t.contains(r[i])) by {
            if i == 0 {
                assert(r[0] == t[0]);
                assert(t.contains(t[0]));
            } else {
                assert(r[i] == rr[i - 1]);
                if rr[i - 1] != (name, m) {
                    let j = choose|j: int|
                        0 <= j < t.drop_first().len() && t.drop_first()[j] == rr[i - 1];
                    assert(t[j + 1] == rr[i - 1]);
                }
            }
        }
    }
}

/// Inserting a fresh name keeps the tree sorted.
pub proof fn lemma_tree_insert_sorted(t: TreeModel, name: Seq<char>, m: PartitionModel)
    requires
        tree_sorted(t),
        !tree_contains(t, name),
    ensures
        tree_sorted(tree_insert(t, name, m)),
    decreases t.len(),
{
    let r = tree_insert(t, name, m);
    if t.len() == 0 {
    } else if lex_lt(name, t[0].0) {
        assert forall|i: int, j: int| 0 <= i < j < r.len() implies lex_lt(r[i].0, r[j].0) by {
            if i == 0 {
                if j > 1 {
                    assert(r[j] == t[j - 1]);
                    lemma_lex_lt_transitive(name, t[0].0, t[j - 1].0);
                }
            } else {
                assert(r[i] == t[i - 1]);
                assert(r[j] == t[j - 1]);
            }
        }
    } else {
        assert(t[0].0 != name);
        if !lex_lt(t[0].0, name) {
            lemma_lex_lt_connected(name, t[0].0);
        }
        assert(lex_lt(t[0].0, name));
        assert(!tree_contains(t.drop_first(), name)) by {
            if tree_contains(t.drop_first(), name) {
                let j = choose|j: int|
                    0 <= j < t.drop_first().len() && t.drop_first()[j].0 == name;
                assert(t[j + 1].0 == name);
            }
        }
        lemma_tree_insert_sorted(t.drop_first(), name, m);
        lemma_tree_insert_mem(t.drop_first(), name, m);
        let rr = tree_insert(t.drop_first(), name, m);
        assert forall|i: int, j: int| 0 <= i < j < r.len() implies lex_lt(r[i].0, r[j].0) by {
            if i == 0 {
                assert(r[j] == rr[j - 1]);
                if rr[j - 1] == (name, m) {
                    assert(lex_lt(t[0].0, name));
                } else {
                    let k = choose|k: int|
                        0 <= k < t.drop_first().len() && t.drop_first()[k] == rr[j - 1];
                    assert(t[k + 1] == rr[j - 1]);
                }
            } else {
                assert(r[i] == rr[i - 1]);
                assert(r[j] == rr[j - 1]);
            }
        }
    }
}

/// What the inserted tree holds: the new name maps to the new partition and
/// every other name keeps its binding.
pub proof fn lemma_tree_insert_lookup(t: TreeModel, name: Seq<char>, m: PartitionModel)
    requires
        !tree_contains(t, name),
    ensures
        tree_lookup(tree_insert(t, name, m), name) == Some(m),
        forall|x: Seq<char>|
            x != name ==> #[trigger] tree_lookup(tree_insert(t, name, m), x) == tree_lookup(t, x),
        forall|x: Seq<char>|
            #[trigger] tree_contains(tree_insert(t, name, m), x) <==> (tree_contains(t, x)
                || x == name),
    decreases t.len(),
{
    let r = tree_insert(t, name, m);
    if t.len() == 0 {
        assert(r =~= seq![(name, m)]);
        assert(r[0].0 == name);
        assert forall|x: Seq<char>|
            x != name implies #[trigger] tree_lookup(r, x) == tree_lookup(t, x) by {
            assert(r.drop_first() =~= t);
        }
        assert forall|x: Seq<char>|
            #[trigger] tree_contains(r, x) <==> (tree_contains(t, x) || x == name) by {
            if tree_contains(r, x) {
                let i = choose|i: int| 0 <= i < r.len() && r[i].0 == x;
                assert(i == 0);
            }
            if x == name {
                assert(r[0].0 == x);
            }
        }
    } else if lex_lt(name, t[0].0) {
        assert(r =~= seq![(name, m)] + t);
        assert(r[0].0 == name);
        assert(r.drop_first() =~= t);
        assert forall|x: Seq<char>|
            #[trigger] tree_contains(r, x) <==> (tree_contains(t, x) || x == name) by {
            if tree_contains(r, x) {
                let i = choose|i: int| 0 <= i < r.len() && r[i].0 == x;
                if i > 0 {
                    assert(t[i - 1].0 == x);
                }
            }
            if tree_contains(t, x) {
                let i = choose|i: int| 0 <= i < t.len() && t[i].0 == x;
                assert(r[i + 1].0 == x);
            }
            if x == name {
                assert(r[0].0 == x);
            }
        }
    } else {
        assert(t[0].0 != name);
        assert(!tree_contains(t.drop_first(), name)) by {
            if tree_contains(t.drop_first(), name) {
                let j = choose|j: int|
                    0 <= j < t.drop_first().len() && t.drop_first()[j].0 == name;
                assert(t[j + 1].0 == name);
            }
        }
        lemma_tree_insert_lookup(t.drop_first(), name, m);
        let rr = tree_insert(t.drop_first(), name, m);
        assert(r =~= seq![t[0]] + rr);
        assert(r[0] == t[0]);
        assert(r.drop_first() =~= rr);
        assert(tree_lookup(r, name) == tree_lookup(rr, name));
        assert forall|x: Seq<char>|
            x != name implies #[trigger] tree_lookup(r, x) == tree_lookup(t, x) by {
            if x != t[0].0 {
                assert(tree_lookup(r, x) == tree_lookup(rr, x));
                assert(tree_lookup(t, x) == tree_lookup(t.drop_first(), x));
            }
        }
        assert forall|x: Seq<char>|
            #[trigger] tree_contains(r, x) <==> (tree_contains(t, x) || x == name) by {
            if tree_contains(r, x) {
                let i = choose|i: int| 0 <= i < r.len() && r[i].0 == x;
                if i > 0 {
                    assert(rr[i - 1].0 == x);
                    assert(tree_contains(rr, x));
                } else {
                    assert(t[0].0 == x);
                }
            }
            if tree_contains(t, x) {
                let i = choose|i: int| 0 <= i < t.len() && t[i].0 == x;
                if i > 0 {
                    assert(t.drop_first()[i - 1].0 == x);
                    assert(tree_contains(t.drop_first(), x));
                    assert(tree_contains(rr, x));
                    let k = choose|k: int| 0 <= k < rr.len() && rr[k].0 == x;
                    assert(r[k + 1].0 == x);
                }
            }
            if x == name {
                assert(tree_contains(rr, name));
                let k = choose|k: int| 0 <= k < rr.len() && rr[k].0 == name;
                assert(r[k + 1].0 == x);
            }
        }
    }
}

} // verus!
