//! The filesystem materializer: a stateful sink that applies instructions
//! one at a time, keeps the project tree sorted by branch name, and records
//! every failure in an ordered error log instead of aborting.
//!
//! The materializer itself performs no filesystem work: applying an
//! instruction yields the request the runner must perform, and the runner
//! reports a failed request back so it lands in the error log. Finalizing
//! yields the descriptor document and the path it belongs at.

use vstd::prelude::*;

use crate::json::descriptor_json;
use crate::json::write_descriptor;
use crate::order::lemma_lex_lt_connected;
use crate::order::lex_lt;
use crate::order::str_lt;
use crate::order::str_eq;
use crate::protocol::Instruction;
use crate::protocol::PartitionModel;
use crate::protocol::TreePartition;
use crate::protocol::lemma_pm_children;
use crate::protocol::lemma_tree_insert_at;
use crate::protocol::lemma_tree_insert_sorted;
use crate::protocol::pm;
use crate::protocol::pm_children;
use crate::protocol::prefix_child;
use crate::protocol::prefix_partition;
use crate::protocol::prefix_path;
use crate::protocol::src_dir;
use crate::protocol::step_tree;
use crate::protocol::tree_contains;
use crate::protocol::tree_insert;
use crate::protocol::tree_sorted;

verus! {

/// The top-level aggregate: a display name and the tree of branches, kept
/// sorted by branch name.
pub struct Project {
    pub name: String,
    pub tree: Vec<(String, TreePartition)>,
}

impl Project {
    pub fn new() -> (p: Project)
        ensures
            p.name@ == ("project")@,
            p.tree@.len() == 0,
    {
        Project { name: String::from_str("project"), tree: Vec::new() }
    }
}

/// One piece of filesystem work the materializer asks its runner to do.
pub enum IoRequest {
    /// Create (or truncate) the file at `path` and write all of `contents`.
    WriteFile { path: String, contents: Vec<u8> },
    /// Create the directory at `path` and any missing ancestors.
    CreateDirAll { path: String },
}

/// Which step of carrying a request out failed.
#[derive(Clone, Copy, Debug)]
pub enum IoPhase {
    Create,
    Write,
}

/// The finalize step's outcome: the descriptor document and where it goes.
pub struct DescriptorWrite {
    pub path: String,
    pub contents: String,
}

/// The error log entry for a duplicate top-level branch name.
pub open spec fn dup_msg(name: Seq<char>) -> Seq<char> {
    ("Duplicate item in tree (skipping): ")@ + name
}

/// The error log entry for a failed file request.
pub open spec fn file_failure_msg(phase: IoPhase, name: Seq<char>, cause: Seq<char>) -> Seq<char> {
    match phase {
        IoPhase::Create => ("Failed to create file ")@ + name + (": ")@ + cause,
        IoPhase::Write => ("Failed to write to file ")@ + name + (": ")@ + cause,
    }
}

/// The error log entry for a failed folder request.
pub open spec fn folder_failure_msg(name: Seq<char>, cause: Seq<char>) -> Seq<char> {
    ("Failed to create folder ")@ + name + (": ")@ + cause
}

/// The error log entry for a failed descriptor write.
pub open spec fn descriptor_failure_msg(phase: IoPhase, cause: Seq<char>) -> Seq<char> {
    match phase {
        IoPhase::Create => ("Failed to create project file: ")@ + cause,
        IoPhase::Write => ("Failed to write project file: ")@ + cause,
    }
}

/// The file name of the descriptor, directly under the output root.
pub open spec fn descriptor_file_name() -> Seq<char> {
    seq![
        'd',
        'e',
        'f',
        'a',
        'u',
        'l',
        't',
        '.',
        'p',
        'r',
        'o',
        'j',
        'e',
        'c',
        't',
        '.',
        'j',
        's',
        'o',
        'n',
    ]
}

/// `after` is `before` with one entry reading `msg` appended.
pub open spec fn appended(before: Seq<String>, after: Seq<String>, msg: Seq<char>) -> bool {
    &&& after.len() == before.len() + 1
    &&& after.subrange(0, before.len() as int) == before
    &&& after.last()@ == msg
}

/// Joins a relative path under a base directory.
fn join_under(base: &String, rel: &String) -> (r: String)
    ensures
        r@ == base@ + seq!['/'] + rel@,
{
    let mut r = base.clone();
    r.append("/");
    proof {
        reveal_strlit("/");
        assert(("/")@ =~= seq!['/']);
    }
    r.append(rel.as_str());
    proof {
        assert(r@ =~= base@ + seq!['/'] + rel@);
    }
    r
}

/// Whether a branch of this name is already in the tree.
fn contains_name(tree: &Vec<(String, TreePartition)>, name: &String) -> (r: bool)
    ensures
        r == tree_contains(pm_children(tree@), name@),
{
    proof {
        lemma_pm_children(tree@);
    }
    let ghost t = pm_children(tree@);
    let mut i: usize = 0;
    while i < tree.len()
        invariant
            i <= tree.len(),
            t == pm_children(tree@),
            t.len() == tree@.len(),
            forall|k: int| 0 <= k < t.len() ==> #[trigger] t[k].0 == tree@[k].0@,
            forall|k: int| 0 <= k < i ==> #[trigger] tree@[k].0@ != name@,
        decreases tree.len() - i,
    {
        if str_eq(&tree[i].0, name) {
            proof {
                assert(t[i as int].0 == name@);
            }
            return true;
        }
        i = i + 1;
    }
    proof {
        if tree_contains(t, name@) {
            let j = choose|j: int| 0 <= j < t.len() && t[j].0 == name@;
            assert(tree@[j].0@ == name@);
        }
    }
    false
}

/// Prefixes a raw producer path with the source subdirectory.
fn prefix_string(path: String) -> (r: String)
    ensures
        r@ == prefix_path(path@),
{
    let mut r = String::from_str("src/");
    proof {
        reveal_strlit("src/");
        assert(("src/")@ =~= seq!['s', 'r', 'c', '/']);
    }
    r.append(path.as_str());
    proof {
        assert(r@ =~= prefix_path(path@));
    }
    r
}

/// Applies the single-level path rewrite to a partition: its own path and
/// its immediate children's paths move under the source subdirectory, while
/// deeper descendants keep the paths the producer supplied.
fn prefix_partition_exec(p: TreePartition) -> (r: TreePartition)
    ensures
        pm(r) == prefix_partition(pm(p)),
{
    let ghost p0 = p;
    let TreePartition { path, children } = p;
    let new_path = match path {
        Some(s) => Some(prefix_string(s)),
        None => None,
    };
    let ghost orig = children@;
    let mut rest = children;
    let mut done: Vec<(String, TreePartition)> = Vec::new();
    while rest.len() > 0
        invariant
            done@.len() + rest@.len() == orig.len(),
            rest@ == orig.skip(done@.len() as int),
            forall|k: int|
                0 <= k < done@.len() ==> #[trigger] done@[k].0 == orig[k].0 && pm(done@[k].1)
                    == prefix_child(pm(orig[k].1)),
        decreases rest@.len(),
    {
        let ghost k = done@.len() as int;
        let (n, c) = rest.remove(0);
        proof {
            assert(n == orig[k].0);
            assert(c == orig[k].1);
            assert(rest@ =~= orig.skip(k + 1));
        }
        let ghost c0 = c;
        let TreePartition { path: cpath, children: cch } = c;
        let npath = match cpath {
            Some(s) => Some(prefix_string(s)),
            None => None,
        };
        let nc = TreePartition { path: npath, children: cch };
        proof {
            assert(pm(nc) =~= prefix_child(pm(c0)));
        }
        let ghost pre = done@;
        done.push((n, nc));
        proof {
            assert forall|j: int|
                0 <= j < done@.len() implies #[trigger] done@[j].0 == orig[j].0 && pm(done@[j].1)
                == prefix_child(pm(orig[j].1)) by {
                if j < k {
                    assert(done@[j] == pre[j]);
                } else {
                    assert(done@[j] == (n, nc));
                }
            }
        }
    }
    let r = TreePartition { path: new_path, children: done };
    proof {
        assert(orig.skip(orig.len() as int).len() == 0);
        lemma_pm_children(r.children@);
        lemma_pm_children(p0.children@);
        assert forall|k: int| 0 <= k < orig.len() implies #[trigger] pm_children(r.children@)[k]
            == (pm(p0).children[k].0, prefix_child(pm(p0).children[k].1)) by {
            assert(pm_children(r.children@)[k] == (done@[k].0@, pm(done@[k].1)));
            assert(pm(p0).children[k] == (p0.children@[k].0@, pm(p0.children@[k].1)));
        }
        assert(pm(r).children =~= prefix_partition(pm(p0)).children);
        assert(pm(r) =~= prefix_partition(pm(p0)));
    }
    r
}

/// Inserts a fresh branch at its place in the name order.
fn insert_sorted(tree: &mut Vec<(String, TreePartition)>, name: String, part: TreePartition)
    requires
        tree_sorted(pm_children(old(tree)@)),
        !tree_contains(pm_children(old(tree)@), name@),
    ensures
        pm_children(final(tree)@) == tree_insert(pm_children(old(tree)@), name@, pm(part)),
        tree_sorted(pm_children(final(tree)@)),
{
    proof {
        lemma_pm_children(tree@);
    }
    let ghost t = pm_children(tree@);
    let mut idx: usize = 0;
    while idx < tree.len() && str_lt(&tree[idx].0, &name)
        invariant
            idx <= tree.len(),
            *tree == *old(tree),
            t == pm_children(tree@),
            t.len() == tree@.len(),
            forall|k: int| 0 <= k < t.len() ==> #[trigger] t[k].0 == tree@[k].0@,
            forall|k: int| 0 <= k < idx ==> lex_lt(#[trigger] t[k].0, name@),
        decreases tree.len() - idx,
    {
        idx = idx + 1;
    }
    proof {
        if (idx as int) < t.len() {
            assert(!lex_lt(t[idx as int].0, name@));
            assert(t[idx as int].0 != name@);
            if !lex_lt(name@, t[idx as int].0) {
                lemma_lex_lt_connected(t[idx as int].0, name@);
            }
            assert(lex_lt(name@, t[idx as int].0));
        }
        lemma_tree_insert_at(t, name@, pm(part), idx as int);
        lemma_tree_insert_sorted(t, name@, pm(part));
    }
    let ghost named = (name@, pm(part));
    tree.insert(idx, (name, part));
    proof {
        lemma_pm_children(tree@);
        assert forall|k: int| 0 <= k < tree@.len() implies #[trigger] pm_children(tree@)[k]
            == (t.subrange(0, idx as int) + seq![named] + t.subrange(idx as int, t.len() as int))[
            k] by {
            if k < idx as int {
                assert(tree@[k] == old(tree)@[k]);
            } else if k > idx as int {
                assert(tree@[k] == old(tree)@[k - 1]);
            }
        }
        assert(pm_children(tree@) =~= tree_insert(t, name@, pm(part)));
    }
}

/// The materializer: one instance per conversion job, bound to one output
/// root, mutated by every applied instruction, discarded after the caller
/// extracts the error log.
pub struct FileSystem {
    pub project: Project,
    pub root: String,
    pub source: String,
    pub errors: Vec<String>,
}

impl FileSystem {
    /// The materializer's invariant: the tree is sorted with no duplicate
    /// names, and the source directory sits under the root.
    pub open spec fn wf(self) -> bool {
        &&& tree_sorted(pm_children(self.project.tree@))
        &&& self.source@ == self.root@ + seq!['/'] + src_dir()
    }

    /// The model of the accumulated tree.
    pub open spec fn tree_model(self) -> Seq<(Seq<char>, PartitionModel)> {
        pm_children(self.project.tree@)
    }

    /// Binds a fresh materializer to an output root. The runner should then
    /// carry out `setup_request` to create the source subdirectory; a
    /// failure there is only worth a warning, since each later request
    /// fails and is logged on its own if the directory never appears.
    pub fn from_root(root: String) -> (fs: FileSystem)
        ensures
            fs.wf(),
            fs.root == root,
            fs.project.name@ == ("project")@,
            fs.tree_model().len() == 0,
            fs.errors@.len() == 0,
    {
        let mut source = root.clone();
        source.append("/src");
        proof {
            reveal_strlit("/src");
            assert(("/src")@ =~= seq!['/'] + src_dir());
            assert(source@ == root@ + seq!['/'] + src_dir());
        }
        let fs = FileSystem { project: Project::new(), root, source, errors: Vec::new() };
        proof {
            assert(fs.tree_model().len() == 0);
        }
        fs
    }

    /// The eager piece of construction: the request to create the source
    /// subdirectory and its missing ancestors.
    pub fn setup_request(&self) -> (r: IoRequest)
        ensures
            r matches IoRequest::CreateDirAll { path } && path@ == self.source@,
    {
        IoRequest::CreateDirAll { path: self.source.clone() }
    }

    /// Applies one instruction. `AddToTree` mutates the tree (first write
    /// wins; a duplicate name only logs a conflict) and needs no filesystem
    /// work; the file and folder commands leave the state alone and return
    /// the request the runner must perform under the source subdirectory.
    pub fn read_instruction(&mut self, instruction: Instruction) -> (r: Option<IoRequest>)
        requires
            old(self).wf(),
        ensures
            final(self).wf(),
            final(self).root == old(self).root,
            final(self).source == old(self).source,
            final(self).project.name == old(self).project.name,
            final(self).tree_model() == step_tree(old(self).tree_model(), instruction),
            match instruction {
                Instruction::AddToTree { name, partition } => {
                    &&& r is None
                    &&& if tree_contains(old(self).tree_model(), name@) {
                        appended(old(self).errors@, final(self).errors@, dup_msg(name@))
                    } else {
                        final(self).errors@ == old(self).errors@
                    }
                },
                Instruction::CreateFile { filename, contents } => {
                    &&& *final(self) == *old(self)
                    &&& (r matches Some(IoRequest::WriteFile { path, contents: c })
                        && path@ == old(self).source@ + seq!['/'] + filename@
                        && c@ == contents@)
                },
                Instruction::CreateFolder { folder } => {
                    &&& *final(self) == *old(self)
                    &&& (r matches Some(IoRequest::CreateDirAll { path })
                        && path@ == old(self).source@ + seq!['/'] + folder@)
                },
            },
    {
        match instruction {
            Instruction::AddToTree { name, partition } => {
                if contains_name(&self.project.tree, &name) {
                    let mut msg = String::from_str("Duplicate item in tree (skipping): ");
                    msg.append(name.as_str());
                    let ghost before = self.errors@;
                    self.errors.push(msg);
                    proof {
                        assert(self.errors@.subrange(0, before.len() as int) =~= before);
                    }
                    None
                } else {
                    let part = prefix_partition_exec(partition);
                    insert_sorted(&mut self.project.tree, name, part);
                    None
                }
            },
            Instruction::CreateFile { filename, contents } => {
                let path = join_under(&self.source, &filename);
                Some(IoRequest::WriteFile { path, contents })
            },
            Instruction::CreateFolder { folder } => {
                let path = join_under(&self.source, &folder);
                Some(IoRequest::CreateDirAll { path })
            },
        }
    }

    /// Records that a file request failed, with the failing step and the
    /// underlying cause; processing of later instructions is unaffected.
    pub fn report_file_failure(&mut self, filename: &String, phase: IoPhase, cause: &String)
        ensures
            final(self).project == old(self).project,
            final(self).root == old(self).root,
            final(self).source == old(self).source,
            appended(
                old(self).errors@,
                final(self).errors@,
                file_failure_msg(phase, filename@, cause@),
            ),
    {
        let mut msg = match phase {
            IoPhase::Create => String::from_str("Failed to create file "),
            IoPhase::Write => String::from_str("Failed to write to file "),
        };
        msg.append(filename.as_str());
        msg.append(": ");
        msg.append(cause.as_str());
        let ghost before = self.errors@;
        self.errors.push(msg);
        proof {
            assert(self.errors@.subrange(0, before.len() as int) =~= before);
        }
    }

    /// Records that a folder request failed.
    pub fn report_folder_failure(&mut self, folder: &String, cause: &String)
        ensures
            final(self).project == old(self).project,
            final(self).root == old(self).root,
            final(self).source == old(self).source,
            appended(
                old(self).errors@,
                final(self).errors@,
                folder_failure_msg(folder@, cause@),
            ),
    {
        let mut msg = String::from_str("Failed to create folder ");
        msg.append(folder.as_str());
        msg.append(": ");
        msg.append(cause.as_str());
        let ghost before = self.errors@;
        self.errors.push(msg);
        proof {
            assert(self.errors@.subrange(0, before.len() as int) =~= before);
        }
    }

    /// Records that writing the descriptor file failed.
    pub fn report_descriptor_failure(&mut self, phase: IoPhase, cause: &String)
        ensures
            final(self).project == old(self).project,
            final(self).root == old(self).root,
            final(self).source == old(self).source,
            appended(
                old(self).errors@,
                final(self).errors@,
                descriptor_failure_msg(phase, cause@),
            ),
    {
        let mut msg = match phase {
            IoPhase::Create => String::from_str("Failed to create project file: "),
            IoPhase::Write => String::from_str("Failed to write project file: "),
        };
        msg.append(cause.as_str());
        let ghost before = self.errors@;
        self.errors.push(msg);
        proof {
            assert(self.errors@.subrange(0, before.len() as int) =~= before);
        }
    }

    /// Finalizes the job: serializes the accumulated tree to the descriptor
    /// document, to be written directly under the output root, beside the
    /// source subdirectory. Serialization is total, so the only failure
    /// left to report is the write itself.
    pub fn finish_instructions(&self) -> (r: DescriptorWrite)
        ensures
            r.path@ == self.root@ + seq!['/'] + descriptor_file_name(),
            r.contents@ == descriptor_json(self.tree_model()),
    {
        let mut path = self.root.clone();
        path.append("/default.project.json");
        proof {
            reveal_strlit("/default.project.json");
            assert(("/default.project.json")@ =~= seq!['/'] + descriptor_file_name());
            assert(path@ == self.root@ + seq!['/'] + descriptor_file_name());
        }
        let contents = write_descriptor(&self.project.tree);
        DescriptorWrite { path, contents }
    }

    /// Returns the errors that occurred during processing, oldest first.
    pub fn get_errors(&self) -> (r: &Vec<String>)
        ensures
            r@ == self.errors@,
    {
        &self.errors
    }

    /// Returns true if any errors occurred.
    pub fn has_errors(&self) -> (r: bool)
        ensures
            r == (self.errors@.len() > 0),
    {
        !self.errors.is_empty()
    }
}

} // verus!
