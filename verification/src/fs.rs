//! Shapes of directory trees and the file operations that mirror them.

use crate::assoc::{find_key, lemma_find_key_more};
use crate::text::{clone_lines, lemma_lines_push, lines_view};
use vstd::prelude::*;

verus! {

/// The shape of what lies at a path: a file, or a directory with its
/// entries. File contents are not part of a shape.
#[derive(Debug, PartialEq, Eq)]
pub enum Tree {
    File,
    Dir(Vec<TreeEntry>),
}

/// One entry of a directory.
#[derive(Debug, PartialEq, Eq)]
pub struct TreeEntry {
    pub name: String,
    pub node: Tree,
}

/// Mathematical model of a [`Tree`]: a directory is the sequence of its
/// entries, each a name and a shape.
pub enum TreeModel {
    File,
    Dir(Seq<(Seq<char>, TreeModel)>),
}

/// The model of a shape.
pub open spec fn tree_model(t: Tree) -> TreeModel
    decreases t, 0nat,
{
    match t {
        Tree::File => TreeModel::File,
        Tree::Dir(entries) => TreeModel::Dir(entries_model(entries@, entries@.len())),
    }
}

/// The names and models of the first `n` entries.
pub open spec fn entries_model(entries: Seq<TreeEntry>, n: nat) -> Seq<(Seq<char>, TreeModel)>
    decreases entries, n,
{
    if n == 0 || n > entries.len() {
        Seq::empty()
    } else {
        entries_model(entries, (n - 1) as nat).push(
            (entries[n - 1].name@, tree_model(entries[n - 1].node)),
        )
    }
}

impl View for Tree {
    type V = TreeModel;

    open spec fn view(&self) -> TreeModel {
        tree_model(*self)
    }
}

/// The names and models of all entries of a listing.
pub open spec fn listing_view(entries: Seq<TreeEntry>) -> Seq<(Seq<char>, TreeModel)> {
    Seq::new(entries.len(), |i: int| (entries[i].name@, entries[i].node@))
}

proof fn lemma_entries_model(entries: Seq<TreeEntry>, n: nat)
    requires
        n <= entries.len(),
    ensures
        entries_model(entries, n) =~= listing_view(entries).take(n as int),
    decreases n,
{
    if n > 0 {
        lemma_entries_model(entries, (n - 1) as nat);
    }
}

/// The model of a directory is the sequence of its entries' names and models.
pub proof fn lemma_dir_view(t: &Tree)
    requires
        t is Dir,
    ensures
        t@ == TreeModel::Dir(listing_view(t->Dir_0@)),
{
    lemma_entries_model(t->Dir_0@, t->Dir_0@.len());
    assert(listing_view(t->Dir_0@).take(t->Dir_0@.len() as int) =~= listing_view(t->Dir_0@));
}

/// Finds the first entry of a listing with the given name.
pub fn find_entry(entries: &Vec<TreeEntry>, name: &String) -> (r: Option<usize>)
    ensures
        match r {
            Some(j) => j < entries@.len() && find_key(
                listing_view(entries@),
                name@,
                entries@.len(),
            ) == Some(j as int),
            None => find_key(listing_view(entries@), name@, entries@.len()) is None,
        },
{
    let mut i: usize = 0;
    while i < entries.len()
        invariant
            i <= entries.len(),
            find_key(listing_view(entries@), name@, i as nat) is None,
        decreases entries.len() - i,
    {
        if entries[i].name == *name {
            proof {
                lemma_find_key_more(
                    listing_view(entries@),
                    name@,
                    (i + 1) as nat,
                    entries@.len(),
                );
            }
            return Some(i);
        }
        i += 1;
    }
    None
}

/// Which configuration directory a location lies in.
#[derive(Clone, Copy, Debug, PartialEq, Eq, Structural)]
pub enum Root {
    Source,
    Target,
}

/// A place below one of the two configuration directories, given by the
/// names on the way down.
#[derive(Debug, PartialEq, Eq)]
pub struct Location {
    pub root: Root,
    pub parts: Vec<String>,
}

/// Mathematical model of a [`Location`].
pub struct LocModel {
    pub root: Root,
    pub parts: Seq<Seq<char>>,
}

impl View for Location {
    type V = LocModel;

    open spec fn view(&self) -> LocModel {
        LocModel { root: self.root, parts: lines_view(self.parts@) }
    }
}

impl LocModel {
    /// The location one name further down.
    pub open spec fn child(self, name: Seq<char>) -> LocModel {
        LocModel { root: self.root, parts: self.parts.push(name) }
    }
}

impl Location {
    /// A location directly below a root.
    pub fn top(root: Root, name: &String) -> (r: Location)
        ensures
            r@ == (LocModel { root, parts: seq![name@] }),
    {
        let mut parts: Vec<String> = Vec::new();
        parts.push(name.clone());
        let r = Location { root, parts };
        assert(r@.parts =~= seq![name@]);
        r
    }

    /// The location one name further down.
    pub fn child(&self, name: &String) -> (r: Location)
        ensures
            r@ == self@.child(name@),
    {
        let mut parts = clone_lines(&self.parts);
        let ghost prev = parts@;
        let last = name.clone();
        parts.push(last);
        proof {
            lemma_lines_push(prev, last);
        }
        Location { root: self.root, parts }
    }

    /// A copy of the location.
    pub fn duplicate(&self) -> (r: Location)
        ensures
            r@ == self@,
    {
        Location { root: self.root, parts: clone_lines(&self.parts) }
    }
}

/// One operation on the file system.
#[derive(Debug, PartialEq, Eq)]
pub enum FsOp {
    /// Remove whatever directory tree lies at the place, if anything does.
    Clear(Location),
    /// Create the directory and any missing directory above it.
    CreateDirAll(Location),
    /// Copy one file, replacing the file at the destination.
    CopyFile { from: Location, to: Location },
}

/// Mathematical model of an [`FsOp`].
pub enum OpModel {
    Clear(LocModel),
    CreateDirAll(LocModel),
    CopyFile { from: LocModel, to: LocModel },
}

impl View for FsOp {
    type V = OpModel;

    open spec fn view(&self) -> OpModel {
        match self {
            FsOp::Clear(at) => OpModel::Clear(at@),
            FsOp::CreateDirAll(at) => OpModel::CreateDirAll(at@),
            FsOp::CopyFile { from, to } => OpModel::CopyFile { from: from@, to: to@ },
        }
    }
}

/// The models of a sequence of operations.
pub open spec fn ops_view(ops: Seq<FsOp>) -> Seq<OpModel> {
    Seq::new(ops.len(), |i: int| ops[i]@)
}

/// The operations that make `dst` a fresh copy of the directory `src`
/// whose entries are `entries`: clear `dst`, create it, then for each entry
/// in turn copy the file or mirror the directory below it.
pub open spec fn mirror_ops(src: LocModel, dst: LocModel, dir: TreeModel) -> Seq<OpModel>
    decreases dir, 1nat, 0nat,
{
    match dir {
        TreeModel::Dir(entries) => seq![OpModel::Clear(dst), OpModel::CreateDirAll(dst)]
            + entries_ops(src, dst, dir, entries.len()),
        TreeModel::File => Seq::empty(),
    }
}

/// The operations for the first `n` entries of the directory `dir`.
pub open spec fn entries_ops(src: LocModel, dst: LocModel, dir: TreeModel, n: nat) -> Seq<OpModel>
    decreases dir, 0nat, n,
{
    match dir {
        TreeModel::Dir(entries) => if n == 0 || n > entries.len() {
            Seq::empty()
        } else {
            let before = entries_ops(src, dst, dir, (n - 1) as nat);
            let name = entries[n - 1].0;
            match entries[n - 1].1 {
                TreeModel::File => before.push(
                    OpModel::CopyFile { from: src.child(name), to: dst.child(name) },
                ),
                TreeModel::Dir(_) => before + mirror_ops(
                    src.child(name),
                    dst.child(name),
                    entries[n - 1].1,
                ),
            }
        },
        TreeModel::File => Seq::empty(),
    }
}

/// Plans the mirroring of a directory: the destination is cleared and
/// created anew, then filled entry by entry, directories in depth.
pub fn copy_dir_recursive(src: &Location, dst: &Location, entries: &Vec<TreeEntry>) -> (ops: Vec<
    FsOp,
>)
    ensures
        ops_view(ops@) == mirror_ops(src@, dst@, TreeModel::Dir(listing_view(entries@))),
    decreases entries,
{
    let ghost dir = TreeModel::Dir(listing_view(entries@));
    let mut ops: Vec<FsOp> = Vec::new();
    ops.push(FsOp::Clear(dst.duplicate()));
    ops.push(FsOp::CreateDirAll(dst.duplicate()));
    assert(ops_view(ops@) =~= seq![OpModel::Clear(dst@), OpModel::CreateDirAll(dst@)] + entries_ops(
        src@,
        dst@,
        dir,
        0,
    ));
    let mut i: usize = 0;
    while i < entries.len()
        invariant
            i <= entries.len(),
            dir == TreeModel::Dir(listing_view(entries@)),
            ops_view(ops@) == seq![OpModel::Clear(dst@), OpModel::CreateDirAll(dst@)] + entries_ops(
                src@,
                dst@,
                dir,
                i as nat,
            ),
        decreases entries.len() - i,
    {
        let name = &entries[i].name;
        let ghost prev = ops@;
        match &entries[i].node {
            Tree::File => {
                let op = FsOp::CopyFile { from: src.child(name), to: dst.child(name) };
                ops.push(op);
                assert(ops_view(ops@) =~= ops_view(prev).push(op@));
            },
            Tree::Dir(children) => {
                proof {
                    lemma_dir_view(&entries[i as int].node);
                }
                let mut below = copy_dir_recursive(&src.child(name), &dst.child(name), children);
                let ghost added = below@;
                ops.append(&mut below);
                assert(ops_view(ops@) =~= ops_view(prev) + ops_view(added));
            },
        }
        assert(ops_view(ops@) =~= seq![OpModel::Clear(dst@), OpModel::CreateDirAll(dst@)]
            + entries_ops(src@, dst@, dir, (i + 1) as nat));
        i += 1;
    }
    ops
}

} // verus!
