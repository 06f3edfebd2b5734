//! The in-memory entry tree built when an archive is created.
use vstd::prelude::*;

verus! {

/// What the metadata block records of one entry: its path bytes, whether it is
/// a directory, and its size (0 for a directory).
pub type Rec = (Seq<u8>, bool, u64);

/// One node of the archived tree.
pub struct WtarFile {
    pub path: Vec<u8>,
    pub is_dir: bool,
    pub size: u64,
    pub children: Vec<WtarFile>,
}

/// The record that the metadata block holds for `n` alone.
pub open spec fn rec_of(n: WtarFile) -> Rec {
    (n.path@, n.is_dir, if n.is_dir { 0 } else { n.size })
}

/// The records of `n` and everything below it, in pre-order. A file's
/// children are never recorded.
pub open spec fn preorder(n: WtarFile) -> Seq<Rec>
    decreases n, n.children@.len() + 1,
{
    if n.is_dir {
        seq![rec_of(n)] + preorder_children(n, n.children@.len() as int)
    } else {
        seq![rec_of(n)]
    }
}

/// The pre-order records of the first `i` children of `n`, one after another.
pub open spec fn preorder_children(n: WtarFile, i: int) -> Seq<Rec>
    decreases n, i,
{
    if i <= 0 || i > n.children@.len() {
        seq![]
    } else {
        preorder_children(n, i - 1) + preorder(n.children@[i - 1])
    }
}

impl WtarFile {
    /// A directory entry with no children yet.
    pub fn new_dir(path: Vec<u8>) -> (r: WtarFile)
        ensures
            r.path@ == path@,
            r.is_dir,
            r.size == 0,
            r.children@.len() == 0,
    {
        WtarFile { path, is_dir: true, size: 0, children: Vec::new() }
    }

    /// An entry as the filesystem describes it: a directory's size is
    /// always recorded as 0.
    pub fn from_metadata(path: Vec<u8>, is_dir: bool, len: u64) -> (r: WtarFile)
        ensures
            r.path@ == path@,
            r.is_dir == is_dir,
            r.size == (if is_dir { 0 } else { len }),
            r.children@.len() == 0,
    {
        WtarFile { path, is_dir, size: if is_dir { 0 } else { len }, children: Vec::new() }
    }

    /// Appends `child` after the children already present.
    pub fn push_child(&mut self, child: WtarFile)
        ensures
            final(self).children@ == old(self).children@.push(child),
            final(self).path == old(self).path,
            final(self).is_dir == old(self).is_dir,
            final(self).size == old(self).size,
    {
        self.children.push(child);
    }
}

} // verus!
