//! The part of a file system that a lookup reads, held in memory: which paths
//! exist, which of them are directories, and what the files that were read
//! hold. A lookup gets it as a value and never touches the real disk.

use crate::bytes::{
    bytes_eq, dir_prefix, find_byte, first_index, lemma_first_index_unique, starts_with, SLASH,
};
use vstd::prelude::*;
use vstd::slice::{slice_subrange, slice_to_vec};

verus! {

/// One path that exists.
#[derive(Debug, Clone)]
pub struct DiskEntry {
    pub path: Vec<u8>,
    /// Whether the path is a directory.
    pub is_dir: bool,
    /// What the file holds, where it is a file that could be read.
    pub content: Option<Vec<u8>>,
}

/// What a `DiskEntry` is.
pub struct NodeView {
    pub path: Seq<u8>,
    pub is_dir: bool,
    pub content: Option<Seq<u8>>,
}

impl View for DiskEntry {
    type V = NodeView;

    open spec fn view(&self) -> NodeView {
        NodeView {
            path: self.path@,
            is_dir: self.is_dir,
            content: match self.content {
                Some(bytes) => Some(bytes@),
                None => None,
            },
        }
    }
}

/// The paths that exist, in the order in which their directories list them.
/// Where a path stands twice, the first entry says what it is.
#[derive(Debug, Clone)]
pub struct Disk {
    pub entries: Vec<DiskEntry>,
}

/// What a `Disk` is: its entries, in order.
pub struct DiskView {
    pub nodes: Seq<NodeView>,
}

impl View for Disk {
    type V = DiskView;

    open spec fn view(&self) -> DiskView {
        DiskView { nodes: self.entries@.map_values(|e: DiskEntry| e@) }
    }
}

/// Whether `path` lies directly in the directory `dir`.
pub open spec fn is_child(dir: Seq<u8>, path: Seq<u8>) -> bool {
    let start = dir_prefix(dir);
    let name = path.skip(start.len() as int);
    &&& path.len() > start.len()
    &&& path.subrange(0, start.len() as int) == start
    &&& first_index(name, SLASH) >= name.len()
}

/// The name of `path` in the directory `dir` that it lies in: what stands
/// behind the directory and its `/`.
pub open spec fn child_name(dir: Seq<u8>, path: Seq<u8>) -> Seq<u8> {
    if dir_prefix(dir).len() <= path.len() {
        path.skip(dir_prefix(dir).len() as int)
    } else {
        Seq::empty()
    }
}

impl DiskView {
    /// The paths of the entries, in order.
    pub open spec fn paths(self) -> Seq<Seq<u8>> {
        self.nodes.map_values(|n: NodeView| n.path)
    }

    /// Where `path` first stands, or `nodes.len()` where it does not exist.
    pub open spec fn slot(self, path: Seq<u8>) -> int {
        first_index(self.paths(), path)
    }

    /// Whether `path` exists.
    pub open spec fn has(self, path: Seq<u8>) -> bool {
        self.slot(path) < self.nodes.len()
    }

    /// Whether `path` exists and is a directory.
    pub open spec fn is_dir(self, path: Seq<u8>) -> bool {
        self.has(path) && self.nodes[self.slot(path)].is_dir
    }

    /// What the file at `path` holds, where it exists, is no directory and
    /// could be read.
    pub open spec fn read(self, path: Seq<u8>) -> Option<Seq<u8>> {
        if self.has(path) && !self.nodes[self.slot(path)].is_dir {
            self.nodes[self.slot(path)].content
        } else {
            None
        }
    }

    /// The paths that lie directly in `dir`, in the order of the entries.
    pub open spec fn children(self, dir: Seq<u8>) -> Seq<Seq<u8>> {
        children_of(self.paths(), dir)
    }
}

/// Those of `paths` that lie directly in `dir`, in order.
pub open spec fn children_of(paths: Seq<Seq<u8>>, dir: Seq<u8>) -> Seq<Seq<u8>>
    decreases paths.len(),
{
    if paths.len() == 0 {
        Seq::empty()
    } else if is_child(dir, paths.last()) {
        children_of(paths.drop_last(), dir).push(paths.last())
    } else {
        children_of(paths.drop_last(), dir)
    }
}

/// What each of `list` holds.
pub open spec fn slice_views(list: Seq<&[u8]>) -> Seq<Seq<u8>> {
    list.map_values(|s: &[u8]| s@)
}

impl Disk {
    /// A disk on which nothing exists.
    pub fn new() -> (disk: Disk)
        ensures
            disk@.nodes.len() == 0,
    {
        let disk = Disk { entries: Vec::new() };
        assert(disk@.nodes =~= Seq::empty());
        disk
    }

    /// Adds the directory `path`, after the entries there are.
    pub fn add_dir(&mut self, path: &[u8])
        ensures
            final(self)@.nodes == old(self)@.nodes.push(
                NodeView { path: path@, is_dir: true, content: None },
            ),
    {
        let entry = DiskEntry { path: slice_to_vec(path), is_dir: true, content: None };
        self.entries.push(entry);
        assert(self@.nodes =~= old(self)@.nodes.push(
            NodeView { path: path@, is_dir: true, content: None },
        ));
    }

    /// Adds the file `path`, after the entries there are, with what it holds
    /// where that is known.
    pub fn add_file(&mut self, path: &[u8], content: Option<&[u8]>)
        ensures
            final(self)@.nodes == old(self)@.nodes.push(
                NodeView {
                    path: path@,
                    is_dir: false,
                    content: match content {
                        Some(bytes) => Some(bytes@),
                        None => None,
                    },
                },
            ),
    {
        let held = match content {
            Some(bytes) => Some(slice_to_vec(bytes)),
            None => None,
        };
        let entry = DiskEntry { path: slice_to_vec(path), is_dir: false, content: held };
        self.entries.push(entry);
        assert(self@.nodes =~= old(self)@.nodes.push(entry@));
    }

    /// The index of the first entry for `path`.
    fn find(&self, path: &[u8]) -> (slot: usize)
        ensures
            slot == self@.slot(path@),
            slot <= self.entries@.len(),
    {
        let mut i: usize = 0;
        while i < self.entries.len()
            invariant
                i <= self.entries@.len(),
                forall|j: int| 0 <= j < i ==> self@.paths()[j] != path@,
            decreases self.entries@.len() - i,
        {
            if bytes_eq(self.entries[i].path.as_slice(), path) {
                proof {
                    lemma_first_index_unique(self@.paths(), path@, i as int);
                }
                return i;
            }
            i += 1;
        }
        proof {
            lemma_first_index_unique(self@.paths(), path@, i as int);
        }
        i
    }

    /// Whether `path` exists.
    pub fn has(&self, path: &[u8]) -> (yes: bool)
        ensures
            yes == self@.has(path@),
    {
        self.find(path) < self.entries.len()
    }

    /// Whether `path` exists and is a directory.
    pub fn is_dir(&self, path: &[u8]) -> (yes: bool)
        ensures
            yes == self@.is_dir(path@),
    {
        let slot = self.find(path);
        slot < self.entries.len() && self.entries[slot].is_dir
    }

    /// What the file at `path` holds.
    pub fn read(&self, path: &[u8]) -> (content: Option<&[u8]>)
        ensures
            match content {
                Some(bytes) => self@.read(path@) == Some(bytes@),
                None => self@.read(path@) is None,
            },
    {
        let slot = self.find(path);
        if slot < self.entries.len() && !self.entries[slot].is_dir {
            match &self.entries[slot].content {
                Some(bytes) => Some(bytes.as_slice()),
                None => None,
            }
        } else {
            None
        }
    }

    /// The paths that lie directly in `dir`, in the order of the entries.
    pub fn read_dir(&self, dir: &[u8]) -> (found: Vec<&[u8]>)
        ensures
            slice_views(found@) == self@.children(dir@),
    {
        let mut found: Vec<&[u8]> = Vec::new();
        let mut i: usize = 0;
        assert(self@.paths().take(0) =~= Seq::empty());
        assert(slice_views(found@) =~= Seq::empty());
        while i < self.entries.len()
            invariant
                i <= self.entries@.len(),
                slice_views(found@) == children_of(self@.paths().take(i as int), dir@),
            decreases self.entries@.len() - i,
        {
            let path = self.entries[i].path.as_slice();
            proof {
                let upto = self@.paths().take(i + 1);
                assert(upto.drop_last() =~= self@.paths().take(i as int));
                assert(upto.last() == path@);
            }
            if lies_in(dir, path) {
                let ghost before = found@;
                found.push(path);
                assert(slice_views(found@) =~= slice_views(before).push(path@));
            }
            i += 1;
        }
        assert(self@.paths().take(i as int) =~= self@.paths());
        found
    }
}

/// Whether `path` lies directly in the directory `dir`.
pub fn lies_in(dir: &[u8], path: &[u8]) -> (yes: bool)
    ensures
        yes == is_child(dir@, path@),
{
    let bare: bool = dir.len() == 0 || dir[dir.len() - 1] == SLASH;
    let length: usize = path.len();
    let start: usize = if bare {
        dir.len()
    } else {
        if dir.len() == usize::MAX {
            assert(path@.len() == length);
            assert(dir_prefix(dir@).len() == dir@.len() + 1);
            return false;
        }
        dir.len() + 1
    };
    if path.len() <= start {
        return false;
    }
    if !starts_with(path, dir) {
        assert(dir_prefix(dir@).subrange(0, dir@.len() as int) =~= dir@);
        assert(path@.subrange(0, start as int).subrange(0, dir@.len() as int) =~= path@.subrange(
            0,
            dir@.len() as int,
        ));
        return false;
    }
    if !bare && path[dir.len()] != SLASH {
        assert(path@.subrange(0, start as int)[dir@.len() as int] == path@[dir@.len() as int]);
        return false;
    }
    assert(path@.subrange(0, start as int) =~= dir_prefix(dir@));
    let name = slice_subrange(path, start, path.len());
    assert(name@ =~= path@.skip(start as int));
    match find_byte(SLASH, name) {
        Some(_) => false,
        None => true,
    }
}

} // verus!
