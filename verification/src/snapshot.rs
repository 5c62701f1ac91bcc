//! Snapshots compared: what was created, modified and removed between two
//! listings, and which directory a change affects.

use vstd::prelude::*;
use crate::bytes::{bytes_eq, copy_bytes, copy_range, SLASH};
use crate::loader::{file_node_views, ClassifiedNode, ClassifiedView, FileNode, FileNodeView};
use crate::segment::{kind_views, SegmentKind, SegmentView};

verus! {

/// What happened to an entry between two snapshots.
#[derive(Debug, Clone, Copy, PartialEq, Eq, Structural)]
pub enum ChangeKind {
    Created,
    Modified,
    Removed,
}

/// One difference between two snapshots: the entry, as the later snapshot
/// has it, or as the earlier one had it if it was removed.
#[derive(Debug, Clone, PartialEq, Eq)]
pub struct Change {
    pub node: FileNode,
    pub kind: ChangeKind,
}

/// The mathematical content of a difference.
pub ghost struct ChangeView {
    pub node: FileNodeView,
    pub kind: ChangeKind,
}

impl View for Change {
    type V = ChangeView;

    open spec fn view(&self) -> ChangeView {
        ChangeView { node: self.node@, kind: self.kind }
    }
}

/// The views of a sequence of differences.
pub open spec fn change_views(v: Seq<Change>) -> Seq<ChangeView> {
    v.map_values(|c: Change| c@)
}

/// The index of the last slash among the first `n` bytes of `path`, or -1.
pub open spec fn last_slash(path: Seq<u8>, n: int) -> int
    decreases n,
{
    if n <= 0 || n > path.len() {
        -1
    } else if path[n - 1] == SLASH {
        n - 1
    } else {
        last_slash(path, n - 1)
    }
}

/// The path of the directory that holds `path`: what stands before its
/// last slash. A path without a slash has no parent.
pub open spec fn parent_of(path: Seq<u8>) -> Option<Seq<u8>> {
    let k = last_slash(path, path.len() as int);
    if k < 0 {
        None
    } else {
        Some(path.subrange(0, k))
    }
}

/// The path of the directory that holds `path`.
pub fn parent_path(path: &[u8]) -> (r: Option<Vec<u8>>)
    ensures
        match parent_of(path@) {
            Some(p) => r matches Some(v) && v@ == p,
            None => r is None,
        },
{
    let mut n: usize = path.len();
    while n > 0
        invariant
            n <= path@.len(),
            last_slash(path@, path@.len() as int) == last_slash(path@, n as int),
        decreases n,
    {
        if path[n - 1] == SLASH {
            return Some(copy_range(path, 0, n - 1));
        }
        n -= 1;
    }
    None
}

/// The index of the first entry from `i` on with the given path, or the
/// number of entries.
pub open spec fn index_of_path(nodes: Seq<FileNodeView>, path: Seq<u8>, i: int) -> int
    decreases nodes.len() - i,
{
    if i < 0 || i >= nodes.len() {
        nodes.len() as int
    } else if nodes[i].path == path {
        i
    } else {
        index_of_path(nodes, path, i + 1)
    }
}

/// The entries among the first `n` of `new` that `old` lacks or has
/// otherwise, in order.
pub open spec fn changed(old: Seq<FileNodeView>, new: Seq<FileNodeView>, n: int) -> Seq<ChangeView>
    decreases n,
{
    if n <= 0 || n > new.len() {
        Seq::empty()
    } else {
        let front = changed(old, new, n - 1);
        let j = index_of_path(old, new[n - 1].path, 0);
        if j >= old.len() {
            front.push(ChangeView { node: new[n - 1], kind: ChangeKind::Created })
        } else if old[j] != new[n - 1] {
            front.push(ChangeView { node: new[n - 1], kind: ChangeKind::Modified })
        } else {
            front
        }
    }
}

/// The entries among the first `n` of `old` whose path `new` lacks, in
/// order.
pub open spec fn removed(old: Seq<FileNodeView>, new: Seq<FileNodeView>, n: int) -> Seq<ChangeView>
    decreases n,
{
    if n <= 0 || n > old.len() {
        Seq::empty()
    } else {
        let front = removed(old, new, n - 1);
        if index_of_path(new, old[n - 1].path, 0) >= new.len() {
            front.push(ChangeView { node: old[n - 1], kind: ChangeKind::Removed })
        } else {
            front
        }
    }
}

/// The differences between two snapshots: what the later one has new or
/// otherwise, in its order, and then what it lacks, in the order of the
/// earlier one.
pub open spec fn differences(old: Seq<FileNodeView>, new: Seq<FileNodeView>) -> Seq<ChangeView> {
    changed(old, new, new.len() as int) + removed(old, new, old.len() as int)
}

/// The index of the first entry with the given path, or the number of
/// entries.
pub fn find_path(nodes: &Vec<FileNode>, path: &[u8]) -> (r: usize)
    ensures
        r == index_of_path(file_node_views(nodes@), path@, 0),
        r <= nodes@.len(),
        r < nodes@.len() ==> nodes@[r as int].path@ == path@,
{
    let ghost nv = file_node_views(nodes@);
    let mut i: usize = 0;
    while i < nodes.len()
        invariant
            i <= nodes@.len(),
            nv == file_node_views(nodes@),
            index_of_path(nv, path@, 0) == index_of_path(nv, path@, i as int),
        decreases nodes@.len() - i,
    {
        if bytes_eq(nodes[i].path.as_slice(), path) {
            return i;
        }
        i += 1;
    }
    i
}

/// A fresh copy of an entry.
pub fn copy_node(node: &FileNode) -> (r: FileNode)
    ensures
        r@ == node@,
{
    FileNode {
        path: copy_bytes(node.path.as_slice()),
        kind: node.kind,
        fingerprint: node.fingerprint,
        meta: node.meta,
    }
}

/// Compares two snapshots.
pub fn diff(old: &Vec<FileNode>, new: &Vec<FileNode>) -> (r: Vec<Change>)
    ensures
        change_views(r@) == differences(file_node_views(old@), file_node_views(new@)),
{
    let ghost ov = file_node_views(old@);
    let ghost nv = file_node_views(new@);
    let mut out: Vec<Change> = Vec::new();
    let mut i: usize = 0;
    assert(change_views(out@) =~= Seq::<ChangeView>::empty());
    while i < new.len()
        invariant
            i <= new@.len(),
            ov == file_node_views(old@),
            nv == file_node_views(new@),
            change_views(out@) == changed(ov, nv, i as int),
        decreases new@.len() - i,
    {
        let ghost before = change_views(out@);
        let j = find_path(old, new[i].path.as_slice());
        if j >= old.len() {
            let c = Change { node: copy_node(&new[i]), kind: ChangeKind::Created };
            let ghost cv = c@;
            out.push(c);
            assert(change_views(out@) =~= before.push(cv));
        } else if old[j].kind != new[i].kind || old[j].fingerprint != new[i].fingerprint
            || old[j].meta != new[i].meta {
            let c = Change { node: copy_node(&new[i]), kind: ChangeKind::Modified };
            let ghost cv = c@;
            out.push(c);
            assert(change_views(out@) =~= before.push(cv));
        } else {
            assert(old@[j as int]@.path == new@[i as int]@.path);
            assert(ov[j as int] == nv[i as int]);
        }
        i += 1;
    }
    let ghost first = change_views(out@);
    let mut k: usize = 0;
    assert(first + Seq::<ChangeView>::empty() =~= first);
    while k < old.len()
        invariant
            k <= old@.len(),
            ov == file_node_views(old@),
            nv == file_node_views(new@),
            change_views(out@) == first + removed(ov, nv, k as int),
        decreases old@.len() - k,
    {
        let ghost before = change_views(out@);
        if find_path(new, old[k].path.as_slice()) >= new.len() {
            let c = Change { node: copy_node(&old[k]), kind: ChangeKind::Removed };
            let ghost cv = c@;
            out.push(c);
            assert(change_views(out@) =~= before.push(cv));
            assert(before.push(cv) =~= first + removed(ov, nv, k as int).push(cv));
        }
        k += 1;
    }
    out
}

/// The directory whose subtree a change to the entry `c` affects: the
/// directory of a file, a directory that was modified, and the parent of a
/// directory that was created or removed.
pub open spec fn affected(c: ClassifiedView, kind: ChangeKind) -> Seq<SegmentView> {
    if c.role is Some || kind == ChangeKind::Modified || c.segments.len() == 0 {
        c.segments
    } else {
        c.segments.drop_last()
    }
}

/// The directory whose subtree a change to the entry `c` affects.
pub fn affected_dir(c: &ClassifiedNode, kind: ChangeKind) -> (r: Vec<SegmentKind>)
    ensures
        kind_views(r@) == affected(c@, kind),
{
    let mut out = crate::version::copy_path(&c.segments);
    if c.role.is_some() || kind == ChangeKind::Modified || out.len() == 0 {
        return out;
    }
    let ghost before = kind_views(out@);
    out.pop();
    assert(kind_views(out@) =~= before.drop_last());
    out
}

} // verus!
