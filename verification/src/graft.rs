//! Changing a tree without changing its nodes.
//!
//! A change at a path stores fresh copies of the nodes on the way from the
//! root to the end of the path and nothing else. Every node off that way
//! is reached from the new root under the index it had: an old root and a
//! new one share all that the change did not touch.

use vstd::prelude::*;
use crate::files::{resolve_files, FileRole, FileView, RoleMap};
use crate::segment::{kind_views, SegmentKind, SegmentView};
use crate::store::{lemma_tree_children, lemma_tree_kept, RouteNode, RouteStore, StoreView, TreeView};

verus! {

/// A change to make at the end of a path.
#[derive(Debug, Clone, Copy, PartialEq, Eq, Structural)]
pub enum Graft {
    /// Make sure that the node is there.
    Touch,
    /// Bind the stored file to the role.
    Bind(FileRole, usize),
    /// Leave the role unbound.
    Unbind(FileRole),
    /// Put the stored subtree in the node's place.
    Replace(usize),
    /// Take the node and its subtree away.
    Remove,
    /// Shut the node and its subtree out of matching.
    Block,
}

/// The mathematical content of a change.
pub ghost enum GraftView {
    Touch,
    Bind(FileRole, FileView),
    Unbind(FileRole),
    Replace(TreeView),
    Remove,
    Block,
}

impl Graft {
    /// Whether the change refers only to what the store holds.
    pub open spec fn fits(self, s: StoreView) -> bool {
        match self {
            Graft::Bind(_, f) => f < s.files.len(),
            Graft::Replace(sub) => sub < s.nodes.len(),
            _ => true,
        }
    }

    /// What the change means in a store.
    pub open spec fn view_in(self, s: StoreView) -> GraftView {
        match self {
            Graft::Touch => GraftView::Touch,
            Graft::Bind(role, f) => GraftView::Bind(role, s.files[f as int]),
            Graft::Unbind(role) => GraftView::Unbind(role),
            Graft::Replace(sub) => GraftView::Replace(s.tree(sub as int)),
            Graft::Remove => GraftView::Remove,
            Graft::Block => GraftView::Block,
        }
    }
}

/// Whether two sibling segments cannot both stand: two dynamic segments,
/// two catch-alls, or two intercepts of one target, that differ.
pub open spec fn conflicts(a: SegmentView, b: SegmentView) -> bool {
    a != b && {
        ||| a is Dynamic && b is Dynamic
        ||| a.is_catch_all() && b.is_catch_all()
        ||| a is Intercept && b is Intercept && a.name() == b.name()
    }
}

/// Whether one of the children cannot stand beside a segment `k`.
pub open spec fn sibling_conflict(children: Seq<TreeView>, k: SegmentView) -> bool {
    exists|i: int| 0 <= i < children.len() && conflicts((#[trigger] children[i]).kind, k)
}

/// Whether binding a file to the role would give a route two servable
/// files: a page beside a handler.
pub open spec fn clash<T>(files: RoleMap<T>, role: FileRole) -> bool {
    (role == FileRole::Page && files.handler is Some) || (role == FileRole::Handler && files.page
        is Some)
}

/// The index of the first child from `i` on whose segment is `k`, or the
/// number of children.
pub open spec fn find_child(children: Seq<TreeView>, k: SegmentView, i: int) -> int
    decreases children.len() - i,
{
    if i < 0 || i >= children.len() {
        children.len() as int
    } else if children[i].kind == k {
        i
    } else {
        find_child(children, k, i + 1)
    }
}

/// The node `t` after the change `g` is made at it.
pub open spec fn graft_here(t: TreeView, g: GraftView) -> TreeView {
    match g {
        GraftView::Touch => t,
        GraftView::Bind(role, f) => if clash(t.files, role) {
            TreeView { blocked: true, ..t }
        } else {
            TreeView { files: t.files.set(role, Some(f)), ..t }
        },
        GraftView::Unbind(role) => TreeView { files: t.files.set(role, None), ..t },
        GraftView::Replace(sub) => sub,
        GraftView::Remove => t,
        GraftView::Block => TreeView { blocked: true, ..t },
    }
}

/// A fresh branch for the segments `path[from..]`, with the change `g` made
/// at its end.
pub open spec fn branch(path: Seq<SegmentView>, from: int, g: GraftView) -> TreeView
    decreases path.len() - from,
{
    if from < 0 || from >= path.len() {
        TreeView::leaf(SegmentView::Static(Seq::empty()))
    } else if from + 1 == path.len() {
        graft_here(TreeView::leaf(path[from]), g)
    } else {
        TreeView {
            kind: path[from],
            files: RoleMap::empty(),
            blocked: false,
            children: seq![branch(path, from + 1, g)],
        }
    }
}

/// The tree `t` after the change `g` is made at the end of `path[from..]`.
///
/// Where the way exists it is followed. Where it ends early, a change that
/// takes something away or shuts out leaves the tree as it is; one that
/// adds grows a fresh branch, unless the first new segment cannot stand beside a child
/// that is there: then the node is shut out of matching, with all below it.
pub open spec fn graft(t: TreeView, path: Seq<SegmentView>, from: int, g: GraftView) -> TreeView
    decreases path.len() - from,
{
    if from < 0 || from >= path.len() {
        graft_here(t, g)
    } else {
        let j = find_child(t.children, path[from], 0);
        if j < t.children.len() {
            if from + 1 == path.len() && g is Remove {
                TreeView { children: t.children.remove(j), ..t }
            } else {
                TreeView {
                    children: t.children.update(j, graft(t.children[j], path, from + 1, g)),
                    ..t
                }
            }
        } else if g is Remove || g is Unbind || g is Block {
            t
        } else if sibling_conflict(t.children, path[from]) {
            TreeView { blocked: true, ..t }
        } else {
            TreeView { children: t.children.push(branch(path, from, g)), ..t }
        }
    }
}

/// Whether the change `g` at the end of `path[from..]` in `t` runs into a
/// conflict.
pub open spec fn graft_conflict(t: TreeView, path: Seq<SegmentView>, from: int, g: GraftView) -> bool
    decreases path.len() - from,
{
    if from < 0 || from >= path.len() {
        g matches GraftView::Bind(role, _) && clash(t.files, role)
    } else {
        let j = find_child(t.children, path[from], 0);
        if j < t.children.len() {
            if from + 1 == path.len() && g is Remove {
                false
            } else {
                graft_conflict(t.children[j], path, from + 1, g)
            }
        } else if g is Remove || g is Unbind || g is Block {
            false
        } else {
            sibling_conflict(t.children, path[from])
        }
    }
}

/// The trees of the nodes `ids`.
pub open spec fn trees_of(s: StoreView, ids: Seq<usize>) -> Seq<TreeView> {
    Seq::new(ids.len(), |j: int| s.tree(ids[j] as int))
}

/// Whether the node `b` of the store `s1` holds, off the way `path[from..]`,
/// the very nodes that the node `a` of the store `s0` holds: under the
/// same indices, but for what follows a child taken away.
pub open spec fn kept(
    s0: StoreView,
    a: int,
    s1: StoreView,
    b: int,
    path: Seq<SegmentView>,
    from: int,
    g: GraftView,
) -> bool
    decreases path.len() - from,
{
    a == b || !s0.has_node(a) || !s1.has_node(b) || {
        let ca = s0.nodes[a].children;
        let cb = s1.nodes[b].children;
        if from < 0 || from >= path.len() {
            g is Replace || cb == ca
        } else {
            let j = find_child(s0.tree(a).children, path[from], 0);
            if j < ca.len() && from + 1 == path.len() && g is Remove {
                cb == ca.remove(j)
            } else {
                &&& ca.len() <= cb.len()
                &&& forall|i: int| 0 <= i < ca.len() && i != j ==> cb[i] == ca[i]
                &&& j < ca.len() ==> kept(s0, ca[j] as int, s1, cb[j] as int, path, from + 1, g)
            }
        }
    }
}

/// A fresh copy of a list of indices.
pub(crate) fn copy_ids(v: &Vec<usize>) -> (r: Vec<usize>)
    ensures
        r@ == v@,
{
    let mut out: Vec<usize> = Vec::new();
    let mut i: usize = 0;
    while i < v.len()
        invariant
            i <= v@.len(),
            out@ == v@.subrange(0, i as int),
        decreases v@.len() - i,
    {
        out.push(v[i]);
        assert(out@ =~= v@.subrange(0, i + 1));
        i += 1;
    }
    assert(v@.subrange(0, v@.len() as int) =~= v@);
    out
}

/// Stores a node made of the given parts.
pub(crate) fn put_node(
    store: &mut RouteStore,
    kind: SegmentKind,
    children: Vec<usize>,
    files: RoleMap<usize>,
    blocked: bool,
) -> (id: usize)
    requires
        old(store)@.wf(),
        files.below(old(store)@.files.len() as int),
        forall|j: int|
            0 <= j < children@.len() ==> (#[trigger] children@[j]) < old(store)@.nodes.len(),
    ensures
        id == old(store)@.nodes.len(),
        final(store)@.wf(),
        final(store)@.extends(old(store)@),
        final(store)@.nodes.len() == old(store)@.nodes.len() + 1,
        final(store)@.files == old(store)@.files,
        final(store)@.nodes[id as int].children == children@,
        final(store)@.tree(id as int) == (TreeView {
            kind: kind@,
            files: resolve_files(files, old(store)@.files),
            blocked,
            children: trees_of(old(store)@, children@),
        }),
{
    let ghost s0 = store@;
    let ghost ids = children@;
    let id = store.add_node(RouteNode { kind, children, files, blocked });
    proof {
        let s1 = store@;
        lemma_tree_children(s1, id as int);
        assert forall|j: int| 0 <= j < ids.len() implies s1.tree(id as int).children[j]
            == trees_of(s0, ids)[j] by {
            lemma_tree_kept(s0, s1, ids[j] as int);
        }
        assert(s1.tree(id as int).children =~= trees_of(s0, ids));
    }
    id
}

/// The index of the first child of the node `id` whose segment is `kind`,
/// or the number of its children.
pub(crate) fn find_child_of(store: &RouteStore, id: usize, kind: &SegmentKind) -> (r: usize)
    requires
        id < store@.nodes.len(),
    ensures
        r == find_child(store@.tree(id as int).children, kind@, 0),
        r <= store@.nodes[id as int].children.len(),
{
    let node = store.node(id);
    proof {
        lemma_tree_children(store@, id as int);
    }
    let ghost cs = store@.tree(id as int).children;
    let n: usize = node.children.len();
    let mut j: usize = 0;
    while j < n
        invariant
            j <= n,
            n == node.children@.len(),
            id < store@.nodes.len(),
            node@ == store@.nodes[id as int],
            store@.wf(),
            cs == store@.tree(id as int).children,
            cs.len() == n,
            forall|k: int|
                0 <= k < n ==> #[trigger] cs[k] == store@.tree(node.children@[k] as int),
            find_child(cs, kind@, 0) == find_child(cs, kind@, j as int),
        decreases n - j,
    {
        let c: usize = node.children[j];
        assert(c < id);
        proof {
            lemma_tree_children(store@, c as int);
        }
        assert(cs[j as int].kind == store@.nodes[c as int].kind);
        if store.node(c).kind.same(kind) {
            return j;
        }
        j += 1;
    }
    n
}

/// Whether a child of the node `id` cannot stand beside a segment `kind`.
pub(crate) fn has_sibling_conflict(store: &RouteStore, id: usize, kind: &SegmentKind) -> (r: bool)
    requires
        id < store@.nodes.len(),
    ensures
        r == sibling_conflict(store@.tree(id as int).children, kind@),
{
    let node = store.node(id);
    proof {
        lemma_tree_children(store@, id as int);
    }
    let ghost cs = store@.tree(id as int).children;
    let n: usize = node.children.len();
    let mut j: usize = 0;
    while j < n
        invariant
            j <= n,
            n == node.children@.len(),
            id < store@.nodes.len(),
            node@ == store@.nodes[id as int],
            store@.wf(),
            cs == store@.tree(id as int).children,
            cs.len() == n,
            forall|k: int|
                0 <= k < n ==> #[trigger] cs[k] == store@.tree(node.children@[k] as int),
            forall|k: int| 0 <= k < j ==> !conflicts((#[trigger] cs[k]).kind, kind@),
        decreases n - j,
    {
        let c: usize = node.children[j];
        assert(c < id);
        proof {
            lemma_tree_children(store@, c as int);
        }
        assert(cs[j as int].kind == store@.nodes[c as int].kind);
        if segments_conflict(&store.node(c).kind, kind) {
            assert(conflicts(cs[j as int].kind, kind@));
            return true;
        }
        j += 1;
    }
    false
}

/// Whether two sibling segments cannot both stand.
pub fn segments_conflict(a: &SegmentKind, b: &SegmentKind) -> (r: bool)
    ensures
        r == conflicts(a@, b@),
{
    if a.same(b) {
        return false;
    }
    match (a, b) {
        (SegmentKind::Dynamic(_), SegmentKind::Dynamic(_)) => true,
        (SegmentKind::CatchAll(_), SegmentKind::CatchAll(_)) => true,
        (SegmentKind::CatchAll(_), SegmentKind::OptionalCatchAll(_)) => true,
        (SegmentKind::OptionalCatchAll(_), SegmentKind::CatchAll(_)) => true,
        (SegmentKind::OptionalCatchAll(_), SegmentKind::OptionalCatchAll(_)) => true,
        (SegmentKind::Intercept(_, x), SegmentKind::Intercept(_, y)) => crate::bytes::bytes_eq(
            x.as_slice(),
            y.as_slice(),
        ),
        _ => false,
    }
}

/// The index that `find_child` gives lies between `i` and the number of
/// children; a child at it has the segment, and no child before it has.
pub proof fn lemma_find_child_range(children: Seq<TreeView>, k: SegmentView, i: int)
    requires
        0 <= i <= children.len(),
    ensures
        i <= find_child(children, k, i) <= children.len(),
        find_child(children, k, i) < children.len() ==> children[find_child(children, k, i)].kind
            == k,
        forall|x: int| i <= x < find_child(children, k, i) ==> (#[trigger] children[x]).kind != k,
    decreases children.len() - i,
{
    if i < children.len() && children[i].kind != k {
        lemma_find_child_range(children, k, i + 1);
    }
}

/// Binding in a map of indices is binding in the map of files.
pub proof fn lemma_resolve_set(
    ids: RoleMap<usize>,
    files: Seq<FileView>,
    role: FileRole,
    v: Option<usize>,
)
    ensures
        resolve_files(ids.set(role, v), files) == resolve_files(ids, files).set(
            role,
            crate::files::resolve_file(v, files),
        ),
{
}

/// A map of indices below a bound stays below it when an index below the
/// bound, or none, is bound.
pub proof fn lemma_below_set(ids: RoleMap<usize>, n: int, role: FileRole, v: Option<usize>)
    requires
        ids.below(n),
        v matches Some(x) ==> x < n,
    ensures
        ids.set(role, v).below(n),
{
    let bound = ids.set(role, v);
    assert forall|x: FileRole| (#[trigger] bound.get(x)) is Some implies bound.get(x)->0 < n by {
        if x != role {
            assert(bound.get(x) == ids.get(x));
        }
    }
}

/// A map of indices into the stored files clashes where its files do.
pub proof fn lemma_clash_resolved(ids: RoleMap<usize>, files: Seq<FileView>, role: FileRole)
    requires
        ids.below(files.len() as int),
    ensures
        clash(resolve_files(ids, files), role) == clash(ids, role),
        resolve_files(RoleMap::<usize>::empty(), files) == RoleMap::<FileView>::empty(),
        !clash(RoleMap::<FileView>::empty(), role),
{
    assert(ids.get(FileRole::Page) == ids.page);
    assert(ids.get(FileRole::Handler) == ids.handler);
}

/// What `kept` says of a new node stays true when the store grows.
pub proof fn lemma_kept_stable(
    s0: StoreView,
    a: int,
    s1: StoreView,
    s2: StoreView,
    b: int,
    path: Seq<SegmentView>,
    from: int,
    g: GraftView,
)
    requires
        s1.wf(),
        s2.extends(s1),
        s1.has_node(b),
        kept(s0, a, s1, b, path, from, g),
    ensures
        kept(s0, a, s2, b, path, from, g),
    decreases path.len() - from,
{
    if a == b || !s0.has_node(a) {
    } else {
        assert(s2.nodes[b] == s1.nodes[b]);
        assert(s2.has_node(b));
        let ca = s0.nodes[a].children;
        let cb = s1.nodes[b].children;
        if 0 <= from < path.len() {
            let j = find_child(s0.tree(a).children, path[from], 0);
            lemma_find_child_range(s0.tree(a).children, path[from], 0);
            if j < ca.len() && from + 1 == path.len() && g is Remove {
            } else if j < ca.len() {
                assert(s1.nodes[b].children[j] < b);
                lemma_kept_stable(s0, ca[j] as int, s1, s2, cb[j] as int, path, from + 1, g);
            }
        }
    }
}

/// Stores a fresh branch for the segments `path[from..]`, with the change
/// `g` made at its end.
fn make_branch(store: &mut RouteStore, path: &Vec<SegmentKind>, from: usize, g: Graft) -> (id:
    usize)
    requires
        from < path@.len(),
        g.fits(old(store)@),
        old(store)@.wf(),
    ensures
        final(store)@.wf(),
        final(store)@.extends(old(store)@),
        id < final(store)@.nodes.len(),
        final(store)@.tree(id as int) == branch(
            kind_views(path@),
            from as int,
            g.view_in(old(store)@),
        ),
    decreases path@.len() - from,
{
    let ghost s0 = store@;
    let ghost gv = g.view_in(s0);
    let n: usize = path.len();
    let kind = path[from].duplicate();
    if from + 1 == n {
        let empty: RoleMap<usize> = RoleMap::new();
        proof {
            lemma_clash_resolved(empty, s0.files, FileRole::Page);
        }
        match g {
            Graft::Replace(sub) => {
                sub
            },
            Graft::Bind(role, f) => {
                proof {
                    lemma_resolve_set(empty, s0.files, role, Some(f));
                    lemma_clash_resolved(empty, s0.files, role);
                }
                let id = put_node(store, kind, Vec::new(), empty.bind(role, Some(f)), false);
                assert(trees_of(s0, Seq::<usize>::empty()) =~= Seq::<TreeView>::empty());
                id
            },
            Graft::Unbind(role) => {
                proof {
                    lemma_resolve_set(empty, s0.files, role, None);
                }
                let id = put_node(store, kind, Vec::new(), empty.bind(role, None), false);
                assert(trees_of(s0, Seq::<usize>::empty()) =~= Seq::<TreeView>::empty());
                id
            },
            Graft::Block => {
                let id = put_node(store, kind, Vec::new(), empty, true);
                assert(trees_of(s0, Seq::<usize>::empty()) =~= Seq::<TreeView>::empty());
                id
            },
            _ => {
                let id = put_node(store, kind, Vec::new(), empty, false);
                assert(trees_of(s0, Seq::<usize>::empty()) =~= Seq::<TreeView>::empty());
                id
            },
        }
    } else {
        let child = make_branch(store, path, from + 1, g);
        let ghost s1 = store@;
        let mut children: Vec<usize> = Vec::new();
        children.push(child);
        let empty: RoleMap<usize> = RoleMap::new();
        proof {
            lemma_clash_resolved(empty, s1.files, FileRole::Page);
            lemma_clash_resolved(empty, s0.files, FileRole::Page);
        }
        let id = put_node(store, kind, children, empty, false);
        proof {
            assert(trees_of(s1, seq![child]) =~= seq![s1.tree(child as int)]);
            crate::store::lemma_extends_trans(s0, s1, store@);
        }
        id
    }
}

/// Makes the change `g` at the end of `path[from..]` below the node `id`.
/// Returns the node that stands for `id` afterwards, and whether the
/// change ran into a conflict.
pub(crate) fn graft_at(store: &mut RouteStore, id: usize, path: &Vec<SegmentKind>, from: usize, g: Graft)
    -> (r: (usize, bool))
    requires
        id < old(store)@.nodes.len(),
        from <= path@.len(),
        g.fits(old(store)@),
    ensures
        final(store)@.wf(),
        final(store)@.extends(old(store)@),
        r.0 < final(store)@.nodes.len(),
        final(store)@.tree(r.0 as int) == graft(
            old(store)@.tree(id as int),
            kind_views(path@),
            from as int,
            g.view_in(old(store)@),
        ),
        r.1 == graft_conflict(
            old(store)@.tree(id as int),
            kind_views(path@),
            from as int,
            g.view_in(old(store)@),
        ),
        kept(
            old(store)@,
            id as int,
            final(store)@,
            r.0 as int,
            kind_views(path@),
            from as int,
            g.view_in(old(store)@),
        ),
    decreases path@.len() - from,
{
    let ghost s0 = store@;
    let ghost gv = g.view_in(s0);
    let ghost pv = kind_views(path@);
    let node = store.node(id);
    let ghost t = s0.tree(id as int);
    proof {
        lemma_tree_children(s0, id as int);
        assert(trees_of(s0, node.children@) =~= t.children);
    }
    let kind = node.kind.duplicate();
    let mut children = copy_ids(&node.children);
    let files = node.files;
    let blocked = node.blocked;
    if from >= path.len() {
        match g {
            Graft::Touch => (id, false),
            Graft::Remove => (id, false),
            Graft::Replace(sub) => (sub, false),
            Graft::Block => (put_node(store, kind, children, files, true), false),
            Graft::Bind(role, f) => {
                proof {
                    lemma_clash_resolved(files, s0.files, role);
                    lemma_resolve_set(files, s0.files, role, Some(f));
                }
                let hit = (role == FileRole::Page && files.handler.is_some()) || (role
                    == FileRole::Handler && files.page.is_some());
                if hit {
                    (put_node(store, kind, children, files, true), true)
                } else {
                    let bound = files.bind(role, Some(f));
                    proof {
                        lemma_below_set(files, s0.files.len() as int, role, Some(f));
                    }
                    (put_node(store, kind, children, bound, blocked), false)
                }
            },
            Graft::Unbind(role) => {
                proof {
                    lemma_resolve_set(files, s0.files, role, None);
                }
                let bound = files.bind(role, None);
                proof {
                    lemma_below_set(files, s0.files.len() as int, role, None);
                }
                (put_node(store, kind, children, bound, blocked), false)
            },
        }
    } else {
        let j = find_child_of(store, id, &path[from]);
        if j < children.len() {
            let c: usize = children[j];
            assert(c < id);
            assert(t.children[j as int] == s0.tree(c as int));
            if from + 1 == path.len() && matches!(g, Graft::Remove) {
                children.remove(j);
                assert(trees_of(s0, children@) =~= t.children.remove(j as int));
                (put_node(store, kind, children, files, blocked), false)
            } else {
                let (nc, conflict) = graft_at(store, c, path, from + 1, g);
                let ghost s1 = store@;
                let ghost ca = s0.nodes[id as int].children;
                children.set(j, nc);
                proof {
                    assert(g.view_in(s0) == gv);
                    assert forall|i: int| 0 <= i < children@.len() implies trees_of(
                        s1,
                        children@,
                    )[i] == t.children.update(j as int, graft(t.children[j as int], pv, from + 1, gv))[i] by {
                        if i != j {
                            lemma_tree_kept(s0, s1, ca[i] as int);
                        }
                    }
                    assert(trees_of(s1, children@) =~= t.children.update(
                        j as int,
                        graft(t.children[j as int], pv, from + 1, gv),
                    ));
                    assert(resolve_files(files, s1.files) == resolve_files(files, s0.files)) by {
                        lemma_tree_kept(s0, s1, id as int);
                        lemma_tree_children(s1, id as int);
                    }
                }
                let id2 = put_node(store, kind, children, files, blocked);
                proof {
                    crate::store::lemma_extends_trans(s0, s1, store@);
                    lemma_kept_stable(s0, c as int, s1, store@, nc as int, pv, from + 1, gv);
                }
                (id2, conflict)
            }
        } else {
            match g {
                Graft::Remove => (id, false),
                Graft::Unbind(_) => (id, false),
                Graft::Block => (id, false),
                _ => {
                    if has_sibling_conflict(store, id, &path[from]) {
                        (put_node(store, kind, children, files, true), true)
                    } else {
                        let b = make_branch(store, path, from, g);
                        let ghost s1 = store@;
                        let ghost ca = s0.nodes[id as int].children;
                        children.push(b);
                        proof {
                            assert forall|i: int| 0 <= i < children@.len() implies trees_of(
                                s1,
                                children@,
                            )[i] == t.children.push(branch(pv, from as int, gv))[i] by {
                                if i < ca.len() {
                                    lemma_tree_kept(s0, s1, ca[i] as int);
                                }
                            }
                            assert(trees_of(s1, children@) =~= t.children.push(
                                branch(pv, from as int, gv),
                            ));
                            assert(resolve_files(files, s1.files) == resolve_files(
                                files,
                                s0.files,
                            )) by {
                                lemma_tree_kept(s0, s1, id as int);
                                lemma_tree_children(s1, id as int);
                            }
                        }
                        let id2 = put_node(store, kind, children, files, blocked);
                        proof {
                            crate::store::lemma_extends_trans(s0, s1, store@);
                        }
                        (id2, false)
                    }
                },
            }
        }
    }
}

} // verus!
