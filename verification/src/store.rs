//! The store of route nodes and the trees that it holds.
//!
//! Nodes are never changed once stored, and a node refers only to nodes
//! stored before it. A tree is the node at a given index with all that it
//! reaches; two trees of one store share every node that both reach.

use vstd::prelude::*;
use crate::files::{file_views, resolve_files, FileView, RoleMap, SourceFile};
use crate::segment::{SegmentKind, SegmentView};

verus! {

/// One stored node: a segment, the indices of its children, the indices of
/// the files bound to it, and whether its subtree failed to build.
#[derive(Debug, Clone, PartialEq, Eq)]
pub struct RouteNode {
    pub kind: SegmentKind,
    pub children: Vec<usize>,
    pub files: RoleMap<usize>,
    pub blocked: bool,
}

/// The mathematical content of a stored node.
pub ghost struct NodeView {
    pub kind: SegmentView,
    pub children: Seq<usize>,
    pub files: RoleMap<usize>,
    pub blocked: bool,
}

impl View for RouteNode {
    type V = NodeView;

    open spec fn view(&self) -> NodeView {
        NodeView {
            kind: self.kind@,
            children: self.children@,
            files: self.files,
            blocked: self.blocked,
        }
    }
}

/// A route tree as a value: a segment, the files bound to it, whether it is
/// shut out of matching, and its children in order.
pub ghost struct TreeView {
    pub kind: SegmentView,
    pub files: RoleMap<FileView>,
    pub blocked: bool,
    pub children: Seq<TreeView>,
}

impl TreeView {
    /// A node of the given kind with nothing bound and no children.
    pub open spec fn leaf(kind: SegmentView) -> TreeView {
        TreeView { kind, files: RoleMap::empty(), blocked: false, children: Seq::empty() }
    }

    /// The node reached by taking, in turn, the children at the indices of
    /// `trail`.
    pub open spec fn at(self, trail: Seq<int>) -> TreeView
        decreases trail.len(),
    {
        if trail.len() == 0 {
            self
        } else if 0 <= trail[0] < self.children.len() {
            self.children[trail[0]].at(trail.drop_first())
        } else {
            self
        }
    }

    /// Whether `trail` names a node of the tree.
    pub open spec fn has(self, trail: Seq<int>) -> bool
        decreases trail.len(),
    {
        trail.len() == 0 || (0 <= trail[0] < self.children.len() && self.children[trail[0]].has(
            trail.drop_first(),
        ))
    }
}

/// The mathematical content of a store.
pub ghost struct StoreView {
    pub nodes: Seq<NodeView>,
    pub files: Seq<FileView>,
}

impl StoreView {
    /// Every node refers to earlier nodes and to stored files.
    pub open spec fn wf(self) -> bool {
        forall|i: int|
            0 <= i < self.nodes.len() ==> {
                &&& (#[trigger] self.nodes[i]).files.below(self.files.len() as int)
                &&& forall|j: int|
                    0 <= j < self.nodes[i].children.len() ==> (#[trigger] self.nodes[i].children[j])
                        < i
            }
    }

    /// Whether `id` is the index of a stored node.
    pub open spec fn has_node(self, id: int) -> bool {
        0 <= id < self.nodes.len()
    }

    /// The tree rooted at the node `id`.
    pub open spec fn tree(self, id: int) -> TreeView
        decreases id,
    {
        if 0 <= id < self.nodes.len() {
            let n = self.nodes[id];
            TreeView {
                kind: n.kind,
                files: resolve_files(n.files, self.files),
                blocked: n.blocked,
                children: Seq::new(
                    n.children.len(),
                    |j: int|
                        if 0 <= j < n.children.len() && n.children[j] < id {
                            self.tree(n.children[j] as int)
                        } else {
                            TreeView::leaf(SegmentView::Static(Seq::empty()))
                        },
                ),
            }
        } else {
            TreeView::leaf(SegmentView::Static(Seq::empty()))
        }
    }

    /// Whether this store holds everything that `old` holds, at the same
    /// indices.
    pub open spec fn extends(self, old: StoreView) -> bool {
        &&& old.nodes.len() <= self.nodes.len()
        &&& old.files.len() <= self.files.len()
        &&& forall|i: int| 0 <= i < old.nodes.len() ==> self.nodes[i] == #[trigger] old.nodes[i]
        &&& forall|i: int| 0 <= i < old.files.len() ==> self.files[i] == #[trigger] old.files[i]
    }
}

/// The children of a node's tree are the trees of its children.
pub proof fn lemma_tree_children(s: StoreView, id: int)
    requires
        s.wf(),
        s.has_node(id),
    ensures
        s.tree(id).kind == s.nodes[id].kind,
        s.tree(id).blocked == s.nodes[id].blocked,
        s.tree(id).files == resolve_files(s.nodes[id].files, s.files),
        s.tree(id).children.len() == s.nodes[id].children.len(),
        forall|j: int|
            0 <= j < s.nodes[id].children.len() ==> #[trigger] s.tree(id).children[j] == s.tree(
                s.nodes[id].children[j] as int,
            ),
{
}

/// A store that grows keeps the trees that it held.
pub proof fn lemma_tree_kept(old: StoreView, new: StoreView, id: int)
    requires
        old.wf(),
        new.extends(old),
        old.has_node(id),
    ensures
        new.tree(id) == old.tree(id),
    decreases id,
{
    let n = old.nodes[id];
    assert(new.nodes[id] == n);
    assert forall|j: int| 0 <= j < n.children.len() implies new.tree(id).children[j] == old.tree(
        id,
    ).children[j] by {
        lemma_tree_kept(old, new, n.children[j] as int);
    }
    assert(new.tree(id).children =~= old.tree(id).children);
    assert(resolve_files(n.files, new.files) == resolve_files(n.files, old.files)) by {
        assert(n.files.get(crate::files::FileRole::Page) == n.files.page);
        assert(n.files.get(crate::files::FileRole::Layout) == n.files.layout);
        assert(n.files.get(crate::files::FileRole::Loading) == n.files.loading);
        assert(n.files.get(crate::files::FileRole::Error) == n.files.error);
        assert(n.files.get(crate::files::FileRole::Template) == n.files.template);
        assert(n.files.get(crate::files::FileRole::Handler) == n.files.handler);
        assert(n.files.get(crate::files::FileRole::Default) == n.files.default);
        assert(n.files.get(crate::files::FileRole::NotFound) == n.files.not_found);
        assert(n.files.get(crate::files::FileRole::Middleware) == n.files.middleware);
    }
}

/// Growth of stores is transitive and reflexive.
pub proof fn lemma_extends_trans(a: StoreView, b: StoreView, c: StoreView)
    requires
        b.extends(a),
        c.extends(b),
    ensures
        c.extends(a),
        a.extends(a),
{
}

/// An append-only store of route nodes and of the files bound to them.
pub struct RouteStore {
    nodes: Vec<RouteNode>,
    files: Vec<SourceFile>,
}

impl View for RouteStore {
    type V = StoreView;

    closed spec fn view(&self) -> StoreView {
        StoreView {
            nodes: self.nodes@.map_values(|n: RouteNode| n@),
            files: file_views(self.files@),
        }
    }
}

impl RouteStore {
    #[verifier::type_invariant]
    spec fn inv(self) -> bool {
        self@.wf()
    }

    /// An empty store.
    pub fn new() -> (r: RouteStore)
        ensures
            r@.nodes.len() == 0,
            r@.files.len() == 0,
            r@.wf(),
    {
        RouteStore { nodes: Vec::new(), files: Vec::new() }
    }

    /// Recalls that every store is well-formed. Does nothing when run.
    pub fn use_wf(&self)
        ensures
            self@.wf(),
    {
        proof {
            use_type_invariant(self);
        }
    }

    /// The number of stored nodes.
    pub fn node_count(&self) -> (r: usize)
        ensures
            r == self@.nodes.len(),
            self@.wf(),
    {
        proof {
            use_type_invariant(self);
        }
        self.nodes.len()
    }

    /// The number of stored files.
    pub fn file_count(&self) -> (r: usize)
        ensures
            r == self@.files.len(),
    {
        self.files.len()
    }

    /// The node at `id`.
    pub(crate) fn node(&self, id: usize) -> (r: &RouteNode)
        requires
            id < self@.nodes.len(),
        ensures
            r@ == self@.nodes[id as int],
            self@.wf(),
    {
        proof {
            use_type_invariant(self);
        }
        &self.nodes[id]
    }

    /// The node at `id`, if there is one.
    pub fn get_node(&self, id: usize) -> (r: Option<&RouteNode>)
        ensures
            r is Some == self@.has_node(id as int),
            r matches Some(n) ==> n@ == self@.nodes[id as int],
    {
        if id < self.nodes.len() {
            Some(&self.nodes[id])
        } else {
            None
        }
    }

    /// The file at `id`.
    pub(crate) fn file(&self, id: usize) -> (r: &SourceFile)
        requires
            id < self@.files.len(),
        ensures
            r@ == self@.files[id as int],
    {
        &self.files[id]
    }

    /// The file at `id`, if there is one.
    pub fn get_file(&self, id: usize) -> (r: Option<&SourceFile>)
        ensures
            r is Some == (id < self@.files.len()),
            r matches Some(f) ==> f@ == self@.files[id as int],
    {
        if id < self.files.len() {
            Some(&self.files[id])
        } else {
            None
        }
    }

    /// Stores a file and returns its index.
    pub fn add_file(&mut self, file: SourceFile) -> (id: usize)
        ensures
            id == old(self)@.files.len(),
            final(self)@.files == old(self)@.files.push(file@),
            final(self)@.nodes == old(self)@.nodes,
            final(self)@.extends(old(self)@),
            final(self)@.wf(),
    {
        proof {
            use_type_invariant(&*self);
        }
        let mut taken = RouteStore { nodes: Vec::new(), files: Vec::new() };
        std::mem::swap(self, &mut taken);
        let RouteStore { nodes, mut files } = taken;
        let id: usize = files.len();
        let ghost before = old(self)@;
        assert(nodes@.map_values(|n: RouteNode| n@) == before.nodes);
        assert(file_views(files@) == before.files);
        files.push(file);
        proof {
            let after = StoreView {
                nodes: nodes@.map_values(|n: RouteNode| n@),
                files: file_views(files@),
            };
            assert(after.files =~= before.files.push(file@));
            assert forall|i: int| 0 <= i < after.nodes.len() implies {
                &&& (#[trigger] after.nodes[i]).files.below(after.files.len() as int)
                &&& forall|j: int|
                    0 <= j < after.nodes[i].children.len() ==> (
                    #[trigger] after.nodes[i].children[j]) < i
            } by {
                assert(after.nodes[i] == before.nodes[i]);
            }
            assert(after.wf());
        }
        *self = RouteStore { nodes, files };
        assert(self@.files =~= old(self)@.files.push(file@));
        id
    }

    /// Stores a node and returns its index. The node may refer only to what
    /// the store holds already.
    pub(crate) fn add_node(&mut self, node: RouteNode) -> (id: usize)
        requires
            node.files.below(old(self)@.files.len() as int),
            forall|j: int|
                0 <= j < node.children@.len() ==> (#[trigger] node.children@[j]) < old(
                    self,
                )@.nodes.len(),
        ensures
            id == old(self)@.nodes.len(),
            final(self)@.nodes == old(self)@.nodes.push(node@),
            final(self)@.files == old(self)@.files,
            final(self)@.extends(old(self)@),
            final(self)@.wf(),
    {
        proof {
            use_type_invariant(&*self);
        }
        let mut taken = RouteStore { nodes: Vec::new(), files: Vec::new() };
        std::mem::swap(self, &mut taken);
        let RouteStore { mut nodes, files } = taken;
        let id: usize = nodes.len();
        let ghost before = old(self)@;
        assert(nodes@.map_values(|n: RouteNode| n@) == before.nodes);
        assert(file_views(files@) == before.files);
        nodes.push(node);
        proof {
            let after = StoreView {
                nodes: nodes@.map_values(|n: RouteNode| n@),
                files: file_views(files@),
            };
            assert(after.nodes =~= before.nodes.push(node@));
            assert forall|i: int| 0 <= i < after.nodes.len() implies {
                &&& (#[trigger] after.nodes[i]).files.below(after.files.len() as int)
                &&& forall|j: int|
                    0 <= j < after.nodes[i].children.len() ==> (
                    #[trigger] after.nodes[i].children[j]) < i
            } by {
                if i < before.nodes.len() {
                    assert(after.nodes[i] == before.nodes[i]);
                }
            }
            assert(after.wf());
        }
        *self = RouteStore { nodes, files };
        assert(self@.nodes =~= old(self)@.nodes.push(node@));
        id
    }
}

} // verus!
