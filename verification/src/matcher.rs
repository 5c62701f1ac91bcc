//! Matching a request against a route tree.
//!
//! The descent is total: every request is answered with a match or with
//! none. At each node the children are tried class by class, an exact
//! static name before a dynamic segment before a catch-all, and within a
//! class in the order in which the node holds them. A class that leads
//! nowhere gives way to the next.

use vstd::prelude::*;
use crate::bytes::{copy_bytes, copy_tail, bytes_eq, seg_views};
use crate::files::{servable, Method};
use crate::segment::{SegmentKind, SegmentView};
use crate::store::{lemma_tree_children, RouteStore, StoreView, TreeView};

verus! {

/// What a request brings besides its path.
#[derive(Debug, Clone, Copy, PartialEq, Eq, Structural)]
pub struct Probe {
    /// The request method.
    pub method: Method,
    /// Whether the request is a soft navigation, which intercept markers
    /// answer.
    pub soft_navigation: bool,
    /// Whether intercept markers are tried before static names, or only
    /// after dynamic segments.
    pub intercepts_first: bool,
}

/// The classes of children, tried one after another.
#[derive(Debug, Clone, Copy, PartialEq, Eq, Structural)]
pub enum Class {
    Intercept,
    Static,
    Dynamic,
    CatchAll,
}

/// The class tried at turn `k`.
pub open spec fn class_at(q: Probe, k: int) -> Class {
    if q.intercepts_first {
        if k == 0 {
            Class::Intercept
        } else if k == 1 {
            Class::Static
        } else if k == 2 {
            Class::Dynamic
        } else {
            Class::CatchAll
        }
    } else {
        if k == 0 {
            Class::Static
        } else if k == 1 {
            Class::Dynamic
        } else if k == 2 {
            Class::Intercept
        } else {
            Class::CatchAll
        }
    }
}

/// A parameter bound by a match: one value for a dynamic segment, any
/// number for a catch-all.
#[derive(Debug, Clone, PartialEq, Eq)]
pub struct Param {
    pub name: Vec<u8>,
    pub values: Vec<Vec<u8>>,
}

/// The mathematical content of a parameter.
pub ghost struct ParamView {
    pub name: Seq<u8>,
    pub values: Seq<Seq<u8>>,
}

impl View for Param {
    type V = ParamView;

    open spec fn view(&self) -> ParamView {
        ParamView { name: self.name@, values: seg_views(self.values@) }
    }
}

/// The views of a sequence of parameters.
pub open spec fn param_views(v: Seq<Param>) -> Seq<ParamView> {
    v.map_values(|p: Param| p@)
}

/// Child indices as integers.
pub open spec fn trail_view(v: Seq<usize>) -> Seq<int> {
    v.map_values(|i: usize| i as int)
}

/// A successful descent in a tree: the child indices taken from the node
/// where it began, and the parameters bound on the way, outermost first.
pub ghost struct Found {
    pub trail: Seq<int>,
    pub params: Seq<ParamView>,
}

impl Found {
    /// The descent that stays where it is.
    pub open spec fn here() -> Found {
        Found { trail: Seq::empty(), params: Seq::empty() }
    }

    /// The descent that first takes child `j`.
    pub open spec fn under(self, j: int) -> Found {
        Found { trail: seq![j] + self.trail, params: self.params }
    }

    /// The descent with one more parameter bound before the others.
    pub open spec fn bind(self, name: Seq<u8>, values: Seq<Seq<u8>>) -> Found {
        Found { trail: self.trail, params: seq![ParamView { name, values }] + self.params }
    }
}

/// `f` with a parameter bound before the others, if there is an `f`.
pub open spec fn bound(f: Option<Found>, name: Seq<u8>, values: Seq<Seq<u8>>) -> Option<Found> {
    match f {
        Some(f) => Some(f.bind(name, values)),
        None => None,
    }
}

/// The match of the request segments `segs[from..]` at the node `t`, which
/// has been reached: `t` itself where nothing is left and it can serve the
/// request, else the first class of children that leads to a match.
pub open spec fn enter(t: TreeView, segs: Seq<Seq<u8>>, from: int, q: Probe) -> Option<Found>
    decreases segs.len() - from, t, t.children.len() + 1,
{
    if t.blocked || from < 0 || from > segs.len() {
        None
    } else if from == segs.len() && servable(t.files, q.method) {
        Some(Found::here())
    } else {
        let r0 = scan(t, 0, segs, from, class_at(q, 0), q);
        if r0 is Some {
            r0
        } else {
            let r1 = scan(t, 0, segs, from, class_at(q, 1), q);
            if r1 is Some {
                r1
            } else {
                let r2 = scan(t, 0, segs, from, class_at(q, 2), q);
                if r2 is Some {
                    r2
                } else {
                    scan(t, 0, segs, from, class_at(q, 3), q)
                }
            }
        }
    }
}

/// The match that the child `c` gives for `segs[from..]` when children of
/// the class `class` are tried. A group is transparent: it serves as a
/// static end of the path, and else its own children are tried in its place.
pub open spec fn probe_child(
    c: TreeView,
    segs: Seq<Seq<u8>>,
    from: int,
    class: Class,
    q: Probe,
) -> Option<Found>
    decreases segs.len() - from, c, c.children.len() + 2,
{
    if c.blocked || from < 0 || from > segs.len() {
        None
    } else {
        match c.kind {
            SegmentView::Static(n) => if class == Class::Static && from < segs.len() && segs[from]
                == n {
                enter(c, segs, from + 1, q)
            } else {
                None
            },
            SegmentView::Dynamic(n) => if class == Class::Dynamic && from < segs.len() {
                bound(enter(c, segs, from + 1, q), n, seq![segs[from]])
            } else {
                None
            },
            SegmentView::CatchAll(n) => if class == Class::CatchAll && from < segs.len() {
                bound(enter(c, segs, segs.len() as int, q), n, segs.skip(from))
            } else {
                None
            },
            SegmentView::OptionalCatchAll(n) => if class == Class::CatchAll {
                bound(enter(c, segs, segs.len() as int, q), n, segs.skip(from))
            } else {
                None
            },
            SegmentView::Group(_) => if class == Class::Static && from == segs.len() && servable(
                c.files,
                q.method,
            ) {
                Some(Found::here())
            } else {
                scan(c, 0, segs, from, class, q)
            },
            SegmentView::ParallelSlot(_) => None,
            SegmentView::Intercept(_, target) => if class == Class::Intercept && q.soft_navigation
                && from < segs.len() && segs[from] == target {
                enter(c, segs, from + 1, q)
            } else {
                None
            },
        }
    }
}

/// The match that the first child from index `j` on gives for `segs[from..]`
/// when children of the class `class` are tried.
pub open spec fn scan(
    t: TreeView,
    j: int,
    segs: Seq<Seq<u8>>,
    from: int,
    class: Class,
    q: Probe,
) -> Option<Found>
    decreases segs.len() - from, t, t.children.len() - j,
{
    if j < 0 || j >= t.children.len() || from < 0 || from > segs.len() {
        None
    } else {
        match probe_child(t.children[j], segs, from, class, q) {
            Some(f) => Some(f.under(j)),
            None => scan(t, j + 1, segs, from, class, q),
        }
    }
}

/// A successful descent in a store: the child indices taken, the nodes
/// passed after the node where it began, and the parameters bound.
#[derive(Debug, Clone, PartialEq, Eq)]
pub struct Descent {
    pub trail: Vec<usize>,
    pub path: Vec<usize>,
    pub params: Vec<Param>,
}

/// Whether step `k` of the way down `trail` leads to `path[k]`: from the
/// node `id` at first, and then from the node reached before.
pub open spec fn step_ok(s: StoreView, id: int, trail: Seq<int>, path: Seq<usize>, k: int) -> bool {
    let prev = if k == 0 {
        id
    } else {
        path[k - 1] as int
    };
    &&& s.has_node(prev)
    &&& 0 <= trail[k] < s.nodes[prev].children.len()
    &&& path[k] == s.nodes[prev].children[trail[k]]
}

/// Whether `path` holds the nodes passed on the way down `trail` from the
/// node `id`, the node `id` itself left out.
pub open spec fn walks(s: StoreView, id: int, trail: Seq<int>, path: Seq<usize>) -> bool {
    &&& trail.len() == path.len()
    &&& forall|k: int| 0 <= k < trail.len() ==> #[trigger] step_ok(s, id, trail, path, k)
}

/// Whether the outcome `r` of a descent from the node `id` is the outcome
/// `f` in the tree of that node.
pub open spec fn agrees(s: StoreView, id: int, r: Option<Descent>, f: Option<Found>) -> bool {
    match f {
        None => r is None,
        Some(f) => r matches Some(d) && trail_view(d.trail@) == f.trail && walks(
            s,
            id,
            f.trail,
            d.path@,
        ) && param_views(d.params@) == f.params,
    }
}

/// The class tried at turn `k`.
fn class_of(q: Probe, k: usize) -> (r: Class)
    ensures
        r == class_at(q, k as int),
{
    if q.intercepts_first {
        if k == 0 {
            Class::Intercept
        } else if k == 1 {
            Class::Static
        } else if k == 2 {
            Class::Dynamic
        } else {
            Class::CatchAll
        }
    } else {
        if k == 0 {
            Class::Static
        } else if k == 1 {
            Class::Dynamic
        } else if k == 2 {
            Class::Intercept
        } else {
            Class::CatchAll
        }
    }
}

/// Whether the node `id` can serve a request with the given method.
pub(crate) fn can_serve(store: &RouteStore, id: usize, method: Method) -> (r: bool)
    requires
        id < store@.nodes.len(),
    ensures
        r == servable(store@.tree(id as int).files, method),
{
    let node = store.node(id);
    proof {
        lemma_tree_children(store@, id as int);
        assert(node.files.get(crate::files::FileRole::Page) == node.files.page);
        assert(node.files.get(crate::files::FileRole::Handler) == node.files.handler);
    }
    if node.files.page.is_some() {
        return true;
    }
    match node.files.handler {
        Some(h) => store.file(h).meta.methods.permits(method),
        None => false,
    }
}

/// The descent that stays where it is.
fn stay() -> (r: Descent)
    ensures
        trail_view(r.trail@) == Seq::<int>::empty(),
        r.path@ == Seq::<usize>::empty(),
        r.trail@ == Seq::<usize>::empty(),
        param_views(r.params@) == Seq::<ParamView>::empty(),
{
    let r = Descent { trail: Vec::new(), path: Vec::new(), params: Vec::new() };
    assert(trail_view(r.trail@) =~= Seq::<int>::empty());
    assert(param_views(r.params@) =~= Seq::<ParamView>::empty());
    r
}

/// The descent with the child `j`, the node `c`, put before the others.
fn under_child(d: Descent, j: usize, c: usize) -> (r: Descent)
    ensures
        trail_view(r.trail@) == seq![j as int] + trail_view(d.trail@),
        r.path@ == seq![c] + d.path@,
        r.params == d.params,
{
    let mut d = d;
    let ghost t0 = d.trail@;
    let ghost path0 = d.path@;
    d.trail.insert(0, j);
    d.path.insert(0, c);
    assert(d.path@ =~= seq![c] + path0);
    assert(d.trail@ =~= seq![j] + t0);
    assert(trail_view(d.trail@) =~= seq![j as int] + trail_view(t0));
    d
}

/// The descent with a parameter bound before the others.
fn bind_param(d: Option<Descent>, name: &Vec<u8>, values: Vec<Vec<u8>>) -> (r: Option<Descent>)
    ensures
        d is None ==> r is None,
        d matches Some(d0) ==> r matches Some(r0) && r0.trail == d0.trail && r0.path == d0.path
            && param_views(r0.params@) == seq![
            ParamView { name: name@, values: seg_views(values@) },
        ] + param_views(d0.params@),
{
    match d {
        Some(d0) => {
            let mut d1 = d0;
            let ghost before = d1.params@;
            let p = Param { name: copy_bytes(name.as_slice()), values };
            d1.params.insert(0, p);
            assert(d1.params@ =~= seq![p] + before);
            assert(param_views(d1.params@) =~= seq![p@] + param_views(before));
            Some(d1)
        },
        None => None,
    }
}

/// Matches the request segments `segs[from..]` at the node `id`.
pub(crate) fn enter_node(store: &RouteStore, id: usize, segs: &Vec<Vec<u8>>, from: usize, q: Probe) -> (r:
    Option<Descent>)
    requires
        id < store@.nodes.len(),
        from <= segs@.len(),
    ensures
        agrees(
            store@,
            id as int,
            r,
            enter(store@.tree(id as int), seg_views(segs@), from as int, q),
        ),
    decreases segs@.len() - from, id, 1int,
{
    let node = store.node(id);
    proof {
        lemma_tree_children(store@, id as int);
    }
    if node.blocked {
        return None;
    }
    if from == segs.len() && can_serve(store, id, q.method) {
        return Some(stay());
    }
    let r0 = scan_children(store, id, segs, from, class_of(q, 0), q);
    if r0.is_some() {
        return r0;
    }
    let r1 = scan_children(store, id, segs, from, class_of(q, 1), q);
    if r1.is_some() {
        return r1;
    }
    let r2 = scan_children(store, id, segs, from, class_of(q, 2), q);
    if r2.is_some() {
        return r2;
    }
    scan_children(store, id, segs, from, class_of(q, 3), q)
}

/// Tries the children of the node `id` that are of the class `class`, in
/// order, on the request segments `segs[from..]`.
pub(crate) fn scan_children(
    store: &RouteStore,
    id: usize,
    segs: &Vec<Vec<u8>>,
    from: usize,
    class: Class,
    q: Probe,
) -> (r: Option<Descent>)
    requires
        id < store@.nodes.len(),
        from <= segs@.len(),
    ensures
        agrees(
            store@,
            id as int,
            r,
            scan(store@.tree(id as int), 0, seg_views(segs@), from as int, class, q),
        ),
    decreases segs@.len() - from, id, 0int,
{
    let node = store.node(id);
    proof {
        lemma_tree_children(store@, id as int);
    }
    let ghost t = store@.tree(id as int);
    let ghost sv = seg_views(segs@);
    let n: usize = node.children.len();
    let mut j: usize = 0;
    while j < n
        invariant
            j <= n,
            n == node.children@.len(),
            id < store@.nodes.len(),
            from <= segs@.len(),
            node@ == store@.nodes[id as int],
            store@.wf(),
            t == store@.tree(id as int),
            sv == seg_views(segs@),
            t.children.len() == n,
            forall|k: int|
                0 <= k < n ==> #[trigger] t.children[k] == store@.tree(node.children@[k] as int),
            scan(t, 0, sv, from as int, class, q) == scan(t, j as int, sv, from as int, class, q),
        decreases n - j,
    {
        let c: usize = node.children[j];
        assert(c < id);
        assert(t.children[j as int] == store@.tree(c as int));
        let hit = probe(store, c, segs, from, class, q);
        match hit {
            Some(d) => {
                let ghost f = probe_child(t.children[j as int], sv, from as int, class, q)->0;
                let r = under_child(d, j, c);
                proof {
                    let g = f.under(j as int);
                    let before = d.path@;
                    assert forall|k: int| 0 <= k < g.trail.len() implies #[trigger] step_ok(
                        store@,
                        id as int,
                        g.trail,
                        r.path@,
                        k,
                    ) by {
                        if k > 0 {
                            assert(step_ok(store@, c as int, f.trail, before, k - 1));
                            assert(g.trail[k] == f.trail[k - 1]);
                            assert(r.path@[k] == before[k - 1]);
                            if k > 1 {
                                assert(r.path@[k - 1] == before[k - 2]);
                            }
                        }
                    }
                }
                return Some(r);
            },
            None => {},
        }
        j += 1;
    }
    None
}

/// Tries the node `c` as a child of the class `class` on the request
/// segments `segs[from..]`.
pub(crate) fn probe(
    store: &RouteStore,
    c: usize,
    segs: &Vec<Vec<u8>>,
    from: usize,
    class: Class,
    q: Probe,
) -> (r: Option<Descent>)
    requires
        c < store@.nodes.len(),
        from <= segs@.len(),
    ensures
        agrees(
            store@,
            c as int,
            r,
            probe_child(store@.tree(c as int), seg_views(segs@), from as int, class, q),
        ),
    decreases segs@.len() - from, c, 2int,
{
    let node = store.node(c);
    proof {
        lemma_tree_children(store@, c as int);
    }
    let ghost sv = seg_views(segs@);
    if node.blocked {
        return None;
    }
    match &node.kind {
        SegmentKind::Static(n) => {
            if class == Class::Static && from < segs.len() && bytes_eq(
                segs[from].as_slice(),
                n.as_slice(),
            ) {
                enter_node(store, c, segs, from + 1, q)
            } else {
                None
            }
        },
        SegmentKind::Dynamic(n) => {
            if class == Class::Dynamic && from < segs.len() {
                let d = enter_node(store, c, segs, from + 1, q);
                let mut values: Vec<Vec<u8>> = Vec::new();
                values.push(copy_bytes(segs[from].as_slice()));
                assert(seg_views(values@) =~= seq![sv[from as int]]);
                bind_param(d, n, values)
            } else {
                None
            }
        },
        SegmentKind::CatchAll(n) => {
            if class == Class::CatchAll && from < segs.len() {
                let d = enter_node(store, c, segs, segs.len(), q);
                let values = copy_tail(segs, from);
                bind_param(d, n, values)
            } else {
                None
            }
        },
        SegmentKind::OptionalCatchAll(n) => {
            if class == Class::CatchAll {
                let d = enter_node(store, c, segs, segs.len(), q);
                let values = copy_tail(segs, from);
                bind_param(d, n, values)
            } else {
                None
            }
        },
        SegmentKind::Group(_) => {
            if class == Class::Static && from == segs.len() && can_serve(store, c, q.method) {
                Some(stay())
            } else {
                scan_children(store, c, segs, from, class, q)
            }
        },
        SegmentKind::ParallelSlot(_) => None,
        SegmentKind::Intercept(_, target) => {
            if class == Class::Intercept && q.soft_navigation && from < segs.len() && bytes_eq(
                segs[from].as_slice(),
                target.as_slice(),
            ) {
                enter_node(store, c, segs, from + 1, q)
            } else {
                None
            }
        },
    }
}

/// How far into the request a descent stands after it has entered a node
/// of the given kind at `from`, in a request of `n` segments.
pub open spec fn next_from(kind: SegmentView, from: int, n: int) -> int {
    match kind {
        SegmentView::Group(_) => from,
        SegmentView::ParallelSlot(_) => from,
        SegmentView::CatchAll(_) => n,
        SegmentView::OptionalCatchAll(_) => n,
        _ => if from < n {
            from + 1
        } else {
            n
        },
    }
}

/// How a parallel slot answers a request: the slot, by the depth of the
/// node that owns it on the matched path and by its index among that
/// node's children, and the slot's own match of what was left of the
/// request there, if it has one.
pub ghost struct SlotView {
    pub depth: int,
    pub index: int,
    pub name: Seq<u8>,
    pub found: Option<Found>,
}

/// How a parallel slot answers a request.
#[derive(Debug, Clone, PartialEq, Eq)]
pub struct SlotBinding {
    pub depth: usize,
    pub index: usize,
    pub owner: usize,
    pub slot: usize,
    pub name: Vec<u8>,
    pub found: Option<Descent>,
}

/// Whether the binding `b` is the answer `v`.
pub open spec fn binding_agrees(s: StoreView, b: SlotBinding, v: SlotView) -> bool {
    &&& b.depth == v.depth
    &&& b.index == v.index
    &&& b.name@ == v.name
    &&& s.has_node(b.owner as int)
    &&& b.index < s.nodes[b.owner as int].children.len()
    &&& b.slot == s.nodes[b.owner as int].children[b.index as int]
    &&& agrees(s, b.slot as int, b.found, v.found)
}

/// Whether the bindings `bs` are the answers `vs`.
pub open spec fn bindings_agree(s: StoreView, bs: Seq<SlotBinding>, vs: Seq<SlotView>) -> bool {
    &&& bs.len() == vs.len()
    &&& forall|i: int| 0 <= i < bs.len() ==> #[trigger] binding_agrees(s, bs[i], vs[i])
}

/// Whether each binding names, as its owner, the node of `ids` at its
/// depth.
pub open spec fn owners_on_path(bs: Seq<SlotBinding>, ids: Seq<usize>) -> bool {
    forall|i: int|
        0 <= i < bs.len() ==> (#[trigger] bs[i]).depth < ids.len() && bs[i].owner
            == ids[bs[i].depth as int]
}

/// The answers of the slots among the first `n` children of `t`, each
/// matched by itself against `segs[from..]`.
pub open spec fn own_slots(
    t: TreeView,
    n: int,
    segs: Seq<Seq<u8>>,
    from: int,
    q: Probe,
    depth: int,
) -> Seq<SlotView>
    decreases n,
{
    if n <= 0 || n > t.children.len() {
        Seq::empty()
    } else {
        let front = own_slots(t, n - 1, segs, from, q, depth);
        match t.children[n - 1].kind {
            SegmentView::ParallelSlot(name) => front.push(
                SlotView {
                    depth,
                    index: n - 1,
                    name,
                    found: enter(t.children[n - 1], segs, from, q),
                },
            ),
            _ => front,
        }
    }
}

/// The answers of the slots of the nodes on the way down `trail[k..]` from
/// `t`, outermost first, where `segs[from..]` is left of the request at `t`.
pub open spec fn slots_along(
    t: TreeView,
    trail: Seq<int>,
    k: int,
    segs: Seq<Seq<u8>>,
    from: int,
    q: Probe,
) -> Seq<SlotView>
    decreases trail.len() - k,
{
    if k < 0 || k > trail.len() {
        Seq::empty()
    } else {
        let own = own_slots(t, t.children.len() as int, segs, from, q, k);
        if k < trail.len() && 0 <= trail[k] < t.children.len() {
            let c = t.children[trail[k]];
            own + slots_along(c, trail, k + 1, segs, next_from(c.kind, from, segs.len() as int), q)
        } else {
            own
        }
    }
}

/// A match in a tree: the way to the leaf, the parameters bound on it, and
/// the answers of the parallel slots beside it.
pub ghost struct MatchView {
    pub trail: Seq<int>,
    pub params: Seq<ParamView>,
    pub slots: Seq<SlotView>,
}

/// Whether no segment is empty.
pub open spec fn all_nonempty(segs: Seq<Seq<u8>>) -> bool {
    forall|i: int| 0 <= i < segs.len() ==> (#[trigger] segs[i]).len() > 0
}

/// The match of a request of the given segments in the tree `t`. A request
/// with an empty segment matches nothing.
pub open spec fn match_tree(t: TreeView, segs: Seq<Seq<u8>>, q: Probe) -> Option<MatchView> {
    if !all_nonempty(segs) {
        None
    } else {
        match enter(t, segs, 0, q) {
            None => None,
            Some(f) => Some(
                MatchView {
                    trail: f.trail,
                    params: f.params,
                    slots: slots_along(t, f.trail, 0, segs, 0, q),
                },
            ),
        }
    }
}

/// A match in a store.
#[derive(Debug, Clone, PartialEq, Eq)]
pub struct Matched {
    /// The nodes from the root to the leaf.
    pub leaf_path: Vec<usize>,
    /// The child indices taken from the root.
    pub trail: Vec<usize>,
    /// The parameters bound, outermost first.
    pub params: Vec<Param>,
    /// The answers of the parallel slots beside the path.
    pub slots: Vec<SlotBinding>,
}

/// The answer to a request: a match or none.
#[derive(Debug, Clone, PartialEq, Eq)]
pub enum Outcome {
    NoMatch,
    Matched(Matched),
}

/// The answer to a request, with the version of the tree that gave it.
#[derive(Debug, Clone, PartialEq, Eq)]
pub struct MatchResult {
    pub version: u64,
    pub outcome: Outcome,
}

/// Whether the outcome `o` for the tree of the node `root` is `m`.
pub open spec fn outcome_agrees(s: StoreView, root: int, o: Outcome, m: Option<MatchView>) -> bool {
    match m {
        None => o is NoMatch,
        Some(m) => {
            &&& o matches Outcome::Matched(x)
            &&& trail_view(x.trail@) == m.trail
            &&& x.leaf_path@.len() == m.trail.len() + 1
            &&& x.leaf_path@[0] == root
            &&& walks(s, root, m.trail, x.leaf_path@.drop_first())
            &&& param_views(x.params@) == m.params
            &&& bindings_agree(s, x.slots@, m.slots)
            &&& owners_on_path(x.slots@, x.leaf_path@)
        },
    }
}

/// How far into the request a descent stands after it has entered a node
/// of the given kind.
fn advance(kind: &SegmentKind, from: usize, n: usize) -> (r: usize)
    requires
        from <= n,
    ensures
        r == next_from(kind@, from as int, n as int),
        from <= r <= n,
{
    match kind {
        SegmentKind::Group(_) => from,
        SegmentKind::ParallelSlot(_) => from,
        SegmentKind::CatchAll(_) => n,
        SegmentKind::OptionalCatchAll(_) => n,
        _ => if from < n {
            from + 1
        } else {
            n
        },
    }
}

/// The answers of the slots of the node `id`.
fn own_bindings(
    store: &RouteStore,
    id: usize,
    segs: &Vec<Vec<u8>>,
    from: usize,
    q: Probe,
    depth: usize,
) -> (r: Vec<SlotBinding>)
    requires
        id < store@.nodes.len(),
        from <= segs@.len(),
    ensures
        bindings_agree(
            store@,
            r@,
            own_slots(
                store@.tree(id as int),
                store@.tree(id as int).children.len() as int,
                seg_views(segs@),
                from as int,
                q,
                depth as int,
            ),
        ),
        forall|i: int| 0 <= i < r@.len() ==> (#[trigger] r@[i]).owner == id && r@[i].depth == depth,
{
    let node = store.node(id);
    proof {
        lemma_tree_children(store@, id as int);
    }
    let ghost t = store@.tree(id as int);
    let ghost sv = seg_views(segs@);
    let n: usize = node.children.len();
    let mut out: Vec<SlotBinding> = Vec::new();
    let mut j: usize = 0;
    while j < n
        invariant
            j <= n,
            n == node.children@.len(),
            id < store@.nodes.len(),
            from <= segs@.len(),
            node@ == store@.nodes[id as int],
            store@.wf(),
            t == store@.tree(id as int),
            sv == seg_views(segs@),
            t.children.len() == n,
            forall|k: int|
                0 <= k < n ==> #[trigger] t.children[k] == store@.tree(node.children@[k] as int),
            bindings_agree(store@, out@, own_slots(t, j as int, sv, from as int, q, depth as int)),
            forall|i: int|
                0 <= i < out@.len() ==> (#[trigger] out@[i]).owner == id && out@[i].depth == depth,
        decreases n - j,
    {
        let c: usize = node.children[j];
        assert(c < id);
        assert(t.children[j as int] == store@.tree(c as int));
        proof {
            lemma_tree_children(store@, c as int);
        }
        let child = store.node(c);
        match &child.kind {
            SegmentKind::ParallelSlot(name) => {
                let found = enter_node(store, c, segs, from, q);
                let ghost before = out@;
                let ghost vs = own_slots(t, j as int, sv, from as int, q, depth as int);
                let b = SlotBinding {
                    depth,
                    index: j,
                    owner: id,
                    slot: c,
                    name: copy_bytes(name.as_slice()),
                    found,
                };
                out.push(b);
                proof {
                    let v = SlotView {
                        depth: depth as int,
                        index: j as int,
                        name: name@,
                        found: enter(t.children[j as int], sv, from as int, q),
                    };
                    assert(binding_agrees(store@, b, v));
                    assert forall|i: int| 0 <= i < out@.len() implies #[trigger] binding_agrees(
                        store@,
                        out@[i],
                        vs.push(v)[i],
                    ) by {
                        if i < before.len() {
                            assert(binding_agrees(store@, before[i], vs[i]));
                        }
                    }
                }
            },
            _ => {},
        }
        j += 1;
    }
    out
}

/// The answers of the slots beside the way of a descent from `root`.
fn bind_slots(store: &RouteStore, root: usize, d: &Descent, segs: &Vec<Vec<u8>>, q: Probe) -> (r:
    Vec<SlotBinding>)
    requires
        root < store@.nodes.len(),
        walks(store@, root as int, trail_view(d.trail@), d.path@),
    ensures
        bindings_agree(
            store@,
            r@,
            slots_along(
                store@.tree(root as int),
                trail_view(d.trail@),
                0,
                seg_views(segs@),
                0,
                q,
            ),
        ),
        owners_on_path(r@, seq![root] + d.path@),
{
    store.use_wf();
    let ghost s = store@;
    let ghost tr = trail_view(d.trail@);
    let ghost ids = seq![root] + d.path@;
    let ghost sv = seg_views(segs@);
    let ghost total = slots_along(s.tree(root as int), tr, 0, sv, 0, q);
    let n: usize = d.path.len();
    let total_segs: usize = segs.len();
    let mut acc: Vec<SlotBinding> = Vec::new();
    let ghost mut done: Seq<SlotView> = Seq::empty();
    let mut cur: usize = root;
    let mut from: usize = 0;
    let mut k: usize = 0;
    let mut more: bool = true;
    assert(done + total =~= total);
    while more
        invariant
            s == store@,
            s.wf(),
            tr == trail_view(d.trail@),
            sv == seg_views(segs@),
            n == d.path@.len(),
            total_segs == segs@.len(),
            walks(s, root as int, tr, d.path@),
            bindings_agree(s, acc@, done),
            ids == seq![root] + d.path@,
            owners_on_path(acc@, ids),
            more ==> k <= n && cur < s.nodes.len() && from <= total_segs && cur == (if k == 0 {
                root
            } else {
                d.path@[k - 1]
            }) && total == done + slots_along(s.tree(cur as int), tr, k as int, sv, from as int, q),
            !more ==> total == done,
        decreases n - k + (if more { 1int } else { 0int }),
    {
        let ghost t = s.tree(cur as int);
        let mut own = own_bindings(store, cur, segs, from, q, k);
        let ghost own_views = own_slots(t, t.children.len() as int, sv, from as int, q, k as int);
        let ghost before = acc@;
        let ghost own_seq = own@;
        acc.append(&mut own);
        proof {
            assert forall|i: int| 0 <= i < acc@.len() implies #[trigger] binding_agrees(
                s,
                acc@[i],
                (done + own_views)[i],
            ) by {
                if i < before.len() {
                    assert(binding_agrees(s, before[i], done[i]));
                } else {
                    assert(binding_agrees(s, own_seq[i - before.len()], own_views[i - before.len()]));
                }
            }
            lemma_tree_children(s, cur as int);
        }
        if k < n {
            assert(step_ok(s, root as int, tr, d.path@, k as int));
            let c: usize = d.path[k];
            proof {
                lemma_tree_children(s, c as int);
                let rest = slots_along(
                    t.children[tr[k as int]],
                    tr,
                    k + 1,
                    sv,
                    next_from(t.children[tr[k as int]].kind, from as int, sv.len() as int),
                    q,
                );
                assert(done + (own_views + rest) =~= (done + own_views) + rest);
            }
            from = advance(&store.node(c).kind, from, total_segs);
            cur = c;
            k += 1;
            proof {
                done = done + own_views;
            }
        } else {
            more = false;
            proof {
                done = done + own_views;
            }
        }
    }
    acc
}

/// Whether no segment is empty.
fn check_nonempty(segs: &Vec<Vec<u8>>) -> (r: bool)
    ensures
        r == all_nonempty(seg_views(segs@)),
{
    let ghost sv = seg_views(segs@);
    let mut i: usize = 0;
    while i < segs.len()
        invariant
            i <= segs@.len(),
            sv == seg_views(segs@),
            forall|k: int| 0 <= k < i ==> (#[trigger] sv[k]).len() > 0,
        decreases segs@.len() - i,
    {
        if segs[i].len() == 0 {
            assert(sv[i as int].len() == 0);
            return false;
        }
        i += 1;
    }
    true
}

/// Matches a request, given by its segments, against the tree of the node
/// `root`. Every request is answered: a node that the store does not hold
/// has no tree and matches nothing.
pub fn match_segments(store: &RouteStore, root: usize, version: u64, segs: &Vec<Vec<u8>>, q: Probe)
    -> (r: MatchResult)
    ensures
        r.version == version,
        outcome_agrees(
            store@,
            root as int,
            r.outcome,
            if store@.has_node(root as int) {
                match_tree(store@.tree(root as int), seg_views(segs@), q)
            } else {
                None
            },
        ),
{
    if root >= store.node_count() || !check_nonempty(segs) {
        return MatchResult { version, outcome: Outcome::NoMatch };
    }
    match enter_node(store, root, segs, 0, q) {
        None => MatchResult { version, outcome: Outcome::NoMatch },
        Some(d) => {
            let slots = bind_slots(store, root, &d, segs, q);
            let Descent { trail, path, params } = d;
            let mut leaf_path = path;
            let ghost before = leaf_path@;
            leaf_path.insert(0, root);
            assert(leaf_path@.drop_first() =~= before);
            assert(leaf_path@ =~= seq![root] + before);
            MatchResult {
                version,
                outcome: Outcome::Matched(Matched { leaf_path, trail, params, slots }),
            }
        },
    }
}

/// The mathematical content of a descent in a store.
pub ghost struct DescentView {
    pub trail: Seq<usize>,
    pub path: Seq<usize>,
    pub params: Seq<ParamView>,
}

impl View for Descent {
    type V = DescentView;

    open spec fn view(&self) -> DescentView {
        DescentView { trail: self.trail@, path: self.path@, params: param_views(self.params@) }
    }
}

/// The view of an optional descent.
pub open spec fn descent_view(d: Option<Descent>) -> Option<DescentView> {
    match d {
        Some(d) => Some(d@),
        None => None,
    }
}

/// The mathematical content of a slot binding.
pub ghost struct BindingView {
    pub depth: usize,
    pub index: usize,
    pub owner: usize,
    pub slot: usize,
    pub name: Seq<u8>,
    pub found: Option<DescentView>,
}

impl View for SlotBinding {
    type V = BindingView;

    open spec fn view(&self) -> BindingView {
        BindingView {
            depth: self.depth,
            index: self.index,
            owner: self.owner,
            slot: self.slot,
            name: self.name@,
            found: descent_view(self.found),
        }
    }
}

/// The mathematical content of a match in a store.
pub ghost struct MatchedView {
    pub leaf_path: Seq<usize>,
    pub trail: Seq<usize>,
    pub params: Seq<ParamView>,
    pub slots: Seq<BindingView>,
}

impl View for Matched {
    type V = MatchedView;

    open spec fn view(&self) -> MatchedView {
        MatchedView {
            leaf_path: self.leaf_path@,
            trail: self.trail@,
            params: param_views(self.params@),
            slots: self.slots@.map_values(|b: SlotBinding| b@),
        }
    }
}

impl View for Outcome {
    type V = Option<MatchedView>;

    open spec fn view(&self) -> Option<MatchedView> {
        match self {
            Outcome::NoMatch => None,
            Outcome::Matched(m) => Some(m@),
        }
    }
}

} // verus!
