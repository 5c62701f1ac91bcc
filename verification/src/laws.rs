//! What holds of the library as a whole.

use vstd::prelude::*;
use crate::files::{servable, FileRole, FileView, RoleMap};
use crate::manifest::files_along;
use crate::graft::{
    clash, find_child, graft, graft_conflict, kept, lemma_find_child_range, sibling_conflict,
    GraftView,
};
use crate::matcher::{
    match_tree, own_slots, slots_along,
    agrees, binding_agrees, descent_view, enter, outcome_agrees, probe_child, scan, step_ok,
    trail_view, walks, Class, Descent, Found, MatchView, Outcome, Probe, SlotBinding,
};
use crate::segment::SegmentView;
use crate::store::{lemma_tree_children, lemma_tree_kept, StoreView, TreeView};

verus! {

/// The nodes passed on the way down a trail are determined by the trail.
pub proof fn lemma_walks_unique(
    s: StoreView,
    id: int,
    trail: Seq<int>,
    left: Seq<usize>,
    right: Seq<usize>,
    k: int,
)
    requires
        walks(s, id, trail, left),
        walks(s, id, trail, right),
        0 <= k < trail.len(),
    ensures
        left[k] == right[k],
    decreases k,
{
    assert(step_ok(s, id, trail, left, k));
    assert(step_ok(s, id, trail, right, k));
    if k > 0 {
        lemma_walks_unique(s, id, trail, left, right, k - 1);
    }
}

/// Child indices are determined by their values as integers.
pub proof fn lemma_trail_view_injective(a: Seq<usize>, b: Seq<usize>)
    requires
        trail_view(a) == trail_view(b),
    ensures
        a == b,
{
    assert(a.len() == trail_view(a).len());
    assert(b.len() == trail_view(b).len());
    assert forall|i: int| 0 <= i < a.len() implies a[i] == b[i] by {
        assert(trail_view(a)[i] == a[i] as int);
        assert(trail_view(b)[i] == b[i] as int);
    }
    assert(a =~= b);
}

/// Two descents from one node that are the same outcome in its tree are
/// equal.
pub proof fn lemma_descent_deterministic(
    s: StoreView,
    id: int,
    a: Option<Descent>,
    b: Option<Descent>,
    f: Option<Found>,
)
    requires
        agrees(s, id, a, f),
        agrees(s, id, b, f),
    ensures
        descent_view(a) == descent_view(b),
{
    if f is Some {
        let x = a->0;
        let y = b->0;
        lemma_trail_view_injective(x.trail@, y.trail@);
        assert forall|k: int| 0 <= k < x.path@.len() implies x.path@[k] == y.path@[k] by {
            lemma_walks_unique(s, id, f->0.trail, x.path@, y.path@, k);
        }
        assert(x.path@ =~= y.path@);
    }
}

/// Determinism: two answers to one request against one tree are
/// structurally equal. The contract of matching leaves no choice.
pub proof fn lemma_match_deterministic(
    s: StoreView,
    root: int,
    a: Outcome,
    b: Outcome,
    m: Option<MatchView>,
)
    requires
        outcome_agrees(s, root, a, m),
        outcome_agrees(s, root, b, m),
    ensures
        a@ == b@,
{
    if m is Some {
        let x = a->Matched_0;
        let y = b->Matched_0;
        let mv = m->0;
        lemma_trail_view_injective(x.trail@, y.trail@);
        assert forall|k: int| 0 <= k < x.leaf_path@.len() implies x.leaf_path@[k]
            == y.leaf_path@[k] by {
            if k > 0 {
                lemma_walks_unique(
                    s,
                    root,
                    mv.trail,
                    x.leaf_path@.drop_first(),
                    y.leaf_path@.drop_first(),
                    k - 1,
                );
                assert(x.leaf_path@.drop_first()[k - 1] == x.leaf_path@[k]);
                assert(y.leaf_path@.drop_first()[k - 1] == y.leaf_path@[k]);
            }
        }
        assert(x.leaf_path@ =~= y.leaf_path@);
        let xs = x.slots@.map_values(|b: SlotBinding| b@);
        let ys = y.slots@.map_values(|b: SlotBinding| b@);
        assert forall|i: int| 0 <= i < xs.len() implies xs[i] == ys[i] by {
            let p = x.slots@[i];
            let r = y.slots@[i];
            assert(binding_agrees(s, p, mv.slots[i]));
            assert(binding_agrees(s, r, mv.slots[i]));
            assert(p.depth == r.depth);
            assert(p.owner == r.owner);
            lemma_descent_deterministic(s, p.slot as int, p.found, r.found, mv.slots[i].found);
        }
        assert(xs =~= ys);
    }
}

/// Whether the tree `t` holds a node for each of the segments
/// `path[from..]` in turn.
pub open spec fn has_way(t: TreeView, path: Seq<SegmentView>, from: int) -> bool
    decreases path.len() - from,
{
    from < 0 || from >= path.len() || {
        let j = find_child(t.children, path[from], 0);
        j < t.children.len() && has_way(t.children[j], path, from + 1)
    }
}

/// The node at the end of the way `path[from..]` in `t`, as far as the way
/// exists.
pub open spec fn at_way(t: TreeView, path: Seq<SegmentView>, from: int) -> TreeView
    decreases path.len() - from,
{
    if from < 0 || from >= path.len() {
        t
    } else {
        let j = find_child(t.children, path[from], 0);
        if j < t.children.len() {
            at_way(t.children[j], path, from + 1)
        } else {
            t
        }
    }
}

/// A child replaced by one of the same segment is found where it was.
pub proof fn lemma_find_child_update(
    children: Seq<TreeView>,
    j: int,
    x: TreeView,
    k: SegmentView,
    i: int,
)
    requires
        0 <= j < children.len(),
        x.kind == children[j].kind,
        0 <= i <= children.len(),
    ensures
        find_child(children.update(j, x), k, i) == find_child(children, k, i),
    decreases children.len() - i,
{
    if i < children.len() {
        lemma_find_child_update(children, j, x, k, i + 1);
    }
}

/// Binding again the file that was unbound gives back the tree: removing
/// a file and adding the same file again leaves every match as it was.
pub proof fn lemma_rebind_restores(
    t: TreeView,
    path: Seq<SegmentView>,
    from: int,
    role: FileRole,
    f: FileView,
)
    requires
        0 <= from <= path.len(),
        has_way(t, path, from),
        at_way(t, path, from).files.get(role) == Some(f),
        !clash(at_way(t, path, from).files, role),
    ensures
        graft(graft(t, path, from, GraftView::Unbind(role)), path, from, GraftView::Bind(role, f))
            == t,
    decreases path.len() - from,
{
    if from >= path.len() {
        let files = t.files;
        assert(files.set(role, None).set(role, Some(f)) == files);
    } else {
        let j = find_child(t.children, path[from], 0);
        lemma_find_child_range(t.children, path[from], 0);
        let c = t.children[j];
        let c1 = graft(c, path, from + 1, GraftView::Unbind(role));
        assert(at_way(t, path, from) == at_way(c, path, from + 1));
        lemma_rebind_restores(c, path, from + 1, role, f);
        assert(c1.kind == c.kind);
        lemma_find_child_update(t.children, j, c1, path[from], 0);
        assert(t.children.update(j, c1).update(j, c) =~= t.children);
    }
}

/// Putting back the subtree that was replaced gives back the tree.
pub proof fn lemma_replace_restores(t: TreeView, path: Seq<SegmentView>, from: int, x: TreeView)
    requires
        0 <= from <= path.len(),
        has_way(t, path, from),
        from < path.len() ==> x.kind == at_way(t, path, from).kind,
    ensures
        graft(
            graft(t, path, from, GraftView::Replace(x)),
            path,
            from,
            GraftView::Replace(at_way(t, path, from)),
        ) == t,
    decreases path.len() - from,
{
    if from < path.len() {
        let j = find_child(t.children, path[from], 0);
        lemma_find_child_range(t.children, path[from], 0);
        let c = t.children[j];
        let c1 = graft(c, path, from + 1, GraftView::Replace(x));
        assert(at_way(t, path, from) == at_way(c, path, from + 1));
        lemma_replace_restores(c, path, from + 1, x);
        if from + 1 >= path.len() {
            assert(at_way(c, path, from + 1) == c);
            assert(c1 == x);
        }
        assert(c1.kind == c.kind);
        lemma_find_child_update(t.children, j, c1, path[from], 0);
        assert(t.children.update(j, c1).update(j, c) =~= t.children);
    }
}

/// Localized change: a child of a changed node that is off the way of the
/// change is a child of the node that takes its place, the very same
/// stored node, and so with the very same tree.
pub proof fn lemma_sibling_shared(
    s0: StoreView,
    a: int,
    s1: StoreView,
    b: int,
    path: Seq<SegmentView>,
    from: int,
    g: GraftView,
    i: int,
)
    requires
        s0.wf(),
        s1.extends(s0),
        s0.has_node(a),
        s1.has_node(b),
        0 <= from < path.len(),
        kept(s0, a, s1, b, path, from, g),
        0 <= i < s0.nodes[a].children.len(),
        s0.tree(a).children[i].kind != path[from],
    ensures
        s1.nodes[b].children.contains(s0.nodes[a].children[i]),
        s1.tree(s0.nodes[a].children[i] as int) == s0.tree(s0.nodes[a].children[i] as int),
{
    let ca = s0.nodes[a].children;
    let cb = s1.nodes[b].children;
    assert(ca[i] < a);
    lemma_tree_kept(s0, s1, ca[i] as int);
    if a == b {
        assert(s1.nodes[b] == s0.nodes[a]);
        assert(cb[i] == ca[i]);
    } else {
        let j = find_child(s0.tree(a).children, path[from], 0);
        lemma_find_child_range(s0.tree(a).children, path[from], 0);
        crate::store::lemma_tree_children(s0, a);
        assert(i != j);
        if j < ca.len() && from + 1 == path.len() && g is Remove {
            if i < j {
                assert(cb[i] == ca[i]);
            } else {
                assert(cb[i - 1] == ca[i]);
            }
        } else {
            assert(cb[i] == ca[i]);
        }
    }
}

/// Conflict rejection: a new segment that cannot stand beside a child of
/// the node where it would be placed is reported, and the node is shut
/// out: nothing is matched in it, neither the one sibling nor the other.
pub proof fn lemma_conflict_shuts_out(
    t: TreeView,
    path: Seq<SegmentView>,
    from: int,
    g: GraftView,
    segs: Seq<Seq<u8>>,
    at: int,
    q: Probe,
)
    requires
        0 <= from < path.len(),
        find_child(t.children, path[from], 0) >= t.children.len(),
        sibling_conflict(t.children, path[from]),
        !(g is Remove),
        !(g is Unbind),
        !(g is Block),
    ensures
        graft_conflict(t, path, from, g),
        graft(t, path, from, g).blocked,
        enter(graft(t, path, from, g), segs, at, q) is None,
{
}

/// Two dynamic segments with different names cannot stand side by side,
/// and neither can two catch-alls that differ.
pub proof fn lemma_names_conflict(a: SegmentView, b: SegmentView)
    requires
        a != b,
        (a is Dynamic && b is Dynamic) || (a.is_catch_all() && b.is_catch_all()),
    ensures
        crate::graft::conflicts(a, b),
{
}

/// A match ends at a node of the tree that is not shut out and can serve
/// the request.
pub proof fn lemma_enter_sound(t: TreeView, segs: Seq<Seq<u8>>, from: int, q: Probe)
    requires
        enter(t, segs, from, q) is Some,
    ensures
        t.has(enter(t, segs, from, q)->0.trail),
        servable(t.at(enter(t, segs, from, q)->0.trail).files, q.method),
        !t.at(enter(t, segs, from, q)->0.trail).blocked,
    decreases segs.len() - from, t, t.children.len() + 1,
{
    if from == segs.len() && servable(t.files, q.method) {
    } else {
        let r0 = scan(t, 0, segs, from, crate::matcher::class_at(q, 0), q);
        let r1 = scan(t, 0, segs, from, crate::matcher::class_at(q, 1), q);
        let r2 = scan(t, 0, segs, from, crate::matcher::class_at(q, 2), q);
        if r0 is Some {
            lemma_scan_sound(t, 0, segs, from, crate::matcher::class_at(q, 0), q);
        } else if r1 is Some {
            lemma_scan_sound(t, 0, segs, from, crate::matcher::class_at(q, 1), q);
        } else if r2 is Some {
            lemma_scan_sound(t, 0, segs, from, crate::matcher::class_at(q, 2), q);
        } else {
            lemma_scan_sound(t, 0, segs, from, crate::matcher::class_at(q, 3), q);
        }
    }
}

/// A match found among the children ends at a node of the tree that is
/// not shut out and can serve the request.
pub proof fn lemma_scan_sound(
    t: TreeView,
    j: int,
    segs: Seq<Seq<u8>>,
    from: int,
    class: Class,
    q: Probe,
)
    requires
        scan(t, j, segs, from, class, q) is Some,
    ensures
        t.has(scan(t, j, segs, from, class, q)->0.trail),
        servable(t.at(scan(t, j, segs, from, class, q)->0.trail).files, q.method),
        !t.at(scan(t, j, segs, from, class, q)->0.trail).blocked,
    decreases segs.len() - from, t, t.children.len() - j,
{
    let hit = probe_child(t.children[j], segs, from, class, q);
    match hit {
        Some(f) => {
            lemma_probe_sound(t.children[j], segs, from, class, q);
            let g = f.under(j);
            assert(g.trail.drop_first() =~= f.trail);
        },
        None => {
            lemma_scan_sound(t, j + 1, segs, from, class, q);
        },
    }
}

/// A match that a child gives ends at a node of the child's tree that is
/// not shut out and can serve the request.
pub proof fn lemma_probe_sound(c: TreeView, segs: Seq<Seq<u8>>, from: int, class: Class, q: Probe)
    requires
        probe_child(c, segs, from, class, q) is Some,
    ensures
        c.has(probe_child(c, segs, from, class, q)->0.trail),
        servable(c.at(probe_child(c, segs, from, class, q)->0.trail).files, q.method),
        !c.at(probe_child(c, segs, from, class, q)->0.trail).blocked,
    decreases segs.len() - from, c, c.children.len() + 2,
{
    match c.kind {
        SegmentView::Static(_) => {
            lemma_enter_sound(c, segs, from + 1, q);
        },
        SegmentView::Dynamic(_) => {
            lemma_enter_sound(c, segs, from + 1, q);
        },
        SegmentView::CatchAll(_) => {
            lemma_enter_sound(c, segs, segs.len() as int, q);
        },
        SegmentView::OptionalCatchAll(_) => {
            lemma_enter_sound(c, segs, segs.len() as int, q);
        },
        SegmentView::Group(_) => {
            if class == Class::Static && from == segs.len() && servable(c.files, q.method) {
            } else {
                lemma_scan_sound(c, 0, segs, from, class, q);
            }
        },
        SegmentView::ParallelSlot(_) => {},
        SegmentView::Intercept(_, _) => {
            lemma_enter_sound(c, segs, from + 1, q);
        },
    }
}

/// The files bound at the nodes on the way down `trail[k..]` from `t`, the
/// node `t` first.
pub open spec fn files_down(t: TreeView, trail: Seq<int>, k: int) -> Seq<RoleMap<FileView>>
    decreases trail.len() - k,
{
    if k < 0 || k > trail.len() {
        Seq::empty()
    } else if k < trail.len() && 0 <= trail[k] < t.children.len() {
        seq![t.files] + files_down(t.children[trail[k]], trail, k + 1)
    } else {
        seq![t.files]
    }
}

/// Every node of a walked way is a node of the store.
pub proof fn lemma_walk_in_store(
    s: StoreView,
    root: usize,
    trail: Seq<int>,
    path: Seq<usize>,
    k: int,
)
    requires
        s.wf(),
        s.has_node(root as int),
        walks(s, root as int, trail, path),
        0 <= k <= trail.len(),
    ensures
        s.has_node((seq![root] + path)[k] as int),
{
    if k > 0 {
        assert(step_ok(s, root as int, trail, path, k - 1));
        let prev = (seq![root] + path)[k - 1];
        assert(s.nodes[prev as int].children[trail[k - 1]] < prev);
    }
}

/// The files along a walked way from depth `k` on are the files down the
/// trail in the tree of the node at depth `k`.
pub proof fn lemma_files_down(
    s: StoreView,
    root: usize,
    trail: Seq<int>,
    path: Seq<usize>,
    k: int,
)
    requires
        s.wf(),
        s.has_node(root as int),
        walks(s, root as int, trail, path),
        0 <= k <= trail.len(),
    ensures
        files_along(s, seq![root] + path).skip(k) == files_down(
            s.tree((seq![root] + path)[k] as int),
            trail,
            k,
        ),
    decreases trail.len() - k,
{
    let ids = seq![root] + path;
    let id = ids[k];
    lemma_walk_in_store(s, root, trail, path, k);
    lemma_tree_children(s, id as int);
    let t = s.tree(id as int);
    let all = files_along(s, ids);
    assert(all[k] == t.files);
    if k < trail.len() {
        assert(step_ok(s, root as int, trail, path, k));
        lemma_files_down(s, root, trail, path, k + 1);
        assert(ids[k + 1] == path[k]);
        assert(t.children[trail[k]] == s.tree(path[k] as int));
        assert(all.skip(k) =~= seq![t.files] + all.skip(k + 1));
    } else {
        assert(all.skip(k) =~= seq![t.files]);
    }
}

/// The files that a manifest is assembled from are determined by the tree
/// and the trail of the match: two stores that hold one tree, under
/// whatever indices, give one manifest for one match.
pub proof fn lemma_manifest_of_tree(s: StoreView, root: usize, trail: Seq<int>, path: Seq<usize>)
    requires
        s.wf(),
        s.has_node(root as int),
        walks(s, root as int, trail, path),
    ensures
        files_along(s, seq![root] + path) == files_down(s.tree(root as int), trail, 0),
{
    lemma_files_down(s, root, trail, path, 0);
    assert(files_along(s, seq![root] + path).skip(0) =~= files_along(s, seq![root] + path));
}

/// Whether the child `j` bears a static name that the request does not
/// ask for at `from`.
pub open spec fn passed_by(t: TreeView, j: int, segs: Seq<Seq<u8>>, from: int) -> bool {
    &&& 0 <= j < t.children.len()
    &&& t.children[j].kind matches SegmentView::Static(n)
    &&& (from < 0 || from >= segs.len() || segs[from] != n)
}

/// Whether `u` is `t` with another subtree under the same segment in the
/// place of the child `j`.
pub open spec fn same_but(t: TreeView, u: TreeView, j: int) -> bool {
    &&& 0 <= j < t.children.len()
    &&& u.children == t.children.update(j, u.children[j])
    &&& u.children[j].kind == t.children[j].kind
    &&& u.kind == t.kind
    &&& u.files == t.files
    &&& u.blocked == t.blocked
}

/// A scan finds the same where a child that the request passes by holds
/// another subtree.
pub proof fn lemma_scan_elsewhere(
    t: TreeView,
    u: TreeView,
    j: int,
    i: int,
    segs: Seq<Seq<u8>>,
    from: int,
    class: Class,
    q: Probe,
)
    requires
        same_but(t, u, j),
        passed_by(t, j, segs, from),
        0 <= i,
    ensures
        scan(u, i, segs, from, class, q) == scan(t, i, segs, from, class, q),
        scan(t, i, segs, from, class, q) matches Some(f) ==> f.trail.len() > 0 && f.trail[0] != j
            && 0 <= f.trail[0] < t.children.len(),
    decreases t.children.len() - i,
{
    if i < t.children.len() {
        lemma_scan_elsewhere(t, u, j, i + 1, segs, from, class, q);
        if i != j {
            assert(u.children[i] == t.children[i]);
        } else {
            assert(probe_child(t.children[j], segs, from, class, q) is None);
            assert(probe_child(u.children[j], segs, from, class, q) is None);
        }
    }
}

/// The slots among the children answer the same where a child that bears
/// a static name holds another subtree.
pub proof fn lemma_slots_elsewhere(
    t: TreeView,
    u: TreeView,
    j: int,
    n: int,
    segs: Seq<Seq<u8>>,
    from: int,
    q: Probe,
    depth: int,
)
    requires
        same_but(t, u, j),
        t.children[j].kind is Static,
    ensures
        own_slots(u, n, segs, from, q, depth) == own_slots(t, n, segs, from, q, depth),
    decreases n,
{
    if 0 < n <= t.children.len() {
        lemma_slots_elsewhere(t, u, j, n - 1, segs, from, q, depth);
        if n - 1 != j {
            assert(u.children[n - 1] == t.children[n - 1]);
        }
    }
}

/// Localized change, seen from the request: a change in a directory under
/// the root that bears a static name changes no answer to a request that
/// does not begin with that name. The match, the parameters and the
/// answers of the slots are the same before and after.
pub proof fn lemma_answers_elsewhere(
    t: TreeView,
    dir: Seq<SegmentView>,
    g: GraftView,
    segs: Seq<Seq<u8>>,
    q: Probe,
)
    requires
        dir.len() > 0,
        find_child(t.children, dir[0], 0) < t.children.len(),
        passed_by(t, find_child(t.children, dir[0], 0), segs, 0),
        !(dir.len() == 1 && g is Remove),
        dir.len() == 1 ==> (g matches GraftView::Replace(sub) ==> sub.kind == dir[0]),
    ensures
        match_tree(graft(t, dir, 0, g), segs, q) == match_tree(t, segs, q),
{
    let j = find_child(t.children, dir[0], 0);
    lemma_find_child_range(t.children, dir[0], 0);
    let u = graft(t, dir, 0, g);
    let c = t.children[j];
    let c1 = graft(c, dir, 1, g);
    assert(c1.kind == c.kind);
    assert(u.children == t.children.update(j, c1));
    assert(u.children[j] == c1);
    assert(same_but(t, u, j));
    lemma_scan_elsewhere(t, u, j, 0, segs, 0, crate::matcher::class_at(q, 0), q);
    lemma_scan_elsewhere(t, u, j, 0, segs, 0, crate::matcher::class_at(q, 1), q);
    lemma_scan_elsewhere(t, u, j, 0, segs, 0, crate::matcher::class_at(q, 2), q);
    lemma_scan_elsewhere(t, u, j, 0, segs, 0, crate::matcher::class_at(q, 3), q);
    assert(enter(u, segs, 0, q) == enter(t, segs, 0, q));
    if enter(t, segs, 0, q) is Some {
        let f = enter(t, segs, 0, q)->0;
        lemma_slots_elsewhere(t, u, j, t.children.len() as int, segs, 0, q, 0);
        if f.trail.len() > 0 {
            assert(f.trail[0] != j);
            assert(u.children[f.trail[0]] == t.children[f.trail[0]]);
        }
        assert(slots_along(u, f.trail, 0, segs, 0, q) == slots_along(t, f.trail, 0, segs, 0, q));
    }
}

} // verus!
