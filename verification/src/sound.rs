//! What holds of every tree that the builder makes and that the
//! versioning layer publishes.

use vstd::prelude::*;
use crate::builder::{
    built_tree, checked_conflict, closure_conflict, creates, ends_in_group, first_routing,
    graft_of, nesting_ok, place, place_all, placed, rebuilt_tree, root_kind, scout, seal,
    top_kind, way_of,
};
use crate::graft::{
    branch, conflicts, find_child, graft, lemma_find_child_range, sibling_conflict, GraftView,
};
use crate::loader::ClassifiedView;
use crate::segment::SegmentView;
use crate::store::{StoreView, TreeView};
use crate::version::{held_back, splice_of, VersionsView};

verus! {

/// No two of the children bear one segment.
pub open spec fn distinct(children: Seq<TreeView>) -> bool {
    forall|i: int, j: int|
        0 <= i < j < children.len() ==> (#[trigger] children[i]).kind != (
        #[trigger] children[j]).kind
}

/// Whether the segment `m` is matched beside the children of `a`: whether
/// it is the segment of a child from index `i` on, or of a node that a
/// group among them holds in its place.
pub open spec fn reach(a: TreeView, i: int, m: SegmentView) -> bool
    decreases a, a.children.len() - i,
{
    if i < 0 || i >= a.children.len() {
        false
    } else {
        let c = a.children[i];
        c.kind == m || (c.kind is Group && reach(c, 0, m)) || reach(a, i + 1, m)
    }
}

/// No two segments that are matched beside each other at `a` conflict:
/// neither among its children nor among those of the groups among them.
pub open spec fn calm(a: TreeView) -> bool {
    forall|m: SegmentView, n: SegmentView|
        #![trigger reach(a, 0, m), reach(a, 0, n)]
        reach(a, 0, m) && reach(a, 0, n) ==> !conflicts(m, n)
}

/// Whether a tree is sound: at every node, the children bear distinct
/// segments, at most one of page and handler is bound, a catch-all has no
/// children, and a node that is not shut out is calm.
pub open spec fn sound(t: TreeView) -> bool
    decreases t,
{
    &&& distinct(t.children)
    &&& !(t.files.page is Some && t.files.handler is Some)
    &&& t.kind.is_catch_all() ==> t.children.len() == 0
    &&& t.blocked || calm(t)
    &&& forall|i: int| 0 <= i < t.children.len() ==> sound(#[trigger] t.children[i])
}

/// Whether a change brings only sound trees whose top bears the last
/// segment of the way, which is no group.
pub open spec fn sound_change(g: GraftView, path: Seq<SegmentView>, from: int) -> bool {
    g matches GraftView::Replace(sub) ==> sound(sub) && (from < path.len() ==> sub.kind
        == path.last() && !(path.last() is Group))
}

/// What is matched beside the children from an index on is matched beside
/// those from an earlier index on.
pub proof fn lemma_reach_from(a: TreeView, i0: int, i: int, m: SegmentView)
    requires
        0 <= i0 <= i,
        reach(a, i, m),
    ensures
        reach(a, i0, m),
    decreases i - i0,
{
    if i0 < i {
        lemma_reach_from(a, i0 + 1, i, m);
    }
}

/// What is matched beside the children of a node depends on the children
/// alone.
pub proof fn lemma_reach_same(a: TreeView, b: TreeView, i: int, m: SegmentView)
    requires
        a.children == b.children,
    ensures
        reach(a, i, m) == reach(b, i, m),
    decreases a.children.len() - i,
{
    if 0 <= i < a.children.len() {
        lemma_reach_same(a, b, i + 1, m);
    }
}

/// A node with the children of a calm node is calm.
pub proof fn lemma_calm_same(a: TreeView, b: TreeView)
    requires
        a.children == b.children,
        calm(a),
    ensures
        calm(b),
{
    assert forall|m: SegmentView, n: SegmentView|
        #![trigger reach(b, 0, m), reach(b, 0, n)]
        reach(b, 0, m) && reach(b, 0, n) implies !conflicts(m, n) by {
        lemma_reach_same(a, b, 0, m);
        lemma_reach_same(a, b, 0, n);
    }
}

/// What is matched beside the children after one of them gave way to a
/// node of the same segment was matched there before, or is matched
/// inside the new node, which is a group.
pub proof fn lemma_reach_update(a: TreeView, b: TreeView, j: int, i: int, m: SegmentView)
    requires
        0 <= j < a.children.len(),
        b.children == a.children.update(j, b.children[j]),
        b.children[j].kind == a.children[j].kind,
        0 <= i,
        reach(b, i, m),
    ensures
        reach(a, i, m) || (b.children[j].kind is Group && reach(b.children[j], 0, m)),
    decreases a.children.len() - i,
{
    if i < a.children.len() {
        if i != j {
            assert(b.children[i] == a.children[i]);
        }
        if reach(b, i + 1, m) {
            lemma_reach_update(a, b, j, i + 1, m);
        }
    }
}

/// What is matched beside the children after a child was added was
/// matched there before, or is the segment of the new child, or is
/// matched inside the new child, which is a group.
pub proof fn lemma_reach_push(a: TreeView, b: TreeView, x: TreeView, i: int, m: SegmentView)
    requires
        b.children == a.children.push(x),
        0 <= i,
        reach(b, i, m),
    ensures
        reach(a, i, m) || x.kind == m || (x.kind is Group && reach(x, 0, m)),
    decreases b.children.len() - i,
{
    if i < a.children.len() {
        assert(b.children[i] == a.children[i]);
        if reach(b, i + 1, m) {
            lemma_reach_push(a, b, x, i + 1, m);
        }
    } else if i == a.children.len() {
        assert(b.children[i] == x);
        assert(!reach(b, i + 1, m));
    }
}

/// What is matched beside the children after one of them was taken away
/// was matched there before.
pub proof fn lemma_reach_remove(a: TreeView, b: TreeView, j: int, i: int, m: SegmentView)
    requires
        0 <= j < a.children.len(),
        b.children == a.children.remove(j),
        0 <= i,
        reach(b, i, m),
    ensures
        reach(a, 0, m),
    decreases b.children.len() - i,
{
    let i0 = if i < j {
        i
    } else {
        i + 1
    };
    assert(b.children[i] == a.children[i0]);
    if b.children[i].kind == m || (b.children[i].kind is Group && reach(b.children[i], 0, m)) {
        assert(reach(a, i0, m));
        lemma_reach_from(a, 0, i0, m);
    } else {
        lemma_reach_remove(a, b, j, i + 1, m);
    }
}

/// What is matched inside a group is matched beside the group.
pub proof fn lemma_reach_in_group(t: TreeView, j: int, m: SegmentView)
    requires
        0 <= j < t.children.len(),
        t.children[j].kind is Group,
        reach(t.children[j], 0, m),
    ensures
        reach(t, 0, m),
{
    assert(reach(t, j, m));
    lemma_reach_from(t, 0, j, m);
}

/// A segment matched beside the children that conflicts with `k` is a
/// conflict for `k`.
pub proof fn lemma_member_conflict(a: TreeView, i: int, m: SegmentView, k: SegmentView)
    requires
        reach(a, i, m),
        conflicts(m, k),
    ensures
        closure_conflict(a, i, k),
    decreases a, a.children.len() - i,
{
    let c = a.children[i];
    if c.kind == m {
    } else if c.kind is Group && reach(c, 0, m) {
        lemma_member_conflict(c, 0, m, k);
    } else {
        lemma_member_conflict(a, i + 1, m, k);
    }
}

/// The first segment that is no group is the same from a group on as from
/// the segment after it on.
pub proof fn lemma_first_routing_group(path: Seq<SegmentView>, from: int)
    requires
        0 <= from < path.len(),
        path[from] is Group,
    ensures
        first_routing(path, from) == first_routing(path, from + 1),
{
}

/// The top of a fresh branch bears the first of its segments.
pub proof fn lemma_branch_kind(path: Seq<SegmentView>, from: int, g: GraftView)
    requires
        0 <= from < path.len(),
        g matches GraftView::Replace(sub) ==> sub.kind == path.last(),
    ensures
        branch(path, from, g).kind == path[from],
{
    if from + 1 == path.len() {
        assert(path.last() == path[from]);
    }
}

/// What is matched beside the child of a fresh branch is a group or the
/// first segment of the branch, after its top, that is no group.
pub proof fn lemma_reach_branch(path: Seq<SegmentView>, from: int, g: GraftView, m: SegmentView)
    requires
        0 <= from < path.len(),
        g matches GraftView::Replace(sub) ==> sub.kind == path.last() && !(path.last() is Group),
        from + 1 < path.len() || !(g is Replace),
        reach(branch(path, from, g), 0, m),
    ensures
        m is Group || first_routing(path, from + 1) == Some(m),
    decreases path.len() - from,
{
    let b = branch(path, from, g);
    if from + 1 == path.len() {
        assert(b.children.len() == 0);
    } else {
        let b1 = branch(path, from + 1, g);
        assert(b.children.len() == 1);
        assert(b.children[0] == b1);
        lemma_branch_kind(path, from + 1, g);
        assert(!reach(b, 1, m));
        if b1.kind == m {
        } else {
            assert(b1.kind is Group && reach(b1, 0, m));
            if from + 2 == path.len() && g is Replace {
                assert(path.last() == path[from + 1]);
            }
            lemma_reach_branch(path, from + 1, g, m);
            lemma_first_routing_group(path, from + 1);
        }
    }
}

/// A fresh branch is sound, and its top bears the first of its segments.
pub proof fn lemma_branch_sound(path: Seq<SegmentView>, from: int, g: GraftView)
    requires
        0 <= from < path.len(),
        nesting_ok(path),
        sound_change(g, path, from),
    ensures
        sound(branch(path, from, g)),
        branch(path, from, g).kind == path[from],
    decreases path.len() - from,
{
    let b = branch(path, from, g);
    if from + 1 == path.len() {
        let leaf = TreeView::leaf(path[from]);
        assert(calm(leaf));
        assert(sound(leaf));
        assert(path.last() == path[from]);
        match g {
            GraftView::Replace(_) => {},
            _ => {
                lemma_calm_same(leaf, b);
            },
        }
    } else {
        lemma_branch_sound(path, from + 1, g);
        assert(!path[from].is_catch_all());
        assert(b.children.len() == 1);
        assert(b.children[0] == branch(path, from + 1, g));
        assert forall|m: SegmentView, n: SegmentView|
            #![trigger reach(b, 0, m), reach(b, 0, n)]
            reach(b, 0, m) && reach(b, 0, n) implies !conflicts(m, n) by {
            lemma_reach_branch(path, from, g, m);
            lemma_reach_branch(path, from, g, n);
        }
    }
}

/// Whether the change `g` at the end of `path[from..]` brings a new
/// segment in beside the children of `t`: as a child, or through the groups
/// among them.
pub open spec fn grows(t: TreeView, path: Seq<SegmentView>, from: int, g: GraftView) -> bool
    decreases path.len() - from,
{
    creates(g) && 0 <= from < path.len() && {
        let j = find_child(t.children, path[from], 0);
        if j < t.children.len() {
            t.children[j].kind is Group && grows(t.children[j], path, from + 1, g)
        } else {
            !sibling_conflict(t.children, path[from])
        }
    }
}

/// Whether `m` is a segment that the change may bring in beside the
/// children of `t`: a group, or the first segment on the way that is none.
pub open spec fn brought(
    t: TreeView,
    path: Seq<SegmentView>,
    from: int,
    g: GraftView,
    m: SegmentView,
) -> bool {
    grows(t, path, from, g) && (m is Group || first_routing(path, from) == Some(m))
}

/// A change that the look-out let pass keeps a sound tree sound, and keeps
/// the segment of its top unless the change replaces the top itself. What
/// is matched beside the children afterwards was matched there before or
/// was brought in, and what was brought in conflicts with nothing that is
/// matched beside the children of `anchor`, the last node above that is no
/// group.
pub proof fn lemma_graft_sound(
    t: TreeView,
    path: Seq<SegmentView>,
    from: int,
    g: GraftView,
    anchor: TreeView,
    depth: int,
)
    requires
        0 <= from <= path.len(),
        sound(t),
        nesting_ok(path),
        sound_change(g, path, from),
        from < path.len() ==> !t.kind.is_catch_all(),
        creates(g) ==> scout(t, path, from, anchor, depth) is None,
        forall|m: SegmentView| reach(t, 0, m) ==> reach(anchor, 0, m),
    ensures
        sound(graft(t, path, from, g)),
        from < path.len() || !(g is Replace) ==> graft(t, path, from, g).kind == t.kind,
        from < path.len() || !(g is Replace) ==> forall|m: SegmentView|
            reach(graft(t, path, from, g), 0, m) ==> reach(t, 0, m) || brought(
                t,
                path,
                from,
                g,
                m,
            ),
        grows(t, path, from, g) ==> (first_routing(path, from) matches Some(k)
            ==> !closure_conflict(anchor, 0, k)),
    decreases path.len() - from,
{
    let r = graft(t, path, from, g);
    if from >= path.len() {
        match g {
            GraftView::Replace(_) => {},
            _ => {
                assert(r.children == t.children);
                if !t.blocked {
                    lemma_calm_same(t, r);
                }
                assert forall|m: SegmentView| reach(r, 0, m) implies reach(t, 0, m) by {
                    lemma_reach_same(t, r, 0, m);
                }
            },
        }
    } else {
        let j = find_child(t.children, path[from], 0);
        lemma_find_child_range(t.children, path[from], 0);
        if j < t.children.len() {
            if from + 1 == path.len() && g is Remove {
                assert forall|a: int, b: int| 0 <= a < b < r.children.len() implies (
                #[trigger] r.children[a]).kind != (#[trigger] r.children[b]).kind by {
                    let a0 = if a < j {
                        a
                    } else {
                        a + 1
                    };
                    let b0 = if b < j {
                        b
                    } else {
                        b + 1
                    };
                    assert(r.children[a] == t.children[a0]);
                    assert(r.children[b] == t.children[b0]);
                }
                assert forall|i: int| 0 <= i < r.children.len() implies sound(
                    #[trigger] r.children[i],
                ) by {
                    let i0 = if i < j {
                        i
                    } else {
                        i + 1
                    };
                    assert(r.children[i] == t.children[i0]);
                    assert(sound(t.children[i0]));
                }
                assert forall|m: SegmentView| reach(r, 0, m) implies reach(t, 0, m) by {
                    lemma_reach_remove(t, r, j, 0, m);
                }
            } else {
                let c = t.children[j];
                assert(sound(c));
                if from + 1 < path.len() {
                    assert(!path[from].is_catch_all());
                }
                let inner = if c.kind is Group {
                    anchor
                } else {
                    c
                };
                let inner_depth = if c.kind is Group {
                    depth
                } else {
                    from + 1
                };
                assert forall|m: SegmentView| reach(c, 0, m) implies reach(inner, 0, m) by {
                    if c.kind is Group {
                        lemma_reach_in_group(t, j, m);
                    }
                }
                lemma_graft_sound(c, path, from + 1, g, inner, inner_depth);
                let c1 = graft(c, path, from + 1, g);
                if from + 1 >= path.len() && g is Replace {
                    assert(path.last() == path[from]);
                }
                assert(c1.kind == c.kind);
                assert(r.children == t.children.update(j, c1));
                assert(r.children[j] == c1);
                assert forall|a: int, b: int| 0 <= a < b < r.children.len() implies (
                #[trigger] r.children[a]).kind != (#[trigger] r.children[b]).kind by {
                    assert(r.children[a].kind == t.children[a].kind);
                    assert(r.children[b].kind == t.children[b].kind);
                }
                assert forall|i: int| 0 <= i < r.children.len() implies sound(
                    #[trigger] r.children[i],
                ) by {
                    if i != j {
                        assert(r.children[i] == t.children[i]);
                        assert(sound(t.children[i]));
                    }
                }
                if c.kind is Group {
                    lemma_first_routing_group(path, from);
                }
                assert forall|m: SegmentView| reach(r, 0, m) implies reach(t, 0, m) || brought(
                    t,
                    path,
                    from,
                    g,
                    m,
                ) by {
                    lemma_reach_update(t, r, j, 0, m);
                    if !reach(t, 0, m) {
                        assert(c.kind is Group && reach(c1, 0, m));
                        if reach(c, 0, m) {
                            lemma_reach_in_group(t, j, m);
                        }
                    }
                }
            }
        } else if g is Remove || g is Unbind || g is Block {
        } else if sibling_conflict(t.children, path[from]) {
            assert(r.children == t.children);
            assert forall|m: SegmentView| reach(r, 0, m) implies reach(t, 0, m) by {
                lemma_reach_same(t, r, 0, m);
            }
        } else {
            lemma_branch_sound(path, from, g);
            let b = branch(path, from, g);
            assert(r.children == t.children.push(b));
            assert forall|x: int, y: int| 0 <= x < y < r.children.len() implies (
            #[trigger] r.children[x]).kind != (#[trigger] r.children[y]).kind by {
                if y < t.children.len() {
                    assert(r.children[x] == t.children[x]);
                    assert(r.children[y] == t.children[y]);
                } else {
                    assert(r.children[x] == t.children[x]);
                }
            }
            assert forall|i: int| 0 <= i < r.children.len() implies sound(
                #[trigger] r.children[i],
            ) by {
                if i < t.children.len() {
                    assert(r.children[i] == t.children[i]);
                    assert(sound(t.children[i]));
                }
            }
            if path[from] is Group {
                lemma_first_routing_group(path, from);
            }
            assert forall|m: SegmentView| reach(r, 0, m) implies reach(t, 0, m) || brought(
                t,
                path,
                from,
                g,
                m,
            ) by {
                lemma_reach_push(t, r, b, 0, m);
                if !reach(t, 0, m) && b.kind != m {
                    if from + 1 == path.len() && g is Replace {
                        assert(path.last() == path[from]);
                    }
                    lemma_reach_branch(path, from, g, m);
                }
            }
        }
        if !r.blocked {
            assert(!t.blocked);
            assert forall|m: SegmentView, n: SegmentView|
                #![trigger reach(r, 0, m), reach(r, 0, n)]
                reach(r, 0, m) && reach(r, 0, n) implies !conflicts(m, n) by {
                if reach(t, 0, m) && reach(t, 0, n) {
                } else if m is Group || n is Group {
                } else {
                    let k = first_routing(path, from)->0;
                    assert(grows(t, path, from, g));
                    assert(!closure_conflict(anchor, 0, k));
                    if reach(t, 0, m) {
                        assert(n == k);
                        if conflicts(m, k) {
                            lemma_member_conflict(anchor, 0, m, k);
                        }
                    } else if reach(t, 0, n) {
                        assert(m == k);
                        if conflicts(n, k) {
                            lemma_member_conflict(anchor, 0, n, k);
                        }
                    }
                }
            }
        }
    }
}

/// The depth that scouting gives lies on the way.
pub proof fn lemma_scout_range(
    t: TreeView,
    path: Seq<SegmentView>,
    from: int,
    anchor: TreeView,
    depth: int,
)
    requires
        0 <= depth <= from <= path.len(),
    ensures
        scout(t, path, from, anchor, depth) matches Some(d) ==> depth <= d <= path.len(),
    decreases path.len() - from,
{
    if from < path.len() {
        let j = find_child(t.children, path[from], 0);
        lemma_find_child_range(t.children, path[from], 0);
        if j < t.children.len() {
            let c = t.children[j];
            if c.kind is Group {
                lemma_scout_range(c, path, from + 1, anchor, depth);
            } else {
                lemma_scout_range(c, path, from + 1, c, from + 1);
            }
        }
    }
}

/// Placing an entry keeps a sound tree sound.
pub proof fn lemma_place_sound(t: TreeView, c: ClassifiedView, dir: Seq<SegmentView>)
    requires
        sound(t),
        t.kind == top_kind(dir),
    ensures
        sound(place(t, c, dir)),
        place(t, c, dir).kind == t.kind,
{
    if placed(c, dir) {
        let way = way_of(t, c, dir);
        let g = graft_of(t, c, dir);
        let from = dir.len() as int;
        assert(nesting_ok(c.segments));
        lemma_scout_range(t, c.segments, from, t, from);
        assert(nesting_ok(way)) by {
            assert forall|i: int| 0 <= i < way.len() - 1 implies !(#[trigger] way[i]).is_catch_all() by {
                assert(way[i] == c.segments[i]);
            }
        }
        if from < way.len() {
            if from > 0 {
                assert(c.segments.subrange(0, from)[from - 1] == dir[from - 1]);
                assert(dir.last() == c.segments[from - 1]);
                assert(!c.segments[from - 1].is_catch_all());
            }
        }
        lemma_graft_sound(t, way, from, g, t, from);
    }
}

/// Placing entries one after another keeps a sound tree sound.
pub proof fn lemma_place_all_sound(
    t: TreeView,
    cs: Seq<ClassifiedView>,
    n: int,
    dir: Seq<SegmentView>,
)
    requires
        sound(t),
        t.kind == top_kind(dir),
    ensures
        sound(place_all(t, cs, n, dir)),
        place_all(t, cs, n, dir).kind == t.kind,
    decreases n,
{
    if 0 < n <= cs.len() {
        lemma_place_all_sound(t, cs, n - 1, dir);
        lemma_place_sound(place_all(t, cs, n - 1, dir), cs[n - 1], dir);
    }
}

/// Every tree that the builder makes is sound: in particular, no node of it
/// that is not shut out has two conflicting segments among its children
/// and those of the groups among them.
pub proof fn lemma_built_tree_sound(cs: Seq<ClassifiedView>, app_dir: bool)
    ensures
        sound(built_tree(cs, app_dir)),
        built_tree(cs, app_dir).kind == root_kind(),
{
    let empty = TreeView::leaf(root_kind());
    assert(calm(empty));
    assert(sound(empty));
    assert(top_kind(Seq::<SegmentView>::empty()) == root_kind());
    lemma_place_all_sound(empty, cs, cs.len() as int, Seq::empty());
    let t = place_all(empty, cs, cs.len() as int, Seq::empty());
    let r = seal(t, app_dir);
    assert(r.children == t.children);
    if !r.blocked {
        lemma_calm_same(t, r);
    }
}

/// Every subtree that the builder makes for a directory is sound and
/// bears the segment of the directory.
pub proof fn lemma_rebuilt_tree_sound(cs: Seq<ClassifiedView>, dir: Seq<SegmentView>, app_dir: bool)
    ensures
        sound(rebuilt_tree(cs, dir, app_dir)),
        rebuilt_tree(cs, dir, app_dir).kind == top_kind(dir),
{
    if dir.len() == 0 {
        lemma_built_tree_sound(cs, app_dir);
    } else {
        let empty = TreeView::leaf(top_kind(dir));
        assert(calm(empty));
        assert(sound(empty));
        lemma_place_all_sound(empty, cs, cs.len() as int, dir);
    }
}

/// A splice that is not held back keeps a sound tree sound: every tree
/// that is published after a sound one, by the splice of a sound subtree
/// or by taking a directory away, is sound.
pub proof fn lemma_splice_sound(t: TreeView, dir: Seq<SegmentView>, g: GraftView)
    requires
        sound(t),
        t.kind == root_kind(),
        nesting_ok(dir),
        !ends_in_group(dir),
        g is Remove || (g matches GraftView::Replace(sub) && sound(sub) && sub.kind == top_kind(
            dir,
        )),
        !checked_conflict(t, dir, g),
    ensures
        sound(graft(t, dir, 0, g)),
        graft(t, dir, 0, g).kind == root_kind(),
{
    lemma_graft_sound(t, dir, 0, g, t, 0);
}

/// Every tree that the versioning layer publishes after a sound tree,
/// from a rebuild whose subtree is sound, is sound: no node of it that is
/// not shut out has two conflicting segments among its children and those
/// of the groups among them.
pub proof fn lemma_published_sound(
    s: StoreView,
    v: VersionsView,
    i: int,
    sub: Option<usize>,
    clean: bool,
)
    requires
        s.wf(),
        v.wf(),
        0 <= i < v.pending.len(),
        sound(s.tree(v.current.root as int)),
        s.tree(v.current.root as int).kind == root_kind(),
        sub matches Some(x) ==> sound(s.tree(x as int)),
        held_back(s, v, i, sub, clean) is None,
    ensures
        sound(graft(s.tree(v.current.root as int), v.pending[i].dir, 0, splice_of(s, sub))),
        graft(s.tree(v.current.root as int), v.pending[i].dir, 0, splice_of(s, sub)).kind
            == root_kind(),
{
    let dir = v.pending[i].dir;
    if sub is Some {
        crate::store::lemma_tree_children(s, sub->0 as int);
    }
    lemma_splice_sound(s.tree(v.current.root as int), dir, splice_of(s, sub));
}

} // verus!
