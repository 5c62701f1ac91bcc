//! A rebuilt subtree spliced into a published tree gives the tree that
//! the builder makes from the whole listing.

use vstd::prelude::*;
use crate::builder::{
    begins, built_errors, built_tree, change_of, checked_conflict, closure_conflict,
    ends_in_group, gone, graft_of, lies_in, nesting_ok, place, place_all, place_error,
    place_errors, placed, rebuilt_errors, rebuilt_tree, root_kind, scout, seal, top_kind, vet,
    way_of,
};
use crate::graft::{
    branch, find_child, graft, graft_conflict, lemma_find_child_range, sibling_conflict,
    GraftView,
};
use crate::laws::{at_way, has_way, lemma_find_child_update};
use crate::loader::ClassifiedView;
use crate::segment::SegmentView;
use crate::sound::{lemma_branch_kind, lemma_scout_range};
use crate::store::{lemma_tree_children, StoreView, TreeView};
use crate::version::{held_back, splice_of, VersionsView};

verus! {

/// Whether `path` begins with the segments of `dir`, one by one.
pub open spec fn follows(dir: Seq<SegmentView>, path: Seq<SegmentView>) -> bool {
    dir.len() <= path.len() && forall|i: int| 0 <= i < dir.len() ==> path[i] == dir[i]
}

/// A path begins with a directory where it follows it.
pub proof fn lemma_begins_follows(dir: Seq<SegmentView>, path: Seq<SegmentView>)
    ensures
        begins(dir, path) == follows(dir, path),
{
    if begins(dir, path) {
        assert forall|i: int| 0 <= i < dir.len() implies path[i] == dir[i] by {
            assert(path.subrange(0, dir.len() as int)[i] == path[i]);
        }
    }
    if follows(dir, path) {
        assert(path.subrange(0, dir.len() as int) =~= dir);
    }
}

/// Putting a subtree in its own place changes nothing.
pub proof fn lemma_replace_self(t: TreeView, d: Seq<SegmentView>, from: int)
    requires
        0 <= from <= d.len(),
        has_way(t, d, from),
    ensures
        graft(t, d, from, GraftView::Replace(at_way(t, d, from))) == t,
    decreases d.len() - from,
{
    if from < d.len() {
        let j = find_child(t.children, d[from], 0);
        lemma_find_child_range(t.children, d[from], 0);
        lemma_replace_self(t.children[j], d, from + 1);
        assert(t.children.update(j, t.children[j]) =~= t.children);
    }
}

/// A subtree that was put in a place is found in that place.
pub proof fn lemma_at_replace(t: TreeView, d: Seq<SegmentView>, from: int, y: TreeView)
    requires
        0 <= from <= d.len(),
        has_way(t, d, from),
        from < d.len() ==> y.kind == d.last(),
    ensures
        has_way(graft(t, d, from, GraftView::Replace(y)), d, from),
        at_way(graft(t, d, from, GraftView::Replace(y)), d, from) == y,
    decreases d.len() - from,
{
    if from < d.len() {
        let j = find_child(t.children, d[from], 0);
        lemma_find_child_range(t.children, d[from], 0);
        let c = t.children[j];
        let c1 = graft(c, d, from + 1, GraftView::Replace(y));
        lemma_at_replace(c, d, from + 1, y);
        if from + 1 == d.len() {
            assert(d.last() == d[from]);
        }
        assert(c1.kind == c.kind);
        lemma_find_child_update(t.children, j, c1, d[from], 0);
        let r = graft(t, d, from, GraftView::Replace(y));
        assert(r.children == t.children.update(j, c1));
        assert(r.children[j] == c1);
    }
}

/// Of two subtrees put in one place after another, the later stands.
pub proof fn lemma_replace_twice(
    t: TreeView,
    d: Seq<SegmentView>,
    from: int,
    y: TreeView,
    z: TreeView,
)
    requires
        0 <= from <= d.len(),
        has_way(t, d, from),
        from < d.len() ==> y.kind == d.last(),
    ensures
        graft(graft(t, d, from, GraftView::Replace(y)), d, from, GraftView::Replace(z)) == graft(
            t,
            d,
            from,
            GraftView::Replace(z),
        ),
    decreases d.len() - from,
{
    if from < d.len() {
        let j = find_child(t.children, d[from], 0);
        lemma_find_child_range(t.children, d[from], 0);
        let c = t.children[j];
        let c1 = graft(c, d, from + 1, GraftView::Replace(y));
        lemma_replace_twice(c, d, from + 1, y, z);
        if from + 1 == d.len() {
            assert(d.last() == d[from]);
        }
        assert(c1.kind == c.kind);
        lemma_find_child_update(t.children, j, c1, d[from], 0);
        let r = graft(t, d, from, GraftView::Replace(y));
        assert(r.children == t.children.update(j, c1));
        assert(r.children[j] == c1);
        let c2 = graft(c, d, from + 1, GraftView::Replace(z));
        assert(t.children.update(j, c1).update(j, c2) =~= t.children.update(j, c2));
    }
}

/// The look-out on a way that passes through a directory that is there
/// finds what it finds from the directory on.
pub proof fn lemma_scout_thru(
    t: TreeView,
    p: Seq<SegmentView>,
    from: int,
    anchor: TreeView,
    depth: int,
    d: Seq<SegmentView>,
)
    requires
        0 <= from < d.len(),
        follows(d, p),
        has_way(t, d, from),
        !ends_in_group(d),
    ensures
        scout(t, p, from, anchor, depth) == scout(
            at_way(t, d, from),
            p,
            d.len() as int,
            at_way(t, d, from),
            d.len() as int,
        ),
    decreases d.len() - from,
{
    let j = find_child(t.children, d[from], 0);
    lemma_find_child_range(t.children, d[from], 0);
    let c = t.children[j];
    assert(p[from] == d[from]);
    if from + 1 == d.len() {
        assert(d.last() == d[from]);
        assert(at_way(c, d, from + 1) == c);
    } else if c.kind is Group {
        lemma_scout_thru(c, p, from + 1, anchor, depth, d);
    } else {
        lemma_scout_thru(c, p, from + 1, c, from + 1, d);
    }
}

/// A change on a way that passes through a directory that is there is the
/// change from the directory on, put in the place of the directory.
pub proof fn lemma_graft_thru(
    t: TreeView,
    p: Seq<SegmentView>,
    from: int,
    g: GraftView,
    d: Seq<SegmentView>,
)
    requires
        0 <= from <= d.len(),
        follows(d, p),
        has_way(t, d, from),
        !(g is Remove),
        !(g is Replace),
    ensures
        graft(t, p, from, g) == graft(
            t,
            d,
            from,
            GraftView::Replace(graft(at_way(t, d, from), p, d.len() as int, g)),
        ),
        graft_conflict(t, p, from, g) == graft_conflict(at_way(t, d, from), p, d.len() as int, g),
    decreases d.len() - from,
{
    if from < d.len() {
        let j = find_child(t.children, d[from], 0);
        lemma_find_child_range(t.children, d[from], 0);
        assert(p[from] == d[from]);
        lemma_graft_thru(t.children[j], p, from + 1, g, d);
    }
}

/// Placing an entry of a directory that is there is placing it in the
/// subtree of the directory, put back in the place of the directory.
pub proof fn lemma_place_thru(t: TreeView, e: ClassifiedView, d: Seq<SegmentView>)
    requires
        d.len() > 0,
        !ends_in_group(d),
        begins(d, e.segments),
        has_way(t, d, 0),
    ensures
        place(t, e, Seq::empty()) == graft(
            t,
            d,
            0,
            GraftView::Replace(place(at_way(t, d, 0), e, d)),
        ),
        place_error(t, e, Seq::empty()) is None <==> place_error(at_way(t, d, 0), e, d) is None,
        place(at_way(t, d, 0), e, d).kind == at_way(t, d, 0).kind,
{
    let none = Seq::<SegmentView>::empty();
    let x = at_way(t, d, 0);
    let k = d.len() as int;
    lemma_begins_follows(d, e.segments);
    assert(e.segments.subrange(0, 0) =~= none);
    assert(begins(none, e.segments));
    if vet(e) is Some {
        lemma_replace_self(t, d, 0);
    } else {
        lemma_scout_thru(t, e.segments, 0, t, 0, d);
        lemma_scout_range(x, e.segments, k, x, k);
        let way = way_of(t, e, none);
        assert(way == way_of(x, e, d));
        let g = graft_of(t, e, none);
        assert(g == graft_of(x, e, d));
        assert(follows(d, way)) by {
            assert forall|i: int| 0 <= i < d.len() implies way[i] == d[i] by {
                assert(way[i] == e.segments[i]);
            }
        }
        lemma_graft_thru(t, way, 0, g, d);
        lemma_graft_thru(t, e.segments, 0, crate::builder::change_of(e), d);
    }
}

/// Whether a segment conflicts with what is matched beside the children
/// does not change when a child gives way to a node of the same segment
/// that, if it is a group, holds the same conflicts.
pub proof fn lemma_closure_update(a: TreeView, b: TreeView, j: int, i: int, k: SegmentView)
    requires
        0 <= j < a.children.len(),
        b.children == a.children.update(j, b.children[j]),
        b.children[j].kind == a.children[j].kind,
        b.children[j].kind is Group ==> closure_conflict(b.children[j], 0, k) == closure_conflict(
            a.children[j],
            0,
            k,
        ),
        0 <= i,
    ensures
        closure_conflict(b, i, k) == closure_conflict(a, i, k),
    decreases a.children.len() - i,
{
    if i < a.children.len() {
        lemma_closure_update(a, b, j, i + 1, k);
        if i != j {
            assert(b.children[i] == a.children[i]);
        }
    }
}

/// What is matched beside the children of a node above a directory does
/// not change when the subtree of the directory is replaced: a directory
/// that ends in no group hides what it holds.
pub proof fn lemma_closure_replace(
    t: TreeView,
    d: Seq<SegmentView>,
    from: int,
    y: TreeView,
    k: SegmentView,
)
    requires
        0 <= from < d.len(),
        has_way(t, d, from),
        y.kind == d.last(),
        !ends_in_group(d),
    ensures
        closure_conflict(graft(t, d, from, GraftView::Replace(y)), 0, k) == closure_conflict(
            t,
            0,
            k,
        ),
    decreases d.len() - from,
{
    let j = find_child(t.children, d[from], 0);
    lemma_find_child_range(t.children, d[from], 0);
    let c = t.children[j];
    let c1 = graft(c, d, from + 1, GraftView::Replace(y));
    let r = graft(t, d, from, GraftView::Replace(y));
    if from + 1 == d.len() {
        assert(d.last() == d[from]);
    } else {
        lemma_closure_replace(c, d, from + 1, y, k);
    }
    assert(c1.kind == c.kind);
    assert(r.children == t.children.update(j, c1));
    assert(r.children[j] == c1);
    lemma_closure_update(t, r, j, 0, k);
}

/// The look-out finds the same with two anchors that hold the same
/// conflicts.
pub proof fn lemma_scout_anchor(
    t: TreeView,
    p: Seq<SegmentView>,
    from: int,
    a1: TreeView,
    a2: TreeView,
    depth: int,
)
    requires
        forall|k: SegmentView| closure_conflict(a1, 0, k) == closure_conflict(a2, 0, k),
    ensures
        scout(t, p, from, a1, depth) == scout(t, p, from, a2, depth),
    decreases p.len() - from,
{
    if 0 <= from < p.len() {
        let j = find_child(t.children, p[from], 0);
        lemma_find_child_range(t.children, p[from], 0);
        if j < t.children.len() {
            let c = t.children[j];
            if c.kind is Group {
                lemma_scout_anchor(c, p, from + 1, a1, a2, depth);
            }
        }
    }
}

/// The look-out on a way that does not enter a directory finds the same
/// whatever the directory holds.
pub proof fn lemma_scout_replace(
    t: TreeView,
    p: Seq<SegmentView>,
    from: int,
    a1: TreeView,
    a2: TreeView,
    depth: int,
    d: Seq<SegmentView>,
    y: TreeView,
)
    requires
        0 <= from < d.len(),
        has_way(t, d, from),
        y.kind == d.last(),
        !ends_in_group(d),
        forall|i: int| 0 <= i < from && i < p.len() ==> p[i] == d[i],
        !follows(d, p),
        forall|k: SegmentView| closure_conflict(a1, 0, k) == closure_conflict(a2, 0, k),
    ensures
        scout(graft(t, d, from, GraftView::Replace(y)), p, from, a1, depth) == scout(
            t,
            p,
            from,
            a2,
            depth,
        ),
    decreases d.len() - from,
{
    let r = graft(t, d, from, GraftView::Replace(y));
    let jd = find_child(t.children, d[from], 0);
    lemma_find_child_range(t.children, d[from], 0);
    let c = t.children[jd];
    let c1 = graft(c, d, from + 1, GraftView::Replace(y));
    if from + 1 == d.len() {
        assert(d.last() == d[from]);
    }
    assert(c1.kind == c.kind);
    assert(r.children == t.children.update(jd, c1));
    assert(r.children[jd] == c1);
    if from < p.len() {
        let jp = find_child(t.children, p[from], 0);
        lemma_find_child_range(t.children, p[from], 0);
        lemma_find_child_update(t.children, jd, c1, p[from], 0);
        if jp < t.children.len() {
            if jp == jd {
                assert(p[from] == d[from]);
                if from + 1 == d.len() {
                    assert(follows(d, p));
                }
                if c.kind is Group {
                    lemma_scout_replace(c, p, from + 1, a1, a2, depth, d, y);
                } else {
                    assert forall|k: SegmentView| closure_conflict(c1, 0, k) == closure_conflict(
                        c,
                        0,
                        k,
                    ) by {
                        lemma_closure_replace(c, d, from + 1, y, k);
                    }
                    lemma_scout_replace(c, p, from + 1, c1, c, from + 1, d, y);
                }
            } else {
                let q = t.children[jp];
                assert(r.children[jp] == q);
                if q.kind is Group {
                    lemma_scout_anchor(q, p, from + 1, a1, a2, depth);
                }
            }
        }
    }
}

/// A child that is found is found where it was after a child is added.
pub proof fn lemma_find_child_push(children: Seq<TreeView>, x: TreeView, k: SegmentView, i: int)
    requires
        0 <= i <= children.len(),
        find_child(children, k, i) < children.len(),
    ensures
        find_child(children.push(x), k, i) == find_child(children, k, i),
    decreases children.len() - i,
{
    if i < children.len() {
        assert(children.push(x)[i] == children[i]);
        if children[i].kind != k {
            lemma_find_child_push(children, x, k, i + 1);
        }
    }
}

/// Whether a segment can stand beside the children does not change when
/// a child gives way to a node of the same segment.
pub proof fn lemma_sibling_update(children: Seq<TreeView>, j: int, x: TreeView, k: SegmentView)
    requires
        0 <= j < children.len(),
        x.kind == children[j].kind,
    ensures
        sibling_conflict(children.update(j, x), k) == sibling_conflict(children, k),
{
    let u = children.update(j, x);
    if sibling_conflict(children, k) {
        let i = choose|i: int|
            0 <= i < children.len() && crate::graft::conflicts((#[trigger] children[i]).kind, k);
        assert(crate::graft::conflicts(u[i].kind, k));
    }
    if sibling_conflict(u, k) {
        let i = choose|i: int| 0 <= i < u.len() && crate::graft::conflicts((#[trigger] u[i]).kind, k);
        assert(crate::graft::conflicts(children[i].kind, k));
    }
}

/// A change on a way that does not enter a directory and the replacement
/// of the directory can be made in either order.
pub proof fn lemma_graft_commute(
    t: TreeView,
    p: Seq<SegmentView>,
    from: int,
    g: GraftView,
    d: Seq<SegmentView>,
    y: TreeView,
)
    requires
        0 <= from < d.len(),
        has_way(t, d, from),
        y.kind == d.last(),
        forall|i: int| 0 <= i < from && i < p.len() ==> p[i] == d[i],
        !follows(d, p),
        g is Touch || g is Bind || g is Block,
    ensures
        graft(graft(t, d, from, GraftView::Replace(y)), p, from, g) == graft(
            graft(t, p, from, g),
            d,
            from,
            GraftView::Replace(y),
        ),
        has_way(graft(t, p, from, g), d, from),
        graft_conflict(graft(t, d, from, GraftView::Replace(y)), p, from, g) == graft_conflict(
            t,
            p,
            from,
            g,
        ),
    decreases d.len() - from,
{
    let ry = GraftView::Replace(y);
    let t1 = graft(t, d, from, ry);
    let t2 = graft(t, p, from, g);
    let jd = find_child(t.children, d[from], 0);
    lemma_find_child_range(t.children, d[from], 0);
    let c = t.children[jd];
    let c1 = graft(c, d, from + 1, ry);
    if from + 1 == d.len() {
        assert(d.last() == d[from]);
    }
    assert(c1.kind == c.kind);
    assert(t1.children == t.children.update(jd, c1));
    assert(t1.children[jd] == c1);
    if from >= p.len() {
        assert(t2.children == t.children);
        assert(graft(t2, d, from, ry).children == t2.children.update(jd, c1));
    } else {
        let jp = find_child(t.children, p[from], 0);
        lemma_find_child_range(t.children, p[from], 0);
        lemma_find_child_update(t.children, jd, c1, p[from], 0);
        if jp < t.children.len() {
            if jp == jd {
                assert(p[from] == d[from]);
                if from + 1 == d.len() {
                    assert(follows(d, p));
                }
                lemma_graft_commute(c, p, from + 1, g, d, y);
                let cp = graft(c, p, from + 1, g);
                assert(cp.kind == c.kind);
                assert(t2.children == t.children.update(jd, cp));
                assert(t2.children[jd] == cp);
                lemma_find_child_update(t.children, jd, cp, d[from], 0);
                let x = graft(c1, p, from + 1, g);
                assert(t.children.update(jd, c1).update(jd, x) =~= t.children.update(jd, cp).update(
                    jd,
                    x,
                ));
            } else {
                let q = t.children[jp];
                let x = graft(q, p, from + 1, g);
                assert(t1.children[jp] == q);
                assert(x.kind == q.kind);
                assert(t2.children == t.children.update(jp, x));
                lemma_find_child_update(t.children, jp, x, d[from], 0);
                assert(t2.children[jd] == c);
                assert(t.children.update(jd, c1).update(jp, x) =~= t.children.update(jp, x).update(
                    jd,
                    c1,
                ));
            }
        } else if g is Block {
        } else {
            lemma_sibling_update(t.children, jd, c1, p[from]);
            if sibling_conflict(t.children, p[from]) {
                assert(t2.children == t.children);
            } else {
                let b = branch(p, from, g);
                assert(t2.children == t.children.push(b));
                lemma_find_child_push(t.children, b, d[from], 0);
                assert(t2.children[jd] == c);
                assert(t.children.update(jd, c1).push(b) =~= t.children.push(b).update(jd, c1));
            }
        }
    }
}

/// Placing an entry that lies outside a directory and the replacement of
/// the directory can be made in either order.
pub proof fn lemma_place_commute(t: TreeView, e: ClassifiedView, d: Seq<SegmentView>, y: TreeView)
    requires
        d.len() > 0,
        !ends_in_group(d),
        has_way(t, d, 0),
        y.kind == d.last(),
        !begins(d, e.segments),
    ensures
        place(graft(t, d, 0, GraftView::Replace(y)), e, Seq::empty()) == graft(
            place(t, e, Seq::empty()),
            d,
            0,
            GraftView::Replace(y),
        ),
        has_way(place(t, e, Seq::empty()), d, 0),
        place_error(graft(t, d, 0, GraftView::Replace(y)), e, Seq::empty()) is None
            <==> place_error(t, e, Seq::empty()) is None,
{
    let none = Seq::<SegmentView>::empty();
    let t1 = graft(t, d, 0, GraftView::Replace(y));
    lemma_begins_follows(d, e.segments);
    if placed(e, none) {
        assert forall|k: SegmentView| closure_conflict(t1, 0, k) == closure_conflict(t, 0, k) by {
            lemma_closure_replace(t, d, 0, y, k);
        }
        lemma_scout_replace(t, e.segments, 0, t1, t, 0, d, y);
        lemma_scout_range(t, e.segments, 0, t, 0);
        let way = way_of(t, e, none);
        let g = graft_of(t, e, none);
        assert(way == way_of(t1, e, none));
        assert(g == graft_of(t1, e, none));
        assert(!follows(d, way)) by {
            if follows(d, way) {
                assert forall|i: int| 0 <= i < d.len() implies e.segments[i] == d[i] by {
                    assert(way[i] == e.segments[i]);
                }
                assert(follows(d, e.segments));
            }
        }
        lemma_graft_commute(t, way, 0, g, d, y);
        lemma_graft_commute(t, e.segments, 0, crate::builder::change_of(e), d, y);
    }
}

/// The node at the end of a way that is there bears the last segment of
/// the way.
pub proof fn lemma_at_way_kind(t: TreeView, d: Seq<SegmentView>, from: int)
    requires
        0 <= from < d.len(),
        has_way(t, d, from),
    ensures
        at_way(t, d, from).kind == d.last(),
    decreases d.len() - from,
{
    let j = find_child(t.children, d[from], 0);
    lemma_find_child_range(t.children, d[from], 0);
    if from + 1 == d.len() {
        assert(at_way(t.children[j], d, from + 1) == t.children[j]);
        assert(d.last() == d[from]);
    } else {
        lemma_at_way_kind(t.children[j], d, from + 1);
    }
}

/// Placing entries depends on the entries placed alone.
pub proof fn lemma_place_all_prefix(
    t: TreeView,
    a: Seq<ClassifiedView>,
    b: Seq<ClassifiedView>,
    n: int,
    dir: Seq<SegmentView>,
)
    requires
        0 <= n <= a.len(),
        n <= b.len(),
        forall|i: int| 0 <= i < n ==> a[i] == b[i],
    ensures
        place_all(t, a, n, dir) == place_all(t, b, n, dir),
    decreases n,
{
    if n > 0 {
        lemma_place_all_prefix(t, a, b, n - 1, dir);
    }
}

/// Placing entries up to an index and then the rest is placing them all.
pub proof fn lemma_place_all_split(
    t: TreeView,
    cs: Seq<ClassifiedView>,
    a: int,
    n: int,
    dir: Seq<SegmentView>,
)
    requires
        0 <= a <= n <= cs.len(),
    ensures
        place_all(t, cs, n, dir) == place_all(
            place_all(t, cs, a, dir),
            cs.skip(a),
            n - a,
            dir,
        ),
    decreases n,
{
    if n > a {
        lemma_place_all_split(t, cs, a, n - 1, dir);
        assert(cs.skip(a)[n - a - 1] == cs[n - 1]);
    }
}

/// Entries that lie outside a directory leave its subtree as it is.
pub proof fn lemma_place_all_idle(t: TreeView, cs: Seq<ClassifiedView>, n: int, d: Seq<SegmentView>)
    requires
        0 <= n <= cs.len(),
        forall|i: int| 0 <= i < n ==> !begins(d, (#[trigger] cs[i]).segments),
    ensures
        place_all(t, cs, n, d) == t,
    decreases n,
{
    if n > 0 {
        lemma_place_all_idle(t, cs, n - 1, d);
    }
}

/// Those of the entries `cs[a..n]` that lie outside the directory `d`, in
/// order.
pub open spec fn outer(cs: Seq<ClassifiedView>, d: Seq<SegmentView>, a: int, n: int) -> Seq<
    ClassifiedView,
>
    decreases n,
{
    if n <= 0 || n <= a || n > cs.len() {
        Seq::empty()
    } else {
        let front = outer(cs, d, a, n - 1);
        if begins(d, cs[n - 1].segments) {
            front
        } else {
            front.push(cs[n - 1])
        }
    }
}

/// The tree after the entries `cs[..n]`, once the directory `d` is there,
/// falls into two parts that do not depend on each other: the subtree of
/// the directory is what the entries of the directory make of it, and the
/// rest, with any subtree `y` in the place of the directory, is what the
/// entries outside the directory make of it.
pub proof fn lemma_two_parts(
    cs: Seq<ClassifiedView>,
    d: Seq<SegmentView>,
    a: int,
    n: int,
    y: TreeView,
)
    requires
        d.len() > 0,
        !ends_in_group(d),
        0 <= a <= n <= cs.len(),
        has_way(place_all(TreeView::leaf(root_kind()), cs, a, Seq::empty()), d, 0),
        y.kind == d.last(),
    ensures
        has_way(place_all(TreeView::leaf(root_kind()), cs, n, Seq::empty()), d, 0),
        at_way(place_all(TreeView::leaf(root_kind()), cs, n, Seq::empty()), d, 0) == place_all(
            at_way(place_all(TreeView::leaf(root_kind()), cs, a, Seq::empty()), d, 0),
            cs.skip(a),
            n - a,
            d,
        ),
        graft(
            place_all(TreeView::leaf(root_kind()), cs, n, Seq::empty()),
            d,
            0,
            GraftView::Replace(y),
        ) == place_all(
            graft(
                place_all(TreeView::leaf(root_kind()), cs, a, Seq::empty()),
                d,
                0,
                GraftView::Replace(y),
            ),
            outer(cs, d, a, n),
            outer(cs, d, a, n).len() as int,
            Seq::empty(),
        ),
    decreases n,
{
    let none = Seq::<SegmentView>::empty();
    let t0 = TreeView::leaf(root_kind());
    let ry = GraftView::Replace(y);
    if n > a {
        lemma_two_parts(cs, d, a, n - 1, y);
        let e = cs[n - 1];
        let f = place_all(t0, cs, n - 1, none);
        let x = at_way(f, d, 0);
        let start = graft(place_all(t0, cs, a, none), d, 0, ry);
        let front = outer(cs, d, a, n - 1);
        assert(cs.skip(a)[n - a - 1] == e);
        lemma_at_way_kind(f, d, 0);
        if begins(d, e.segments) {
            lemma_place_thru(f, e, d);
            let z = place(x, e, d);
            lemma_at_replace(f, d, 0, z);
            lemma_replace_twice(f, d, 0, z, y);
        } else {
            lemma_place_commute(f, e, d, y);
            lemma_place_commute(f, e, d, x);
            lemma_replace_self(f, d, 0);
            lemma_at_replace(place(f, e, none), d, 0, x);
            let more = front.push(e);
            lemma_place_all_prefix(start, front, more, front.len() as int, none);
            assert(more[front.len() as int] == e);
        }
    }
}

/// The look-out finds nothing on a way that is there.
pub proof fn lemma_scout_way(t: TreeView, d: Seq<SegmentView>, from: int, anchor: TreeView, depth: int)
    requires
        0 <= from <= d.len(),
        has_way(t, d, from),
    ensures
        scout(t, d, from, anchor, depth) is None,
        !graft_conflict(t, d, from, GraftView::Replace(anchor)),
    decreases d.len() - from,
{
    if from < d.len() {
        let j = find_child(t.children, d[from], 0);
        lemma_find_child_range(t.children, d[from], 0);
        let c = t.children[j];
        if c.kind is Group {
            lemma_scout_way(c, d, from + 1, anchor, depth);
        } else {
            lemma_scout_way(c, d, from + 1, c, from + 1);
        }
        lemma_conflict_free(c, d, from + 1, GraftView::Replace(anchor));
    }
}

/// A replacement on a way that is there runs into no conflict.
pub proof fn lemma_conflict_free(t: TreeView, d: Seq<SegmentView>, from: int, g: GraftView)
    requires
        0 <= from <= d.len(),
        has_way(t, d, from),
        g is Replace,
    ensures
        !graft_conflict(t, d, from, g),
    decreases d.len() - from,
{
    if from < d.len() {
        let j = find_child(t.children, d[from], 0);
        lemma_find_child_range(t.children, d[from], 0);
        lemma_conflict_free(t.children[j], d, from + 1, g);
    }
}

/// Whether two listings differ only in the directory `d`, whose own entry
/// is entry `at` of both: they agree up to that entry, which is the first
/// that lies in the directory, and after it they hold the same entries
/// outside the directory, in the same order.
pub open spec fn differ_in(
    old: Seq<ClassifiedView>,
    new: Seq<ClassifiedView>,
    d: Seq<SegmentView>,
    at: int,
) -> bool {
    &&& 0 <= at < old.len()
    &&& at < new.len()
    &&& forall|i: int| 0 <= i <= at ==> old[i] == new[i]
    &&& forall|i: int| 0 <= i < at ==> !begins(d, (#[trigger] new[i]).segments)
    &&& new[at].segments == d
    &&& new[at].role is None
    &&& outer(old, d, at + 1, old.len() as int) == outer(new, d, at + 1, new.len() as int)
}

/// Whether the directory `d` is there, and empty, once the entries
/// `cs[..=at]` are placed.
pub open spec fn made_at(cs: Seq<ClassifiedView>, d: Seq<SegmentView>, at: int) -> bool {
    let t = place_all(TreeView::leaf(root_kind()), cs, at + 1, Seq::empty());
    has_way(t, d, 0) && at_way(t, d, 0) == TreeView::leaf(top_kind(d))
}

/// Shutting the tree out for want of a root layout and replacing a
/// directory below the root can be done in either order.
pub proof fn lemma_seal_graft(t: TreeView, d: Seq<SegmentView>, y: TreeView, app_dir: bool)
    requires
        d.len() > 0,
        has_way(t, d, 0),
    ensures
        graft(seal(t, app_dir), d, 0, GraftView::Replace(y)) == seal(
            graft(t, d, 0, GraftView::Replace(y)),
            app_dir,
        ),
        has_way(seal(t, app_dir), d, 0),
{
    let j = find_child(t.children, d[0], 0);
    lemma_find_child_range(t.children, d[0], 0);
    assert(seal(t, app_dir).children == t.children);
}

/// An incremental rebuild gives what a full build gives: where two
/// listings differ only in a directory, the subtree that the builder makes
/// for the directory from the new listing, put in the place of the
/// directory in the tree built from the old listing, gives the tree built
/// from the new listing; and the splice runs into no conflict.
pub proof fn lemma_splice_is_build(
    old: Seq<ClassifiedView>,
    new: Seq<ClassifiedView>,
    d: Seq<SegmentView>,
    at: int,
    app_dir: bool,
)
    requires
        d.len() > 0,
        !ends_in_group(d),
        differ_in(old, new, d, at),
        made_at(new, d, at),
    ensures
        graft(
            built_tree(old, app_dir),
            d,
            0,
            GraftView::Replace(rebuilt_tree(new, d, app_dir)),
        ) == built_tree(new, app_dir),
        !checked_conflict(
            built_tree(old, app_dir),
            d,
            GraftView::Replace(rebuilt_tree(new, d, app_dir)),
        ),
        rebuilt_tree(new, d, app_dir).kind == top_kind(d),
{
    let none = Seq::<SegmentView>::empty();
    let t0 = TreeView::leaf(root_kind());
    let a = at + 1;
    let m = old.len() as int;
    let n = new.len() as int;
    let blank = TreeView::leaf(top_kind(d));
    let t1 = place_all(t0, new, a, none);
    lemma_place_all_prefix(t0, old, new, a, none);
    assert(place_all(t0, old, a, none) == t1);
    lemma_two_parts(new, d, a, n, blank);
    lemma_two_parts(old, d, a, m, blank);
    let f = place_all(t0, new, n, none);
    let e = place_all(t0, old, m, none);
    assert(graft(f, d, 0, GraftView::Replace(blank)) == graft(e, d, 0, GraftView::Replace(blank)));
    // the subtree of the directory in the new tree is the rebuilt subtree
    let sub = rebuilt_tree(new, d, app_dir);
    lemma_place_all_split(blank, new, a, n, d);
    lemma_place_all_idle(blank, new, at, d);
    assert(place_all(blank, new, a, d) == blank) by {
        let entry = new[at];
        assert(place_all(blank, new, a, d) == place(blank, entry, d));
        assert(scout(blank, entry.segments, d.len() as int, blank, d.len() as int) is None);
    }
    assert(at_way(f, d, 0) == sub);
    lemma_at_way_kind(f, d, 0);
    // the new tree is its frame with its own subtree put in
    lemma_replace_self(f, d, 0);
    lemma_replace_twice(f, d, 0, blank, sub);
    lemma_replace_twice(e, d, 0, blank, sub);
    assert(graft(e, d, 0, GraftView::Replace(sub)) == f);
    lemma_seal_graft(e, d, sub, app_dir);
    lemma_scout_way(seal(e, app_dir), d, 0, seal(e, app_dir), 0);
    lemma_conflict_free(seal(e, app_dir), d, 0, GraftView::Replace(sub));
}

/// A fresh branch holds a way only if it was made for it.
pub proof fn lemma_branch_way(
    p: Seq<SegmentView>,
    f: int,
    g: GraftView,
    d: Seq<SegmentView>,
)
    requires
        0 <= f < p.len(),
        forall|i: int| 0 <= i <= f && i < d.len() ==> p[i] == d[i],
        g is Touch || g is Bind || g is Block,
        has_way(branch(p, f, g), d, f + 1),
    ensures
        follows(d, p),
    decreases p.len() - f,
{
    let b = branch(p, f, g);
    if f + 1 < d.len() {
        if f + 1 == p.len() {
            assert(b.children.len() == 0);
        } else {
            let b1 = branch(p, f + 1, g);
            assert(b.children.len() == 1);
            assert(b.children[0] == b1);
            lemma_branch_kind(p, f + 1, g);
            lemma_find_child_range(b.children, d[f + 1], 0);
            lemma_branch_way(p, f + 1, g, d);
        }
    }
}

/// A change on a way that does not enter a directory does not make the
/// directory.
pub proof fn lemma_no_way(
    t: TreeView,
    p: Seq<SegmentView>,
    from: int,
    g: GraftView,
    d: Seq<SegmentView>,
)
    requires
        0 <= from < d.len(),
        forall|i: int| 0 <= i < from && i < p.len() ==> p[i] == d[i],
        !follows(d, p),
        g is Touch || g is Bind || g is Block,
        has_way(graft(t, p, from, g), d, from),
    ensures
        has_way(t, d, from),
    decreases d.len() - from,
{
    let r = graft(t, p, from, g);
    if from >= p.len() {
        assert(r.children == t.children);
    } else {
        let jp = find_child(t.children, p[from], 0);
        lemma_find_child_range(t.children, p[from], 0);
        let jd = find_child(r.children, d[from], 0);
        lemma_find_child_range(r.children, d[from], 0);
        if jp < t.children.len() {
            let q = t.children[jp];
            let x = graft(q, p, from + 1, g);
            assert(x.kind == q.kind);
            assert(r.children == t.children.update(jp, x));
            lemma_find_child_update(t.children, jp, x, d[from], 0);
            if jd == jp {
                assert(r.children[jp] == x);
                assert(p[from] == d[from]);
                if from + 1 == d.len() {
                    assert(follows(d, p));
                }
                lemma_no_way(q, p, from + 1, g, d);
            } else {
                assert(r.children[jd] == t.children[jd]);
            }
        } else if g is Block {
        } else if sibling_conflict(t.children, p[from]) {
            assert(r.children == t.children);
        } else {
            let b = branch(p, from, g);
            assert(r.children == t.children.push(b));
            lemma_find_child_range(t.children, d[from], 0);
            if jd < t.children.len() {
                assert(r.children[jd] == t.children[jd]);
                lemma_find_child_push(t.children, b, d[from], 0);
                if find_child(t.children, d[from], 0) >= t.children.len() {
                    assert(t.children[jd].kind != d[from]);
                }
            } else {
                assert(r.children[jd] == b);
                lemma_branch_kind(p, from, g);
                assert(p[from] == d[from]);
                lemma_branch_way(p, from, g, d);
            }
        }
    }
}

/// The fresh branch that is made for a directory holds it, empty.
pub proof fn lemma_branch_made(d: Seq<SegmentView>, f: int)
    requires
        0 <= f < d.len(),
    ensures
        branch(d, f, GraftView::Touch).kind == d[f],
        has_way(branch(d, f, GraftView::Touch), d, f + 1),
        at_way(branch(d, f, GraftView::Touch), d, f + 1) == TreeView::leaf(d.last()),
    decreases d.len() - f,
{
    let b = branch(d, f, GraftView::Touch);
    if f + 1 == d.len() {
        assert(d.last() == d[f]);
    } else {
        lemma_branch_made(d, f + 1);
        let b1 = branch(d, f + 1, GraftView::Touch);
        assert(b.children.len() == 1);
        assert(b.children[0] == b1);
    }
}

/// Where a directory is not there, making sure of it without a conflict
/// makes it, empty.
pub proof fn lemma_touch_makes(t: TreeView, d: Seq<SegmentView>, from: int)
    requires
        0 <= from <= d.len(),
        !has_way(t, d, from),
        !graft_conflict(t, d, from, GraftView::Touch),
    ensures
        has_way(graft(t, d, from, GraftView::Touch), d, from),
        at_way(graft(t, d, from, GraftView::Touch), d, from) == TreeView::leaf(d.last()),
    decreases d.len() - from,
{
    let r = graft(t, d, from, GraftView::Touch);
    let j = find_child(t.children, d[from], 0);
    lemma_find_child_range(t.children, d[from], 0);
    if j < t.children.len() {
        let c = t.children[j];
        lemma_touch_makes(c, d, from + 1);
        let c1 = graft(c, d, from + 1, GraftView::Touch);
        assert(c1.kind == c.kind);
        lemma_find_child_update(t.children, j, c1, d[from], 0);
        assert(r.children == t.children.update(j, c1));
        assert(r.children[j] == c1);
    } else {
        let b = branch(d, from, GraftView::Touch);
        lemma_branch_made(d, from);
        assert(r.children == t.children.push(b));
        lemma_find_child_range(r.children, d[from], 0);
        let jr = find_child(r.children, d[from], 0);
        assert(r.children[t.children.len() as int] == b);
        if jr < t.children.len() {
            assert(r.children[jr] == t.children[jr]);
        }
        assert(jr == t.children.len());
    }
}

/// Whether every entry is placed without an error when the entries are
/// placed one after another from an empty root.
pub open spec fn flawless(cs: Seq<ClassifiedView>) -> bool {
    forall|i: int|
        0 <= i < cs.len() ==> (#[trigger] place_error(
            place_all(TreeView::leaf(root_kind()), cs, i, Seq::empty()),
            cs[i],
            Seq::empty(),
        )) is None
}

/// No error is reported where no entry is placed with an error, and the
/// other way round.
pub proof fn lemma_no_errors(t: TreeView, cs: Seq<ClassifiedView>, n: int, dir: Seq<SegmentView>)
    requires
        0 <= n <= cs.len(),
    ensures
        place_errors(t, cs, n, dir).len() == 0 <==> (forall|i: int|
            0 <= i < n ==> (#[trigger] place_error(place_all(t, cs, i, dir), cs[i], dir)) is None),
    decreases n,
{
    if n > 0 {
        lemma_no_errors(t, cs, n - 1, dir);
        if place_errors(t, cs, n, dir).len() == 0 {
            assert(place_error(place_all(t, cs, n - 1, dir), cs[n - 1], dir) is None);
        }
    }
}

/// A listing that builds without an error is flawless.
pub proof fn lemma_flawless(cs: Seq<ClassifiedView>, app_dir: bool)
    requires
        built_errors(cs, app_dir).len() == 0,
    ensures
        flawless(cs),
{
    lemma_no_errors(TreeView::leaf(root_kind()), cs, cs.len() as int, Seq::empty());
}

/// A directory is not there before any entry that lies in it is placed.
pub proof fn lemma_not_yet(cs: Seq<ClassifiedView>, d: Seq<SegmentView>, n: int)
    requires
        d.len() > 0,
        0 <= n <= cs.len(),
        forall|i: int| 0 <= i < n ==> !begins(d, (#[trigger] cs[i]).segments),
    ensures
        !has_way(place_all(TreeView::leaf(root_kind()), cs, n, Seq::empty()), d, 0),
    decreases n,
{
    let none = Seq::<SegmentView>::empty();
    let t0 = TreeView::leaf(root_kind());
    if n > 0 {
        lemma_not_yet(cs, d, n - 1);
        let f = place_all(t0, cs, n - 1, none);
        let e = cs[n - 1];
        lemma_begins_follows(d, e.segments);
        if placed(e, none) && has_way(place(f, e, none), d, 0) {
            let way = way_of(f, e, none);
            lemma_scout_range(f, e.segments, 0, f, 0);
            if follows(d, way) {
                assert forall|i: int| 0 <= i < d.len() implies e.segments[i] == d[i] by {
                    assert(way[i] == e.segments[i]);
                }
                assert(follows(d, e.segments));
            }
            lemma_no_way(f, way, 0, graft_of(f, e, none), d);
        }
    } else {
        assert(t0.children.len() == 0);
    }
}

/// In a flawless listing, the own entry of a directory, which is the
/// first to lie in it, makes the directory, empty.
pub proof fn lemma_made_at(cs: Seq<ClassifiedView>, d: Seq<SegmentView>, at: int)
    requires
        d.len() > 0,
        0 <= at < cs.len(),
        forall|i: int| 0 <= i < at ==> !begins(d, (#[trigger] cs[i]).segments),
        cs[at].segments == d,
        cs[at].role is None,
        flawless(cs),
    ensures
        made_at(cs, d, at),
        nesting_ok(d),
{
    let none = Seq::<SegmentView>::empty();
    let t0 = TreeView::leaf(root_kind());
    let f = place_all(t0, cs, at, none);
    let e = cs[at];
    lemma_not_yet(cs, d, at);
    assert(place_error(f, e, none) is None);
    assert(e.segments.subrange(0, 0) =~= none);
    assert(begins(none, e.segments));
    assert(vet(e) is None);
    assert(place(f, e, none) == graft(f, d, 0, GraftView::Touch));
    lemma_touch_makes(f, d, 0);
}

/// Where the listing builds without an error, so does the subtree of the
/// directory.
pub proof fn lemma_sub_flawless(cs: Seq<ClassifiedView>, d: Seq<SegmentView>, at: int, app_dir: bool)
    requires
        d.len() > 0,
        !ends_in_group(d),
        0 <= at < cs.len(),
        forall|i: int| 0 <= i < at ==> !begins(d, (#[trigger] cs[i]).segments),
        cs[at].segments == d,
        cs[at].role is None,
        flawless(cs),
    ensures
        rebuilt_errors(cs, d, app_dir).len() == 0,
        !gone(cs, d),
{
    let none = Seq::<SegmentView>::empty();
    let t0 = TreeView::leaf(root_kind());
    let blank = TreeView::leaf(top_kind(d));
    let a = at + 1;
    let n = cs.len() as int;
    lemma_made_at(cs, d, at);
    assert forall|i: int| 0 <= i < n implies (#[trigger] place_error(
        place_all(blank, cs, i, d),
        cs[i],
        d,
    )) is None by {
        let e = cs[i];
        if i < at {
        } else if i == at {
            lemma_place_all_idle(blank, cs, at, d);
            assert(place_error(place_all(t0, cs, at, none), e, none) is None);
            assert(e.segments.subrange(0, 0) =~= none);
            assert(begins(none, e.segments));
            assert(vet(e) is None);
            assert(scout(blank, d, d.len() as int, blank, d.len() as int) is None);
            assert(!graft_conflict(blank, d, d.len() as int, change_of(e)));
        } else if begins(d, e.segments) {
            let f = place_all(t0, cs, i, none);
            lemma_two_parts(cs, d, a, i, blank);
            lemma_place_thru(f, e, d);
            lemma_place_all_split(blank, cs, a, i, d);
            lemma_place_all_idle(blank, cs, at, d);
            assert(place_all(blank, cs, a, d) == blank) by {
                assert(place_all(blank, cs, a, d) == place(blank, cs[at], d));
                assert(scout(blank, cs[at].segments, d.len() as int, blank, d.len() as int) is None);
            }
            assert(place_error(f, e, none) is None);
        }
    }
    lemma_no_errors(blank, cs, n, d);
    assert(d.subrange(0, d.len() as int) =~= d);
    lemma_lies_in(cs, d, at, n);
}

/// An entry that lies in a directory is among the entries up to any later
/// index.
pub proof fn lemma_lies_in(cs: Seq<ClassifiedView>, d: Seq<SegmentView>, at: int, n: int)
    requires
        0 <= at < n <= cs.len(),
        begins(d, cs[at].segments),
    ensures
        lies_in(cs, d, n),
    decreases n,
{
    if n - 1 > at {
        lemma_lies_in(cs, d, at, n - 1);
    }
}

/// An incremental rebuild gives what a full build gives. Where two
/// listings differ only in a directory and the new one builds without an
/// error, the rebuild of the directory from the new listing reports no
/// error and gives a subtree; that subtree, put in the place of the
/// directory in the tree built from the old listing, gives the tree built
/// from the new listing; and the splice is not held back for a conflict or
/// for the shape of the directory.
pub proof fn lemma_rebuild_is_build(
    old: Seq<ClassifiedView>,
    new: Seq<ClassifiedView>,
    d: Seq<SegmentView>,
    at: int,
    app_dir: bool,
)
    requires
        d.len() > 0,
        !ends_in_group(d),
        differ_in(old, new, d, at),
        built_errors(new, app_dir).len() == 0,
    ensures
        !gone(new, d),
        rebuilt_errors(new, d, app_dir).len() == 0,
        rebuilt_tree(new, d, app_dir).kind == top_kind(d),
        nesting_ok(d),
        !checked_conflict(
            built_tree(old, app_dir),
            d,
            GraftView::Replace(rebuilt_tree(new, d, app_dir)),
        ),
        graft(
            built_tree(old, app_dir),
            d,
            0,
            GraftView::Replace(rebuilt_tree(new, d, app_dir)),
        ) == built_tree(new, app_dir),
{
    lemma_flawless(new, app_dir);
    lemma_made_at(new, d, at);
    lemma_sub_flawless(new, d, at, app_dir);
    lemma_splice_is_build(old, new, d, at, app_dir);
}

/// What the versioning layer publishes is what the builder makes. Where
/// the published tree was built from one listing, a second listing differs
/// from it only in the directory of a rebuild under way and builds
/// without an error, and the rebuild gave the subtree that the builder
/// makes for the directory from the second listing, the rebuild is not
/// held back, and the tree that is published is the tree built from the
/// second listing.
pub proof fn lemma_complete_is_build(
    s: StoreView,
    v: VersionsView,
    i: int,
    x: usize,
    old: Seq<ClassifiedView>,
    new: Seq<ClassifiedView>,
    at: int,
    app_dir: bool,
)
    requires
        s.wf(),
        v.wf(),
        0 <= i < v.pending.len(),
        v.pending[i].dir.len() > 0,
        differ_in(old, new, v.pending[i].dir, at),
        built_errors(new, app_dir).len() == 0,
        v.current.version < u64::MAX,
        s.has_node(v.current.root as int),
        s.tree(v.current.root as int) == built_tree(old, app_dir),
        s.has_node(x as int),
        s.tree(x as int) == rebuilt_tree(new, v.pending[i].dir, app_dir),
    ensures
        held_back(s, v, i, Some(x), true) is None,
        graft(s.tree(v.current.root as int), v.pending[i].dir, 0, splice_of(s, Some(x)))
            == built_tree(new, app_dir),
{
    let d = v.pending[i].dir;
    lemma_rebuild_is_build(old, new, d, at, app_dir);
    lemma_tree_children(s, x as int);
}

/// A rebuild of the root publishes the tree built from the listing.
pub proof fn lemma_complete_root(t: TreeView, new: Seq<ClassifiedView>, app_dir: bool)
    ensures
        graft(
            t,
            Seq::empty(),
            0,
            GraftView::Replace(rebuilt_tree(new, Seq::empty(), app_dir)),
        ) == built_tree(new, app_dir),
        !checked_conflict(
            t,
            Seq::empty(),
            GraftView::Replace(rebuilt_tree(new, Seq::empty(), app_dir)),
        ),
{
}

} // verus!
