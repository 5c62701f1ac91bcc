//! The route tree builder: from classified entries to a tree.
//!
//! Entries are placed one after another. An entry that cannot stand is
//! reported and costs at most the subtree in which it collides: that
//! subtree is shut out of matching, and its siblings build as before.

use vstd::prelude::*;
use crate::bytes::{bytes_eq, copy_bytes, SLASH};
use crate::manifest::{display, shown};
use crate::error::{error_views, ErrorKind, ErrorView, RouteError};
use crate::files::{FileRole, FileView, RoleMap, SourceFile};
use crate::laws::{at_way, has_way};
use crate::graft::{
    conflicts, copy_ids, find_child, find_child_of, graft, graft_at, graft_conflict, kept,
    lemma_clash_resolved, put_node, segments_conflict, trees_of, Graft, GraftView,
};
use crate::loader::{classified_views, ClassifiedNode, ClassifiedView};
use crate::segment::{kind_views, SegmentKind, SegmentView};
use crate::store::{lemma_extends_trans, lemma_tree_children, RouteStore, StoreView, TreeView};

verus! {

/// A published tree: its root in the store, its version, and the
/// fingerprint of the snapshot that it was built from.
#[derive(Debug, Clone, Copy, PartialEq, Eq, Structural)]
pub struct RouteTree {
    pub root: usize,
    pub version: u64,
    pub fingerprint: u64,
}

/// No segment but the last absorbs the rest of a request.
pub open spec fn nesting_ok(path: Seq<SegmentView>) -> bool {
    forall|i: int| 0 <= i < path.len() - 1 ==> !(#[trigger] path[i]).is_catch_all()
}

/// No parameter name is bound twice on the path.
pub open spec fn params_distinct(path: Seq<SegmentView>) -> bool {
    forall|i: int, j: int|
        0 <= i < j < path.len() && (#[trigger] path[i]).binds() && (#[trigger] path[j]).binds()
            ==> path[i].name() != path[j].name()
}

/// What is wrong with an entry by itself, if anything.
pub open spec fn vet(c: ClassifiedView) -> Option<ErrorKind> {
    if !nesting_ok(c.segments) {
        Some(ErrorKind::UnsupportedNesting)
    } else if !params_distinct(c.segments) {
        Some(ErrorKind::ConflictingRoute)
    } else {
        None
    }
}

/// The change that an entry asks for: a file is bound to its role, a
/// directory is made sure to be there.
pub open spec fn change_of(c: ClassifiedView) -> GraftView {
    match c.role {
        Some(role) => GraftView::Bind(
            role,
            FileView { path: c.source, fingerprint: c.fingerprint, meta: c.meta },
        ),
        None => GraftView::Touch,
    }
}

/// Whether `dir` begins the path `path`.
pub open spec fn begins(dir: Seq<SegmentView>, path: Seq<SegmentView>) -> bool {
    dir.len() <= path.len() && path.subrange(0, dir.len() as int) == dir
}

/// Whether the entry `c` is placed at all in a tree that stands for the
/// directory `dir`: it must lie in that directory and be sound by itself.
pub open spec fn placed(c: ClassifiedView, dir: Seq<SegmentView>) -> bool {
    begins(dir, c.segments) && vet(c) is None
}

/// Whether a segment matched beside the children of `a` cannot stand:
/// whether it conflicts with a child from index `i` on, or with a segment
/// that a group among them holds in its place. Groups are transparent to
/// matching, so what they hold is matched beside their siblings.
pub open spec fn closure_conflict(a: TreeView, i: int, k: SegmentView) -> bool
    decreases a, a.children.len() - i,
{
    if i < 0 || i >= a.children.len() {
        false
    } else {
        let c = a.children[i];
        conflicts(c.kind, k) || (c.kind is Group && closure_conflict(c, 0, k)) || closure_conflict(
            a,
            i + 1,
            k,
        )
    }
}

/// The first segment from `from` on that is not a group.
pub open spec fn first_routing(path: Seq<SegmentView>, from: int) -> Option<SegmentView>
    decreases path.len() - from,
{
    if from < 0 || from >= path.len() {
        None
    } else if path[from] is Group {
        first_routing(path, from + 1)
    } else {
        Some(path[from])
    }
}

/// Where the way `path[from..]` would bring a segment into `t` that
/// cannot stand beside those it would be matched with: the depth on the way
/// of the node to shut out, which is the last node on the way that is no
/// group. `anchor` is that node so far, at the depth `depth`.
pub open spec fn scout(
    t: TreeView,
    path: Seq<SegmentView>,
    from: int,
    anchor: TreeView,
    depth: int,
) -> Option<int>
    decreases path.len() - from,
{
    if from < 0 || from >= path.len() {
        None
    } else {
        let j = find_child(t.children, path[from], 0);
        if j < t.children.len() {
            let c = t.children[j];
            if c.kind is Group {
                scout(c, path, from + 1, anchor, depth)
            } else {
                scout(c, path, from + 1, c, from + 1)
            }
        } else {
            match first_routing(path, from) {
                Some(k) => if closure_conflict(anchor, 0, k) {
                    Some(depth)
                } else {
                    None
                },
                None => None,
            }
        }
    }
}

/// The shown path, from the node `a` on, of the first segment matched
/// beside the children of `a` from index `i` on that conflicts with `k`:
/// the groups on the way to it and the segment itself. Empty where there
/// is none.
pub open spec fn rival(a: TreeView, i: int, k: SegmentView) -> Seq<u8>
    decreases a, a.children.len() - i,
{
    if i < 0 || i >= a.children.len() {
        Seq::empty()
    } else {
        let c = a.children[i];
        if conflicts(c.kind, k) {
            seq![SLASH] + c.kind.dir_name()
        } else if c.kind is Group && closure_conflict(c, 0, k) {
            seq![SLASH] + c.kind.dir_name() + rival(c, 0, k)
        } else {
            rival(a, i + 1, k)
        }
    }
}

/// The shown path, from the node to shut out on, of the segment that the
/// look-out found in the way of the segment that `path[from..]` would
/// bring in.
pub open spec fn scout_rival(
    t: TreeView,
    path: Seq<SegmentView>,
    from: int,
    anchor: TreeView,
) -> Seq<u8>
    decreases path.len() - from,
{
    if from < 0 || from >= path.len() {
        Seq::empty()
    } else {
        let j = find_child(t.children, path[from], 0);
        if j < t.children.len() {
            let c = t.children[j];
            if c.kind is Group {
                scout_rival(c, path, from + 1, anchor)
            } else {
                scout_rival(c, path, from + 1, c)
            }
        } else {
            match first_routing(path, from) {
                Some(k) => rival(anchor, 0, k),
                None => Seq::empty(),
            }
        }
    }
}

/// The first `d` segments of a path as they are shown: a slash and the
/// directory name for each.
pub open spec fn shown_front(path: Seq<SegmentView>, d: int) -> Seq<u8> {
    shown(seq![root_kind()] + path, d + 1)
}

/// The path of a file, if there is one.
pub open spec fn path_of(f: Option<FileView>) -> Seq<u8> {
    match f {
        Some(f) => f.path,
        None => Seq::empty(),
    }
}

/// The path of the file that a file bound at the end of `path[from..]`
/// would stand beside as a second servable file: the handler for a page,
/// the page for a handler.
pub open spec fn clash_other(t: TreeView, path: Seq<SegmentView>, from: int, g: GraftView) -> Seq<
    u8,
> {
    match g {
        GraftView::Bind(role, _) => if has_way(t, path, from) {
            let end = at_way(t, path, from);
            if role == FileRole::Page {
                path_of(end.files.handler)
            } else if role == FileRole::Handler {
                path_of(end.files.page)
            } else {
                Seq::empty()
            }
        } else {
            Seq::empty()
        },
        _ => Seq::empty(),
    }
}

/// What a change that runs into a conflict collides with: the shown path
/// of the segment that is in the way of the segment that it would bring
/// in, or the path of the file that is bound already.
pub open spec fn conflict_other(t: TreeView, path: Seq<SegmentView>, from: int, g: GraftView) -> Seq<
    u8,
> {
    if creates(g) && scout(t, path, from, t, from) is Some {
        shown_front(path, scout(t, path, from, t, from)->0) + scout_rival(t, path, from, t)
    } else {
        clash_other(t, path, from, g)
    }
}

/// The depth at which placing `c` shuts a node out, if it does.
pub open spec fn shut_at(t: TreeView, c: ClassifiedView, dir: Seq<SegmentView>) -> Option<int> {
    scout(t, c.segments, dir.len() as int, t, dir.len() as int)
}

/// The way that placing `c` takes in the tree: to the entry, or to the
/// node that it shuts out.
pub open spec fn way_of(t: TreeView, c: ClassifiedView, dir: Seq<SegmentView>) -> Seq<SegmentView> {
    match shut_at(t, c, dir) {
        Some(d) => c.segments.subrange(0, d),
        None => c.segments,
    }
}

/// The change that placing `c` makes at the end of its way.
pub open spec fn graft_of(t: TreeView, c: ClassifiedView, dir: Seq<SegmentView>) -> GraftView {
    match shut_at(t, c, dir) {
        Some(_) => GraftView::Block,
        None => change_of(c),
    }
}

/// The tree `t`, which stands for the directory `dir`, after the entry `c`
/// is placed in it.
pub open spec fn place(t: TreeView, c: ClassifiedView, dir: Seq<SegmentView>) -> TreeView {
    if placed(c, dir) {
        graft(t, way_of(t, c, dir), dir.len() as int, graft_of(t, c, dir))
    } else {
        t
    }
}

/// The error that placing `c` in `t` reports, if it reports one. An entry
/// outside the directory is passed over in silence.
pub open spec fn place_error(t: TreeView, c: ClassifiedView, dir: Seq<SegmentView>) -> Option<
    ErrorView,
> {
    if !begins(dir, c.segments) {
        None
    } else {
        match vet(c) {
            Some(kind) => Some(ErrorView { kind, path: c.source, other: Seq::empty() }),
            None => if shut_at(t, c, dir) is Some || graft_conflict(
                t,
                c.segments,
                dir.len() as int,
                change_of(c),
            ) {
                Some(
                    ErrorView {
                        kind: ErrorKind::ConflictingRoute,
                        path: c.source,
                        other: conflict_other(t, c.segments, dir.len() as int, change_of(c)),
                    },
                )
            } else {
                None
            },
        }
    }
}

/// The tree `t` after the first `n` entries are placed in it, in order.
pub open spec fn place_all(
    t: TreeView,
    cs: Seq<ClassifiedView>,
    n: int,
    dir: Seq<SegmentView>,
) -> TreeView
    decreases n,
{
    if n <= 0 || n > cs.len() {
        t
    } else {
        place(place_all(t, cs, n - 1, dir), cs[n - 1], dir)
    }
}

/// The errors that placing the first `n` entries in `t` reports, in order.
pub open spec fn place_errors(
    t: TreeView,
    cs: Seq<ClassifiedView>,
    n: int,
    dir: Seq<SegmentView>,
) -> Seq<ErrorView>
    decreases n,
{
    if n <= 0 || n > cs.len() {
        Seq::empty()
    } else {
        let front = place_errors(t, cs, n - 1, dir);
        match place_error(place_all(t, cs, n - 1, dir), cs[n - 1], dir) {
            Some(e) => front.push(e),
            None => front,
        }
    }
}

/// The segment of a root.
pub open spec fn root_kind() -> SegmentView {
    SegmentView::Static(Seq::empty())
}

/// Whether a tree lacks the root layout that the nested layout demands.
pub open spec fn lacks_root_layout(t: TreeView, app_dir: bool) -> bool {
    app_dir && t.files.layout is None
}

/// The tree as it is published: shut out of matching as a whole where the
/// nested layout lacks its root layout.
pub open spec fn seal(t: TreeView, app_dir: bool) -> TreeView {
    if lacks_root_layout(t, app_dir) {
        TreeView { blocked: true, ..t }
    } else {
        t
    }
}

/// The path of the root.
pub open spec fn root_path() -> Seq<u8> {
    seq![SLASH]
}

/// The tree built from the entries `cs`.
pub open spec fn built_tree(cs: Seq<ClassifiedView>, app_dir: bool) -> TreeView {
    seal(place_all(TreeView::leaf(root_kind()), cs, cs.len() as int, Seq::empty()), app_dir)
}

/// The errors that building from the entries `cs` reports.
pub open spec fn built_errors(cs: Seq<ClassifiedView>, app_dir: bool) -> Seq<ErrorView> {
    let errors = place_errors(TreeView::leaf(root_kind()), cs, cs.len() as int, Seq::empty());
    if lacks_root_layout(
        place_all(TreeView::leaf(root_kind()), cs, cs.len() as int, Seq::empty()),
        app_dir,
    ) {
        errors.push(ErrorView { kind: ErrorKind::MissingRequiredFile, path: root_path(), other: Seq::empty() })
    } else {
        errors
    }
}

/// Whether no segment but the last absorbs the rest of a request.
pub fn check_nesting(path: &Vec<SegmentKind>) -> (r: bool)
    ensures
        r == nesting_ok(kind_views(path@)),
{
    let ghost pv = kind_views(path@);
    let n: usize = path.len();
    if n == 0 {
        return true;
    }
    let last: usize = n - 1;
    let mut i: usize = 0;
    while i < last
        invariant
            i <= last,
            last == n - 1,
            n == path@.len(),
            pv == kind_views(path@),
            forall|k: int| 0 <= k < i ==> !(#[trigger] pv[k]).is_catch_all(),
        decreases last - i,
    {
        match &path[i] {
            SegmentKind::CatchAll(_) => {
                assert(pv[i as int].is_catch_all());
                return false;
            },
            SegmentKind::OptionalCatchAll(_) => {
                assert(pv[i as int].is_catch_all());
                return false;
            },
            _ => {},
        }
        i += 1;
    }
    true
}

/// Whether the segment binds a parameter.
pub fn binds_param(k: &SegmentKind) -> (r: bool)
    ensures
        r == k@.binds(),
{
    match k {
        SegmentKind::Dynamic(_) => true,
        SegmentKind::CatchAll(_) => true,
        SegmentKind::OptionalCatchAll(_) => true,
        _ => false,
    }
}

/// Whether no parameter name is bound twice on the path.
pub fn check_params(path: &Vec<SegmentKind>) -> (r: bool)
    ensures
        r == params_distinct(kind_views(path@)),
{
    let ghost pv = kind_views(path@);
    let n: usize = path.len();
    let mut j: usize = 0;
    while j < n
        invariant
            j <= n,
            n == path@.len(),
            pv == kind_views(path@),
            forall|a: int, b: int|
                0 <= a < b < j && (#[trigger] pv[a]).binds() && (#[trigger] pv[b]).binds()
                    ==> pv[a].name() != pv[b].name(),
        decreases n - j,
    {
        if binds_param(&path[j]) {
            let mut i: usize = 0;
            while i < j
                invariant
                    i <= j < n,
                    n == path@.len(),
                    pv == kind_views(path@),
                    pv[j as int].binds(),
                    forall|a: int|
                        0 <= a < i && (#[trigger] pv[a]).binds() ==> pv[a].name() != pv[j as int].name(),
                decreases j - i,
            {
                if binds_param(&path[i]) && bytes_eq(
                    path[i].name().as_slice(),
                    path[j].name().as_slice(),
                ) {
                    assert(pv[i as int].binds() && pv[j as int].binds());
                    return false;
                }
                i += 1;
            }
        }
        j += 1;
    }
    true
}

/// Whether `dir` begins the path `path`.
pub fn check_begins(dir: &Vec<SegmentKind>, path: &Vec<SegmentKind>) -> (r: bool)
    ensures
        r == begins(kind_views(dir@), kind_views(path@)),
{
    let ghost dv = kind_views(dir@);
    let ghost pv = kind_views(path@);
    if dir.len() > path.len() {
        return false;
    }
    let mut i: usize = 0;
    while i < dir.len()
        invariant
            i <= dir@.len() <= path@.len(),
            dv == kind_views(dir@),
            pv == kind_views(path@),
            forall|k: int| 0 <= k < i ==> dv[k] == pv[k],
        decreases dir@.len() - i,
    {
        if !dir[i].same(&path[i]) {
            assert(pv.subrange(0, dv.len() as int)[i as int] != dv[i as int]);
            return false;
        }
        i += 1;
    }
    assert(pv.subrange(0, dv.len() as int) =~= dv);
    true
}

/// Whether a segment matched beside the children of the node `id` cannot
/// stand.
pub(crate) fn has_closure_conflict(store: &RouteStore, id: usize, kind: &SegmentKind) -> (r: bool)
    requires
        id < store@.nodes.len(),
    ensures
        r == closure_conflict(store@.tree(id as int), 0, kind@),
    decreases id,
{
    let node = store.node(id);
    proof {
        lemma_tree_children(store@, id as int);
    }
    let ghost t = store@.tree(id as int);
    let n: usize = node.children.len();
    let mut j: usize = 0;
    while j < n
        invariant
            j <= n,
            n == node.children@.len(),
            id < store@.nodes.len(),
            node@ == store@.nodes[id as int],
            store@.wf(),
            t == store@.tree(id as int),
            t.children.len() == n,
            forall|k: int|
                0 <= k < n ==> #[trigger] t.children[k] == store@.tree(node.children@[k] as int),
            closure_conflict(t, 0, kind@) == closure_conflict(t, j as int, kind@),
        decreases n - j,
    {
        let c: usize = node.children[j];
        assert(c < id);
        assert(t.children[j as int] == store@.tree(c as int));
        proof {
            lemma_tree_children(store@, c as int);
        }
        let child = store.node(c);
        if segments_conflict(&child.kind, kind) {
            return true;
        }
        let inside = match &child.kind {
            SegmentKind::Group(_) => has_closure_conflict(store, c, kind),
            _ => false,
        };
        if inside {
            return true;
        }
        j += 1;
    }
    false
}

/// The index of the first segment from `from` on that is not a group.
pub fn next_routing(path: &Vec<SegmentKind>, from: usize) -> (r: Option<usize>)
    ensures
        match first_routing(kind_views(path@), from as int) {
            Some(k) => r matches Some(i) && from <= i < path@.len() && path@[i as int]@ == k,
            None => r is None,
        },
{
    let ghost pv = kind_views(path@);
    let mut i: usize = from;
    while i < path.len()
        invariant
            from <= i,
            pv == kind_views(path@),
            first_routing(pv, from as int) == first_routing(pv, i as int),
        decreases path@.len() - i,
    {
        match &path[i] {
            SegmentKind::Group(_) => {},
            _ => {
                return Some(i);
            },
        }
        i += 1;
    }
    None
}

/// Writes the shown path of the first segment matched beside the children
/// of the node `id` that conflicts with `kind`, and says whether there is
/// one.
pub(crate) fn write_rival(store: &RouteStore, id: usize, kind: &SegmentKind, out: &mut Vec<u8>) -> (r:
    bool)
    requires
        id < store@.nodes.len(),
    ensures
        r == closure_conflict(store@.tree(id as int), 0, kind@),
        final(out)@ == old(out)@ + rival(store@.tree(id as int), 0, kind@),
    decreases id,
{
    let node = store.node(id);
    proof {
        lemma_tree_children(store@, id as int);
    }
    let ghost t = store@.tree(id as int);
    let ghost start = out@;
    let n: usize = node.children.len();
    let mut j: usize = 0;
    while j < n
        invariant
            j <= n,
            n == node.children@.len(),
            id < store@.nodes.len(),
            node@ == store@.nodes[id as int],
            store@.wf(),
            t == store@.tree(id as int),
            t.children.len() == n,
            out@ == start,
            start == old(out)@,
            forall|k: int|
                0 <= k < n ==> #[trigger] t.children[k] == store@.tree(node.children@[k] as int),
            closure_conflict(t, 0, kind@) == closure_conflict(t, j as int, kind@),
            rival(t, 0, kind@) == rival(t, j as int, kind@),
        decreases n - j,
    {
        let c: usize = node.children[j];
        assert(c < id);
        assert(t.children[j as int] == store@.tree(c as int));
        proof {
            lemma_tree_children(store@, c as int);
        }
        let child = store.node(c);
        assert(t.children[j as int].kind == child.kind@);
        if segments_conflict(&child.kind, kind) {
            out.push(SLASH);
            child.kind.write_dir_name(out);
            assert(rival(t, j as int, kind@) == seq![SLASH] + child.kind@.dir_name());
            assert(out@ =~= start + (seq![SLASH] + child.kind@.dir_name()));
            return true;
        }
        let inside = match &child.kind {
            SegmentKind::Group(_) => has_closure_conflict(store, c, kind),
            _ => false,
        };
        if inside {
            out.push(SLASH);
            child.kind.write_dir_name(out);
            write_rival(store, c, kind, out);
            assert(rival(t, j as int, kind@) == seq![SLASH] + child.kind@.dir_name() + rival(
                store@.tree(c as int),
                0,
                kind@,
            ));
            assert(out@ =~= start + (seq![SLASH] + child.kind@.dir_name() + rival(
                store@.tree(c as int),
                0,
                kind@,
            )));
            return true;
        }
        j += 1;
    }
    assert(out@ =~= start + Seq::<u8>::empty());
    false
}

/// Looks where the way `path[from..]` would bring a segment into the tree
/// of the node `root` that cannot stand there, and gives the depth of the
/// node to shut out and the shown path, from that node on, of the segment
/// that is in the way.
pub(crate) fn scout_way(store: &RouteStore, root: usize, path: &Vec<SegmentKind>, from: usize) -> (r:
    Option<(usize, Vec<u8>)>)
    requires
        root < store@.nodes.len(),
    ensures
        match scout(
            store@.tree(root as int),
            kind_views(path@),
            from as int,
            store@.tree(root as int),
            from as int,
        ) {
            Some(d) => r matches Some((x, rv)) && x == d && from <= x <= path@.len() && rv@
                == scout_rival(
                store@.tree(root as int),
                kind_views(path@),
                from as int,
                store@.tree(root as int),
            ),
            None => r is None,
        },
{
    store.use_wf();
    let ghost s = store@;
    let ghost pv = kind_views(path@);
    let ghost total = scout(s.tree(root as int), pv, from as int, s.tree(root as int), from as int);
    let ghost whole = scout_rival(s.tree(root as int), pv, from as int, s.tree(root as int));
    let n: usize = path.len();
    let mut cur: usize = root;
    let mut anchor: usize = root;
    let mut depth: usize = from;
    let mut k: usize = from;
    while k < n
        invariant
            s == store@,
            s.wf(),
            pv == kind_views(path@),
            n == path@.len(),
            cur < s.nodes.len(),
            anchor < s.nodes.len(),
            from <= depth <= k,
            total == scout(s.tree(root as int), pv, from as int, s.tree(root as int), from as int),
            total == scout(s.tree(cur as int), pv, k as int, s.tree(anchor as int), depth as int),
            whole == scout_rival(s.tree(root as int), pv, from as int, s.tree(root as int)),
            whole == scout_rival(s.tree(cur as int), pv, k as int, s.tree(anchor as int)),
        decreases n - k,
    {
        let j = find_child_of(store, cur, &path[k]);
        let node = store.node(cur);
        proof {
            lemma_tree_children(s, cur as int);
        }
        if j < node.children.len() {
            let c: usize = node.children[j];
            assert(c < cur);
            assert(s.tree(cur as int).children[j as int] == s.tree(c as int));
            proof {
                lemma_tree_children(s, c as int);
            }
            match &store.node(c).kind {
                SegmentKind::Group(_) => {},
                _ => {
                    anchor = c;
                    depth = k + 1;
                },
            }
            cur = c;
            k += 1;
        } else {
            let mut rv: Vec<u8> = Vec::new();
            let hit = match next_routing(path, k) {
                Some(i) => write_rival(store, anchor, &path[i], &mut rv),
                None => false,
            };
            assert(hit ==> rv@ =~= whole);
            return if hit {
                Some((depth, rv))
            } else {
                None
            };
        }
    }
    None
}

/// Appends the first `d` segments of a path as they are shown.
pub(crate) fn write_front(path: &Vec<SegmentKind>, d: usize, out: &mut Vec<u8>)
    requires
        d <= path@.len(),
    ensures
        final(out)@ == old(out)@ + shown_front(kind_views(path@), d as int),
{
    let ghost start = out@;
    let ghost pv = kind_views(path@);
    let ghost ks = seq![root_kind()] + pv;
    let mut i: usize = 0;
    assert(out@ =~= start + shown(ks, 1));
    while i < d
        invariant
            i <= d <= path@.len(),
            pv == kind_views(path@),
            ks == seq![root_kind()] + pv,
            out@ == start + shown(ks, i + 1),
        decreases d - i,
    {
        let ghost before = out@;
        out.push(SLASH);
        path[i].write_dir_name(out);
        assert(ks[i + 1] == pv[i as int]);
        assert(out@ =~= start + (shown(ks, i + 1) + seq![SLASH] + ks[i + 1].dir_name()));
        i += 1;
    }
}

/// The path of the file that a file bound at the end of `path[from..]`
/// below the node `id` would stand beside as a second servable file.
pub(crate) fn clash_path(store: &RouteStore, id: usize, path: &Vec<SegmentKind>, from: usize, g: Graft)
    -> (r: Vec<u8>)
    requires
        id < store@.nodes.len(),
        from <= path@.len(),
        g.fits(store@),
    ensures
        r@ == clash_other(store@.tree(id as int), kind_views(path@), from as int, g.view_in(store@)),
{
    store.use_wf();
    let ghost s = store@;
    let ghost pv = kind_views(path@);
    let ghost t0 = s.tree(id as int);
    let role = match g {
        Graft::Bind(role, _) => role,
        _ => {
            return Vec::new();
        },
    };
    let n: usize = path.len();
    let mut cur: usize = id;
    let mut k: usize = from;
    while k < n
        invariant
            s == store@,
            s.wf(),
            pv == kind_views(path@),
            n == path@.len(),
            from <= k <= n,
            cur < s.nodes.len(),
            id < s.nodes.len(),
            t0 == s.tree(id as int),
            g == Graft::Bind(role, g->Bind_1),
            g.fits(s),
            has_way(t0, pv, from as int) == has_way(s.tree(cur as int), pv, k as int),
            has_way(t0, pv, from as int) ==> at_way(t0, pv, from as int) == at_way(
                s.tree(cur as int),
                pv,
                k as int,
            ),
        decreases n - k,
    {
        let j = find_child_of(store, cur, &path[k]);
        let node = store.node(cur);
        proof {
            lemma_tree_children(s, cur as int);
        }
        assert(pv[k as int] == path@[k as int]@);
        if j >= node.children.len() {
            assert(!has_way(s.tree(cur as int), pv, k as int));
            return Vec::new();
        }
        let c: usize = node.children[j];
        assert(c < cur);
        assert(s.tree(cur as int).children[j as int] == s.tree(c as int));
        cur = c;
        k += 1;
    }
    let node = store.node(cur);
    proof {
        lemma_tree_children(s, cur as int);
        assert(node.files.get(FileRole::Page) == node.files.page);
        assert(node.files.get(FileRole::Handler) == node.files.handler);
    }
    let held = match role {
        FileRole::Page => node.files.handler,
        FileRole::Handler => node.files.page,
        _ => None,
    };
    match held {
        Some(f) => copy_bytes(store.file(f).path.as_slice()),
        None => Vec::new(),
    }
}

/// A fresh copy of the first `n` segments of a path.
pub(crate) fn copy_front(path: &Vec<SegmentKind>, n: usize) -> (r: Vec<SegmentKind>)
    requires
        n <= path@.len(),
    ensures
        kind_views(r@) == kind_views(path@).subrange(0, n as int),
{
    let mut out: Vec<SegmentKind> = Vec::new();
    let mut i: usize = 0;
    assert(kind_views(out@) =~= kind_views(path@).subrange(0, 0));
    while i < n
        invariant
            i <= n <= path@.len(),
            kind_views(out@) == kind_views(path@).subrange(0, i as int),
        decreases n - i,
    {
        let ghost before = kind_views(out@);
        let k = path[i].duplicate();
        out.push(k);
        assert(kind_views(out@) =~= before.push(kind_views(path@)[i as int]));
        assert(kind_views(out@) =~= kind_views(path@).subrange(0, i + 1));
        i += 1;
    }
    out
}

/// Places one entry in the tree of the node `root`, which stands for the
/// directory `dir`. Returns the root of the tree with the entry placed,
/// and the error if the entry cannot stand.
pub(crate) fn place_node(store: &mut RouteStore, root: usize, c: &ClassifiedNode, dir: &Vec<SegmentKind>)
    -> (r: (usize, Option<RouteError>))
    requires
        root < old(store)@.nodes.len(),
    ensures
        final(store)@.wf(),
        final(store)@.extends(old(store)@),
        r.0 < final(store)@.nodes.len(),
        final(store)@.tree(r.0 as int) == place(
            old(store)@.tree(root as int),
            c@,
            kind_views(dir@),
        ),
        match place_error(old(store)@.tree(root as int), c@, kind_views(dir@)) {
            Some(e) => r.1 matches Some(x) && x@ == e,
            None => r.1 is None,
        },
        !placed(c@, kind_views(dir@)) ==> r.0 == root,
        placed(c@, kind_views(dir@)) ==> kept(
            old(store)@,
            root as int,
            final(store)@,
            r.0 as int,
            way_of(old(store)@.tree(root as int), c@, kind_views(dir@)),
            dir@.len() as int,
            graft_of(old(store)@.tree(root as int), c@, kind_views(dir@)),
        ),
{
    store.use_wf();
    if !check_begins(dir, &c.segments) {
        return (root, None);
    }
    if !check_nesting(&c.segments) {
        return (root, Some(RouteError::UnsupportedNesting { path: copy_bytes(c.source.as_slice()) }));
    }
    if !check_params(&c.segments) {
        return (
            root,
            Some(
                RouteError::ConflictingRoute {
                    path: copy_bytes(c.source.as_slice()),
                    other: Vec::new(),
                },
            ),
        );
    }
    let ghost s0 = store@;
    match scout_way(store, root, &c.segments, dir.len()) {
        Some((d, rv)) => {
            let front = copy_front(&c.segments, d);
            let mut other: Vec<u8> = Vec::new();
            write_front(&c.segments, d, &mut other);
            crate::bytes::append_bytes(&mut other, rv.as_slice());
            let (id, _) = graft_at(store, root, &front, dir.len(), Graft::Block);
            return (
                id,
                Some(
                    RouteError::ConflictingRoute { path: copy_bytes(c.source.as_slice()), other },
                ),
            );
        },
        None => {},
    }
    let g = match c.role {
        Some(role) => {
            let f = store.add_file(
                SourceFile {
                    path: copy_bytes(c.source.as_slice()),
                    fingerprint: c.fingerprint,
                    meta: c.meta,
                },
            );
            Graft::Bind(role, f)
        },
        None => Graft::Touch,
    };
    let ghost s1 = store@;
    proof {
        crate::store::lemma_tree_kept(s0, s1, root as int);
        assert(g.view_in(s1) == change_of(c@));
    }
    let (id, conflict) = graft_at(store, root, &c.segments, dir.len(), g);
    proof {
        lemma_extends_trans(s0, s1, store@);
        lemma_kept_from(
            s0,
            s1,
            store@,
            root as int,
            id as int,
            c@.segments,
            dir@.len() as int,
            change_of(c@),
        );
    }
    if conflict {
        proof {
            crate::store::lemma_tree_kept(s1, store@, root as int);
        }
        let other = clash_path(store, root, &c.segments, dir.len(), g);
        (id, Some(RouteError::ConflictingRoute { path: copy_bytes(c.source.as_slice()), other }))
    } else {
        (id, None)
    }
}

/// What `kept` says against a store, it says against a store that the
/// store grew from.
pub proof fn lemma_kept_from(
    s0: StoreView,
    s1: StoreView,
    s2: StoreView,
    a: int,
    b: int,
    path: Seq<SegmentView>,
    from: int,
    g: GraftView,
)
    requires
        s0.wf(),
        s1.extends(s0),
        s0.has_node(a),
        kept(s1, a, s2, b, path, from, g),
    ensures
        kept(s0, a, s2, b, path, from, g),
    decreases path.len() - from,
{
    if a == b || !s2.has_node(b) {
    } else {
        assert(s1.nodes[a] == s0.nodes[a]);
        crate::store::lemma_tree_kept(s0, s1, a);
        let ca = s0.nodes[a].children;
        if 0 <= from < path.len() {
            let j = crate::graft::find_child(s0.tree(a).children, path[from], 0);
            crate::graft::lemma_find_child_range(s0.tree(a).children, path[from], 0);
            lemma_tree_children(s0, a);
            if j < ca.len() && from + 1 == path.len() && g is Remove {
            } else if j < ca.len() {
                assert(s0.nodes[a].children[j] < a);
                lemma_kept_from(
                    s0,
                    s1,
                    s2,
                    ca[j] as int,
                    s2.nodes[b].children[j] as int,
                    path,
                    from + 1,
                    g,
                );
            }
        }
    }
}

/// What building gives: the tree, and the errors of the entries and
/// subtrees that are left out of it.
#[derive(Debug, Clone, PartialEq, Eq)]
pub struct BuildOutput {
    pub tree: RouteTree,
    pub errors: Vec<RouteError>,
}

/// Stores an empty root.
pub fn new_root(store: &mut RouteStore) -> (id: usize)
    ensures
        final(store)@.wf(),
        final(store)@.extends(old(store)@),
        id < final(store)@.nodes.len(),
        final(store)@.tree(id as int) == TreeView::leaf(root_kind()),
{
    store.use_wf();
    let ghost s0 = store@;
    let empty: RoleMap<usize> = RoleMap::new();
    proof {
        lemma_clash_resolved(empty, s0.files, FileRole::Page);
    }
    let id = put_node(store, SegmentKind::Static(Vec::new()), Vec::new(), empty, false);
    assert(trees_of(s0, Seq::<usize>::empty()) =~= Seq::<TreeView>::empty());
    id
}

/// Builds a tree from classified entries and stores it. The tree holds
/// every entry that could be placed; the errors name the others. In the
/// nested layout a tree without a root layout is reported and shut out of
/// matching as a whole.
pub fn build(
    store: &mut RouteStore,
    nodes: &Vec<ClassifiedNode>,
    app_dir: bool,
    version: u64,
    fingerprint: u64,
) -> (r: BuildOutput)
    ensures
        final(store)@.wf(),
        final(store)@.extends(old(store)@),
        r.tree.root < final(store)@.nodes.len(),
        r.tree.version == version,
        r.tree.fingerprint == fingerprint,
        final(store)@.tree(r.tree.root as int) == built_tree(classified_views(nodes@), app_dir),
        error_views(r.errors@) == built_errors(classified_views(nodes@), app_dir),
{
    let ghost s0 = store@;
    let ghost cs = classified_views(nodes@);
    let ghost empty = TreeView::leaf(root_kind());
    let mut root = new_root(store);
    let mut errors: Vec<RouteError> = Vec::new();
    let dir: Vec<SegmentKind> = Vec::new();
    assert(kind_views(dir@) =~= Seq::<SegmentView>::empty());
    let mut i: usize = 0;
    assert(error_views(errors@) =~= Seq::<ErrorView>::empty());
    while i < nodes.len()
        invariant
            i <= nodes@.len(),
            cs == classified_views(nodes@),
            empty == TreeView::leaf(root_kind()),
            store@.wf(),
            store@.extends(s0),
            root < store@.nodes.len(),
            dir@.len() == 0,
            kind_views(dir@) == Seq::<SegmentView>::empty(),
            store@.tree(root as int) == place_all(empty, cs, i as int, Seq::empty()),
            error_views(errors@) == place_errors(empty, cs, i as int, Seq::empty()),
        decreases nodes@.len() - i,
    {
        let ghost s1 = store@;
        let ghost es = error_views(errors@);
        let (next, error) = place_node(store, root, &nodes[i], &dir);
        proof {
            lemma_extends_trans(s0, s1, store@);
        }
        root = next;
        match error {
            Some(e) => {
                let ghost ev = e@;
                errors.push(e);
                assert(error_views(errors@) =~= es.push(ev));
            },
            None => {},
        }
        i += 1;
    }
    let ghost s2 = store@;
    let node = store.node(root);
    proof {
        lemma_tree_children(s2, root as int);
        assert(node.files.get(FileRole::Layout) == node.files.layout);
    }
    if app_dir && node.files.layout.is_none() {
        let kind = node.kind.duplicate();
        let children = copy_ids(&node.children);
        let files = node.files;
        let ghost t = s2.tree(root as int);
        assert(trees_of(s2, children@) =~= t.children);
        root = put_node(store, kind, children, files, true);
        let ghost es = error_views(errors@);
        let mut path: Vec<u8> = Vec::new();
        path.push(SLASH);
        assert(path@ =~= root_path());
        let e = RouteError::MissingRequiredFile { path };
        let ghost ev = e@;
        errors.push(e);
        assert(error_views(errors@) =~= es.push(ev));
        proof {
            lemma_extends_trans(s0, s2, store@);
        }
    }
    BuildOutput { tree: RouteTree { root, version, fingerprint }, errors }
}

/// The segment of the node that stands for the directory `dir`: its last
/// segment, or that of a root.
pub open spec fn top_kind(dir: Seq<SegmentView>) -> SegmentView {
    if dir.len() == 0 {
        root_kind()
    } else {
        dir.last()
    }
}

/// Whether one of the first `n` entries lies in the directory `dir`.
pub open spec fn lies_in(cs: Seq<ClassifiedView>, dir: Seq<SegmentView>, n: int) -> bool
    decreases n,
{
    if n <= 0 || n > cs.len() {
        false
    } else {
        begins(dir, cs[n - 1].segments) || lies_in(cs, dir, n - 1)
    }
}

/// Whether the entries `cs` hold nothing of the directory `dir`, which is
/// then gone. The root is never gone.
pub open spec fn gone(cs: Seq<ClassifiedView>, dir: Seq<SegmentView>) -> bool {
    dir.len() > 0 && !lies_in(cs, dir, cs.len() as int)
}

/// The subtree for the directory `dir` built from the entries `cs`: those
/// outside the directory are passed over. For the root it is the whole
/// tree.
pub open spec fn rebuilt_tree(cs: Seq<ClassifiedView>, dir: Seq<SegmentView>, app_dir: bool) -> TreeView {
    if dir.len() == 0 {
        built_tree(cs, app_dir)
    } else {
        place_all(TreeView::leaf(top_kind(dir)), cs, cs.len() as int, dir)
    }
}

/// The errors that building the subtree for `dir` from `cs` reports.
pub open spec fn rebuilt_errors(cs: Seq<ClassifiedView>, dir: Seq<SegmentView>, app_dir: bool) -> Seq<
    ErrorView,
> {
    if dir.len() == 0 {
        built_errors(cs, app_dir)
    } else {
        place_errors(TreeView::leaf(top_kind(dir)), cs, cs.len() as int, dir)
    }
}

/// Whether one of the entries lies in the directory `dir`.
pub fn any_in(nodes: &Vec<ClassifiedNode>, dir: &Vec<SegmentKind>) -> (r: bool)
    ensures
        r == lies_in(classified_views(nodes@), kind_views(dir@), nodes@.len() as int),
{
    let ghost cs = classified_views(nodes@);
    let ghost dv = kind_views(dir@);
    let mut i: usize = nodes.len();
    while i > 0
        invariant
            i <= nodes@.len(),
            cs == classified_views(nodes@),
            dv == kind_views(dir@),
            lies_in(cs, dv, nodes@.len() as int) == lies_in(cs, dv, i as int),
        decreases i,
    {
        if check_begins(dir, &nodes[i - 1].segments) {
            return true;
        }
        i -= 1;
    }
    false
}

/// Builds the subtree of one directory from classified entries and stores
/// it, for a later splice into a published tree. A directory of which the
/// entries hold nothing is gone and has no subtree.
pub fn rebuild(
    store: &mut RouteStore,
    nodes: &Vec<ClassifiedNode>,
    dir: &Vec<SegmentKind>,
    app_dir: bool,
) -> (r: (Option<usize>, Vec<RouteError>))
    ensures
        final(store)@.wf(),
        final(store)@.extends(old(store)@),
        gone(classified_views(nodes@), kind_views(dir@)) ==> r.0 is None && r.1@.len() == 0
            && final(store)@ == old(store)@,
        !gone(classified_views(nodes@), kind_views(dir@)) ==> {
            &&& r.0 matches Some(id)
            &&& id < final(store)@.nodes.len()
            &&& final(store)@.tree(id as int) == rebuilt_tree(
                classified_views(nodes@),
                kind_views(dir@),
                app_dir,
            )
            &&& error_views(r.1@) == rebuilt_errors(
                classified_views(nodes@),
                kind_views(dir@),
                app_dir,
            )
        },
{
    store.use_wf();
    if dir.len() == 0 {
        let out = build(store, nodes, app_dir, 0, 0);
        return (Some(out.tree.root), out.errors);
    }
    if !any_in(nodes, dir) {
        return (None, Vec::new());
    }
    let ghost s0 = store@;
    let ghost cs = classified_views(nodes@);
    let ghost dv = kind_views(dir@);
    let ghost empty = TreeView::leaf(top_kind(dv));
    let kind = if dir.len() == 0 {
        SegmentKind::Static(Vec::new())
    } else {
        assert(dv.last() == dir@[dir@.len() - 1]@);
        dir[dir.len() - 1].duplicate()
    };
    let none: RoleMap<usize> = RoleMap::new();
    proof {
        lemma_clash_resolved(none, s0.files, FileRole::Page);
    }
    let mut root = put_node(store, kind, Vec::new(), none, false);
    assert(trees_of(s0, Seq::<usize>::empty()) =~= Seq::<TreeView>::empty());
    let mut errors: Vec<RouteError> = Vec::new();
    let mut i: usize = 0;
    assert(error_views(errors@) =~= Seq::<ErrorView>::empty());
    while i < nodes.len()
        invariant
            i <= nodes@.len(),
            cs == classified_views(nodes@),
            dv == kind_views(dir@),
            empty == TreeView::leaf(top_kind(dv)),
            store@.wf(),
            store@.extends(s0),
            root < store@.nodes.len(),
            store@.tree(root as int) == place_all(empty, cs, i as int, dv),
            error_views(errors@) == place_errors(empty, cs, i as int, dv),
        decreases nodes@.len() - i,
    {
        let ghost s1 = store@;
        let ghost es = error_views(errors@);
        let (next, error) = place_node(store, root, &nodes[i], dir);
        proof {
            lemma_extends_trans(s0, s1, store@);
        }
        root = next;
        match error {
            Some(e) => {
                let ghost ev = e@;
                errors.push(e);
                assert(error_views(errors@) =~= es.push(ev));
            },
            None => {},
        }
        i += 1;
    }
    (Some(root), errors)
}

/// Whether a directory ends in a group.
pub open spec fn ends_in_group(dir: Seq<SegmentView>) -> bool {
    dir.len() > 0 && dir.last() is Group
}

/// The path of a directory as it is shown: a slash and the directory name
/// for each segment, and a single slash for the root.
pub open spec fn dir_shown(dir: Seq<SegmentView>) -> Seq<u8> {
    display(seq![root_kind()] + dir)
}

/// The path of a directory as it is shown.
pub fn show_dir(dir: &Vec<SegmentKind>) -> (r: Vec<u8>)
    ensures
        r@ == dir_shown(kind_views(dir@)),
{
    let ghost dv = kind_views(dir@);
    let ghost ks = seq![root_kind()] + dv;
    let mut out: Vec<u8> = Vec::new();
    if dir.len() == 0 {
        out.push(SLASH);
        assert(out@ =~= seq![SLASH]);
        return out;
    }
    let mut i: usize = 0;
    assert(out@ =~= shown(ks, 1));
    while i < dir.len()
        invariant
            i <= dir@.len(),
            dv == kind_views(dir@),
            ks == seq![root_kind()] + dv,
            out@ == shown(ks, i + 1),
        decreases dir@.len() - i,
    {
        let ghost before = out@;
        out.push(SLASH);
        dir[i].write_dir_name(&mut out);
        assert(ks[i + 1] == dv[i as int]);
        assert(out@ =~= before + seq![SLASH] + ks[i + 1].dir_name());
        i += 1;
    }
    out
}

/// Whether a change may bring a new segment into the tree.
pub open spec fn creates(g: GraftView) -> bool {
    g is Touch || g is Bind || g is Replace
}

/// The depth at which the change `g` at the end of `path` shuts a node
/// out, if it does: where it would bring in a segment that cannot stand
/// beside those it would be matched with, groups seen through.
pub open spec fn checked_at(t: TreeView, path: Seq<SegmentView>, g: GraftView) -> Option<int> {
    if creates(g) {
        scout(t, path, 0, t, 0)
    } else {
        None
    }
}

/// The way that the change takes: to the end of `path`, or to the node
/// that it shuts out.
pub open spec fn checked_way(t: TreeView, path: Seq<SegmentView>, g: GraftView) -> Seq<SegmentView> {
    match checked_at(t, path, g) {
        Some(d) => path.subrange(0, d),
        None => path,
    }
}

/// The change that is made at the end of the way.
pub open spec fn checked_graft(t: TreeView, path: Seq<SegmentView>, g: GraftView) -> GraftView {
    match checked_at(t, path, g) {
        Some(_) => GraftView::Block,
        None => g,
    }
}

/// Whether the change runs into a conflict.
pub open spec fn checked_conflict(t: TreeView, path: Seq<SegmentView>, g: GraftView) -> bool {
    checked_at(t, path, g) is Some || graft_conflict(t, path, 0, g)
}

/// Makes the change `g` at the end of `path` in the tree of the node
/// `root`, if the store holds the root and what the change names. Returns
/// the root of the changed tree, and whether the change ran into a
/// conflict. A change that would bring in a segment that cannot stand
/// beside those it would be matched with shuts out the node that holds
/// them all, as the builder does. A subtree that stands for a group is not
/// put in by itself, since what it holds is matched beside the siblings of
/// the group: the directory that holds the group is to be replaced.
pub fn apply(store: &mut RouteStore, root: usize, path: &Vec<SegmentKind>, g: Graft) -> (r: Option<
    (usize, bool),
>)
    ensures
        final(store)@.wf(),
        final(store)@.extends(old(store)@),
        r is Some == (old(store)@.has_node(root as int) && g.fits(old(store)@) && !(g is Replace
            && ends_in_group(kind_views(path@)))),
        r matches Some((id, conflict)) ==> {
            &&& id < final(store)@.nodes.len()
            &&& final(store)@.tree(id as int) == graft(
                old(store)@.tree(root as int),
                checked_way(old(store)@.tree(root as int), kind_views(path@), g.view_in(old(store)@)),
                0,
                checked_graft(
                    old(store)@.tree(root as int),
                    kind_views(path@),
                    g.view_in(old(store)@),
                ),
            )
            &&& conflict == checked_conflict(
                old(store)@.tree(root as int),
                kind_views(path@),
                g.view_in(old(store)@),
            )
            &&& kept(
                old(store)@,
                root as int,
                final(store)@,
                id as int,
                checked_way(old(store)@.tree(root as int), kind_views(path@), g.view_in(old(store)@)),
                0,
                checked_graft(
                    old(store)@.tree(root as int),
                    kind_views(path@),
                    g.view_in(old(store)@),
                ),
            )
        },
{
    let n: usize = store.node_count();
    let m: usize = store.file_count();
    let ghost pv = kind_views(path@);
    let fits = match g {
        Graft::Bind(_, f) => f < m,
        Graft::Replace(sub) => sub < n && !group_ended(path),
        _ => true,
    };
    if root >= n || !fits {
        return None;
    }
    let creating = match g {
        Graft::Touch => true,
        Graft::Bind(_, _) => true,
        Graft::Replace(_) => true,
        _ => false,
    };
    if creating {
        match scout_way(store, root, path, 0) {
            Some((d, _)) => {
                let front = copy_front(path, d);
                let (id, _) = graft_at(store, root, &front, 0, Graft::Block);
                return Some((id, true));
            },
            None => {},
        }
    }
    Some(graft_at(store, root, path, 0, g))
}

/// Whether a directory ends in a group.
pub fn group_ended(dir: &Vec<SegmentKind>) -> (r: bool)
    ensures
        r == ends_in_group(kind_views(dir@)),
{
    if dir.len() == 0 {
        return false;
    }
    assert(kind_views(dir@).last() == dir@[dir@.len() - 1]@);
    match &dir[dir.len() - 1] {
        SegmentKind::Group(_) => true,
        _ => false,
    }
}

} // verus!
