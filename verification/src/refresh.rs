//! From one snapshot to the next: the differences are recorded as changes,
//! and every rebuild under way is run and completed.

use vstd::prelude::*;
use crate::builder::{
    checked_conflict, conflict_other, dir_shown, gone, nesting_ok, rebuild, rebuilt_errors,
    rebuilt_tree, RouteTree,
};
use crate::error::{error_views, ErrorKind, ErrorView, RouteError};
use crate::graft::{graft, GraftView};
use crate::loader::{
    classify, classify_node, file_node_views, load, loaded_errors, loaded_nodes, ClassifiedView,
    FileNode, Loaded, LoadedView, LoaderConfig, LoaderConfigView,
};
use crate::segment::SegmentView;
use crate::snapshot::{affected, affected_dir, change_views, diff, differences, ChangeView};
use crate::sound::lemma_rebuilt_tree_sound;
use crate::store::{lemma_extends_trans, lemma_tree_children, lemma_tree_kept, RouteStore, TreeView};
use crate::version::{after_change, Completion, PendingView, Versions, VersionsView};

verus! {

/// The state after the first `n` changes are recorded, each for the
/// directory that it affects. A change to an entry that is passed over or
/// cannot be classified records nothing.
pub open spec fn recorded(
    v: VersionsView,
    cfg: LoaderConfigView,
    changes: Seq<ChangeView>,
    n: int,
) -> VersionsView
    decreases n,
{
    if n <= 0 || n > changes.len() {
        v
    } else {
        let w = recorded(v, cfg, changes, n - 1);
        match classify(changes[n - 1].node, cfg) {
            LoadedView::Node(c) => after_change(w, affected(c, changes[n - 1].kind)),
            _ => w,
        }
    }
}

/// How far the completion of rebuilds has come: the published tree and
/// its version, the trees published on the way, and the errors reported.
pub ghost struct Run {
    pub tree: TreeView,
    pub version: u64,
    pub trees: Seq<TreeView>,
    pub errors: Seq<ErrorView>,
}

/// What the rebuild of the directory `d` from the entries `cs` puts in
/// the place of the directory.
pub open spec fn splice_for(cs: Seq<ClassifiedView>, d: Seq<SegmentView>, app_dir: bool) -> GraftView {
    if gone(cs, d) {
        GraftView::Remove
    } else {
        GraftView::Replace(rebuilt_tree(cs, d, app_dir))
    }
}

/// The errors that the rebuild of the directory `d` reports.
pub open spec fn errors_for(cs: Seq<ClassifiedView>, d: Seq<SegmentView>, app_dir: bool) -> Seq<
    ErrorView,
> {
    if gone(cs, d) {
        Seq::empty()
    } else {
        rebuilt_errors(cs, d, app_dir)
    }
}

/// The run after the rebuild of the directory `d` is run and completed.
/// Its errors are reported. Where it reported none and a next version
/// exists, its subtree is spliced in and the tree is published, unless the
/// directory has a catch-all before its end or the splice runs into a
/// conflict, which is then reported.
pub open spec fn settle_one(r: Run, d: Seq<SegmentView>, cs: Seq<ClassifiedView>, app_dir: bool) -> Run {
    let errors = r.errors + errors_for(cs, d, app_dir);
    let g = splice_for(cs, d, app_dir);
    if errors_for(cs, d, app_dir).len() > 0 || r.version == u64::MAX {
        Run { errors, ..r }
    } else if !nesting_ok(d) {
        Run {
            errors: errors.push(
                ErrorView { kind: ErrorKind::UnsupportedNesting, path: dir_shown(d), other: Seq::empty() },
            ),
            ..r
        }
    } else if checked_conflict(r.tree, d, g) {
        Run {
            errors: errors.push(
                ErrorView {
                    kind: ErrorKind::ConflictingRoute,
                    path: dir_shown(d),
                    other: conflict_other(r.tree, d, 0, g),
                },
            ),
            ..r
        }
    } else {
        Run {
            tree: graft(r.tree, d, 0, g),
            version: (r.version + 1) as u64,
            trees: r.trees.push(graft(r.tree, d, 0, g)),
            errors,
        }
    }
}

/// The run after the first `k` rebuilds under way are run and completed,
/// the one under way longest first.
pub open spec fn settle_all(
    r: Run,
    pending: Seq<PendingView>,
    k: int,
    cs: Seq<ClassifiedView>,
    app_dir: bool,
) -> Run
    decreases k,
{
    if k <= 0 || k > pending.len() {
        r
    } else {
        settle_one(settle_all(r, pending, k - 1, cs, app_dir), pending[k - 1].dir, cs, app_dir)
    }
}

/// What a refresh gives: the state after it, the trees that it published,
/// oldest first, and the errors that it reported.
pub struct Refreshed {
    pub versions: Versions,
    pub published: Vec<RouteTree>,
    pub errors: Vec<RouteError>,
}

/// Records the differences between two snapshots as changes.
fn record(versions: Versions, cfg: &LoaderConfig, before: &Vec<FileNode>, after: &Vec<FileNode>) -> (r:
    Versions)
    ensures
        r@ == recorded(
            versions@,
            cfg@,
            differences(file_node_views(before@), file_node_views(after@)),
            differences(file_node_views(before@), file_node_views(after@)).len() as int,
        ),
        r@.wf(),
{
    let changes = diff(before, after);
    let ghost cv = change_views(changes@);
    let ghost v0 = versions@;
    let mut versions = versions;
    versions.use_wf();
    let mut i: usize = 0;
    while i < changes.len()
        invariant
            i <= changes@.len(),
            cv == change_views(changes@),
            versions@ == recorded(v0, cfg@, cv, i as int),
            versions@.wf(),
        decreases changes@.len() - i,
    {
        assert(cv[i as int] == changes@[i as int]@);
        match classify_node(&changes[i].node, cfg) {
            Loaded::Node(c) => {
                let dir = affected_dir(&c, changes[i].kind);
                let (next, _) = versions.change(dir);
                versions = next;
            },
            _ => {},
        }
        i += 1;
    }
    versions
}

/// Brings the published tree from one snapshot to the next. The
/// differences between the snapshots are recorded as changes, each for
/// the directory that it affects; then every rebuild under way is run on
/// the entries of the later snapshot and completed, the one under way
/// longest first. Nothing is done where the store does not hold the
/// published tree.
pub fn refresh(
    store: &mut RouteStore,
    versions: Versions,
    cfg: &LoaderConfig,
    before: &Vec<FileNode>,
    after: &Vec<FileNode>,
    fingerprint: u64,
) -> (r: Refreshed)
    ensures
        final(store)@.wf(),
        final(store)@.extends(old(store)@),
        !old(store)@.has_node(versions@.current.root as int) ==> r.versions@ == versions@
            && r.published@.len() == 0 && r.errors@.len() == 0 && final(store)@ == old(store)@,
        old(store)@.has_node(versions@.current.root as int) ==> ({
            let v1 = recorded(
                versions@,
                cfg@,
                differences(file_node_views(before@), file_node_views(after@)),
                differences(file_node_views(before@), file_node_views(after@)).len() as int,
            );
            let start = Run {
                tree: old(store)@.tree(versions@.current.root as int),
                version: versions@.current.version,
                trees: Seq::empty(),
                errors: loaded_errors(file_node_views(after@), cfg@, after@.len() as int),
            };
            let run = settle_all(
                start,
                v1.pending,
                v1.pending.len() as int,
                loaded_nodes(file_node_views(after@), cfg@, after@.len() as int),
                cfg@.app_dir,
            );
            &&& r.versions@.pending.len() == 0
            &&& r.versions@.next_ticket == v1.next_ticket
            &&& r.versions@.current.version == run.version
            &&& final(store)@.has_node(r.versions@.current.root as int)
            &&& final(store)@.tree(r.versions@.current.root as int) == run.tree
            &&& error_views(r.errors@) == run.errors
            &&& r.published@.len() == run.trees.len()
            &&& forall|i: int|
                0 <= i < r.published@.len() ==> {
                    &&& final(store)@.has_node((#[trigger] r.published@[i]).root as int)
                    &&& final(store)@.tree(r.published@[i].root as int) == run.trees[i]
                    &&& r.published@[i].version == versions@.current.version + i + 1
                    &&& r.published@[i].fingerprint == fingerprint
                }
            &&& r.published@.len() > 0 ==> r.versions@.current == r.published@[
                r.published@.len() - 1
            ]
            &&& r.published@.len() == 0 ==> r.versions@.current == versions@.current
        }),
{
    let count: usize = store.node_count();
    let first = versions.current();
    if first.root >= count {
        return Refreshed { versions, published: Vec::new(), errors: Vec::new() };
    }
    let ghost s0 = store@;
    let ghost v0 = versions@;
    let loading = load(after, cfg);
    let ghost cs = crate::loader::classified_views(loading.nodes@);
    let mut versions = record(versions, cfg, before, after);
    let ghost v1 = versions@;
    let ghost due = v1.pending;
    let ghost start = Run {
        tree: s0.tree(first.root as int),
        version: first.version,
        trees: Seq::empty(),
        errors: error_views(loading.errors@),
    };
    let mut errors = loading.errors;
    let nodes = loading.nodes;
    let mut published: Vec<RouteTree> = Vec::new();
    let ghost mut done: int = 0;
    assert(versions@.current == first) by {
        lemma_recorded_keeps(
            v0,
            cfg@,
            differences(file_node_views(before@), file_node_views(after@)),
            differences(file_node_views(before@), file_node_views(after@)).len() as int,
        );
    }
    assert(due.skip(0) =~= due);
    while versions.in_flight() > 0
        invariant
            store@.wf(),
            store@.extends(s0),
            cs == crate::loader::classified_views(nodes@),
            versions@.wf(),
            0 <= done <= due.len(),
            versions@.pending == due.skip(done),
            versions@.next_ticket == v1.next_ticket,
            store@.has_node(versions@.current.root as int),
            ({
                let run = settle_all(start, due, done, cs, cfg@.app_dir);
                &&& versions@.current.version == run.version
                &&& store@.tree(versions@.current.root as int) == run.tree
                &&& error_views(errors@) == run.errors
                &&& published@.len() == run.trees.len()
                &&& forall|i: int|
                    0 <= i < published@.len() ==> {
                        &&& store@.has_node((#[trigger] published@[i]).root as int)
                        &&& store@.tree(published@[i].root as int) == run.trees[i]
                        &&& published@[i].version == first.version + i + 1
                        &&& published@[i].fingerprint == fingerprint
                    }
                &&& published@.len() > 0 ==> versions@.current == published@[published@.len() - 1]
                &&& published@.len() == 0 ==> versions@.current == first
                &&& run.version == first.version + run.trees.len()
            }),
        decreases versions@.pending.len(),
    {
        let ghost run = settle_all(start, due, done, cs, cfg@.app_dir);
        let ghost sa = store@;
        let ghost va = versions@;
        let ghost d = due[done];
        assert(va.pending[0] == d);
        let ticket = match versions.first_due() {
            Some(t) => t,
            None => 0,
        };
        let dir = match versions.directory(ticket) {
            Some(x) => x,
            None => Vec::new(),
        };
        let (sub, mut errs) = rebuild(store, &nodes, &dir, cfg.app_dir);
        let ghost sb = store@;
        let ghost ev = error_views(errs@);
        let clean = errs.len() == 0;
        let ghost es = error_views(errors@);
        let ghost fresh = errs@;
        let ghost had = errors@;
        errors.append(&mut errs);
        proof {
            assert(error_views(errors@) =~= es + ev) by {
                assert forall|i: int| 0 <= i < errors@.len() implies error_views(errors@)[i] == (es
                    + ev)[i] by {
                    if i < had.len() {
                        assert(errors@[i] == had[i]);
                    } else {
                        assert(errors@[i] == fresh[i - had.len()]);
                    }
                }
            }
            lemma_tree_kept(sa, sb, va.current.root as int);
            lemma_rebuilt_tree_sound(cs, d.dir, cfg@.app_dir);
            if sub is Some {
                lemma_tree_children(sb, sub->0 as int);
            }
            assert forall|i: int| 0 <= i < published@.len() implies sb.tree(
                (#[trigger] published@[i]).root as int,
            ) == run.trees[i] by {
                lemma_tree_kept(sa, sb, published@[i].root as int);
            }
        }
        let (next, end) = versions.complete(store, ticket, sub, fingerprint, clean);
        let ghost sc = store@;
        versions = next;
        proof {
            lemma_extends_trans(s0, sb, sc);
            lemma_extends_trans(s0, sa, sb);
            assert(va.pending.remove(0) =~= due.skip(done + 1));
            assert forall|i: int| 0 <= i < published@.len() implies sc.tree(
                (#[trigger] published@[i]).root as int,
            ) == run.trees[i] && sc.has_node(published@[i].root as int) by {
                lemma_tree_kept(sb, sc, published@[i].root as int);
            }
            lemma_tree_kept(sb, sc, va.current.root as int);
        }
        match end {
            Completion::Published(tree) => {
                published.push(tree);
            },
            Completion::Kept(Some(e)) => {
                let ghost before_errors = error_views(errors@);
                let ghost x = e@;
                errors.push(e);
                assert(error_views(errors@) =~= before_errors.push(x));
            },
            _ => {},
        }
        proof {
            done = done + 1;
        }
    }
    assert(done == due.len());
    Refreshed { versions, published, errors }
}

/// Recording changes leaves the published tree as it is.
pub proof fn lemma_recorded_keeps(
    v: VersionsView,
    cfg: LoaderConfigView,
    changes: Seq<ChangeView>,
    n: int,
)
    ensures
        recorded(v, cfg, changes, n).current == v.current,
    decreases n,
{
    if 0 < n <= changes.len() {
        lemma_recorded_keeps(v, cfg, changes, n - 1);
    }
}

} // verus!
