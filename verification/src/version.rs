//! The versioning layer: which tree is published, and which rebuilds are
//! under way.
//!
//! A change to a directory starts a rebuild under a fresh ticket. What a
//! group holds is matched beside the siblings of the group, so the change
//! is lifted to the directory that holds the groups. Every rebuild under
//! way that overlaps the directory is abandoned; where one of them was to
//! rebuild a directory that holds this one, that wider directory is
//! rebuilt again, so that nothing is lost. Rebuilds of directories that do
//! not overlap proceed side by side. When a rebuild completes under a
//! ticket that still stands, its subtree is spliced into the published
//! tree and the result is published as the next version; a rebuild that
//! failed, or whose splice would bring in a conflict, leaves the published
//! tree as it is.

use vstd::prelude::*;
use crate::builder::{
    begins, check_begins, check_nesting, checked_conflict, conflict_other, dir_shown,
    ends_in_group, group_ended, nesting_ok, scout_way, show_dir, top_kind, write_front,
    RouteTree,
};
use crate::error::{ErrorKind, ErrorView, RouteError};
use crate::graft::{graft, graft_at, kept, Graft, GraftView};
use crate::segment::{kind_views, SegmentKind, SegmentView};
use crate::store::{RouteStore, StoreView};

verus! {

/// A rebuild under way: its ticket and the directory that it rebuilds.
#[derive(Debug, Clone, PartialEq, Eq)]
pub struct Pending {
    pub ticket: u64,
    pub dir: Vec<SegmentKind>,
}

/// The mathematical content of a rebuild under way.
pub ghost struct PendingView {
    pub ticket: u64,
    pub dir: Seq<SegmentView>,
}

impl View for Pending {
    type V = PendingView;

    open spec fn view(&self) -> PendingView {
        PendingView { ticket: self.ticket, dir: kind_views(self.dir@) }
    }
}

/// The views of a sequence of rebuilds.
pub open spec fn pending_views(v: Seq<Pending>) -> Seq<PendingView> {
    v.map_values(|p: Pending| p@)
}

/// Whether one of two directories lies in the other, or they are one.
pub open spec fn overlap(a: Seq<SegmentView>, b: Seq<SegmentView>) -> bool {
    begins(a, b) || begins(b, a)
}

/// The mathematical content of the versioning state.
pub ghost struct VersionsView {
    pub current: RouteTree,
    pub pending: Seq<PendingView>,
    pub next_ticket: u64,
}

impl VersionsView {
    /// Tickets are issued in rising order, and no two rebuilds under way
    /// overlap.
    pub open spec fn wf(self) -> bool {
        &&& forall|i: int|
            0 <= i < self.pending.len() ==> (#[trigger] self.pending[i]).ticket < self.next_ticket
        &&& forall|i: int, j: int|
            0 <= i < j < self.pending.len() ==> (#[trigger] self.pending[i]).ticket < (
            #[trigger] self.pending[j]).ticket
        &&& forall|i: int, j: int|
            0 <= i < j < self.pending.len() ==> !overlap(
                (#[trigger] self.pending[i]).dir,
                (#[trigger] self.pending[j]).dir,
            )
        &&& forall|i: int|
            0 <= i < self.pending.len() ==> !ends_in_group((#[trigger] self.pending[i]).dir)
    }
}

/// The directory without the groups that end it: the directory that
/// stands for a place of its own in matching. What a group holds is
/// matched beside the siblings of the group, so a change in a group is a
/// change to the directory that holds the group.
pub open spec fn lift(dir: Seq<SegmentView>) -> Seq<SegmentView>
    decreases dir.len(),
{
    if ends_in_group(dir) {
        lift(dir.drop_last())
    } else {
        dir
    }
}

/// A lifted directory ends in no group.
pub proof fn lemma_lift_ends(dir: Seq<SegmentView>)
    ensures
        !ends_in_group(lift(dir)),
    decreases dir.len(),
{
    if ends_in_group(dir) {
        lemma_lift_ends(dir.drop_last());
    }
}

/// The widest directory among `dir` and those of the first `n` rebuilds
/// that hold it.
pub open spec fn widest(pending: Seq<PendingView>, dir: Seq<SegmentView>, n: int) -> Seq<
    SegmentView,
>
    decreases n,
{
    if n <= 0 || n > pending.len() {
        dir
    } else {
        let w = widest(pending, dir, n - 1);
        if begins(pending[n - 1].dir, w) {
            pending[n - 1].dir
        } else {
            w
        }
    }
}

/// The directory that is rebuilt after a change to `dir`: the change is
/// lifted out of the groups that end it, and where a rebuild under way
/// holds it, the directory of that rebuild is rebuilt again, so that
/// nothing that it was to rebuild is lost when it is abandoned.
pub open spec fn rebuilt_dir(v: VersionsView, dir: Seq<SegmentView>) -> Seq<SegmentView> {
    widest(v.pending, lift(dir), v.pending.len() as int)
}

/// Those of the first `n` rebuilds that do not overlap `dir`, in order.
pub open spec fn survivors(pending: Seq<PendingView>, dir: Seq<SegmentView>, n: int) -> Seq<
    PendingView,
>
    decreases n,
{
    if n <= 0 || n > pending.len() {
        Seq::empty()
    } else {
        let front = survivors(pending, dir, n - 1);
        if overlap(pending[n - 1].dir, dir) {
            front
        } else {
            front.push(pending[n - 1])
        }
    }
}

/// The index of the first rebuild from `i` on with the given ticket, or
/// the number of rebuilds.
pub open spec fn ticket_index(pending: Seq<PendingView>, ticket: u64, i: int) -> int
    decreases pending.len() - i,
{
    if i < 0 || i >= pending.len() {
        pending.len() as int
    } else if pending[i].ticket == ticket {
        i
    } else {
        ticket_index(pending, ticket, i + 1)
    }
}

/// The state after a change to `dir`: a rebuild of the directory to
/// rebuild is under way under the next ticket, and the rebuilds that
/// overlap it are abandoned. Where the tickets are used up nothing changes.
pub open spec fn after_change(v: VersionsView, dir: Seq<SegmentView>) -> VersionsView {
    if v.next_ticket == u64::MAX {
        v
    } else {
        let w = rebuilt_dir(v, dir);
        VersionsView {
            current: v.current,
            pending: survivors(v.pending, w, v.pending.len() as int).push(
                PendingView { ticket: v.next_ticket, dir: w },
            ),
            next_ticket: (v.next_ticket + 1) as u64,
        }
    }
}

/// The change that a completed rebuild makes to the published tree: its
/// subtree is put in the place of the directory, or the directory is taken
/// away where the rebuild found it gone.
pub open spec fn splice_of(s: StoreView, sub: Option<usize>) -> GraftView {
    match sub {
        Some(x) => GraftView::Replace(s.tree(x as int)),
        None => GraftView::Remove,
    }
}

/// Whether what a rebuild gave can stand for the directory: a stored
/// subtree that bears the segment of the directory, or nothing for a
/// directory that is not the root.
pub open spec fn fits_dir(s: StoreView, dir: Seq<SegmentView>, sub: Option<usize>) -> bool {
    match sub {
        Some(x) => s.has_node(x as int) && s.nodes[x as int].kind == top_kind(dir),
        None => dir.len() > 0,
    }
}

/// Why the rebuild `i` is held back, if it is. It is held back without an
/// error of its own where it failed, where what it gave cannot stand for
/// the directory, where the store does not hold the published tree, or
/// where no next version exists. It is held back with an error where the
/// directory has a catch-all before its end, and where the splice would
/// bring in a segment that cannot stand beside those it would be matched
/// with, groups seen through.
pub open spec fn held_back(
    s: StoreView,
    v: VersionsView,
    i: int,
    sub: Option<usize>,
    clean: bool,
) -> Option<Option<ErrorView>> {
    let dir = v.pending[i].dir;
    if !clean || !s.has_node(v.current.root as int) || v.current.version == u64::MAX || !fits_dir(
        s,
        dir,
        sub,
    ) {
        Some(None)
    } else if !nesting_ok(dir) {
        Some(Some(ErrorView { kind: ErrorKind::UnsupportedNesting, path: dir_shown(dir), other: Seq::empty() }))
    } else if checked_conflict(s.tree(v.current.root as int), dir, splice_of(s, sub)) {
        Some(
            Some(
                ErrorView {
                    kind: ErrorKind::ConflictingRoute,
                    path: dir_shown(dir),
                    other: conflict_other(s.tree(v.current.root as int), dir, 0, splice_of(s, sub)),
                },
            ),
        )
    } else {
        None
    }
}

/// How a completed rebuild ended.
#[derive(Debug, Clone, PartialEq, Eq)]
pub enum Completion {
    /// Its subtree was spliced in, and this tree is published.
    Published(RouteTree),
    /// It was held back, and the tree that was published stays. The error
    /// is that of the splice; a rebuild that failed has reported its own.
    Kept(Option<RouteError>),
    /// It had been abandoned, or was never started.
    Stale,
}

/// The mathematical content of the end of a rebuild.
pub ghost enum CompletionView {
    Published(RouteTree),
    Kept(Option<ErrorView>),
    Stale,
}

impl View for Completion {
    type V = CompletionView;

    open spec fn view(&self) -> CompletionView {
        match self {
            Completion::Published(t) => CompletionView::Published(*t),
            Completion::Kept(Some(e)) => CompletionView::Kept(Some(e@)),
            Completion::Kept(None) => CompletionView::Kept(None),
            Completion::Stale => CompletionView::Stale,
        }
    }
}

/// The published tree and the rebuilds under way.
pub struct Versions {
    current: RouteTree,
    pending: Vec<Pending>,
    next_ticket: u64,
}

impl View for Versions {
    type V = VersionsView;

    closed spec fn view(&self) -> VersionsView {
        VersionsView {
            current: self.current,
            pending: pending_views(self.pending@),
            next_ticket: self.next_ticket,
        }
    }
}

/// A fresh copy of a path of segments.
pub fn copy_path(path: &Vec<SegmentKind>) -> (r: Vec<SegmentKind>)
    ensures
        kind_views(r@) == kind_views(path@),
{
    let mut out: Vec<SegmentKind> = Vec::new();
    let mut i: usize = 0;
    while i < path.len()
        invariant
            i <= path@.len(),
            kind_views(out@) == kind_views(path@).subrange(0, i as int),
            out@.len() == i,
        decreases path@.len() - i,
    {
        let ghost before = kind_views(out@);
        let k = path[i].duplicate();
        out.push(k);
        assert(kind_views(out@) =~= before.push(kind_views(path@)[i as int]));
        assert(kind_views(out@) =~= kind_views(path@).subrange(0, i + 1));
        i += 1;
    }
    assert(kind_views(path@).subrange(0, path@.len() as int) =~= kind_views(path@));
    out
}

/// Whether one of two directories lies in the other, or they are one.
pub fn overlaps(a: &Vec<SegmentKind>, b: &Vec<SegmentKind>) -> (r: bool)
    ensures
        r == overlap(kind_views(a@), kind_views(b@)),
{
    check_begins(a, b) || check_begins(b, a)
}

/// The directory without the groups that end it.
pub fn lift_dir(dir: Vec<SegmentKind>) -> (r: Vec<SegmentKind>)
    ensures
        kind_views(r@) == lift(kind_views(dir@)),
{
    let mut d = dir;
    while group_ended(&d)
        invariant
            lift(kind_views(d@)) == lift(kind_views(dir@)),
        decreases d@.len(),
    {
        let ghost before = kind_views(d@);
        d.pop();
        assert(kind_views(d@) =~= before.drop_last());
    }
    d
}

impl Versions {
    #[verifier::type_invariant]
    spec fn inv(self) -> bool {
        self@.wf()
    }

    /// The state in which `tree` is published and no rebuild is under way.
    pub fn new(tree: RouteTree) -> (r: Versions)
        ensures
            r@ == (VersionsView { current: tree, pending: Seq::empty(), next_ticket: 0 }),
            r@.wf(),
    {
        let r = Versions { current: tree, pending: Vec::new(), next_ticket: 0 };
        assert(r@.pending =~= Seq::<PendingView>::empty());
        r
    }

    /// Recalls that the state is always well-formed. Does nothing when run.
    pub fn use_wf(&self)
        ensures
            self@.wf(),
    {
        proof {
            use_type_invariant(self);
        }
    }

    /// The published tree.
    pub fn current(&self) -> (r: RouteTree)
        ensures
            r == self@.current,
            self@.wf(),
    {
        proof {
            use_type_invariant(self);
        }
        self.current
    }

    /// The number of rebuilds under way.
    pub fn in_flight(&self) -> (r: usize)
        ensures
            r == self@.pending.len(),
    {
        self.pending.len()
    }

    /// The index of the rebuild with the given ticket, or the number of
    /// rebuilds.
    fn find_ticket(&self, ticket: u64) -> (r: usize)
        ensures
            r == ticket_index(self@.pending, ticket, 0),
            r <= self@.pending.len(),
            r < self@.pending.len() ==> self@.pending[r as int].ticket == ticket,
    {
        let ghost pv = self@.pending;
        let mut i: usize = 0;
        while i < self.pending.len()
            invariant
                i <= self.pending@.len(),
                pv == pending_views(self.pending@),
                ticket_index(pv, ticket, 0) == ticket_index(pv, ticket, i as int),
            decreases self.pending@.len() - i,
        {
            if self.pending[i].ticket == ticket {
                return i;
            }
            i += 1;
        }
        i
    }

    /// Whether a rebuild with the given ticket is under way.
    pub fn is_live(&self, ticket: u64) -> (r: bool)
        ensures
            r == (ticket_index(self@.pending, ticket, 0) < self@.pending.len()),
    {
        self.find_ticket(ticket) < self.pending.len()
    }

    /// The ticket of the rebuild that has been under way longest.
    pub fn first_due(&self) -> (r: Option<u64>)
        ensures
            self@.wf(),
            self@.pending.len() == 0 ==> r is None,
            self@.pending.len() > 0 ==> r == Some(self@.pending[0].ticket) && ticket_index(
                self@.pending,
                self@.pending[0].ticket,
                0,
            ) == 0,
    {
        proof {
            use_type_invariant(self);
        }
        if self.pending.len() == 0 {
            None
        } else {
            Some(self.pending[0].ticket)
        }
    }

    /// The directory that the rebuild with the given ticket is to rebuild,
    /// if that rebuild is under way.
    pub fn directory(&self, ticket: u64) -> (r: Option<Vec<SegmentKind>>)
        ensures
            ({
                let i = ticket_index(self@.pending, ticket, 0);
                if i < self@.pending.len() {
                    r matches Some(d) && kind_views(d@) == self@.pending[i].dir
                } else {
                    r is None
                }
            }),
    {
        let i = self.find_ticket(ticket);
        if i < self.pending.len() {
            Some(copy_path(&self.pending[i].dir))
        } else {
            None
        }
    }

    /// Records a change to the directory `dir`. Returns the state after
    /// it, and the ticket under which a rebuild now runs. The directory of
    /// that rebuild, which `directory` gives, holds `dir` and all that the
    /// rebuilds abandoned for it were to rebuild.
    pub fn change(self, dir: Vec<SegmentKind>) -> (r: (Versions, Option<u64>))
        ensures
            r.0@ == after_change(self@, kind_views(dir@)),
            r.0@.wf(),
            r.1 == (if self@.next_ticket == u64::MAX {
                None
            } else {
                Some(self@.next_ticket)
            }),
    {
        proof {
            use_type_invariant(&self);
        }
        if self.next_ticket == u64::MAX {
            return (self, None);
        }
        let ghost v = self@;
        let ghost lv = lift(kind_views(dir@));
        let Versions { current, pending, next_ticket } = self;
        let ghost pv = pending_views(pending@);
        assert(pv == v.pending);
        let mut wide = lift_dir(dir);
        proof {
            lemma_lift_ends(kind_views(dir@));
        }
        let mut k: usize = 0;
        while k < pending.len()
            invariant
                k <= pending@.len(),
                pv == pending_views(pending@),
                v.wf(),
                v.pending == pv,
                kind_views(wide@) == widest(pv, lv, k as int),
                !ends_in_group(kind_views(wide@)),
            decreases pending@.len() - k,
        {
            if check_begins(&pending[k].dir, &wide) {
                wide = copy_path(&pending[k].dir);
            }
            k += 1;
        }
        let ghost dv = kind_views(wide@);
        let mut out: Vec<Pending> = Vec::new();
        let mut i: usize = 0;
        assert(pending_views(out@) =~= Seq::<PendingView>::empty());
        while i < pending.len()
            invariant
                i <= pending@.len(),
                pv == pending_views(pending@),
                dv == kind_views(wide@),
                v.wf(),
                v.pending == pv,
                v.next_ticket == next_ticket,
                pending_views(out@) == survivors(pv, dv, i as int),
                forall|k: int|
                    0 <= k < out@.len() ==> (#[trigger] pending_views(out@)[k]).ticket
                        < next_ticket,
                forall|k: int|
                    0 <= k < out@.len() ==> !ends_in_group((#[trigger] pending_views(out@)[k]).dir),
                forall|k: int, m: int|
                    0 <= k < out@.len() && i <= m < pv.len() ==> (#[trigger] pending_views(
                        out@,
                    )[k]).ticket < (#[trigger] pv[m]).ticket,
                forall|k: int, m: int|
                    0 <= k < out@.len() && i <= m < pv.len() ==> !overlap(
                        (#[trigger] pending_views(out@)[k]).dir,
                        (#[trigger] pv[m]).dir,
                    ),
                forall|k: int|
                    0 <= k < out@.len() ==> !overlap((#[trigger] pending_views(out@)[k]).dir, dv),
                forall|a: int, b: int|
                    0 <= a < b < out@.len() ==> (#[trigger] pending_views(out@)[a]).ticket < (
                    #[trigger] pending_views(out@)[b]).ticket,
                forall|a: int, b: int|
                    0 <= a < b < out@.len() ==> !overlap(
                        (#[trigger] pending_views(out@)[a]).dir,
                        (#[trigger] pending_views(out@)[b]).dir,
                    ),
            decreases pending@.len() - i,
        {
            let ghost ov = pending_views(out@);
            if !overlaps(&pending[i].dir, &wide) {
                let p = Pending { ticket: pending[i].ticket, dir: copy_path(&pending[i].dir) };
                assert(p@ == pv[i as int]);
                out.push(p);
                assert(pending_views(out@) =~= ov.push(pv[i as int]));
            }
            i += 1;
        }
        let ghost ov = pending_views(out@);
        let fresh = Pending { ticket: next_ticket, dir: wide };
        let ghost fv = fresh@;
        out.push(fresh);
        assert(pending_views(out@) =~= ov.push(fv));
        proof {
            let w = VersionsView {
                current,
                pending: pending_views(out@),
                next_ticket: (next_ticket + 1) as u64,
            };
            assert forall|a: int, b: int| 0 <= a < b < w.pending.len() implies !overlap(
                (#[trigger] w.pending[a]).dir,
                (#[trigger] w.pending[b]).dir,
            ) by {
                if b < ov.len() {
                    assert(w.pending[a] == ov[a] && w.pending[b] == ov[b]);
                } else {
                    assert(w.pending[a] == ov[a]);
                }
            }
            assert forall|a: int, b: int| 0 <= a < b < w.pending.len() implies (
            #[trigger] w.pending[a]).ticket < (#[trigger] w.pending[b]).ticket by {
                if b < ov.len() {
                    assert(w.pending[a] == ov[a] && w.pending[b] == ov[b]);
                } else {
                    assert(w.pending[a] == ov[a]);
                }
            }
            assert forall|a: int| 0 <= a < w.pending.len() implies (#[trigger] w.pending[a]).ticket
                < w.next_ticket && !ends_in_group(w.pending[a].dir) by {
                if a < ov.len() {
                    assert(w.pending[a] == ov[a]);
                }
            }
            assert(w.wf());
        }
        (Versions { current, pending: out, next_ticket: next_ticket + 1 }, Some(next_ticket))
    }

    /// Completes the rebuild that ran under `ticket`. `sub` is the stored
    /// subtree that it gave, or nothing where it found the directory gone;
    /// `clean` says whether it reported no error. Returns the state after
    /// it and how the rebuild ended.
    pub fn complete(
        self,
        store: &mut RouteStore,
        ticket: u64,
        sub: Option<usize>,
        fingerprint: u64,
        clean: bool,
    ) -> (r: (Versions, Completion))
        ensures
            final(store)@.wf(),
            final(store)@.extends(old(store)@),
            r.0@.wf(),
            r.0@.next_ticket == self@.next_ticket,
            self@.current.version <= r.0@.current.version,
            ({
                let i = ticket_index(self@.pending, ticket, 0);
                if i >= self@.pending.len() {
                    r.1 is Stale && r.0@ == self@ && final(store)@ == old(store)@
                } else {
                    &&& r.0@.pending == self@.pending.remove(i)
                    &&& match held_back(old(store)@, self@, i, sub, clean) {
                        Some(e) => r.1@ == CompletionView::Kept(e) && r.0@.current
                            == self@.current,
                        None => {
                            &&& r.1 matches Completion::Published(tree)
                            &&& r.0@.current == tree
                            &&& tree.version == self@.current.version + 1
                            &&& tree.fingerprint == fingerprint
                            &&& final(store)@.has_node(tree.root as int)
                            &&& final(store)@.tree(tree.root as int) == graft(
                                old(store)@.tree(self@.current.root as int),
                                self@.pending[i].dir,
                                0,
                                splice_of(old(store)@, sub),
                            )
                            &&& kept(
                                old(store)@,
                                self@.current.root as int,
                                final(store)@,
                                tree.root as int,
                                self@.pending[i].dir,
                                0,
                                splice_of(old(store)@, sub),
                            )
                        },
                    }
                }
            }),
    {
        proof {
            use_type_invariant(&self);
        }
        let count: usize = store.node_count();
        let i = self.find_ticket(ticket);
        if i >= self.pending.len() {
            return (self, Completion::Stale);
        }
        let ghost v = self@;
        let ghost s0 = store@;
        let Versions { current, pending, next_ticket } = self;
        let mut pending = pending;
        let ghost pv = pending_views(pending@);
        assert(pv == v.pending);
        let done = pending.remove(i);
        assert(done@ == pv[i as int]);
        proof {
            let w = VersionsView { current, pending: pending_views(pending@), next_ticket };
            assert(w.pending =~= pv.remove(i as int));
            assert forall|a: int| 0 <= a < w.pending.len() implies (#[trigger] w.pending[a]).ticket
                < w.next_ticket && !ends_in_group(w.pending[a].dir) by {
                if a < i {
                    assert(w.pending[a] == pv[a]);
                } else {
                    assert(w.pending[a] == pv[a + 1]);
                }
            }
            assert forall|a: int, b: int| 0 <= a < b < w.pending.len() implies (
            #[trigger] w.pending[a]).ticket < (#[trigger] w.pending[b]).ticket && !overlap(
                w.pending[a].dir,
                w.pending[b].dir,
            ) by {
                let a0 = if a < i {
                    a
                } else {
                    a + 1
                };
                let b0 = if b < i {
                    b
                } else {
                    b + 1
                };
                assert(w.pending[a] == pv[a0] && w.pending[b] == pv[b0]);
            }
            assert(w.wf());
        }
        let fits = match sub {
            Some(x) => {
                if x >= count {
                    false
                } else if done.dir.len() == 0 {
                    match &store.node(x).kind {
                        SegmentKind::Static(n) => n.len() == 0,
                        _ => false,
                    }
                } else {
                    assert(kind_views(done.dir@).last() == done.dir@[done.dir@.len() - 1]@);
                    store.node(x).kind.same(&done.dir[done.dir.len() - 1])
                }
            },
            None => done.dir.len() > 0,
        };
        proof {
            if sub is Some && done.dir@.len() == 0 && fits {
                assert(s0.nodes[sub->0 as int].kind->Static_0 =~= Seq::<u8>::empty());
            }
        }
        if !clean || current.root >= count || current.version == u64::MAX || !fits {
            return (Versions { current, pending, next_ticket }, Completion::Kept(None));
        }
        if !check_nesting(&done.dir) {
            let e = RouteError::UnsupportedNesting { path: show_dir(&done.dir) };
            return (Versions { current, pending, next_ticket }, Completion::Kept(Some(e)));
        }
        let g = match sub {
            Some(x) => Graft::Replace(x),
            None => Graft::Remove,
        };
        let shut = match sub {
            Some(_) => scout_way(store, current.root, &done.dir, 0),
            None => None,
        };
        match shut {
            Some((d, rv)) => {
                let mut other: Vec<u8> = Vec::new();
                write_front(&done.dir, d, &mut other);
                crate::bytes::append_bytes(&mut other, rv.as_slice());
                let e = RouteError::ConflictingRoute { path: show_dir(&done.dir), other };
                return (Versions { current, pending, next_ticket }, Completion::Kept(Some(e)));
            },
            None => {},
        }
        let (root, conflict) = graft_at(store, current.root, &done.dir, 0, g);
        if conflict {
            let e = RouteError::ConflictingRoute { path: show_dir(&done.dir), other: Vec::new() };
            return (Versions { current, pending, next_ticket }, Completion::Kept(Some(e)));
        }
        let tree = RouteTree { root, version: current.version + 1, fingerprint };
        (Versions { current: tree, pending, next_ticket }, Completion::Published(tree))
    }
}

} // verus!
