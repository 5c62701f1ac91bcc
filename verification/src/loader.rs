//! The directory structure loader: from a snapshot of files and
//! directories to classified nodes.
//!
//! Classification reads names only. It keeps no state, and each entry of a
//! snapshot is classified by itself: a malformed name fails the entry that
//! bears it and no other.

use vstd::prelude::*;
use vstd::slice::slice_subrange;
use crate::bytes::{copy_bytes, path_segments, range_eq, seg_views, split_path, SLASH};
use crate::error::{error_views, ErrorKind, ErrorView, RouteError};
use crate::files::{
    classify_file, file_role, is_file_name, names_file, role_name_views, FileMeta, FileRole,
    RoleName, RoleNameView,
};
use crate::segment::{
    classify_segment, kind_views, parse_segment, InterceptLevel, SegmentKind, SegmentView,
};

verus! {

/// Whether an entry of a snapshot is a directory or a file.
#[derive(Debug, Clone, Copy, PartialEq, Eq, Structural)]
pub enum FileKind {
    Directory,
    File,
}

/// One entry of a snapshot.
#[derive(Debug, Clone, PartialEq, Eq)]
pub struct FileNode {
    pub path: Vec<u8>,
    pub kind: FileKind,
    pub fingerprint: u64,
    pub meta: FileMeta,
}

/// The mathematical content of a snapshot entry.
pub ghost struct FileNodeView {
    pub path: Seq<u8>,
    pub kind: FileKind,
    pub fingerprint: u64,
    pub meta: FileMeta,
}

impl View for FileNode {
    type V = FileNodeView;

    open spec fn view(&self) -> FileNodeView {
        FileNodeView {
            path: self.path@,
            kind: self.kind,
            fingerprint: self.fingerprint,
            meta: self.meta,
        }
    }
}

/// The views of a snapshot.
pub open spec fn file_node_views(v: Seq<FileNode>) -> Seq<FileNodeView> {
    v.map_values(|n: FileNode| n@)
}

/// What the loader goes by.
#[derive(Debug, Clone, PartialEq, Eq)]
pub struct LoaderConfig {
    /// The directory that holds the routes; entries outside it are passed
    /// over.
    pub root: Vec<u8>,
    /// The extensions of source files, without the dot.
    pub extensions: Vec<Vec<u8>>,
    /// The recognized base names.
    pub names: Vec<RoleName>,
    /// Whether the layout is the nested one, in which a directory is a
    /// route and its files play roles, or the flat one, in which every
    /// source file is a page.
    pub app_dir: bool,
}

/// The mathematical content of a loader configuration.
pub ghost struct LoaderConfigView {
    pub root: Seq<u8>,
    pub extensions: Seq<Seq<u8>>,
    pub names: Seq<RoleNameView>,
    pub app_dir: bool,
}

impl View for LoaderConfig {
    type V = LoaderConfigView;

    open spec fn view(&self) -> LoaderConfigView {
        LoaderConfigView {
            root: self.root@,
            extensions: seg_views(self.extensions@),
            names: role_name_views(self.names@),
            app_dir: self.app_dir,
        }
    }
}

/// A classified entry: where it stands in the tree, and the role it plays
/// there if it is a file.
#[derive(Debug, Clone, PartialEq, Eq)]
pub struct ClassifiedNode {
    pub source: Vec<u8>,
    pub segments: Vec<SegmentKind>,
    pub role: Option<FileRole>,
    pub fingerprint: u64,
    pub meta: FileMeta,
}

/// The mathematical content of a classified entry.
pub ghost struct ClassifiedView {
    pub source: Seq<u8>,
    pub segments: Seq<SegmentView>,
    pub role: Option<FileRole>,
    pub fingerprint: u64,
    pub meta: FileMeta,
}

impl View for ClassifiedNode {
    type V = ClassifiedView;

    open spec fn view(&self) -> ClassifiedView {
        ClassifiedView {
            source: self.source@,
            segments: kind_views(self.segments@),
            role: self.role,
            fingerprint: self.fingerprint,
            meta: self.meta,
        }
    }
}

/// The views of a sequence of classified entries.
pub open spec fn classified_views(v: Seq<ClassifiedNode>) -> Seq<ClassifiedView> {
    v.map_values(|n: ClassifiedNode| n@)
}

/// The segments that the names `names[..n]` stand for, if each stands for
/// one.
pub open spec fn parse_all(names: Seq<Seq<u8>>, n: int) -> Option<Seq<SegmentView>>
    decreases n,
{
    if n <= 0 || n > names.len() {
        Some(Seq::empty())
    } else {
        match (parse_all(names, n - 1), parse_segment(names[n - 1])) {
            (Some(front), Some(k)) => Some(front.push(k)),
            _ => None,
        }
    }
}

/// `acc` without its last routing segment and what follows it.
pub open spec fn drop_routing(acc: Seq<SegmentView>) -> Option<Seq<SegmentView>>
    decreases acc.len(),
{
    if acc.len() == 0 {
        None
    } else if acc.last().is_routing() {
        Some(acc.drop_last())
    } else {
        drop_routing(acc.drop_last())
    }
}

/// Where the segments `path[i..]` stand in the tree when `acc` is where
/// those before them stand. An intercept marker stands where its target
/// is looked for: in its own directory, one routing level above it, or at
/// the root. A marker that aims above the root stands nowhere.
pub open spec fn hoist(path: Seq<SegmentView>, i: int, acc: Seq<SegmentView>) -> Option<
    Seq<SegmentView>,
>
    decreases path.len() - i,
{
    if i < 0 || i >= path.len() {
        Some(acc)
    } else {
        match path[i] {
            SegmentView::Intercept(InterceptLevel::Parent, _) => match drop_routing(acc) {
                Some(a) => hoist(path, i + 1, a.push(path[i])),
                None => None,
            },
            SegmentView::Intercept(InterceptLevel::Root, _) => hoist(path, i + 1, seq![path[i]]),
            _ => hoist(path, i + 1, acc.push(path[i])),
        }
    }
}

/// Classifies the names `names[..n]`.
pub(crate) fn classify_names(names: &Vec<Vec<u8>>, n: usize) -> (r: Option<Vec<SegmentKind>>)
    requires
        n <= names@.len(),
    ensures
        match parse_all(seg_views(names@), n as int) {
            Some(ks) => r matches Some(v) && kind_views(v@) == ks,
            None => r is None,
        },
{
    let ghost sv = seg_views(names@);
    let mut out: Vec<SegmentKind> = Vec::new();
    let mut i: usize = 0;
    assert(kind_views(out@) =~= Seq::<SegmentView>::empty());
    while i < n
        invariant
            i <= n <= names@.len(),
            sv == seg_views(names@),
            parse_all(sv, i as int) == Some(kind_views(out@)),
        decreases n - i,
    {
        match classify_segment(names[i].as_slice()) {
            Ok(k) => {
                let ghost before = kind_views(out@);
                let ghost kv = k@;
                out.push(k);
                assert(kind_views(out@) =~= before.push(kv));
            },
            Err(_) => {
                proof {
                    lemma_parse_all_fails(sv, i as int + 1, n as int);
                }
                return None;
            },
        }
        i += 1;
    }
    Some(out)
}

/// Once a name fails to parse, no longer run of names parses.
pub proof fn lemma_parse_all_fails(names: Seq<Seq<u8>>, m: int, n: int)
    requires
        0 < m <= n <= names.len(),
        parse_all(names, m) is None,
    ensures
        parse_all(names, n) is None,
    decreases n - m,
{
    if m < n {
        lemma_parse_all_fails(names, m, n - 1);
    }
}

/// Takes the last routing segment off `acc`, with what follows it.
fn pop_routing(acc: &mut Vec<SegmentKind>) -> (r: bool)
    ensures
        match drop_routing(kind_views(old(acc)@)) {
            Some(a) => r && kind_views(final(acc)@) == a,
            None => !r,
        },
{
    loop
        invariant
            drop_routing(kind_views(old(acc)@)) == drop_routing(kind_views(acc@)),
        decreases acc@.len(),
    {
        let ghost before = kind_views(acc@);
        match acc.pop() {
            None => {
                return false;
            },
            Some(k) => {
                assert(kind_views(acc@) =~= before.drop_last());
                assert(before.last() == k@);
                match k {
                    SegmentKind::Group(_) => {},
                    SegmentKind::ParallelSlot(_) => {},
                    _ => {
                        return true;
                    },
                }
            },
        }
    }
}

/// Puts the segments `path` where they stand in the tree.
pub fn hoist_path(path: Vec<SegmentKind>) -> (r: Option<Vec<SegmentKind>>)
    ensures
        match hoist(kind_views(path@), 0, Seq::empty()) {
            Some(p) => r matches Some(v) && kind_views(v@) == p,
            None => r is None,
        },
{
    let ghost pv = kind_views(path@);
    let mut acc: Vec<SegmentKind> = Vec::new();
    let mut i: usize = 0;
    assert(kind_views(acc@) =~= Seq::<SegmentView>::empty());
    while i < path.len()
        invariant
            i <= path@.len(),
            pv == kind_views(path@),
            hoist(pv, 0, Seq::empty()) == hoist(pv, i as int, kind_views(acc@)),
        decreases path@.len() - i,
    {
        let k = path[i].duplicate();
        let ghost before = kind_views(acc@);
        match &path[i] {
            SegmentKind::Intercept(InterceptLevel::Parent, _) => {
                if !pop_routing(&mut acc) {
                    return None;
                }
                let ghost mid = kind_views(acc@);
                acc.push(k);
                assert(kind_views(acc@) =~= mid.push(pv[i as int]));
            },
            SegmentKind::Intercept(InterceptLevel::Root, _) => {
                acc = Vec::new();
                acc.push(k);
                assert(kind_views(acc@) =~= seq![pv[i as int]]);
            },
            _ => {
                acc.push(k);
                assert(kind_views(acc@) =~= before.push(pv[i as int]));
            },
        }
        i += 1;
    }
    Some(acc)
}

/// The outcome of classifying one entry.
#[derive(Debug, Clone, PartialEq, Eq)]
pub enum Loaded {
    /// Outside the root, or a plain asset.
    Skipped,
    /// A directory, or a file that plays a role.
    Node(ClassifiedNode),
    /// An entry with a malformed name on its path.
    Failed(RouteError),
}

/// The mathematical content of an outcome.
pub ghost enum LoadedView {
    Skipped,
    Node(ClassifiedView),
    Failed(ErrorView),
}

impl View for Loaded {
    type V = LoadedView;

    open spec fn view(&self) -> LoadedView {
        match self {
            Loaded::Skipped => LoadedView::Skipped,
            Loaded::Node(n) => LoadedView::Node(n@),
            Loaded::Failed(e) => LoadedView::Failed(e@),
        }
    }
}

/// The base name that stands for the directory itself in the flat layout:
/// `index`.
pub open spec fn index_name() -> Seq<u8> {
    seq![105u8, 110, 100, 101, 120]
}

/// Whether `path` is the root or lies below it.
pub open spec fn under_root(path: Seq<u8>, root: Seq<u8>) -> bool {
    &&& root.len() <= path.len()
    &&& path.subrange(0, root.len() as int) == root
    &&& (root.len() == 0 || path.len() == root.len() || path[root.len() as int] == SLASH)
}

/// The part of `name` before the dot and the first extension from `j` on
/// that ends it.
pub open spec fn page_stem(name: Seq<u8>, exts: Seq<Seq<u8>>, j: int) -> Option<Seq<u8>>
    decreases exts.len() - j,
{
    if j < 0 || j >= exts.len() {
        None
    } else {
        let cut = name.len() - exts[j].len() - 1;
        if cut >= 0 && is_file_name(name, name.subrange(0, cut), exts[j]) {
            Some(name.subrange(0, cut))
        } else {
            page_stem(name, exts, j + 1)
        }
    }
}

/// The outcome for an entry whose directory names are `names[..n]`.
pub open spec fn finish(
    node: FileNodeView,
    names: Seq<Seq<u8>>,
    n: int,
    role: Option<FileRole>,
) -> LoadedView {
    let failed = LoadedView::Failed(
        ErrorView { kind: ErrorKind::InvalidSegmentSyntax, path: node.path, other: Seq::empty() },
    );
    match parse_all(names, n) {
        None => failed,
        Some(kinds) => match hoist(kinds, 0, Seq::empty()) {
            None => failed,
            Some(p) => LoadedView::Node(
                ClassifiedView {
                    source: node.path,
                    segments: p,
                    role,
                    fingerprint: node.fingerprint,
                    meta: node.meta,
                },
            ),
        },
    }
}

/// The outcome of classifying one entry of a snapshot.
///
/// A directory is classified by the names on its path below the root. In
/// the nested layout a file is classified by the names of its directories
/// and plays the role of its base name; a file without a role is passed
/// over. In the flat layout a file with one of the extensions is a page at
/// its directories and its own stem, `index` standing for the directory.
pub open spec fn classify(node: FileNodeView, cfg: LoaderConfigView) -> LoadedView {
    if !under_root(node.path, cfg.root) {
        LoadedView::Skipped
    } else {
        let segs = path_segments(node.path.skip(cfg.root.len() as int));
        if node.kind == FileKind::Directory {
            finish(node, segs, segs.len() as int, None)
        } else if segs.len() == 0 {
            LoadedView::Skipped
        } else if cfg.app_dir {
            match file_role(segs.last(), cfg.names, cfg.extensions) {
                None => LoadedView::Skipped,
                Some(role) => finish(node, segs, segs.len() - 1, Some(role)),
            }
        } else {
            match page_stem(segs.last(), cfg.extensions, 0) {
                None => LoadedView::Skipped,
                Some(stem) => if stem == index_name() {
                    finish(node, segs, segs.len() - 1, Some(FileRole::Page))
                } else {
                    finish(
                        node,
                        segs.drop_last().push(stem),
                        segs.len() as int,
                        Some(FileRole::Page),
                    )
                },
            }
        }
    }
}

/// Whether `path` is the root or lies below it.
pub fn is_under_root(path: &[u8], root: &[u8]) -> (r: bool)
    ensures
        r == under_root(path@, root@),
{
    let n: usize = root.len();
    if n > path.len() {
        return false;
    }
    if !range_eq(path, 0, n, root) {
        return false;
    }
    n == 0 || path.len() == n || path[n] == SLASH
}

/// The length of the part of `name` before the dot and the first
/// extension that ends it.
pub fn find_stem(name: &[u8], exts: &Vec<Vec<u8>>) -> (r: Option<usize>)
    ensures
        match page_stem(name@, seg_views(exts@), 0) {
            Some(stem) => r matches Some(cut) && cut <= name@.len() && stem == name@.subrange(
                0,
                cut as int,
            ),
            None => r is None,
        },
{
    let ghost xs = seg_views(exts@);
    let mut j: usize = 0;
    while j < exts.len()
        invariant
            j <= exts@.len(),
            xs == seg_views(exts@),
            page_stem(name@, xs, 0) == page_stem(name@, xs, j as int),
        decreases exts@.len() - j,
    {
        let e: usize = exts[j].len();
        if name.len() > e {
            let cut: usize = name.len() - e - 1;
            if names_file(name, slice_subrange(name, 0, cut), exts[j].as_slice()) {
                return Some(cut);
            }
        }
        j += 1;
    }
    None
}

/// The outcome for an entry whose directory names are `names[..n]`.
fn finish_node(node: &FileNode, names: &Vec<Vec<u8>>, n: usize, role: Option<FileRole>) -> (r:
    Loaded)
    requires
        n <= names@.len(),
    ensures
        r@ == finish(node@, seg_views(names@), n as int, role),
{
    match classify_names(names, n) {
        None => Loaded::Failed(
            RouteError::InvalidSegmentSyntax { path: copy_bytes(node.path.as_slice()) },
        ),
        Some(kinds) => match hoist_path(kinds) {
            None => Loaded::Failed(
                RouteError::InvalidSegmentSyntax { path: copy_bytes(node.path.as_slice()) },
            ),
            Some(p) => Loaded::Node(
                ClassifiedNode {
                    source: copy_bytes(node.path.as_slice()),
                    segments: p,
                    role,
                    fingerprint: node.fingerprint,
                    meta: node.meta,
                },
            ),
        },
    }
}

/// Whether `name` is `index`.
fn is_index(name: &[u8]) -> (r: bool)
    ensures
        r == (name@ == index_name()),
{
    let r = name.len() == 5 && name[0] == 105 && name[1] == 110 && name[2] == 100 && name[3] == 101
        && name[4] == 120;
    if r {
        assert(name@ =~= index_name());
    }
    r
}

/// Classifies one entry of a snapshot.
pub fn classify_node(node: &FileNode, cfg: &LoaderConfig) -> (r: Loaded)
    ensures
        r@ == classify(node@, cfg@),
{
    if !is_under_root(node.path.as_slice(), cfg.root.as_slice()) {
        return Loaded::Skipped;
    }
    let rel = slice_subrange(node.path.as_slice(), cfg.root.len(), node.path.len());
    assert(rel@ =~= node.path@.skip(cfg.root@.len() as int));
    let mut segs = split_path(rel);
    let n: usize = segs.len();
    let ghost sv = seg_views(segs@);
    match node.kind {
        FileKind::Directory => finish_node(node, &segs, n, None),
        FileKind::File => {
            if n == 0 {
                return Loaded::Skipped;
            }
            assert(sv.last() == segs@[n - 1]@);
            if cfg.app_dir {
                match classify_file(segs[n - 1].as_slice(), &cfg.names, &cfg.extensions) {
                    None => Loaded::Skipped,
                    Some(role) => finish_node(node, &segs, n - 1, Some(role)),
                }
            } else {
                match find_stem(segs[n - 1].as_slice(), &cfg.extensions) {
                    None => Loaded::Skipped,
                    Some(cut) => {
                        let stem = crate::bytes::copy_range(segs[n - 1].as_slice(), 0, cut);
                        if is_index(stem.as_slice()) {
                            finish_node(node, &segs, n - 1, Some(FileRole::Page))
                        } else {
                            let ghost sv_stem = stem@;
                            segs.pop();
                            segs.push(stem);
                            assert(seg_views(segs@) =~= sv.drop_last().push(sv_stem));
                            finish_node(node, &segs, n, Some(FileRole::Page))
                        }
                    },
                }
            }
        },
    }
}

/// The classified entries among the first `n` of a snapshot, in order.
pub open spec fn loaded_nodes(snapshot: Seq<FileNodeView>, cfg: LoaderConfigView, n: int) -> Seq<
    ClassifiedView,
>
    decreases n,
{
    if n <= 0 || n > snapshot.len() {
        Seq::empty()
    } else {
        let front = loaded_nodes(snapshot, cfg, n - 1);
        match classify(snapshot[n - 1], cfg) {
            LoadedView::Node(c) => front.push(c),
            _ => front,
        }
    }
}

/// The errors of the first `n` entries of a snapshot, in order.
pub open spec fn loaded_errors(snapshot: Seq<FileNodeView>, cfg: LoaderConfigView, n: int) -> Seq<
    ErrorView,
>
    decreases n,
{
    if n <= 0 || n > snapshot.len() {
        Seq::empty()
    } else {
        let front = loaded_errors(snapshot, cfg, n - 1);
        match classify(snapshot[n - 1], cfg) {
            LoadedView::Failed(e) => front.push(e),
            _ => front,
        }
    }
}

/// What loading a snapshot gives: the classified entries, and the errors
/// of the entries that could not be classified.
#[derive(Debug, Clone, PartialEq, Eq)]
pub struct Loading {
    pub nodes: Vec<ClassifiedNode>,
    pub errors: Vec<RouteError>,
}

/// Classifies every entry of a snapshot. An entry that fails is reported
/// and left out; the others are not affected.
pub fn load(snapshot: &Vec<FileNode>, cfg: &LoaderConfig) -> (r: Loading)
    ensures
        classified_views(r.nodes@) == loaded_nodes(
            file_node_views(snapshot@),
            cfg@,
            snapshot@.len() as int,
        ),
        error_views(r.errors@) == loaded_errors(
            file_node_views(snapshot@),
            cfg@,
            snapshot@.len() as int,
        ),
{
    let ghost sv = file_node_views(snapshot@);
    let mut nodes: Vec<ClassifiedNode> = Vec::new();
    let mut errors: Vec<RouteError> = Vec::new();
    let mut i: usize = 0;
    assert(classified_views(nodes@) =~= Seq::<ClassifiedView>::empty());
    assert(error_views(errors@) =~= Seq::<ErrorView>::empty());
    while i < snapshot.len()
        invariant
            i <= snapshot@.len(),
            sv == file_node_views(snapshot@),
            classified_views(nodes@) == loaded_nodes(sv, cfg@, i as int),
            error_views(errors@) == loaded_errors(sv, cfg@, i as int),
        decreases snapshot@.len() - i,
    {
        let ghost ns = classified_views(nodes@);
        let ghost es = error_views(errors@);
        match classify_node(&snapshot[i], cfg) {
            Loaded::Skipped => {},
            Loaded::Node(c) => {
                let ghost cv = c@;
                nodes.push(c);
                assert(classified_views(nodes@) =~= ns.push(cv));
            },
            Loaded::Failed(e) => {
                let ghost ev = e@;
                errors.push(e);
                assert(error_views(errors@) =~= es.push(ev));
            },
        }
        i += 1;
    }
    Loading { nodes, errors }
}

} // verus!
