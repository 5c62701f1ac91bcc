//! The source graph assembler: from a matched path to the manifest of the
//! files that make up the route.

use vstd::prelude::*;
use crate::bytes::SLASH;
use crate::error::{ErrorKind, ErrorView, RouteError};
use crate::files::{resolve_files, FileMeta, FileRole, FileView, RoleMap, SourceFile};
use crate::segment::SegmentView;
use crate::store::{RouteStore, StoreView};

verus! {

/// The files of one route, in the order in which they wrap each other.
#[derive(Debug, Clone, PartialEq, Eq)]
pub struct RouteManifest {
    /// The version of the tree that the manifest was assembled from.
    pub version: u64,
    /// Layouts and templates from the root down to the leaf, then the
    /// leaf's page or handler.
    pub chain: Vec<SourceFile>,
    pub loading: Option<SourceFile>,
    pub error: Option<SourceFile>,
    pub template: Option<SourceFile>,
    pub default: Option<SourceFile>,
    pub not_found: Option<SourceFile>,
    /// What the leaf's page or handler declares of itself.
    pub meta: FileMeta,
}

/// The mathematical content of a manifest.
pub ghost struct ManifestView {
    pub version: u64,
    pub chain: Seq<FileView>,
    pub loading: Option<FileView>,
    pub error: Option<FileView>,
    pub template: Option<FileView>,
    pub default: Option<FileView>,
    pub not_found: Option<FileView>,
    pub meta: FileMeta,
}

/// The view of an optional file.
pub open spec fn opt_view(f: Option<SourceFile>) -> Option<FileView> {
    match f {
        Some(f) => Some(f@),
        None => None,
    }
}

impl View for RouteManifest {
    type V = ManifestView;

    open spec fn view(&self) -> ManifestView {
        ManifestView {
            version: self.version,
            chain: crate::files::file_views(self.chain@),
            loading: opt_view(self.loading),
            error: opt_view(self.error),
            template: opt_view(self.template),
            default: opt_view(self.default),
            not_found: opt_view(self.not_found),
            meta: self.meta,
        }
    }
}

/// The files bound at the node `id`; none at an index that the store does
/// not hold.
pub open spec fn files_at(s: StoreView, id: usize) -> RoleMap<FileView> {
    if s.has_node(id as int) {
        resolve_files(s.nodes[id as int].files, s.files)
    } else {
        RoleMap::empty()
    }
}

/// The segment of the node `id`; the empty name at an index that the store
/// does not hold.
pub open spec fn kind_at(s: StoreView, id: usize) -> SegmentView {
    if s.has_node(id as int) {
        s.nodes[id as int].kind
    } else {
        SegmentView::Static(Seq::empty())
    }
}

/// The files bound at each node of a path.
pub open spec fn files_along(s: StoreView, path: Seq<usize>) -> Seq<RoleMap<FileView>> {
    path.map_values(|id: usize| files_at(s, id))
}

/// The segments of the nodes of a path.
pub open spec fn kinds_along(s: StoreView, path: Seq<usize>) -> Seq<SegmentView> {
    path.map_values(|id: usize| kind_at(s, id))
}

/// The file, if there is one, as a sequence.
pub open spec fn opt_seq(f: Option<FileView>) -> Seq<FileView> {
    match f {
        Some(f) => seq![f],
        None => Seq::empty(),
    }
}

/// The layouts and templates of the first `n` nodes, outermost first, the
/// layout of a node before its template.
pub open spec fn wrappers(fs: Seq<RoleMap<FileView>>, n: int) -> Seq<FileView>
    decreases n,
{
    if n <= 0 || n > fs.len() {
        Seq::empty()
    } else {
        wrappers(fs, n - 1) + opt_seq(fs[n - 1].layout) + opt_seq(fs[n - 1].template)
    }
}

/// The file bound to the role at the innermost of the first `n` nodes that
/// binds one.
pub open spec fn nearest(fs: Seq<RoleMap<FileView>>, role: FileRole, n: int) -> Option<FileView>
    decreases n,
{
    if n <= 0 || n > fs.len() {
        None
    } else {
        match fs[n - 1].get(role) {
            Some(f) => Some(f),
            None => nearest(fs, role, n - 1),
        }
    }
}

/// The file that serves a leaf: its page, or else its handler.
pub open spec fn leaf_file(files: RoleMap<FileView>) -> Option<FileView> {
    if files.page is Some {
        files.page
    } else {
        files.handler
    }
}

/// The path as it is shown: a slash and the directory name for each of the
/// first `n` segments but the root's.
pub open spec fn shown(kinds: Seq<SegmentView>, n: int) -> Seq<u8>
    decreases n,
{
    if n <= 1 || n > kinds.len() {
        Seq::empty()
    } else {
        shown(kinds, n - 1) + seq![SLASH] + kinds[n - 1].dir_name()
    }
}

/// The path of a node as it is shown, groups and slots included. The root
/// is shown as a slash.
pub open spec fn display(kinds: Seq<SegmentView>) -> Seq<u8> {
    if kinds.len() <= 1 {
        seq![SLASH]
    } else {
        shown(kinds, kinds.len() as int)
    }
}

/// The manifest of the route whose nodes, from the root to the leaf, bind
/// the files `fs`; none where the leaf has neither page nor handler.
pub open spec fn manifest_of(fs: Seq<RoleMap<FileView>>, version: u64) -> Option<ManifestView> {
    if fs.len() == 0 {
        None
    } else {
        let n = fs.len() as int;
        match leaf_file(fs.last()) {
            None => None,
            Some(f) => Some(
                ManifestView {
                    version,
                    chain: wrappers(fs, n).push(f),
                    loading: nearest(fs, FileRole::Loading, n),
                    error: nearest(fs, FileRole::Error, n),
                    template: nearest(fs, FileRole::Template, n),
                    default: nearest(fs, FileRole::Default, n),
                    not_found: nearest(fs, FileRole::NotFound, n),
                    meta: f.meta,
                },
            ),
        }
    }
}

/// The indices of the files bound at the node `id`.
fn ids_at(store: &RouteStore, id: usize) -> (r: RoleMap<usize>)
    ensures
        r.below(store@.files.len() as int),
        resolve_files(r, store@.files) == files_at(store@, id),
{
    match store.get_node(id) {
        Some(node) => {
            store.use_wf();
            assert(store@.nodes[id as int].files.below(store@.files.len() as int));
            node.files
        },
        None => {
            let r: RoleMap<usize> = RoleMap::new();
            assert(r.below(store@.files.len() as int)) by {
                assert forall|role: FileRole| (#[trigger] r.get(role)) is None by {}
            }
            r
        },
    }
}

/// A copy of the stored file, if there is an index.
fn fetch(store: &RouteStore, id: Option<usize>) -> (r: Option<SourceFile>)
    requires
        id matches Some(f) ==> f < store@.files.len(),
    ensures
        opt_view(r) == crate::files::resolve_file(id, store@.files),
{
    match id {
        Some(f) => Some(store.file(f).duplicate()),
        None => None,
    }
}

/// The path of the last node of `path` as it is shown.
pub fn display_path(store: &RouteStore, path: &Vec<usize>) -> (r: Vec<u8>)
    ensures
        r@ == display(kinds_along(store@, path@)),
{
    let ghost ks = kinds_along(store@, path@);
    let mut out: Vec<u8> = Vec::new();
    if path.len() <= 1 {
        out.push(SLASH);
        assert(out@ =~= seq![SLASH]);
        return out;
    }
    let mut i: usize = 1;
    assert(out@ =~= shown(ks, 1));
    while i < path.len()
        invariant
            1 <= i <= path@.len(),
            ks == kinds_along(store@, path@),
            out@ == shown(ks, i as int),
        decreases path@.len() - i,
    {
        let ghost before = out@;
        out.push(SLASH);
        match store.get_node(path[i]) {
            Some(node) => {
                node.kind.write_dir_name(&mut out);
            },
            None => {},
        }
        assert(out@ =~= before + seq![SLASH] + ks[i as int].dir_name());
        i += 1;
    }
    out
}

/// Assembles the manifest of the route that ends the path `path` of nodes
/// from the root to the leaf. A leaf with neither page nor handler has no
/// manifest: it is reported with its path as it is shown.
pub fn assemble(store: &RouteStore, version: u64, path: &Vec<usize>) -> (r: Result<
    RouteManifest,
    RouteError,
>)
    ensures
        match manifest_of(files_along(store@, path@), version) {
            Some(m) => r matches Ok(x) && x@ == m,
            None => r matches Err(e) && e@ == (ErrorView {
                kind: ErrorKind::MissingRequiredFile,
                path: display(kinds_along(store@, path@)),
                other: Seq::empty(),
            }),
        },
{
    let ghost s = store@;
    let ghost fs = files_along(s, path@);
    let n: usize = path.len();
    let mut chain: Vec<SourceFile> = Vec::new();
    let mut loading: Option<usize> = None;
    let mut error: Option<usize> = None;
    let mut template: Option<usize> = None;
    let mut default: Option<usize> = None;
    let mut not_found: Option<usize> = None;
    let mut leaf: Option<usize> = None;
    let mut i: usize = 0;
    assert(crate::files::file_views(chain@) =~= Seq::<FileView>::empty());
    while i < n
        invariant
            i <= n,
            n == path@.len(),
            s == store@,
            fs == files_along(s, path@),
            crate::files::file_views(chain@) == wrappers(fs, i as int),
            loading matches Some(f) ==> f < s.files.len(),
            error matches Some(f) ==> f < s.files.len(),
            template matches Some(f) ==> f < s.files.len(),
            default matches Some(f) ==> f < s.files.len(),
            not_found matches Some(f) ==> f < s.files.len(),
            leaf matches Some(f) ==> f < s.files.len(),
            crate::files::resolve_file(loading, s.files) == nearest(fs, FileRole::Loading, i as int),
            crate::files::resolve_file(error, s.files) == nearest(fs, FileRole::Error, i as int),
            crate::files::resolve_file(template, s.files) == nearest(
                fs,
                FileRole::Template,
                i as int,
            ),
            crate::files::resolve_file(default, s.files) == nearest(fs, FileRole::Default, i as int),
            crate::files::resolve_file(not_found, s.files) == nearest(
                fs,
                FileRole::NotFound,
                i as int,
            ),
            i == 0 ==> leaf is None,
            i > 0 ==> crate::files::resolve_file(leaf, s.files) == leaf_file(fs[i - 1]),
        decreases n - i,
    {
        let ids = ids_at(store, path[i]);
        proof {
            assert(fs[i as int] == files_at(s, path@[i as int]));
            assert(ids.get(FileRole::Layout) == ids.layout);
            assert(ids.get(FileRole::Template) == ids.template);
            assert(ids.get(FileRole::Loading) == ids.loading);
            assert(ids.get(FileRole::Error) == ids.error);
            assert(ids.get(FileRole::Default) == ids.default);
            assert(ids.get(FileRole::NotFound) == ids.not_found);
            assert(ids.get(FileRole::Page) == ids.page);
            assert(ids.get(FileRole::Handler) == ids.handler);
        }
        let ghost c0 = crate::files::file_views(chain@);
        match ids.layout {
            Some(f) => {
                let file = store.file(f).duplicate();
                chain.push(file);
                assert(crate::files::file_views(chain@) =~= c0 + opt_seq(fs[i as int].layout));
            },
            None => {
                assert(c0 =~= c0 + opt_seq(fs[i as int].layout));
            },
        }
        let ghost c1 = crate::files::file_views(chain@);
        match ids.template {
            Some(f) => {
                let file = store.file(f).duplicate();
                chain.push(file);
                assert(crate::files::file_views(chain@) =~= c1 + opt_seq(fs[i as int].template));
                template = Some(f);
            },
            None => {
                assert(c1 =~= c1 + opt_seq(fs[i as int].template));
            },
        }
        if ids.loading.is_some() {
            loading = ids.loading;
        }
        if ids.error.is_some() {
            error = ids.error;
        }
        if ids.default.is_some() {
            default = ids.default;
        }
        if ids.not_found.is_some() {
            not_found = ids.not_found;
        }
        leaf = if ids.page.is_some() {
            ids.page
        } else {
            ids.handler
        };
        i += 1;
    }
    if n > 0 {
        assert(fs.last() == fs[n - 1]);
    }
    match leaf {
        None => Err(RouteError::MissingRequiredFile { path: display_path(store, path) }),
        Some(f) => {
            let file = store.file(f).duplicate();
            let meta = file.meta;
            let ghost c = crate::files::file_views(chain@);
            let ghost fv = file@;
            chain.push(file);
            assert(crate::files::file_views(chain@) =~= c.push(fv));
            Ok(
                RouteManifest {
                    version,
                    chain,
                    loading: fetch(store, loading),
                    error: fetch(store, error),
                    template: fetch(store, template),
                    default: fetch(store, default),
                    not_found: fetch(store, not_found),
                    meta,
                },
            )
        },
    }
}

} // verus!
