//! Special files: the roles a file can play at a route, and what a source
//! file declares of itself.

use vstd::prelude::*;
use crate::bytes::{copy_bytes, range_eq, DOT};

verus! {

/// The role that a recognized file plays at its directory.
#[derive(Debug, Clone, Copy, PartialEq, Eq, Structural)]
pub enum FileRole {
    Page,
    Layout,
    Loading,
    Error,
    Template,
    Handler,
    Default,
    NotFound,
    Middleware,
}

/// An HTTP request method.
#[derive(Debug, Clone, Copy, PartialEq, Eq, Structural)]
pub enum Method {
    Get,
    Head,
    Post,
    Put,
    Delete,
    Patch,
    Options,
}

/// The methods that a route handler answers.
#[derive(Debug, Clone, Copy, PartialEq, Eq, Structural)]
pub struct MethodSet {
    pub get: bool,
    pub head: bool,
    pub post: bool,
    pub put: bool,
    pub delete: bool,
    pub patch: bool,
    pub options: bool,
}

impl MethodSet {
    /// Whether the set holds the method.
    pub open spec fn allows(self, m: Method) -> bool {
        match m {
            Method::Get => self.get,
            Method::Head => self.head,
            Method::Post => self.post,
            Method::Put => self.put,
            Method::Delete => self.delete,
            Method::Patch => self.patch,
            Method::Options => self.options,
        }
    }

    /// Whether the set holds the method.
    pub fn permits(&self, m: Method) -> (r: bool)
        ensures
            r == self.allows(m),
    {
        match m {
            Method::Get => self.get,
            Method::Head => self.head,
            Method::Post => self.post,
            Method::Put => self.put,
            Method::Delete => self.delete,
            Method::Patch => self.patch,
            Method::Options => self.options,
        }
    }

    /// The set of every method.
    pub fn all() -> (r: MethodSet)
        ensures
            forall|m: Method| r.allows(m),
    {
        MethodSet {
            get: true,
            head: true,
            post: true,
            put: true,
            delete: true,
            patch: true,
            options: true,
        }
    }

    /// The empty set.
    pub fn none() -> (r: MethodSet)
        ensures
            forall|m: Method| !r.allows(m),
    {
        MethodSet {
            get: false,
            head: false,
            post: false,
            put: false,
            delete: false,
            patch: false,
            options: false,
        }
    }

    /// The set with one more method.
    pub fn with(self, m: Method) -> (r: MethodSet)
        ensures
            forall|x: Method| r.allows(x) == (x == m || self.allows(x)),
    {
        let mut r = self;
        match m {
            Method::Get => {
                r.get = true;
            },
            Method::Head => {
                r.head = true;
            },
            Method::Post => {
                r.post = true;
            },
            Method::Put => {
                r.put = true;
            },
            Method::Delete => {
                r.delete = true;
            },
            Method::Patch => {
                r.patch = true;
            },
            Method::Options => {
                r.options = true;
            },
        }
        r
    }
}

/// The runtime that a file declares for itself.
#[derive(Debug, Clone, Copy, PartialEq, Eq, Structural)]
pub enum Runtime {
    Node,
    Edge,
}

/// The revalidation policy that a file declares for itself.
#[derive(Debug, Clone, Copy, PartialEq, Eq, Structural)]
pub enum Revalidate {
    Never,
    Always,
    Every(u64),
}

/// What a source file declares of itself. The tree carries it through
/// unexamined, but for the methods of a handler.
#[derive(Debug, Clone, Copy, PartialEq, Eq, Structural)]
pub struct FileMeta {
    pub dynamic: bool,
    pub runtime: Runtime,
    pub revalidate: Revalidate,
    pub methods: MethodSet,
}

/// A file that contributes to a route.
#[derive(Debug, Clone, PartialEq, Eq)]
pub struct SourceFile {
    pub path: Vec<u8>,
    pub fingerprint: u64,
    pub meta: FileMeta,
}

/// The mathematical content of a source file.
pub ghost struct FileView {
    pub path: Seq<u8>,
    pub fingerprint: u64,
    pub meta: FileMeta,
}

impl View for SourceFile {
    type V = FileView;

    open spec fn view(&self) -> FileView {
        FileView { path: self.path@, fingerprint: self.fingerprint, meta: self.meta }
    }
}

/// The views of a sequence of source files.
pub open spec fn file_views(v: Seq<SourceFile>) -> Seq<FileView> {
    v.map_values(|f: SourceFile| f@)
}

impl SourceFile {
    /// A fresh copy of the file.
    pub fn duplicate(&self) -> (r: SourceFile)
        ensures
            r@ == self@,
    {
        SourceFile {
            path: copy_bytes(self.path.as_slice()),
            fingerprint: self.fingerprint,
            meta: self.meta,
        }
    }
}

/// One optional value for each role.
#[derive(Debug, Clone, Copy, PartialEq, Eq)]
pub struct RoleMap<T> {
    pub page: Option<T>,
    pub layout: Option<T>,
    pub loading: Option<T>,
    pub error: Option<T>,
    pub template: Option<T>,
    pub handler: Option<T>,
    pub default: Option<T>,
    pub not_found: Option<T>,
    pub middleware: Option<T>,
}

impl<T> RoleMap<T> {
    /// The map that binds nothing.
    pub open spec fn empty() -> RoleMap<T> {
        RoleMap {
            page: None,
            layout: None,
            loading: None,
            error: None,
            template: None,
            handler: None,
            default: None,
            not_found: None,
            middleware: None,
        }
    }

    /// What the map binds to the role.
    pub open spec fn get(self, role: FileRole) -> Option<T> {
        match role {
            FileRole::Page => self.page,
            FileRole::Layout => self.layout,
            FileRole::Loading => self.loading,
            FileRole::Error => self.error,
            FileRole::Template => self.template,
            FileRole::Handler => self.handler,
            FileRole::Default => self.default,
            FileRole::NotFound => self.not_found,
            FileRole::Middleware => self.middleware,
        }
    }

    /// The map with the role bound to `v`.
    pub open spec fn set(self, role: FileRole, v: Option<T>) -> RoleMap<T> {
        match role {
            FileRole::Page => RoleMap { page: v, ..self },
            FileRole::Layout => RoleMap { layout: v, ..self },
            FileRole::Loading => RoleMap { loading: v, ..self },
            FileRole::Error => RoleMap { error: v, ..self },
            FileRole::Template => RoleMap { template: v, ..self },
            FileRole::Handler => RoleMap { handler: v, ..self },
            FileRole::Default => RoleMap { default: v, ..self },
            FileRole::NotFound => RoleMap { not_found: v, ..self },
            FileRole::Middleware => RoleMap { middleware: v, ..self },
        }
    }
}

impl RoleMap<usize> {
    /// The map that binds nothing.
    pub fn new() -> (r: RoleMap<usize>)
        ensures
            r == RoleMap::<usize>::empty(),
    {
        RoleMap {
            page: None,
            layout: None,
            loading: None,
            error: None,
            template: None,
            handler: None,
            default: None,
            not_found: None,
            middleware: None,
        }
    }

    /// The map with the role bound to `v`.
    pub fn bind(&self, role: FileRole, v: Option<usize>) -> (r: RoleMap<usize>)
        ensures
            r == self.set(role, v),
    {
        let mut r = *self;
        match role {
            FileRole::Page => {
                r.page = v;
            },
            FileRole::Layout => {
                r.layout = v;
            },
            FileRole::Loading => {
                r.loading = v;
            },
            FileRole::Error => {
                r.error = v;
            },
            FileRole::Template => {
                r.template = v;
            },
            FileRole::Handler => {
                r.handler = v;
            },
            FileRole::Default => {
                r.default = v;
            },
            FileRole::NotFound => {
                r.not_found = v;
            },
            FileRole::Middleware => {
                r.middleware = v;
            },
        }
        r
    }

    /// Whether every bound index is below `n`.
    pub open spec fn below(self, n: int) -> bool {
        forall|role: FileRole| (#[trigger] self.get(role)) matches Some(f) ==> f < n
    }
}

/// The files that a map of indices stands for.
pub open spec fn resolve_files(ids: RoleMap<usize>, files: Seq<FileView>) -> RoleMap<FileView> {
    RoleMap {
        page: resolve_file(ids.page, files),
        layout: resolve_file(ids.layout, files),
        loading: resolve_file(ids.loading, files),
        error: resolve_file(ids.error, files),
        template: resolve_file(ids.template, files),
        handler: resolve_file(ids.handler, files),
        default: resolve_file(ids.default, files),
        not_found: resolve_file(ids.not_found, files),
        middleware: resolve_file(ids.middleware, files),
    }
}

/// The file that an optional index stands for.
pub open spec fn resolve_file(id: Option<usize>, files: Seq<FileView>) -> Option<FileView> {
    match id {
        Some(f) => if f < files.len() {
            Some(files[f as int])
        } else {
            None
        },
        None => None,
    }
}

/// Whether a request with the given method can be served from these files:
/// by a page, whatever the method, or by a handler that answers it.
pub open spec fn servable(files: RoleMap<FileView>, method: Method) -> bool {
    files.page is Some || (files.handler matches Some(h) && h.meta.methods.allows(method))
}

/// A recognized base name and the role it gives a file.
#[derive(Debug, Clone, PartialEq, Eq)]
pub struct RoleName {
    pub stem: Vec<u8>,
    pub role: FileRole,
}

/// The mathematical content of a recognized base name.
pub ghost struct RoleNameView {
    pub stem: Seq<u8>,
    pub role: FileRole,
}

impl View for RoleName {
    type V = RoleNameView;

    open spec fn view(&self) -> RoleNameView {
        RoleNameView { stem: self.stem@, role: self.role }
    }
}

/// The views of a table of recognized base names.
pub open spec fn role_name_views(v: Seq<RoleName>) -> Seq<RoleNameView> {
    v.map_values(|n: RoleName| n@)
}

/// Whether `name` is `stem`, a dot and `ext`.
pub open spec fn is_file_name(name: Seq<u8>, stem: Seq<u8>, ext: Seq<u8>) -> bool {
    name == stem + seq![DOT] + ext
}

/// Whether `name` is `stem`, a dot and one of the extensions.
pub open spec fn has_extension(name: Seq<u8>, stem: Seq<u8>, exts: Seq<Seq<u8>>) -> bool {
    exists|j: int| 0 <= j < exts.len() && is_file_name(name, stem, #[trigger] exts[j])
}

/// The role of the first entry from `i` on whose stem, with one of the
/// extensions, makes up `name`.
pub open spec fn role_from(
    name: Seq<u8>,
    table: Seq<RoleNameView>,
    exts: Seq<Seq<u8>>,
    i: int,
) -> Option<FileRole>
    decreases table.len() - i,
{
    if i < 0 || i >= table.len() {
        None
    } else if has_extension(name, table[i].stem, exts) {
        Some(table[i].role)
    } else {
        role_from(name, table, exts, i + 1)
    }
}

/// The role that a file name has under a table of recognized base names
/// and a list of extensions; `None` for a plain asset.
pub open spec fn file_role(name: Seq<u8>, table: Seq<RoleNameView>, exts: Seq<Seq<u8>>) -> Option<
    FileRole,
> {
    role_from(name, table, exts, 0)
}

/// Whether `name` is `stem`, a dot and `ext`.
pub fn names_file(name: &[u8], stem: &[u8], ext: &[u8]) -> (r: bool)
    ensures
        r == is_file_name(name@, stem@, ext@),
{
    let n: usize = name.len();
    let s: usize = stem.len();
    if n < s || n - s < 1 || n - s - 1 != ext.len() {
        assert((stem@ + seq![DOT] + ext@).len() == stem@.len() + 1 + ext@.len());
        return false;
    }
    let ghost whole = stem@ + seq![DOT] + ext@;
    if !range_eq(name, 0, s, stem) {
        assert(whole.subrange(0, s as int) =~= stem@);
        return false;
    }
    if name[s] != DOT {
        assert(whole[s as int] == DOT);
        return false;
    }
    if !range_eq(name, s + 1, n, ext) {
        assert(whole.subrange(s + 1, n as int) =~= ext@);
        return false;
    }
    assert(name@ =~= whole) by {
        assert forall|i: int| 0 <= i < n implies name@[i] == whole[i] by {
            if i < s {
                assert(name@.subrange(0, s as int)[i] == stem@[i]);
            } else if i > s {
                assert(name@.subrange(s + 1, n as int)[i - s - 1] == ext@[i - s - 1]);
            }
        }
    }
    true
}

/// Whether `name` is `stem`, a dot and one of the extensions.
pub fn names_file_any(name: &[u8], stem: &[u8], exts: &Vec<Vec<u8>>) -> (r: bool)
    ensures
        r == has_extension(name@, stem@, crate::bytes::seg_views(exts@)),
{
    let ghost xs = crate::bytes::seg_views(exts@);
    let mut j: usize = 0;
    while j < exts.len()
        invariant
            j <= exts@.len(),
            xs == crate::bytes::seg_views(exts@),
            forall|k: int| 0 <= k < j ==> !is_file_name(name@, stem@, #[trigger] xs[k]),
        decreases exts@.len() - j,
    {
        if names_file(name, stem, exts[j].as_slice()) {
            assert(is_file_name(name@, stem@, xs[j as int]));
            return true;
        }
        j += 1;
    }
    false
}

/// The role of a file name: that of the first recognized base name which,
/// with one of the extensions, makes up the name. Any other file is a plain
/// asset and has none.
pub fn classify_file(name: &[u8], table: &Vec<RoleName>, exts: &Vec<Vec<u8>>) -> (r: Option<
    FileRole,
>)
    ensures
        r == file_role(name@, role_name_views(table@), crate::bytes::seg_views(exts@)),
{
    let ghost t = role_name_views(table@);
    let ghost xs = crate::bytes::seg_views(exts@);
    let mut i: usize = 0;
    while i < table.len()
        invariant
            i <= table@.len(),
            t == role_name_views(table@),
            xs == crate::bytes::seg_views(exts@),
            role_from(name@, t, xs, 0) == role_from(name@, t, xs, i as int),
        decreases table@.len() - i,
    {
        if names_file_any(name, table[i].stem.as_slice(), exts) {
            return Some(table[i].role);
        }
        i += 1;
    }
    None
}

/// The recognized base names: `page`, `layout`, `loading`, `error`,
/// `template`, `route`, `handler`, `default`, `not-found` and `middleware`.
pub open spec fn standard_names() -> Seq<RoleNameView> {
    seq![
        RoleNameView { stem: seq![112u8, 97, 103, 101], role: FileRole::Page },
        RoleNameView { stem: seq![108u8, 97, 121, 111, 117, 116], role: FileRole::Layout },
        RoleNameView { stem: seq![108u8, 111, 97, 100, 105, 110, 103], role: FileRole::Loading },
        RoleNameView { stem: seq![101u8, 114, 114, 111, 114], role: FileRole::Error },
        RoleNameView {
            stem: seq![116u8, 101, 109, 112, 108, 97, 116, 101],
            role: FileRole::Template,
        },
        RoleNameView { stem: seq![114u8, 111, 117, 116, 101], role: FileRole::Handler },
        RoleNameView { stem: seq![104u8, 97, 110, 100, 108, 101, 114], role: FileRole::Handler },
        RoleNameView { stem: seq![100u8, 101, 102, 97, 117, 108, 116], role: FileRole::Default },
        RoleNameView {
            stem: seq![110u8, 111, 116, 45, 102, 111, 117, 110, 100],
            role: FileRole::NotFound,
        },
        RoleNameView {
            stem: seq![109u8, 105, 100, 100, 108, 101, 119, 97, 114, 101],
            role: FileRole::Middleware,
        },
    ]
}

/// The table of the recognized base names.
pub fn standard_role_names() -> (r: Vec<RoleName>)
    ensures
        role_name_views(r@) == standard_names(),
{
    let mut t: Vec<RoleName> = Vec::new();
    t.push(RoleName { stem: vec![112u8, 97, 103, 101], role: FileRole::Page });
    t.push(RoleName { stem: vec![108u8, 97, 121, 111, 117, 116], role: FileRole::Layout });
    t.push(RoleName { stem: vec![108u8, 111, 97, 100, 105, 110, 103], role: FileRole::Loading });
    t.push(RoleName { stem: vec![101u8, 114, 114, 111, 114], role: FileRole::Error });
    t.push(
        RoleName { stem: vec![116u8, 101, 109, 112, 108, 97, 116, 101], role: FileRole::Template },
    );
    t.push(RoleName { stem: vec![114u8, 111, 117, 116, 101], role: FileRole::Handler });
    t.push(RoleName { stem: vec![104u8, 97, 110, 100, 108, 101, 114], role: FileRole::Handler });
    t.push(RoleName { stem: vec![100u8, 101, 102, 97, 117, 108, 116], role: FileRole::Default });
    t.push(
        RoleName {
            stem: vec![110u8, 111, 116, 45, 102, 111, 117, 110, 100],
            role: FileRole::NotFound,
        },
    );
    t.push(
        RoleName {
            stem: vec![109u8, 105, 100, 100, 108, 101, 119, 97, 114, 101],
            role: FileRole::Middleware,
        },
    );
    proof {
        let v = role_name_views(t@);
        let s = standard_names();
        assert(v.len() == s.len());
        assert forall|i: int| 0 <= i < v.len() implies v[i] == s[i] by {
            assert(v[i].stem =~= s[i].stem);
        }
        assert(v =~= s);
    }
    t
}

} // verus!
