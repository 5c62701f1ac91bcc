//! Requests as they arrive: the base path, the trailing slash and the
//! locale are dealt with, and what is left is matched.

use vstd::prelude::*;
use vstd::slice::slice_subrange;
use crate::builder::RouteTree;
use crate::bytes::{bytes_eq, copy_tail, path_segments, seg_views, split_path, SLASH};
use crate::files::standard_role_names;
use crate::loader::{is_under_root, under_root, LoaderConfig};
use crate::matcher::{match_segments, match_tree, outcome_agrees, MatchResult, Outcome, Probe};
use crate::store::{RouteStore, StoreView};

verus! {

/// What is asked of the end of a request path.
#[derive(Debug, Clone, Copy, PartialEq, Eq, Structural)]
pub enum TrailingSlash {
    /// Every path ends in a slash.
    Always,
    /// No path but the root ends in a slash.
    Never,
    /// Either is taken.
    Preserve,
}

/// The configuration of the router.
#[derive(Debug, Clone, PartialEq, Eq)]
pub struct RouterConfig {
    pub page_extensions: Vec<Vec<u8>>,
    pub app_dir_enabled: bool,
    pub trailing_slash: TrailingSlash,
    pub base_path: Vec<u8>,
    pub locales: Vec<Vec<u8>>,
}

/// The mathematical content of a router configuration.
pub ghost struct RouterConfigView {
    pub page_extensions: Seq<Seq<u8>>,
    pub app_dir_enabled: bool,
    pub trailing_slash: TrailingSlash,
    pub base_path: Seq<u8>,
    pub locales: Seq<Seq<u8>>,
}

impl View for RouterConfig {
    type V = RouterConfigView;

    open spec fn view(&self) -> RouterConfigView {
        RouterConfigView {
            page_extensions: seg_views(self.page_extensions@),
            app_dir_enabled: self.app_dir_enabled,
            trailing_slash: self.trailing_slash,
            base_path: self.base_path@,
            locales: seg_views(self.locales@),
        }
    }
}

/// Whether the end of `path` is what the mode asks for.
pub open spec fn obeys_slash(path: Seq<u8>, mode: TrailingSlash) -> bool {
    match mode {
        TrailingSlash::Always => path.len() > 0 && path.last() == SLASH,
        TrailingSlash::Never => path.len() <= 1 || path.last() != SLASH,
        TrailingSlash::Preserve => true,
    }
}

/// The index of the first locale from `i` on that is `seg`, or the number
/// of locales.
pub open spec fn locale_index(seg: Seq<u8>, locales: Seq<Seq<u8>>, i: int) -> int
    decreases locales.len() - i,
{
    if i < 0 || i >= locales.len() {
        locales.len() as int
    } else if locales[i] == seg {
        i
    } else {
        locale_index(seg, locales, i + 1)
    }
}

/// What a request asks for: the locale that leads its path, if one does,
/// and the segments to match.
pub ghost struct Request {
    pub locale: Option<int>,
    pub segments: Seq<Seq<u8>>,
}

/// What the request path `path` asks for under the configuration; nothing
/// where it lies outside the base path or ends as the mode forbids. A
/// leading segment that is one of the locales is the locale and is not
/// matched.
pub open spec fn request_of(cfg: RouterConfigView, path: Seq<u8>) -> Option<Request> {
    if !under_root(path, cfg.base_path) {
        None
    } else {
        let rel = path.skip(cfg.base_path.len() as int);
        if !obeys_slash(rel, cfg.trailing_slash) {
            None
        } else {
            let segs = path_segments(rel);
            if segs.len() > 0 && locale_index(segs[0], cfg.locales, 0) < cfg.locales.len() {
                Some(
                    Request {
                        locale: Some(locale_index(segs[0], cfg.locales, 0)),
                        segments: segs.skip(1),
                    },
                )
            } else {
                Some(Request { locale: None, segments: segs })
            }
        }
    }
}

/// The answer to a request as it arrived.
#[derive(Debug, Clone, PartialEq, Eq)]
pub struct Resolution {
    /// The index of the locale that led the path.
    pub locale: Option<usize>,
    pub result: MatchResult,
}

/// Whether the end of `path` is what the mode asks for.
pub fn check_slash(path: &[u8], mode: TrailingSlash) -> (r: bool)
    ensures
        r == obeys_slash(path@, mode),
{
    let n: usize = path.len();
    match mode {
        TrailingSlash::Always => n > 0 && path[n - 1] == SLASH,
        TrailingSlash::Never => n <= 1 || path[n - 1] != SLASH,
        TrailingSlash::Preserve => true,
    }
}

/// The index of the first locale that is `seg`, or the number of locales.
pub fn find_locale(seg: &[u8], locales: &Vec<Vec<u8>>) -> (r: usize)
    ensures
        r == locale_index(seg@, seg_views(locales@), 0),
        r <= locales@.len(),
{
    let ghost ls = seg_views(locales@);
    let mut i: usize = 0;
    while i < locales.len()
        invariant
            i <= locales@.len(),
            ls == seg_views(locales@),
            locale_index(seg@, ls, 0) == locale_index(seg@, ls, i as int),
        decreases locales@.len() - i,
    {
        if bytes_eq(locales[i].as_slice(), seg) {
            return i;
        }
        i += 1;
    }
    i
}

/// Matches a normalized request path against a published tree. Every
/// request is answered, with a match or with none, and the answer bears
/// the version of the tree.
pub fn match_route(store: &RouteStore, tree: &RouteTree, path: &[u8], q: Probe) -> (r: MatchResult)
    ensures
        r.version == tree.version,
        outcome_agrees(
            store@,
            tree.root as int,
            r.outcome,
            if store@.has_node(tree.root as int) {
                match_tree(store@.tree(tree.root as int), path_segments(path@), q)
            } else {
                None
            },
        ),
{
    let segs = split_path(path);
    match_segments(store, tree.root, tree.version, &segs, q)
}

/// Answers a request as it arrived: a path outside the base path, or one
/// that ends as the configured mode forbids, matches nothing; a leading
/// locale is set aside; the rest is matched against the tree.
pub fn resolve(store: &RouteStore, tree: &RouteTree, cfg: &RouterConfig, path: &[u8], q: Probe) -> (r:
    Resolution)
    ensures
        r.result.version == tree.version,
        match request_of(cfg@, path@) {
            None => r.locale is None && r.result.outcome is NoMatch,
            Some(req) => {
                &&& match req.locale {
                    Some(l) => r.locale matches Some(x) && x == l,
                    None => r.locale is None,
                }
                &&& outcome_agrees(
                    store@,
                    tree.root as int,
                    r.result.outcome,
                    if store@.has_node(tree.root as int) {
                        match_tree(store@.tree(tree.root as int), req.segments, q)
                    } else {
                        None
                    },
                )
            },
        },
{
    let none = Resolution {
        locale: None,
        result: MatchResult { version: tree.version, outcome: Outcome::NoMatch },
    };
    if !is_under_root(path, cfg.base_path.as_slice()) {
        return none;
    }
    let rel = slice_subrange(path, cfg.base_path.len(), path.len());
    assert(rel@ =~= path@.skip(cfg.base_path@.len() as int));
    if !check_slash(rel, cfg.trailing_slash) {
        return none;
    }
    let segs = split_path(rel);
    if segs.len() > 0 {
        let l = find_locale(segs[0].as_slice(), &cfg.locales);
        if l < cfg.locales.len() {
            let rest = copy_tail(&segs, 1);
            let result = match_segments(store, tree.root, tree.version, &rest, q);
            return Resolution { locale: Some(l), result };
        }
    }
    let result = match_segments(store, tree.root, tree.version, &segs, q);
    Resolution { locale: None, result }
}

impl RouterConfig {
    /// What the loader goes by under this configuration, for routes held
    /// in the directory `root`: the page extensions, the standard base
    /// names, and the layout.
    pub fn loader_config(&self, root: Vec<u8>) -> (r: LoaderConfig)
        ensures
            r@.root == root@,
            r@.extensions == self@.page_extensions,
            r@.names == crate::files::standard_names(),
            r@.app_dir == self@.app_dir_enabled,
    {
        let extensions = copy_tail(&self.page_extensions, 0);
        assert(seg_views(self.page_extensions@).skip(0) =~= seg_views(self.page_extensions@));
        LoaderConfig {
            root,
            extensions,
            names: standard_role_names(),
            app_dir: self.app_dir_enabled,
        }
    }
}

/// The manifest of the route that a match ends at, if the request was
/// matched.
pub open spec fn manifest_for(s: StoreView, version: u64, o: Outcome) -> Option<
    Option<crate::manifest::ManifestView>,
> {
    match o {
        Outcome::NoMatch => None,
        Outcome::Matched(m) => Some(
            crate::manifest::manifest_of(
                crate::manifest::files_along(s, m.leaf_path@),
                version,
            ),
        ),
    }
}

/// Matches a normalized request path and assembles the manifest of the
/// route found: `Ok(None)` where nothing matches.
pub fn route_manifest(store: &RouteStore, tree: &RouteTree, path: &[u8], q: Probe) -> (r: (
    MatchResult,
    Result<Option<crate::manifest::RouteManifest>, crate::error::RouteError>,
))
    ensures
        r.0.version == tree.version,
        outcome_agrees(
            store@,
            tree.root as int,
            r.0.outcome,
            if store@.has_node(tree.root as int) {
                match_tree(store@.tree(tree.root as int), path_segments(path@), q)
            } else {
                None
            },
        ),
        match manifest_for(store@, tree.version, r.0.outcome) {
            None => r.1 matches Ok(None),
            Some(Some(m)) => r.1 matches Ok(Some(x)) && x@ == m,
            Some(None) => r.1 matches Err(e) && r.0.outcome matches Outcome::Matched(found) && e@
                == (crate::error::ErrorView {
                kind: crate::error::ErrorKind::MissingRequiredFile,
                path: crate::manifest::display(
                    crate::manifest::kinds_along(store@, found.leaf_path@),
                ),
                other: Seq::empty(),
            }),
        },
{
    let result = match_route(store, tree, path, q);
    let manifest = match &result.outcome {
        Outcome::NoMatch => Ok(None),
        Outcome::Matched(m) => match crate::manifest::assemble(store, tree.version, &m.leaf_path) {
            Ok(x) => Ok(Some(x)),
            Err(e) => Err(e),
        },
    };
    (result, manifest)
}

} // verus!
