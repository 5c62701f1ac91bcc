use next_core::builder::{build, BuildOutput, RouteTree};
use next_core::error::{ErrorKind, RouteError};
use next_core::files::{FileMeta, Method, MethodSet, Revalidate, Runtime};
use next_core::loader::{load, FileKind, FileNode, LoaderConfig};
use next_core::manifest::{assemble, display_path};
use next_core::matcher::{match_segments, Matched, Outcome, Param, Probe};
use next_core::router::{match_route, resolve, route_manifest, RouterConfig, TrailingSlash};
use next_core::store::RouteStore;

fn meta() -> FileMeta {
    FileMeta {
        dynamic: false,
        runtime: Runtime::Node,
        revalidate: Revalidate::Never,
        methods: MethodSet::all(),
    }
}

fn router_config() -> RouterConfig {
    RouterConfig {
        page_extensions: vec![b"tsx".to_vec(), b"ts".to_vec()],
        app_dir_enabled: true,
        trailing_slash: TrailingSlash::Never,
        base_path: Vec::new(),
        locales: Vec::new(),
    }
}

fn loader_config() -> LoaderConfig {
    router_config().loader_config(b"/app".to_vec())
}

fn file(path: &str) -> FileNode {
    FileNode { path: path.as_bytes().to_vec(), kind: FileKind::File, fingerprint: 7, meta: meta() }
}

fn file_with(path: &str, methods: MethodSet) -> FileNode {
    let mut m = meta();
    m.methods = methods;
    FileNode { path: path.as_bytes().to_vec(), kind: FileKind::File, fingerprint: 7, meta: m }
}

fn dir(path: &str) -> FileNode {
    FileNode {
        path: path.as_bytes().to_vec(),
        kind: FileKind::Directory,
        fingerprint: 0,
        meta: meta(),
    }
}

fn build_from(snapshot: Vec<FileNode>) -> (RouteStore, BuildOutput) {
    let loading = load(&snapshot, &loader_config());
    assert!(loading.errors.is_empty());
    let mut store = RouteStore::new();
    let out = build(&mut store, &loading.nodes, true, 1, 99);
    (store, out)
}

fn build_app(paths: &[&str]) -> (RouteStore, BuildOutput) {
    build_from(paths.iter().map(|p| file(p)).collect())
}

fn probe() -> Probe {
    Probe { method: Method::Get, soft_navigation: false, intercepts_first: true }
}

fn soft() -> Probe {
    Probe { method: Method::Get, soft_navigation: true, intercepts_first: true }
}

fn find(store: &RouteStore, tree: &RouteTree, path: &str, q: Probe) -> Option<Matched> {
    let r = match_route(store, tree, path.as_bytes(), q);
    assert_eq!(r.version, tree.version);
    match r.outcome {
        Outcome::NoMatch => None,
        Outcome::Matched(m) => Some(m),
    }
}

fn leaf(store: &RouteStore, m: &Matched) -> String {
    String::from_utf8(display_path(store, &m.leaf_path)).unwrap()
}

fn param(name: &str, values: &[&str]) -> Param {
    Param {
        name: name.as_bytes().to_vec(),
        values: values.iter().map(|v| v.as_bytes().to_vec()).collect(),
    }
}

fn chain(store: &RouteStore, tree: &RouteTree, m: &Matched) -> Vec<String> {
    let manifest = assemble(store, tree.version, &m.leaf_path).unwrap();
    assert_eq!(manifest.version, tree.version);
    manifest.chain.iter().map(|f| String::from_utf8(f.path.clone()).unwrap()).collect()
}

const SIBLINGS: [&str; 4] = [
    "/app/layout.tsx",
    "/app/hello/page.tsx",
    "/app/[slug]/page.tsx",
    "/app/[...rest]/page.tsx",
];

#[test]
fn static_beats_dynamic_beats_catch_all() {
    let (store, out) = build_app(&SIBLINGS);
    assert!(out.errors.is_empty());
    let m = find(&store, &out.tree, "/hello", probe()).unwrap();
    assert_eq!(leaf(&store, &m), "/hello");
    assert!(m.params.is_empty());
    let m = find(&store, &out.tree, "/world", probe()).unwrap();
    assert_eq!(leaf(&store, &m), "/[slug]");
    assert_eq!(m.params, vec![param("slug", &["world"])]);
    let m = find(&store, &out.tree, "/a/b/c", probe()).unwrap();
    assert_eq!(leaf(&store, &m), "/[...rest]");
    assert_eq!(m.params, vec![param("rest", &["a", "b", "c"])]);
}

#[test]
fn order_of_siblings_does_not_change_the_preference() {
    let (store, out) = build_app(&[
        "/app/[...rest]/page.tsx",
        "/app/[slug]/page.tsx",
        "/app/layout.tsx",
        "/app/hello/page.tsx",
    ]);
    assert!(out.errors.is_empty());
    assert_eq!(leaf(&store, &find(&store, &out.tree, "/hello", probe()).unwrap()), "/hello");
    assert_eq!(leaf(&store, &find(&store, &out.tree, "/world", probe()).unwrap()), "/[slug]");
    assert_eq!(leaf(&store, &find(&store, &out.tree, "/a/b", probe()).unwrap()), "/[...rest]");
}

#[test]
fn every_request_is_answered() {
    let (store, out) = build_app(&["/app/layout.tsx", "/app/hello/page.tsx"]);
    for path in ["", "/", "//", "/hello//", "/nothing", "/hello/more", "hello", "/hello/"] {
        let r = match_route(&store, &out.tree, path.as_bytes(), probe());
        assert_eq!(r.version, 1);
        let want = path == "/hello" || path == "hello" || path == "/hello/";
        assert_eq!(matches!(r.outcome, Outcome::Matched(_)), want, "{}", path);
    }
    let stray = RouteTree { root: 10_000, version: 5, fingerprint: 0 };
    let r = match_route(&store, &stray, b"/hello", probe());
    assert_eq!(r.version, 5);
    assert_eq!(r.outcome, Outcome::NoMatch);
    let r = match_segments(&store, out.tree.root, 3, &vec![Vec::new()], probe());
    assert_eq!(r.outcome, Outcome::NoMatch);
}

#[test]
fn two_matches_of_one_request_are_equal() {
    let (store, out) = build_app(&SIBLINGS);
    for path in ["/hello", "/world", "/a/b/c", "/"] {
        let a = match_route(&store, &out.tree, path.as_bytes(), probe());
        let b = match_route(&store, &out.tree, path.as_bytes(), probe());
        assert_eq!(a, b);
    }
}

#[test]
fn the_root_serves_the_root_path() {
    let (store, out) = build_app(&["/app/layout.tsx", "/app/page.tsx"]);
    let m = find(&store, &out.tree, "/", probe()).unwrap();
    assert_eq!(m.leaf_path, vec![out.tree.root]);
    assert_eq!(leaf(&store, &m), "/");
    assert!(find(&store, &out.tree, "/x", probe()).is_none());
}

#[test]
fn conflicting_dynamic_siblings_are_rejected() {
    let (store, out) = build_app(&[
        "/app/layout.tsx",
        "/app/blog/[slug]/page.tsx",
        "/app/blog/[id]/page.tsx",
        "/app/shop/page.tsx",
    ]);
    assert_eq!(
        out.errors,
        vec![RouteError::ConflictingRoute {
            path: b"/app/blog/[id]/page.tsx".to_vec(),
            other: b"/blog/[slug]".to_vec(),
        }]
    );
    assert!(find(&store, &out.tree, "/blog/x", probe()).is_none());
    assert!(find(&store, &out.tree, "/shop", probe()).is_some());
}

#[test]
fn conflicting_directories_are_rejected_without_files() {
    let (_, out) = build_from(vec![
        file("/app/layout.tsx"),
        dir("/app/[slug]"),
        dir("/app/[id]"),
    ]);
    assert_eq!(out.errors.len(), 1);
    assert_eq!(out.errors[0].kind(), ErrorKind::ConflictingRoute);
    assert_eq!(out.errors[0].path(), &b"/app/[id]".to_vec());
}

#[test]
fn conflicting_catch_alls_are_rejected() {
    let (store, out) = build_app(&[
        "/app/layout.tsx",
        "/app/docs/[...a]/page.tsx",
        "/app/docs/[[...b]]/page.tsx",
    ]);
    assert_eq!(
        out.errors,
        vec![RouteError::ConflictingRoute {
            path: b"/app/docs/[[...b]]/page.tsx".to_vec(),
            other: b"/docs/[...a]".to_vec(),
        }]
    );
    assert!(find(&store, &out.tree, "/docs/x", probe()).is_none());
}

#[test]
fn a_page_beside_a_handler_is_rejected() {
    let (store, out) = build_app(&["/app/layout.tsx", "/app/api/page.tsx", "/app/api/route.ts"]);
    assert_eq!(
        out.errors,
        vec![RouteError::ConflictingRoute {
            path: b"/app/api/route.ts".to_vec(),
            other: b"/app/api/page.tsx".to_vec(),
        }]
    );
    assert!(find(&store, &out.tree, "/api", probe()).is_none());
}

#[test]
fn a_catch_all_must_come_last() {
    let (store, out) = build_app(&[
        "/app/layout.tsx",
        "/app/docs/[...rest]/more/page.tsx",
        "/app/docs/page.tsx",
    ]);
    assert_eq!(
        out.errors,
        vec![RouteError::UnsupportedNesting { path: b"/app/docs/[...rest]/more/page.tsx".to_vec() }]
    );
    assert!(find(&store, &out.tree, "/docs", probe()).is_some());
    assert!(find(&store, &out.tree, "/docs/a/more", probe()).is_none());
}

#[test]
fn a_parameter_name_is_bound_once_on_a_path() {
    let (_, out) = build_app(&["/app/layout.tsx", "/app/[id]/x/[id]/page.tsx"]);
    assert_eq!(
        out.errors,
        vec![RouteError::ConflictingRoute {
            path: b"/app/[id]/x/[id]/page.tsx".to_vec(),
            other: b"".to_vec(),
        }]
    );
}

#[test]
fn the_nested_layout_needs_a_root_layout() {
    let (store, out) = build_app(&["/app/hello/page.tsx"]);
    assert_eq!(out.errors, vec![RouteError::MissingRequiredFile { path: b"/".to_vec() }]);
    assert!(find(&store, &out.tree, "/hello", probe()).is_none());
    let loading = load(&vec![file("/app/hello/page.tsx")], &loader_config());
    let mut store = RouteStore::new();
    let out = build(&mut store, &loading.nodes, false, 1, 0);
    assert!(out.errors.is_empty());
    assert!(find(&store, &out.tree, "/hello", probe()).is_some());
}

#[test]
fn the_chain_runs_from_the_root_layout_to_the_page() {
    let (store, out) = build_app(&[
        "/app/layout.tsx",
        "/app/a/layout.tsx",
        "/app/a/b/layout.tsx",
        "/app/a/b/page.tsx",
    ]);
    let m = find(&store, &out.tree, "/a/b", probe()).unwrap();
    assert_eq!(
        chain(&store, &out.tree, &m),
        vec!["/app/layout.tsx", "/app/a/layout.tsx", "/app/a/b/layout.tsx", "/app/a/b/page.tsx"]
    );
}

#[test]
fn templates_follow_their_layouts_and_levels_may_omit_them() {
    let (store, out) = build_app(&[
        "/app/a/b/c/page.tsx",
        "/app/a/template.tsx",
        "/app/layout.tsx",
        "/app/a/b/c/layout.tsx",
        "/app/template.tsx",
    ]);
    let m = find(&store, &out.tree, "/a/b/c", probe()).unwrap();
    assert_eq!(
        chain(&store, &out.tree, &m),
        vec![
            "/app/layout.tsx",
            "/app/template.tsx",
            "/app/a/template.tsx",
            "/app/a/b/c/layout.tsx",
            "/app/a/b/c/page.tsx"
        ]
    );
}

#[test]
fn boundaries_come_from_the_nearest_ancestor() {
    let (store, out) = build_app(&[
        "/app/layout.tsx",
        "/app/loading.tsx",
        "/app/error.tsx",
        "/app/not-found.tsx",
        "/app/a/error.tsx",
        "/app/a/b/page.tsx",
        "/app/a/b/loading.tsx",
        "/app/c/page.tsx",
    ]);
    let m = find(&store, &out.tree, "/a/b", probe()).unwrap();
    let manifest = assemble(&store, 1, &m.leaf_path).unwrap();
    assert_eq!(manifest.loading.unwrap().path, b"/app/a/b/loading.tsx".to_vec());
    assert_eq!(manifest.error.unwrap().path, b"/app/a/error.tsx".to_vec());
    assert_eq!(manifest.not_found.unwrap().path, b"/app/not-found.tsx".to_vec());
    assert_eq!(manifest.default, None);
    assert_eq!(manifest.template, None);
    let m = find(&store, &out.tree, "/c", probe()).unwrap();
    let manifest = assemble(&store, 1, &m.leaf_path).unwrap();
    assert_eq!(manifest.loading.unwrap().path, b"/app/loading.tsx".to_vec());
    assert_eq!(manifest.error.unwrap().path, b"/app/error.tsx".to_vec());
}

#[test]
fn a_leaf_without_page_or_handler_has_no_manifest() {
    let (store, out) = build_app(&["/app/layout.tsx", "/app/a/layout.tsx", "/app/a/b/page.tsx"]);
    let m = find(&store, &out.tree, "/a/b", probe()).unwrap();
    let to_a = m.leaf_path[..2].to_vec();
    assert_eq!(
        assemble(&store, 1, &to_a),
        Err(RouteError::MissingRequiredFile { path: b"/a".to_vec() })
    );
    assert_eq!(
        assemble(&store, 1, &Vec::new()),
        Err(RouteError::MissingRequiredFile { path: b"/".to_vec() })
    );
    assert!(find(&store, &out.tree, "/a", probe()).is_none());
}

#[test]
fn the_manifest_carries_what_the_leaf_declares() {
    let mut page = file("/app/page.tsx");
    page.meta.dynamic = true;
    page.meta.runtime = Runtime::Edge;
    page.meta.revalidate = Revalidate::Every(60);
    page.fingerprint = 1234;
    let (store, out) = build_from(vec![file("/app/layout.tsx"), page]);
    let m = find(&store, &out.tree, "/", probe()).unwrap();
    let manifest = assemble(&store, out.tree.version, &m.leaf_path).unwrap();
    assert!(manifest.meta.dynamic);
    assert_eq!(manifest.meta.runtime, Runtime::Edge);
    assert_eq!(manifest.meta.revalidate, Revalidate::Every(60));
    assert_eq!(manifest.chain[1].fingerprint, 1234);
}

#[test]
fn a_handler_answers_its_own_methods_only() {
    let (store, out) = build_from(vec![
        file("/app/layout.tsx"),
        file_with("/app/api/route.ts", MethodSet::none().with(Method::Post)),
    ]);
    let mut q = probe();
    assert!(find(&store, &out.tree, "/api", q).is_none());
    q.method = Method::Post;
    let m = find(&store, &out.tree, "/api", q).unwrap();
    assert_eq!(chain(&store, &out.tree, &m), vec!["/app/layout.tsx", "/app/api/route.ts"]);
}

#[test]
fn groups_are_transparent_and_shown() {
    let (store, out) = build_app(&[
        "/app/layout.tsx",
        "/app/(shop)/cart/page.tsx",
        "/app/(shop)/layout.tsx",
        "/app/(home)/page.tsx",
    ]);
    let m = find(&store, &out.tree, "/cart", probe()).unwrap();
    assert_eq!(leaf(&store, &m), "/(shop)/cart");
    assert_eq!(
        chain(&store, &out.tree, &m),
        vec!["/app/layout.tsx", "/app/(shop)/layout.tsx", "/app/(shop)/cart/page.tsx"]
    );
    let m = find(&store, &out.tree, "/", probe()).unwrap();
    assert_eq!(leaf(&store, &m), "/(home)");
    assert!(find(&store, &out.tree, "/(shop)/cart", probe()).is_none());
    assert!(find(&store, &out.tree, "/shop/cart", probe()).is_none());
}

#[test]
fn a_static_name_in_a_group_beats_a_dynamic_sibling() {
    let (store, out) = build_app(&[
        "/app/layout.tsx",
        "/app/[slug]/page.tsx",
        "/app/(x)/about/page.tsx",
    ]);
    assert_eq!(leaf(&store, &find(&store, &out.tree, "/about", probe()).unwrap()), "/(x)/about");
    assert_eq!(leaf(&store, &find(&store, &out.tree, "/other", probe()).unwrap()), "/[slug]");
}

#[test]
fn a_class_that_leads_nowhere_gives_way() {
    let (store, out) = build_app(&[
        "/app/layout.tsx",
        "/app/a/b/page.tsx",
        "/app/[x]/c/page.tsx",
        "/app/[...all]/page.tsx",
    ]);
    assert_eq!(leaf(&store, &find(&store, &out.tree, "/a/b", probe()).unwrap()), "/a/b");
    let m = find(&store, &out.tree, "/a/c", probe()).unwrap();
    assert_eq!(leaf(&store, &m), "/[x]/c");
    assert_eq!(m.params, vec![param("x", &["a"])]);
    let m = find(&store, &out.tree, "/a/d", probe()).unwrap();
    assert_eq!(leaf(&store, &m), "/[...all]");
    assert_eq!(m.params, vec![param("all", &["a", "d"])]);
}

#[test]
fn an_optional_catch_all_takes_nothing_too() {
    let (store, out) = build_app(&["/app/layout.tsx", "/app/docs/[[...path]]/page.tsx"]);
    let m = find(&store, &out.tree, "/docs", probe()).unwrap();
    assert_eq!(leaf(&store, &m), "/docs/[[...path]]");
    assert_eq!(m.params, vec![param("path", &[])]);
    let m = find(&store, &out.tree, "/docs/a/b", probe()).unwrap();
    assert_eq!(m.params, vec![param("path", &["a", "b"])]);
    let (store, out) = build_app(&["/app/layout.tsx", "/app/docs/[...path]/page.tsx"]);
    assert!(find(&store, &out.tree, "/docs", probe()).is_none());
    assert!(find(&store, &out.tree, "/docs/a", probe()).is_some());
}

#[test]
fn parameters_come_outermost_first() {
    let (store, out) = build_app(&["/app/layout.tsx", "/app/[team]/p/[id]/[...rest]/page.tsx"]);
    let m = find(&store, &out.tree, "/acme/p/7/x/y", probe()).unwrap();
    assert_eq!(
        m.params,
        vec![param("team", &["acme"]), param("id", &["7"]), param("rest", &["x", "y"])]
    );
    assert_eq!(m.leaf_path.len(), 5);
    assert_eq!(m.trail.len(), 4);
}

#[test]
fn slots_are_matched_on_their_own() {
    let (store, out) = build_app(&[
        "/app/layout.tsx",
        "/app/dash/layout.tsx",
        "/app/dash/page.tsx",
        "/app/dash/settings/page.tsx",
        "/app/dash/@team/page.tsx",
        "/app/dash/@team/settings/page.tsx",
        "/app/dash/@stats/page.tsx",
        "/app/dash/@stats/default.tsx",
    ]);
    let m = find(&store, &out.tree, "/dash/settings", probe()).unwrap();
    assert_eq!(leaf(&store, &m), "/dash/settings");
    assert_eq!(m.slots.len(), 2);
    let team = &m.slots[0];
    assert_eq!(team.name, b"team".to_vec());
    assert_eq!(team.depth, 1);
    assert_eq!(team.owner, m.leaf_path[1]);
    let found = team.found.as_ref().unwrap();
    assert_eq!(found.path.len(), 1);
    let mut way = vec![out.tree.root, team.owner, team.slot];
    way.extend(found.path.iter());
    assert_eq!(String::from_utf8(display_path(&store, &way)).unwrap(), "/dash/@team/settings");
    let stats = &m.slots[1];
    assert_eq!(stats.name, b"stats".to_vec());
    assert_eq!(stats.found, None);
    let m = find(&store, &out.tree, "/dash", probe()).unwrap();
    assert_eq!(m.slots.len(), 2);
    assert!(m.slots[0].found.as_ref().unwrap().path.is_empty());
    assert!(m.slots[1].found.as_ref().unwrap().path.is_empty());
    assert!(find(&store, &out.tree, "/dash/team", probe()).is_none());
    assert!(find(&store, &out.tree, "/dash/@team", probe()).is_none());
}

#[test]
fn intercepts_answer_soft_navigation_only() {
    let (store, out) = build_app(&[
        "/app/layout.tsx",
        "/app/feed/page.tsx",
        "/app/feed/(.)photo/page.tsx",
        "/app/feed/photo/page.tsx",
    ]);
    assert_eq!(leaf(&store, &find(&store, &out.tree, "/feed/photo", probe()).unwrap()), "/feed/photo");
    assert_eq!(leaf(&store, &find(&store, &out.tree, "/feed/photo", soft()).unwrap()), "/feed/(.)photo");
    let mut late = soft();
    late.intercepts_first = false;
    assert_eq!(leaf(&store, &find(&store, &out.tree, "/feed/photo", late).unwrap()), "/feed/photo");
}

#[test]
fn the_order_of_intercept_and_dynamic_is_a_policy() {
    let (store, out) = build_app(&[
        "/app/layout.tsx",
        "/app/feed/(.)photo/page.tsx",
        "/app/feed/[id]/page.tsx",
    ]);
    assert_eq!(leaf(&store, &find(&store, &out.tree, "/feed/photo", soft()).unwrap()), "/feed/(.)photo");
    let mut late = soft();
    late.intercepts_first = false;
    assert_eq!(leaf(&store, &find(&store, &out.tree, "/feed/photo", late).unwrap()), "/feed/[id]");
    assert_eq!(leaf(&store, &find(&store, &out.tree, "/feed/photo", probe()).unwrap()), "/feed/[id]");
}

#[test]
fn an_intercept_stands_where_its_target_is_looked_for() {
    let (store, out) = build_app(&[
        "/app/layout.tsx",
        "/app/photo/[id]/page.tsx",
        "/app/feed/page.tsx",
        "/app/feed/(..)photo/[id]/page.tsx",
        "/app/a/b/(...)login/page.tsx",
        "/app/login/page.tsx",
    ]);
    assert!(out.errors.is_empty());
    let m = find(&store, &out.tree, "/photo/7", soft()).unwrap();
    assert_eq!(leaf(&store, &m), "/(..)photo/[id]");
    assert_eq!(chain(&store, &out.tree, &m)[1], "/app/feed/(..)photo/[id]/page.tsx");
    assert_eq!(leaf(&store, &find(&store, &out.tree, "/photo/7", probe()).unwrap()), "/photo/[id]");
    assert!(find(&store, &out.tree, "/feed/photo/7", soft()).is_none());
    assert_eq!(leaf(&store, &find(&store, &out.tree, "/login", soft()).unwrap()), "/(...)login");
    assert_eq!(leaf(&store, &find(&store, &out.tree, "/login", probe()).unwrap()), "/login");
}

#[test]
fn the_base_path_is_set_aside() {
    let (store, out) = build_app(&["/app/layout.tsx", "/app/hello/page.tsx", "/app/page.tsx"]);
    let mut cfg = router_config();
    cfg.base_path = b"/docs".to_vec();
    let r = resolve(&store, &out.tree, &cfg, b"/docs/hello", probe());
    assert!(matches!(r.result.outcome, Outcome::Matched(_)));
    assert_eq!(r.locale, None);
    assert!(matches!(resolve(&store, &out.tree, &cfg, b"/docs", probe()).result.outcome, Outcome::Matched(_)));
    for path in ["/hello", "/docshello", "/doc/hello", "/"] {
        let r = resolve(&store, &out.tree, &cfg, path.as_bytes(), probe());
        assert_eq!(r.result.outcome, Outcome::NoMatch, "{}", path);
        assert_eq!(r.result.version, 1);
    }
}

#[test]
fn the_trailing_slash_follows_the_mode() {
    let (store, out) = build_app(&["/app/layout.tsx", "/app/hello/page.tsx", "/app/page.tsx"]);
    let hit = |mode: TrailingSlash, path: &str| {
        let mut cfg = router_config();
        cfg.trailing_slash = mode;
        matches!(
            resolve(&store, &out.tree, &cfg, path.as_bytes(), probe()).result.outcome,
            Outcome::Matched(_)
        )
    };
    assert!(hit(TrailingSlash::Never, "/hello"));
    assert!(!hit(TrailingSlash::Never, "/hello/"));
    assert!(hit(TrailingSlash::Never, "/"));
    assert!(!hit(TrailingSlash::Always, "/hello"));
    assert!(hit(TrailingSlash::Always, "/hello/"));
    assert!(hit(TrailingSlash::Always, "/"));
    assert!(hit(TrailingSlash::Preserve, "/hello"));
    assert!(hit(TrailingSlash::Preserve, "/hello/"));
}

#[test]
fn a_leading_locale_is_set_aside() {
    let (store, out) = build_app(&["/app/layout.tsx", "/app/hello/page.tsx", "/app/[slug]/x/page.tsx"]);
    let mut cfg = router_config();
    cfg.locales = vec![b"en".to_vec(), b"fr".to_vec()];
    let r = resolve(&store, &out.tree, &cfg, b"/fr/hello", probe());
    assert_eq!(r.locale, Some(1));
    assert!(matches!(r.result.outcome, Outcome::Matched(_)));
    let r = resolve(&store, &out.tree, &cfg, b"/hello", probe());
    assert_eq!(r.locale, None);
    assert!(matches!(r.result.outcome, Outcome::Matched(_)));
    let r = resolve(&store, &out.tree, &cfg, b"/en/x", probe());
    assert_eq!(r.locale, Some(0));
    assert_eq!(r.result.outcome, Outcome::NoMatch);
    let r = resolve(&store, &out.tree, &cfg, b"/de/x", probe());
    assert_eq!(r.locale, None);
    match r.result.outcome {
        Outcome::Matched(m) => assert_eq!(m.params, vec![param("slug", &["de"])]),
        Outcome::NoMatch => panic!("no match"),
    }
}

#[test]
fn dynamic_names_conflict_through_groups() {
    let (store, out) = build_app(&[
        "/app/layout.tsx",
        "/app/blog/(a)/[slug]/page.tsx",
        "/app/blog/(b)/[id]/page.tsx",
        "/app/shop/page.tsx",
    ]);
    assert_eq!(
        out.errors,
        vec![RouteError::ConflictingRoute {
            path: b"/app/blog/(b)/[id]/page.tsx".to_vec(),
            other: b"/blog/(a)/[slug]".to_vec(),
        }]
    );
    assert!(find(&store, &out.tree, "/blog/x", probe()).is_none());
    assert!(find(&store, &out.tree, "/shop", probe()).is_some());
    let (_, out) = build_app(&[
        "/app/layout.tsx",
        "/app/(a)/(b)/[...x]/page.tsx",
        "/app/(c)/[[...y]]/page.tsx",
    ]);
    assert_eq!(
        out.errors,
        vec![RouteError::ConflictingRoute {
            path: b"/app/(c)/[[...y]]/page.tsx".to_vec(),
            other: b"/(a)/(b)/[...x]".to_vec(),
        }]
    );
    let (_, out) = build_app(&[
        "/app/layout.tsx",
        "/app/[y]/page.tsx",
        "/app/(a)/(b)/[x]/page.tsx",
    ]);
    assert_eq!(out.errors.len(), 1);
}

#[test]
fn groups_may_share_static_names_and_dynamic_ones() {
    let (store, out) = build_app(&[
        "/app/layout.tsx",
        "/app/(a)/about/page.tsx",
        "/app/(b)/about/team/page.tsx",
        "/app/(a)/[id]/page.tsx",
        "/app/(b)/[id]/edit/page.tsx",
    ]);
    assert!(out.errors.is_empty());
    assert_eq!(leaf(&store, &find(&store, &out.tree, "/about", probe()).unwrap()), "/(a)/about");
    assert_eq!(
        leaf(&store, &find(&store, &out.tree, "/about/team", probe()).unwrap()),
        "/(b)/about/team"
    );
    assert_eq!(leaf(&store, &find(&store, &out.tree, "/7", probe()).unwrap()), "/(a)/[id]");
    assert_eq!(leaf(&store, &find(&store, &out.tree, "/7/edit", probe()).unwrap()), "/(b)/[id]/edit");
}

#[test]
fn a_slot_is_a_matching_place_of_its_own() {
    let (store, out) = build_app(&[
        "/app/layout.tsx",
        "/app/[slug]/page.tsx",
        "/app/@modal/[id]/page.tsx",
        "/app/@modal/(g)/[id]/x/page.tsx",
    ]);
    assert!(out.errors.is_empty());
    let m = find(&store, &out.tree, "/7", probe()).unwrap();
    assert_eq!(leaf(&store, &m), "/[slug]");
    assert_eq!(m.slots.len(), 1);
    assert_eq!(m.slots[0].found.as_ref().unwrap().params, vec![param("id", &["7"])]);
    let (_, out) = build_app(&[
        "/app/layout.tsx",
        "/app/@modal/[id]/page.tsx",
        "/app/@modal/(g)/[other]/page.tsx",
    ]);
    assert_eq!(out.errors.len(), 1);
}

#[test]
fn the_manifest_of_a_request_comes_with_its_match() {
    let (store, out) = build_app(&["/app/layout.tsx", "/app/a/page.tsx", "/app/b/layout.tsx"]);
    let (r, m) = route_manifest(&store, &out.tree, b"/a", probe());
    assert!(matches!(r.outcome, Outcome::Matched(_)));
    let m = m.unwrap().unwrap();
    assert_eq!(m.version, 1);
    assert_eq!(m.chain.len(), 2);
    let (r, m) = route_manifest(&store, &out.tree, b"/b", probe());
    assert_eq!(r.outcome, Outcome::NoMatch);
    assert_eq!(m, Ok(None));
}
