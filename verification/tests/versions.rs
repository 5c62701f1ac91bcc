use next_core::builder::{apply, build, rebuild, RouteTree};
use next_core::error::{ErrorKind, RouteError};
use next_core::files::{FileMeta, FileRole, Method, MethodSet, Revalidate, Runtime, SourceFile};
use next_core::graft::Graft;
use next_core::loader::{classify_node, load, FileKind, FileNode, Loaded, LoaderConfig};
use next_core::manifest::{assemble, display_path};
use next_core::refresh::refresh;
use next_core::matcher::{MatchResult, Outcome, Probe};
use next_core::router::match_route;
use next_core::segment::SegmentKind;
use next_core::snapshot::{affected_dir, diff, parent_path, Change, ChangeKind};
use next_core::store::RouteStore;
use next_core::version::{overlaps, Completion, Versions};
use next_core::files::standard_role_names;

fn meta() -> FileMeta {
    FileMeta {
        dynamic: false,
        runtime: Runtime::Node,
        revalidate: Revalidate::Never,
        methods: MethodSet::all(),
    }
}

fn config() -> LoaderConfig {
    LoaderConfig {
        root: b"/app".to_vec(),
        extensions: vec![b"tsx".to_vec()],
        names: standard_role_names(),
        app_dir: true,
    }
}

fn file(path: &str, fingerprint: u64) -> FileNode {
    FileNode { path: path.as_bytes().to_vec(), kind: FileKind::File, fingerprint, meta: meta() }
}

fn dir(path: &str) -> FileNode {
    FileNode {
        path: path.as_bytes().to_vec(),
        kind: FileKind::Directory,
        fingerprint: 0,
        meta: meta(),
    }
}

fn st(name: &str) -> SegmentKind {
    SegmentKind::Static(name.as_bytes().to_vec())
}

fn probe() -> Probe {
    Probe { method: Method::Get, soft_navigation: false, intercepts_first: true }
}

fn site() -> Vec<FileNode> {
    vec![
        file("/app/layout.tsx", 1),
        file("/app/page.tsx", 2),
        file("/app/blog/page.tsx", 3),
        file("/app/blog/[slug]/page.tsx", 4),
        file("/app/shop/layout.tsx", 5),
        file("/app/shop/cart/page.tsx", 6),
    ]
}

fn built(snapshot: &Vec<FileNode>) -> (RouteStore, RouteTree) {
    let loading = load(snapshot, &config());
    let mut store = RouteStore::new();
    let out = build(&mut store, &loading.nodes, true, 1, 11);
    assert!(out.errors.is_empty());
    (store, out.tree)
}

fn child(store: &RouteStore, id: usize, name: &str) -> usize {
    let node = store.get_node(id).unwrap();
    *node
        .children
        .iter()
        .find(|c| store.get_node(**c).unwrap().kind == st(name))
        .unwrap()
}

fn answers(store: &RouteStore, tree: &RouteTree) -> Vec<Option<(String, Vec<String>)>> {
    ["/", "/blog", "/blog/hello", "/shop", "/shop/cart", "/nothing"]
        .iter()
        .map(|p| match match_route(store, tree, p.as_bytes(), probe()).outcome {
            Outcome::NoMatch => None,
            Outcome::Matched(m) => {
                let manifest = assemble(store, tree.version, &m.leaf_path).unwrap();
                Some((
                    String::from_utf8(display_path(store, &m.leaf_path)).unwrap(),
                    manifest.chain.iter().map(|f| String::from_utf8(f.path.clone()).unwrap()).collect(),
                ))
            }
        })
        .collect()
}

#[test]
fn removing_and_adding_a_file_again_changes_no_answer() {
    let (mut store, tree) = built(&site());
    let before = answers(&store, &tree);
    let shop = child(&store, tree.root, "shop");
    let way = vec![st("blog"), SegmentKind::Dynamic(b"slug".to_vec())];
    let (without, conflict) = apply(&mut store, tree.root, &way, Graft::Unbind(FileRole::Page)).unwrap();
    assert!(!conflict);
    let gone = RouteTree { root: without, version: 2, fingerprint: 12 };
    assert!(matches!(match_route(&store, &gone, b"/blog/hello", probe()).outcome, Outcome::NoMatch));
    assert!(matches!(match_route(&store, &gone, b"/blog", probe()).outcome, Outcome::Matched(_)));
    let f = store.add_file(SourceFile {
        path: b"/app/blog/[slug]/page.tsx".to_vec(),
        fingerprint: 4,
        meta: meta(),
    });
    let (again, conflict) = apply(&mut store, without, &way, Graft::Bind(FileRole::Page, f)).unwrap();
    assert!(!conflict);
    let back = RouteTree { root: again, version: 1, fingerprint: 11 };
    assert_eq!(answers(&store, &back), before);
    assert_ne!(again, tree.root);
    assert_eq!(child(&store, without, "shop"), shop);
    assert_eq!(child(&store, again, "shop"), shop);
    assert_eq!(answers(&store, &tree), before);
}

#[test]
fn a_change_under_one_directory_shares_the_others() {
    let (mut store, tree) = built(&site());
    let shop = child(&store, tree.root, "shop");
    let blog = child(&store, tree.root, "blog");
    let slug = store.get_node(blog).unwrap().children[0];
    let f = store.add_file(SourceFile {
        path: b"/app/blog/new/page.tsx".to_vec(),
        fingerprint: 9,
        meta: meta(),
    });
    let (root, conflict) =
        apply(&mut store, tree.root, &vec![st("blog"), st("new")], Graft::Bind(FileRole::Page, f)).unwrap();
    assert!(!conflict);
    assert_eq!(child(&store, root, "shop"), shop);
    let blog2 = child(&store, root, "blog");
    assert_ne!(blog2, blog);
    assert_eq!(store.get_node(blog2).unwrap().children[0], slug);
    let next = RouteTree { root, version: 2, fingerprint: 0 };
    assert!(matches!(match_route(&store, &next, b"/blog/new", probe()).outcome, Outcome::Matched(_)));
    match match_route(&store, &tree, b"/blog/new", probe()).outcome {
        Outcome::Matched(m) => assert_eq!(String::from_utf8(display_path(&store, &m.leaf_path)).unwrap(), "/blog/[slug]"),
        Outcome::NoMatch => panic!("the earlier version lost a route"),
    }
    let a = match_route(&store, &tree, b"/shop/cart", probe());
    let b = match_route(&store, &next, b"/shop/cart", probe());
    match (a.outcome, b.outcome) {
        (Outcome::Matched(x), Outcome::Matched(y)) => {
            assert_eq!(x.leaf_path[1..], y.leaf_path[1..]);
            assert_eq!(x.params, y.params);
        }
        _ => panic!("no match"),
    }
}

#[test]
fn changes_name_what_they_need() {
    let (mut store, tree) = built(&site());
    let n = store.node_count();
    assert_eq!(apply(&mut store, n + 5, &vec![], Graft::Touch), None);
    assert_eq!(apply(&mut store, tree.root, &vec![], Graft::Bind(FileRole::Page, 1_000)), None);
    assert_eq!(apply(&mut store, tree.root, &vec![], Graft::Replace(n)), None);
    assert_eq!(store.node_count(), n);
    assert_eq!(apply(&mut store, tree.root, &vec![], Graft::Touch), Some((tree.root, false)));
    assert_eq!(apply(&mut store, tree.root, &vec![st("nope")], Graft::Remove), Some((tree.root, false)));
    assert_eq!(
        apply(&mut store, tree.root, &vec![st("nope")], Graft::Unbind(FileRole::Page)),
        Some((tree.root, false))
    );
    assert_eq!(store.node_count(), n);
}

#[test]
fn a_removed_directory_is_gone_with_its_subtree() {
    let (mut store, tree) = built(&site());
    let (root, conflict) = apply(&mut store, tree.root, &vec![st("blog")], Graft::Remove).unwrap();
    assert!(!conflict);
    let next = RouteTree { root, version: 2, fingerprint: 0 };
    assert!(matches!(match_route(&store, &next, b"/blog", probe()).outcome, Outcome::NoMatch));
    assert!(matches!(match_route(&store, &next, b"/blog/x", probe()).outcome, Outcome::NoMatch));
    assert!(matches!(match_route(&store, &next, b"/shop/cart", probe()).outcome, Outcome::Matched(_)));
    assert_eq!(child(&store, root, "shop"), child(&store, tree.root, "shop"));
    assert!(matches!(match_route(&store, &tree, b"/blog/x", probe()).outcome, Outcome::Matched(_)));
}

#[test]
fn a_rebuild_is_published_as_the_next_version() {
    let (mut store, tree) = built(&site());
    let versions = Versions::new(tree);
    assert_eq!(versions.current(), tree);
    let (versions, ticket) = versions.change(vec![st("blog")]);
    assert_eq!(ticket, Some(0));
    assert_eq!(versions.in_flight(), 1);
    assert!(versions.is_live(0));
    assert_eq!(versions.current(), tree);
    let mut snapshot = site();
    snapshot.push(file("/app/blog/about/page.tsx", 7));
    let loading = load(&snapshot, &config());
    let (sub, errors) = rebuild(&mut store, &loading.nodes, &vec![st("blog")], true);
    assert!(errors.is_empty());
    let shop = child(&store, tree.root, "shop");
    let (versions, done) = versions.complete(&mut store, 0, sub, 77, true);
    let next = match done {
        Completion::Published(t) => t,
        other => panic!("{:?}", other),
    };
    assert_eq!(next.version, 2);
    assert_eq!(next.fingerprint, 77);
    assert_eq!(versions.current(), next);
    assert_eq!(versions.in_flight(), 0);
    assert_eq!(child(&store, next.root, "shop"), shop);
    assert_eq!(child(&store, next.root, "blog"), sub.unwrap());
    let r: MatchResult = match_route(&store, &next, b"/blog/about", probe());
    assert_eq!(r.version, 2);
    match r.outcome {
        Outcome::Matched(m) => {
            assert_eq!(String::from_utf8(display_path(&store, &m.leaf_path)).unwrap(), "/blog/about")
        }
        Outcome::NoMatch => panic!("no match"),
    }
    let r = match_route(&store, &tree, b"/blog/about", probe());
    assert_eq!(r.version, 1);
    match r.outcome {
        Outcome::Matched(m) => {
            assert_eq!(String::from_utf8(display_path(&store, &m.leaf_path)).unwrap(), "/blog/[slug]")
        }
        Outcome::NoMatch => panic!("no match"),
    }
}

#[test]
fn a_failed_rebuild_keeps_the_published_tree() {
    let (mut store, tree) = built(&site());
    let (versions, ticket) = Versions::new(tree).change(vec![st("blog")]);
    let mut snapshot = site();
    snapshot.push(file("/app/blog/[id]/page.tsx", 7));
    let loading = load(&snapshot, &config());
    let (sub, errors) = rebuild(&mut store, &loading.nodes, &vec![st("blog")], true);
    assert_eq!(
        errors,
        vec![RouteError::ConflictingRoute {
            path: b"/app/blog/[id]/page.tsx".to_vec(),
            other: b"/blog/[slug]".to_vec(),
        }]
    );
    let (versions, done) = versions.complete(&mut store, ticket.unwrap(), sub, 77, errors.is_empty());
    assert_eq!(done, Completion::Kept(None));
    assert_eq!(versions.current(), tree);
    assert_eq!(versions.in_flight(), 0);
    let (versions, done) = versions.complete(&mut store, ticket.unwrap(), sub, 77, true);
    assert_eq!(done, Completion::Stale);
    assert_eq!(versions.current(), tree);
}

#[test]
fn a_change_in_a_directory_under_rebuild_rebuilds_that_directory_again() {
    let (mut store, tree) = built(&site());
    let versions = Versions::new(tree);
    let (versions, first) = versions.change(vec![st("blog")]);
    assert_eq!(versions.directory(0), Some(vec![st("blog")]));
    let (versions, other) = versions.change(vec![st("shop"), st("cart")]);
    let (versions, second) = versions.change(vec![st("blog"), st("x")]);
    assert_eq!((first, other, second), (Some(0), Some(1), Some(2)));
    assert_eq!(versions.in_flight(), 2);
    assert!(!versions.is_live(0));
    assert!(versions.is_live(1));
    assert!(versions.is_live(2));
    assert_eq!(versions.directory(0), None);
    assert_eq!(versions.directory(1), Some(vec![st("shop"), st("cart")]));
    assert_eq!(versions.directory(2), Some(vec![st("blog")]));
    let (sub, _) = rebuild(&mut store, &load(&site(), &config()).nodes, &vec![st("blog")], true);
    let (versions, done) = versions.complete(&mut store, 0, sub, 1, true);
    assert_eq!(done, Completion::Stale);
    assert_eq!(versions.current(), tree);
    let (versions, done) = versions.complete(&mut store, 2, sub, 1, true);
    assert!(matches!(done, Completion::Published(t) if t.version == 2));
    let (versions, third) = versions.change(vec![]);
    assert_eq!(third, Some(3));
    assert_eq!(versions.in_flight(), 1);
    assert!(!versions.is_live(1));
    assert_eq!(versions.directory(3), Some(vec![]));
    let (whole, errors) = rebuild(&mut store, &load(&site(), &config()).nodes, &vec![], true);
    assert!(errors.is_empty());
    let (versions, done) = versions.complete(&mut store, 3, whole, 5, true);
    assert_eq!(
        done,
        Completion::Published(RouteTree { root: whole.unwrap(), version: 3, fingerprint: 5 })
    );
    assert_eq!(versions.current().version, 3);
}

#[test]
fn a_wider_change_takes_in_the_narrower_rebuilds() {
    let (_, tree) = built(&site());
    let (versions, _) = Versions::new(tree).change(vec![st("blog"), st("x")]);
    let (versions, _) = versions.change(vec![st("blog"), st("y")]);
    let (versions, _) = versions.change(vec![st("shop")]);
    assert_eq!(versions.in_flight(), 3);
    let (versions, t) = versions.change(vec![st("blog")]);
    assert_eq!(t, Some(3));
    assert_eq!(versions.in_flight(), 2);
    assert_eq!(versions.directory(3), Some(vec![st("blog")]));
    assert_eq!(versions.directory(2), Some(vec![st("shop")]));
    assert!(!versions.is_live(0) && !versions.is_live(1));
}

#[test]
fn a_change_in_a_group_is_a_change_to_the_directory_that_holds_it() {
    let (_, tree) = built(&site());
    let group = |n: &str| SegmentKind::Group(n.as_bytes().to_vec());
    let (versions, t) = Versions::new(tree).change(vec![st("blog"), group("a"), group("b")]);
    assert_eq!(versions.directory(t.unwrap()), Some(vec![st("blog")]));
    let (versions, t) = versions.change(vec![group("a")]);
    assert_eq!(versions.directory(t.unwrap()), Some(vec![]));
    assert_eq!(versions.in_flight(), 1);
    let (versions, t) = versions.change(vec![group("a"), st("x")]);
    assert_eq!(versions.directory(t.unwrap()), Some(vec![]));
    assert_eq!(versions.in_flight(), 1);
}

#[test]
fn a_splice_sees_conflicts_through_groups() {
    let snapshot = vec![
        file("/app/layout.tsx", 1),
        file("/app/[slug]/page.tsx", 2),
        file("/app/(b)/about/page.tsx", 3),
    ];
    let (mut store, tree) = built(&snapshot);
    let group = SegmentKind::Group(b"b".to_vec());
    let dynamic = SegmentKind::Dynamic(b"id".to_vec());
    let dir = vec![group.clone(), dynamic.clone()];
    let (versions, t) = Versions::new(tree).change(dir.clone());
    assert_eq!(versions.directory(t.unwrap()), Some(dir.clone()));
    let mut after = snapshot.clone();
    after.push(file("/app/(b)/[id]/page.tsx", 4));
    let nodes = load(&after, &config()).nodes;
    let (sub, errors) = rebuild(&mut store, &nodes, &dir, true);
    assert!(errors.is_empty());
    let (versions, done) = versions.complete(&mut store, t.unwrap(), sub, 9, true);
    assert_eq!(
        done,
        Completion::Kept(Some(RouteError::ConflictingRoute {
            path: b"/(b)/[id]".to_vec(),
            other: b"/[slug]".to_vec(),
        }))
    );
    assert_eq!(versions.current(), tree);
    match match_route(&store, &tree, b"/x", probe()).outcome {
        Outcome::Matched(m) => {
            assert_eq!(String::from_utf8(display_path(&store, &m.leaf_path)).unwrap(), "/[slug]")
        }
        Outcome::NoMatch => panic!("no match"),
    }
    let (root, conflict) = apply(&mut store, tree.root, &dir, Graft::Replace(sub.unwrap())).unwrap();
    assert!(conflict);
    let shut = RouteTree { root, version: 2, fingerprint: 0 };
    assert!(matches!(match_route(&store, &shut, b"/x", probe()).outcome, Outcome::NoMatch));
    assert!(matches!(match_route(&store, &shut, b"/about", probe()).outcome, Outcome::NoMatch));
    assert_eq!(apply(&mut store, tree.root, &vec![group], Graft::Replace(sub.unwrap())), None);
    let (_, conflict) = apply(&mut store, tree.root, &dir, Graft::Touch).unwrap();
    assert!(conflict);
    let f = store.add_file(SourceFile { path: b"x".to_vec(), fingerprint: 0, meta: meta() });
    let (_, conflict) = apply(&mut store, tree.root, &dir, Graft::Bind(FileRole::Page, f)).unwrap();
    assert!(conflict);
}

#[test]
fn an_emptied_directory_is_taken_away() {
    let first = vec![file("/app/layout.tsx", 1), file("/app/blog/[slug]/page.tsx", 2)];
    let (mut store, tree) = built(&first);
    let slug = vec![st("blog"), SegmentKind::Dynamic(b"slug".to_vec())];
    let id = vec![st("blog"), SegmentKind::Dynamic(b"id".to_vec())];
    let second = vec![file("/app/layout.tsx", 1)];
    let (versions, t) = Versions::new(tree).change(slug.clone());
    let (sub, errors) = rebuild(&mut store, &load(&second, &config()).nodes, &slug, true);
    assert_eq!(sub, None);
    assert!(errors.is_empty());
    let (versions, done) = versions.complete(&mut store, t.unwrap(), sub, 1, true);
    let next = match done {
        Completion::Published(t) => t,
        other => panic!("{:?}", other),
    };
    assert_eq!(next.version, 2);
    assert!(matches!(match_route(&store, &next, b"/blog/x", probe()).outcome, Outcome::NoMatch));
    let blog = child(&store, next.root, "blog");
    assert!(store.get_node(blog).unwrap().children.is_empty());
    let third = vec![file("/app/layout.tsx", 1), file("/app/blog/[id]/page.tsx", 3)];
    let (versions, t) = versions.change(id.clone());
    let (sub, errors) = rebuild(&mut store, &load(&third, &config()).nodes, &id, true);
    assert!(errors.is_empty());
    let (versions, done) = versions.complete(&mut store, t.unwrap(), sub, 2, true);
    let last = match done {
        Completion::Published(t) => t,
        other => panic!("{:?}", other),
    };
    assert_eq!(versions.current(), last);
    match match_route(&store, &last, b"/blog/x", probe()).outcome {
        Outcome::Matched(m) => {
            assert_eq!(String::from_utf8(display_path(&store, &m.leaf_path)).unwrap(), "/blog/[id]");
            assert_eq!(m.params[0].values, vec![b"x".to_vec()]);
        }
        Outcome::NoMatch => panic!("no match"),
    }
    let (versions, t) = versions.change(vec![]);
    let (versions, done) = versions.complete(&mut store, t.unwrap(), None, 3, true);
    assert_eq!(done, Completion::Kept(None));
    assert_eq!(versions.current(), last);
}

#[test]
fn rebuilding_the_root_builds_the_whole_tree() {
    let mut store = RouteStore::new();
    let nodes = load(&vec![file("/app/hello/page.tsx", 1)], &config()).nodes;
    let (sub, errors) = rebuild(&mut store, &nodes, &vec![], true);
    assert_eq!(errors, vec![RouteError::MissingRequiredFile { path: b"/".to_vec() }]);
    let tree = RouteTree { root: sub.unwrap(), version: 1, fingerprint: 0 };
    assert!(matches!(match_route(&store, &tree, b"/hello", probe()).outcome, Outcome::NoMatch));
    let (sub, errors) = rebuild(&mut store, &nodes, &vec![], false);
    assert!(errors.is_empty());
    let tree = RouteTree { root: sub.unwrap(), version: 1, fingerprint: 0 };
    assert!(matches!(match_route(&store, &tree, b"/hello", probe()).outcome, Outcome::Matched(_)));
    let (sub, errors) = rebuild(&mut store, &Vec::new(), &vec![], false);
    assert!(sub.is_some() && errors.is_empty());
}

#[test]
fn rebuilds_of_separate_directories_both_land() {
    let (mut store, tree) = built(&site());
    let (versions, a) = Versions::new(tree).change(vec![st("blog")]);
    let (versions, b) = versions.change(vec![st("shop")]);
    let mut snapshot = site();
    snapshot.push(file("/app/blog/a/page.tsx", 7));
    snapshot.push(file("/app/shop/b/page.tsx", 8));
    let nodes = load(&snapshot, &config()).nodes;
    let (blog, _) = rebuild(&mut store, &nodes, &vec![st("blog")], true);
    let (shop, _) = rebuild(&mut store, &nodes, &vec![st("shop")], true);
    let (versions, done) = versions.complete(&mut store, b.unwrap(), shop, 1, true);
    assert!(matches!(done, Completion::Published(t) if t.version == 2));
    let (versions, done) = versions.complete(&mut store, a.unwrap(), blog, 2, true);
    let last = match done {
        Completion::Published(t) => t,
        other => panic!("{:?}", other),
    };
    assert_eq!(last.version, 3);
    assert_eq!(versions.current(), last);
    for path in ["/blog/a", "/shop/b", "/shop/cart", "/blog/zzz", "/"] {
        assert!(matches!(match_route(&store, &last, path.as_bytes(), probe()).outcome, Outcome::Matched(_)), "{}", path);
    }
    assert!(matches!(match_route(&store, &tree, b"/shop/b", probe()).outcome, Outcome::NoMatch));
}

#[test]
fn a_subtree_must_stand_for_its_directory() {
    let (mut store, tree) = built(&site());
    let (versions, t) = Versions::new(tree).change(vec![st("blog")]);
    let (shop, _) = rebuild(&mut store, &load(&site(), &config()).nodes, &vec![st("shop")], true);
    let (versions, done) = versions.complete(&mut store, t.unwrap(), shop, 1, true);
    assert_eq!(done, Completion::Kept(None));
    let (versions, t) = versions.change(vec![st("blog")]);
    let n = store.node_count();
    let (versions, done) = versions.complete(&mut store, t.unwrap(), Some(n + 1), 1, true);
    assert_eq!(done, Completion::Kept(None));
    assert_eq!(versions.current(), tree);
}

#[test]
fn the_last_version_is_never_passed() {
    let (mut store, tree) = built(&site());
    let top = RouteTree { root: tree.root, version: u64::MAX, fingerprint: 0 };
    let (versions, t) = Versions::new(top).change(vec![]);
    let (whole, _) = rebuild(&mut store, &load(&site(), &config()).nodes, &vec![], true);
    let (versions, done) = versions.complete(&mut store, t.unwrap(), whole, 1, true);
    assert_eq!(done, Completion::Kept(None));
    assert_eq!(versions.current(), top);
}

#[test]
fn directories_overlap_when_one_holds_the_other() {
    assert!(overlaps(&vec![], &vec![st("a")]));
    assert!(overlaps(&vec![st("a"), st("b")], &vec![st("a")]));
    assert!(overlaps(&vec![st("a")], &vec![st("a")]));
    assert!(!overlaps(&vec![st("a"), st("b")], &vec![st("a"), st("c")]));
    assert!(!overlaps(&vec![st("a")], &vec![st("b"), st("a")]));
}

#[test]
fn rebuilding_passes_over_entries_outside_the_directory() {
    let mut store = RouteStore::new();
    let mut snapshot = site();
    snapshot.push(file("/app/blog/[...rest]/x/page.tsx", 1));
    snapshot.push(file("/app/shop/[...rest]/x/page.tsx", 1));
    let nodes = load(&snapshot, &config()).nodes;
    let (sub, errors) = rebuild(&mut store, &nodes, &vec![st("blog")], true);
    assert_eq!(
        errors,
        vec![RouteError::UnsupportedNesting { path: b"/app/blog/[...rest]/x/page.tsx".to_vec() }]
    );
    let node = store.get_node(sub.unwrap()).unwrap();
    assert_eq!(node.kind, st("blog"));
    assert_eq!(node.children.len(), 1);
    assert!(node.files.page.is_some());
    assert_eq!(store.get_file(node.files.page.unwrap()).unwrap().path, b"/app/blog/page.tsx".to_vec());
    assert_eq!(store.get_file(1_000), None);
    assert_eq!(store.get_node(1_000), None);
}

#[test]
fn snapshots_are_compared_by_path_and_content() {
    let old = site();
    let mut new = vec![
        file("/app/layout.tsx", 1),
        file("/app/new/page.tsx", 8),
        file("/app/blog/page.tsx", 30),
        file("/app/page.tsx", 2),
        dir("/app/shop/cart/page.tsx"),
    ];
    new[3].meta.dynamic = true;
    let changes = diff(&old, &new);
    let want = vec![
        Change { node: new[1].clone(), kind: ChangeKind::Created },
        Change { node: new[2].clone(), kind: ChangeKind::Modified },
        Change { node: new[3].clone(), kind: ChangeKind::Modified },
        Change { node: new[4].clone(), kind: ChangeKind::Modified },
        Change { node: old[3].clone(), kind: ChangeKind::Removed },
        Change { node: old[4].clone(), kind: ChangeKind::Removed },
    ];
    assert_eq!(changes, want);
    assert_eq!(diff(&old, &old), vec![]);
    assert_eq!(diff(&vec![], &vec![]), vec![]);
    assert_eq!(diff(&vec![], &old).len(), 6);
    assert!(diff(&old, &vec![]).iter().all(|c| c.kind == ChangeKind::Removed));
}

#[test]
fn a_path_has_the_parent_before_its_last_slash() {
    assert_eq!(parent_path(b"/app/blog/page.tsx"), Some(b"/app/blog".to_vec()));
    assert_eq!(parent_path(b"/app"), Some(b"".to_vec()));
    assert_eq!(parent_path(b"/app/"), Some(b"/app".to_vec()));
    assert_eq!(parent_path(b"app"), None);
    assert_eq!(parent_path(b""), None);
}

#[test]
fn a_change_affects_the_smallest_directory_that_holds_it() {
    let classified = |n: FileNode| match classify_node(&n, &config()) {
        Loaded::Node(c) => c,
        other => panic!("{:?}", other),
    };
    let page = classified(file("/app/blog/[slug]/page.tsx", 1));
    let way = vec![st("blog"), SegmentKind::Dynamic(b"slug".to_vec())];
    for kind in [ChangeKind::Created, ChangeKind::Modified, ChangeKind::Removed] {
        assert_eq!(affected_dir(&page, kind), way);
    }
    let d = classified(dir("/app/blog/[slug]"));
    assert_eq!(affected_dir(&d, ChangeKind::Created), vec![st("blog")]);
    assert_eq!(affected_dir(&d, ChangeKind::Removed), vec![st("blog")]);
    assert_eq!(affected_dir(&d, ChangeKind::Modified), way);
    let root = classified(dir("/app"));
    assert_eq!(affected_dir(&root, ChangeKind::Removed), vec![]);
}

fn shape(store: &RouteStore, id: usize) -> String {
    let node = store.get_node(id).unwrap();
    let mut out = format!("{:?}", node.kind);
    for f in [
        node.files.page,
        node.files.layout,
        node.files.loading,
        node.files.error,
        node.files.template,
        node.files.handler,
        node.files.default,
        node.files.not_found,
        node.files.middleware,
    ] {
        match f {
            Some(i) => {
                let file = store.get_file(i).unwrap();
                out.push_str(&format!("|{:?}:{}", file.path, file.fingerprint));
            }
            None => out.push('|'),
        }
    }
    out.push_str(&format!("|{}[", node.blocked));
    for c in &node.children {
        out.push_str(&shape(store, *c));
        out.push(',');
    }
    out.push(']');
    out
}

#[test]
fn an_incremental_rebuild_gives_what_a_full_build_gives() {
    let old = vec![
        dir("/app"),
        file("/app/layout.tsx", 1),
        dir("/app/shop"),
        file("/app/shop/page.tsx", 2),
        dir("/app/blog"),
        file("/app/blog/page.tsx", 3),
        dir("/app/blog/[slug]"),
        file("/app/blog/[slug]/page.tsx", 4),
        dir("/app/about"),
        file("/app/about/page.tsx", 5),
    ];
    let new = vec![
        dir("/app"),
        file("/app/layout.tsx", 1),
        dir("/app/shop"),
        file("/app/shop/page.tsx", 2),
        dir("/app/blog"),
        dir("/app/about"),
        file("/app/blog/layout.tsx", 6),
        dir("/app/blog/(x)"),
        file("/app/blog/(x)/[id]/page.tsx", 7),
        file("/app/about/page.tsx", 5),
        file("/app/blog/page.tsx", 30),
    ];
    let (mut store, tree) = built(&old);
    let blog = vec![st("blog")];
    let (versions, t) = Versions::new(tree).change(vec![st("blog"), SegmentKind::Group(b"x".to_vec())]);
    assert_eq!(versions.directory(t.unwrap()), Some(blog.clone()));
    let nodes = load(&new, &config()).nodes;
    let (sub, errors) = rebuild(&mut store, &nodes, &blog, true);
    assert!(errors.is_empty());
    let (_, done) = versions.complete(&mut store, t.unwrap(), sub, 12, true);
    let next = match done {
        Completion::Published(t) => t,
        other => panic!("{:?}", other),
    };
    let mut fresh = RouteStore::new();
    let full = build(&mut fresh, &nodes, true, 2, 12);
    assert!(full.errors.is_empty());
    assert_eq!(shape(&store, next.root), shape(&fresh, full.tree.root));
    assert_eq!(child(&store, next.root, "shop"), child(&store, tree.root, "shop"));
    assert_eq!(child(&store, next.root, "about"), child(&store, tree.root, "about"));
}

#[test]
fn a_refresh_brings_the_tree_from_one_snapshot_to_the_next() {
    let before = vec![
        dir("/app"),
        file("/app/layout.tsx", 1),
        dir("/app/shop"),
        file("/app/shop/page.tsx", 2),
        dir("/app/blog"),
        file("/app/blog/page.tsx", 3),
    ];
    let mut after = before.clone();
    after[5] = file("/app/blog/page.tsx", 30);
    after.push(dir("/app/blog/[slug]"));
    after.push(file("/app/blog/[slug]/page.tsx", 4));
    after.push(file("/app/shop/logo.png", 9));
    after.push(file("/app/shop/[bad/page.tsx", 9));
    let (mut store, tree) = built(&before);
    let shop = child(&store, tree.root, "shop");
    let r = refresh(&mut store, Versions::new(tree), &config(), &before, &after, 50);
    assert_eq!(
        r.errors,
        vec![RouteError::InvalidSegmentSyntax { path: b"/app/shop/[bad/page.tsx".to_vec() }]
    );
    assert_eq!(r.published.len(), 1);
    assert_eq!(r.published[0].version, 2);
    assert_eq!(r.published[0].fingerprint, 50);
    assert_eq!(r.versions.current(), r.published[0]);
    assert_eq!(r.versions.in_flight(), 0);
    assert_eq!(child(&store, r.published[0].root, "shop"), shop);
    let mut fresh = RouteStore::new();
    let full = build(&mut fresh, &load(&after, &config()).nodes, true, 2, 50);
    assert_eq!(shape(&store, r.published[0].root), shape(&fresh, full.tree.root));
    let again = refresh(&mut store, r.versions, &config(), &after, &after, 51);
    assert_eq!(again.published, vec![]);
    assert_eq!(again.versions.current().version, 2);
    assert_eq!(again.errors.len(), 1);
}

#[test]
fn a_refresh_reports_what_it_holds_back() {
    let before = vec![
        dir("/app"),
        file("/app/layout.tsx", 1),
        dir("/app/[slug]"),
        file("/app/[slug]/page.tsx", 2),
        dir("/app/(b)"),
        file("/app/(b)/about/page.tsx", 3),
        dir("/app/shop"),
    ];
    let mut after = before.clone();
    after.push(dir("/app/(b)/[id]"));
    after.push(file("/app/(b)/[id]/page.tsx", 4));
    after.push(file("/app/shop/page.tsx", 5));
    let (mut store, tree) = built(&before);
    let r = refresh(&mut store, Versions::new(tree), &config(), &before, &after, 7);
    assert!(r.published.is_empty());
    assert_eq!(r.versions.current(), tree);
    assert_eq!(r.versions.in_flight(), 0);
    assert_eq!(
        r.errors,
        vec![
            RouteError::ConflictingRoute {
            path: b"/app/(b)/[id]".to_vec(),
            other: b"/[slug]".to_vec(),
        },
            RouteError::ConflictingRoute {
            path: b"/app/(b)/[id]/page.tsx".to_vec(),
            other: b"/[slug]".to_vec(),
        },
        ]
    );
    assert!(matches!(match_route(&store, &tree, b"/x", probe()).outcome, Outcome::Matched(_)));
    match match_route(&store, &tree, b"/shop", probe()).outcome {
        Outcome::Matched(m) => {
            assert_eq!(String::from_utf8(display_path(&store, &m.leaf_path)).unwrap(), "/[slug]")
        }
        Outcome::NoMatch => panic!("no match"),
    }
    let mut mended = after.clone();
    mended.remove(2);
    mended.remove(2);
    let r = refresh(&mut store, r.versions, &config(), &before, &mended, 8);
    assert!(r.errors.is_empty());
    assert_eq!(r.published.len(), 1);
    let now = r.versions.current();
    assert_eq!(now.version, 2);
    for (path, leaf) in [("/shop", "/shop"), ("/x", "/(b)/[id]"), ("/about", "/(b)/about")] {
        match match_route(&store, &now, path.as_bytes(), probe()).outcome {
            Outcome::Matched(m) => {
                assert_eq!(String::from_utf8(display_path(&store, &m.leaf_path)).unwrap(), leaf)
            }
            Outcome::NoMatch => panic!("no match for {}", path),
        }
    }
    let stray = RouteTree { root: 1_000_000, version: 1, fingerprint: 0 };
    let n = store.node_count();
    let r = refresh(&mut store, Versions::new(stray), &config(), &before, &after, 7);
    assert!(r.published.is_empty() && r.errors.is_empty());
    assert_eq!(r.versions.current(), stray);
    assert_eq!(r.versions.in_flight(), 0);
    assert_eq!(store.node_count(), n);
}
