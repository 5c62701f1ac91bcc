use next_core::bytes::split_path;
use next_core::error::RouteError;
use next_core::files::{
    classify_file, standard_role_names, FileMeta, FileRole, MethodSet, Revalidate, RoleName,
    Runtime,
};
use next_core::loader::{
    classify_node, hoist_path, load, ClassifiedNode, FileKind, FileNode, Loaded, LoaderConfig,
};
use next_core::segment::{InterceptLevel, SegmentKind};

fn meta() -> FileMeta {
    FileMeta {
        dynamic: false,
        runtime: Runtime::Node,
        revalidate: Revalidate::Never,
        methods: MethodSet::all(),
    }
}

fn config(app_dir: bool) -> LoaderConfig {
    LoaderConfig {
        root: b"/srv/app".to_vec(),
        extensions: vec![b"tsx".to_vec(), b"js".to_vec()],
        names: standard_role_names(),
        app_dir,
    }
}

fn file(path: &str) -> FileNode {
    FileNode { path: path.as_bytes().to_vec(), kind: FileKind::File, fingerprint: 3, meta: meta() }
}

fn dir(path: &str) -> FileNode {
    FileNode {
        path: path.as_bytes().to_vec(),
        kind: FileKind::Directory,
        fingerprint: 0,
        meta: meta(),
    }
}

fn st(name: &str) -> SegmentKind {
    SegmentKind::Static(name.as_bytes().to_vec())
}

fn node(source: &str, segments: Vec<SegmentKind>, role: Option<FileRole>, fp: u64) -> Loaded {
    Loaded::Node(ClassifiedNode {
        source: source.as_bytes().to_vec(),
        segments,
        role,
        fingerprint: fp,
        meta: meta(),
    })
}

fn pieces(path: &str) -> Vec<String> {
    split_path(path.as_bytes()).into_iter().map(|s| String::from_utf8(s).unwrap()).collect()
}

#[test]
fn a_path_is_split_at_its_slashes() {
    assert_eq!(pieces("/a/b/c"), vec!["a", "b", "c"]);
    assert_eq!(pieces("a/b"), vec!["a", "b"]);
    assert_eq!(pieces("/a/b/"), vec!["a", "b"]);
    assert_eq!(pieces("/"), Vec::<String>::new());
    assert_eq!(pieces(""), Vec::<String>::new());
    assert_eq!(pieces("//"), Vec::<String>::new());
    assert_eq!(pieces("/a//b"), vec!["a", "", "b"]);
    assert_eq!(pieces("///"), vec!["", ""]);
    assert_eq!(pieces("/a/b//"), vec!["a", "b", ""]);
}

#[test]
fn file_names_give_roles() {
    let names = standard_role_names();
    let exts = vec![b"tsx".to_vec(), b"js".to_vec()];
    let role = |name: &str| classify_file(name.as_bytes(), &names, &exts);
    assert_eq!(role("page.tsx"), Some(FileRole::Page));
    assert_eq!(role("page.js"), Some(FileRole::Page));
    assert_eq!(role("layout.tsx"), Some(FileRole::Layout));
    assert_eq!(role("loading.tsx"), Some(FileRole::Loading));
    assert_eq!(role("error.tsx"), Some(FileRole::Error));
    assert_eq!(role("template.tsx"), Some(FileRole::Template));
    assert_eq!(role("route.js"), Some(FileRole::Handler));
    assert_eq!(role("handler.js"), Some(FileRole::Handler));
    assert_eq!(role("default.tsx"), Some(FileRole::Default));
    assert_eq!(role("not-found.tsx"), Some(FileRole::NotFound));
    assert_eq!(role("middleware.js"), Some(FileRole::Middleware));
    for name in ["page.css", "page", "page.", ".tsx", "pages.tsx", "page.tsx.bak", "logo.png", "", "page.test.tsx", "pagetsx"] {
        assert_eq!(role(name), None, "{}", name);
    }
}

#[test]
fn the_table_of_base_names_is_configurable() {
    let names = vec![
        RoleName { stem: b"view".to_vec(), role: FileRole::Page },
        RoleName { stem: b"view".to_vec(), role: FileRole::Layout },
        RoleName { stem: b"frame".to_vec(), role: FileRole::Layout },
    ];
    let exts = vec![b"vue".to_vec()];
    assert_eq!(classify_file(b"view.vue", &names, &exts), Some(FileRole::Page));
    assert_eq!(classify_file(b"frame.vue", &names, &exts), Some(FileRole::Layout));
    assert_eq!(classify_file(b"page.vue", &names, &exts), None);
    assert_eq!(classify_file(b"view.vue", &names, &Vec::new()), None);
}

#[test]
fn the_standard_table_has_ten_names() {
    let names = standard_role_names();
    assert_eq!(names.len(), 10);
    assert_eq!(names[9], RoleName { stem: b"middleware".to_vec(), role: FileRole::Middleware });
    assert_eq!(names[0], RoleName { stem: b"page".to_vec(), role: FileRole::Page });
    assert_eq!(names[5], RoleName { stem: b"route".to_vec(), role: FileRole::Handler });
    assert_eq!(names[8], RoleName { stem: b"not-found".to_vec(), role: FileRole::NotFound });
}

#[test]
fn files_are_classified_by_directory_and_role() {
    let cfg = config(true);
    assert_eq!(
        classify_node(&file("/srv/app/blog/[slug]/page.tsx"), &cfg),
        node(
            "/srv/app/blog/[slug]/page.tsx",
            vec![st("blog"), SegmentKind::Dynamic(b"slug".to_vec())],
            Some(FileRole::Page),
            3
        )
    );
    assert_eq!(
        classify_node(&file("/srv/app/layout.js"), &cfg),
        node("/srv/app/layout.js", vec![], Some(FileRole::Layout), 3)
    );
    assert_eq!(
        classify_node(&dir("/srv/app/(shop)/@cart"), &cfg),
        node(
            "/srv/app/(shop)/@cart",
            vec![SegmentKind::Group(b"shop".to_vec()), SegmentKind::ParallelSlot(b"cart".to_vec())],
            None,
            0
        )
    );
    assert_eq!(classify_node(&dir("/srv/app"), &cfg), node("/srv/app", vec![], None, 0));
}

#[test]
fn assets_and_strangers_are_passed_over() {
    let cfg = config(true);
    assert_eq!(classify_node(&file("/srv/app/blog/logo.png"), &cfg), Loaded::Skipped);
    assert_eq!(classify_node(&file("/srv/app/[bad/logo.png"), &cfg), Loaded::Skipped);
    assert_eq!(classify_node(&file("/srv/other/page.tsx"), &cfg), Loaded::Skipped);
    assert_eq!(classify_node(&file("/srv/application/page.tsx"), &cfg), Loaded::Skipped);
    assert_eq!(classify_node(&file("/srv/app"), &cfg), Loaded::Skipped);
    assert_eq!(classify_node(&dir("/srv"), &cfg), Loaded::Skipped);
}

#[test]
fn a_malformed_name_fails_its_entry_with_the_path() {
    let cfg = config(true);
    for path in ["/srv/app/[slug/page.tsx", "/srv/app/a/(x/page.tsx", "/srv/app/@/page.tsx", "/srv/app/a//page.tsx"] {
        assert_eq!(
            classify_node(&file(path), &cfg),
            Loaded::Failed(RouteError::InvalidSegmentSyntax { path: path.as_bytes().to_vec() })
        );
    }
    assert_eq!(
        classify_node(&dir("/srv/app/[[..x]]"), &cfg),
        Loaded::Failed(RouteError::InvalidSegmentSyntax { path: b"/srv/app/[[..x]]".to_vec() })
    );
}

#[test]
fn loading_keeps_going_after_an_error() {
    let snapshot = vec![
        file("/srv/app/layout.tsx"),
        file("/srv/app/[oops/page.tsx"),
        file("/srv/app/blog/readme.md"),
        dir("/srv/app/blog"),
        file("/srv/app/blog/page.tsx"),
    ];
    let r = load(&snapshot, &config(true));
    assert_eq!(
        r.errors,
        vec![RouteError::InvalidSegmentSyntax { path: b"/srv/app/[oops/page.tsx".to_vec() }]
    );
    let sources: Vec<String> =
        r.nodes.iter().map(|n| String::from_utf8(n.source.clone()).unwrap()).collect();
    assert_eq!(sources, vec!["/srv/app/layout.tsx", "/srv/app/blog", "/srv/app/blog/page.tsx"]);
    assert_eq!(r.nodes[2].segments, vec![st("blog")]);
    assert_eq!(r.nodes[2].role, Some(FileRole::Page));
    let empty = load(&Vec::new(), &config(true));
    assert!(empty.nodes.is_empty() && empty.errors.is_empty());
}

#[test]
fn in_the_flat_layout_every_source_file_is_a_page() {
    let cfg = config(false);
    assert_eq!(
        classify_node(&file("/srv/app/about.tsx"), &cfg),
        node("/srv/app/about.tsx", vec![st("about")], Some(FileRole::Page), 3)
    );
    assert_eq!(
        classify_node(&file("/srv/app/blog/[slug].js"), &cfg),
        node(
            "/srv/app/blog/[slug].js",
            vec![st("blog"), SegmentKind::Dynamic(b"slug".to_vec())],
            Some(FileRole::Page),
            3
        )
    );
    assert_eq!(
        classify_node(&file("/srv/app/blog/index.tsx"), &cfg),
        node("/srv/app/blog/index.tsx", vec![st("blog")], Some(FileRole::Page), 3)
    );
    assert_eq!(
        classify_node(&file("/srv/app/index.js"), &cfg),
        node("/srv/app/index.js", vec![], Some(FileRole::Page), 3)
    );
    assert_eq!(classify_node(&file("/srv/app/style.css"), &cfg), Loaded::Skipped);
    assert_eq!(
        classify_node(&file("/srv/app/[x.tsx"), &cfg),
        Loaded::Failed(RouteError::InvalidSegmentSyntax { path: b"/srv/app/[x.tsx".to_vec() })
    );
    assert_eq!(
        classify_node(&file("/srv/app/.tsx"), &cfg),
        Loaded::Failed(RouteError::InvalidSegmentSyntax { path: b"/srv/app/.tsx".to_vec() })
    );
}

#[test]
fn intercepts_are_put_where_they_aim() {
    let icpt = |l: InterceptLevel, t: &str| SegmentKind::Intercept(l, t.as_bytes().to_vec());
    let group = SegmentKind::Group(b"g".to_vec());
    let slot = SegmentKind::ParallelSlot(b"modal".to_vec());
    assert_eq!(
        hoist_path(vec![st("feed"), icpt(InterceptLevel::Same, "photo"), st("x")]),
        Some(vec![st("feed"), icpt(InterceptLevel::Same, "photo"), st("x")])
    );
    assert_eq!(
        hoist_path(vec![st("a"), st("feed"), icpt(InterceptLevel::Parent, "photo"), st("x")]),
        Some(vec![st("a"), icpt(InterceptLevel::Parent, "photo"), st("x")])
    );
    assert_eq!(
        hoist_path(vec![group.clone(), st("feed"), slot.clone(), icpt(InterceptLevel::Parent, "p")]),
        Some(vec![group.clone(), icpt(InterceptLevel::Parent, "p")])
    );
    assert_eq!(
        hoist_path(vec![st("a"), st("b"), icpt(InterceptLevel::Root, "login"), st("x")]),
        Some(vec![icpt(InterceptLevel::Root, "login"), st("x")])
    );
    assert_eq!(hoist_path(vec![icpt(InterceptLevel::Parent, "p")]), None);
    assert_eq!(hoist_path(vec![group, slot, icpt(InterceptLevel::Parent, "p")]), None);
    assert_eq!(hoist_path(vec![]), Some(vec![]));
    let cfg = config(true);
    assert_eq!(
        classify_node(&file("/srv/app/(..)photo/page.tsx"), &cfg),
        Loaded::Failed(RouteError::InvalidSegmentSyntax {
            path: b"/srv/app/(..)photo/page.tsx".to_vec()
        })
    );
}
