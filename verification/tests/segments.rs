use next_core::error::{ErrorKind, RouteError};
use next_core::segment::{classify_segment, InterceptLevel, SegmentKind};

#[test]
fn static_name_is_static() {
    assert_eq!(classify_segment(b"hello"), Ok(SegmentKind::Static(b"hello".to_vec())));
    assert_eq!(classify_segment(b".well-known"), Ok(SegmentKind::Static(b".well-known".to_vec())));
}

#[test]
fn brackets_are_dynamic_and_catch_all() {
    assert_eq!(classify_segment(b"[slug]"), Ok(SegmentKind::Dynamic(b"slug".to_vec())));
    assert_eq!(classify_segment(b"[...rest]"), Ok(SegmentKind::CatchAll(b"rest".to_vec())));
    assert_eq!(
        classify_segment(b"[[...rest]]"),
        Ok(SegmentKind::OptionalCatchAll(b"rest".to_vec()))
    );
}

#[test]
fn groups_slots_and_intercepts() {
    assert_eq!(classify_segment(b"(shop)"), Ok(SegmentKind::Group(b"shop".to_vec())));
    assert_eq!(classify_segment(b"@modal"), Ok(SegmentKind::ParallelSlot(b"modal".to_vec())));
    assert_eq!(
        classify_segment(b"(.)photo"),
        Ok(SegmentKind::Intercept(InterceptLevel::Same, b"photo".to_vec()))
    );
    assert_eq!(
        classify_segment(b"(..)photo"),
        Ok(SegmentKind::Intercept(InterceptLevel::Parent, b"photo".to_vec()))
    );
    assert_eq!(
        classify_segment(b"(...)photo"),
        Ok(SegmentKind::Intercept(InterceptLevel::Root, b"photo".to_vec()))
    );
}

#[test]
fn malformed_names_are_rejected_with_the_name() {
    let bad: Vec<&[u8]> = vec![
        b"", b"[", b"[]", b"[slug", b"slug]", b"[..rest]", b"[...]", b"[[...rest]", b"[[rest]]",
        b"[....rest]", b"()", b"(shop", b"(.)", b"(..)", b"(....)x", b"@", b"a/b", b"a(b)",
        b"[a][b]", b"(.)(x)",
    ];
    for name in bad {
        match classify_segment(name) {
            Err(e) => {
                assert_eq!(e.kind(), ErrorKind::InvalidSegmentSyntax);
                assert_eq!(e, RouteError::InvalidSegmentSyntax { path: name.to_vec() });
            }
            Ok(k) => panic!("{:?} was taken for {:?}", name, k),
        }
    }
}

#[test]
fn a_segment_is_written_as_the_name_it_was_read_from() {
    let names: Vec<&[u8]> = vec![
        b"hello", b"[slug]", b"[...rest]", b"[[...rest]]", b"(shop)", b"@modal", b"(.)photo",
        b"(..)photo", b"(...)photo",
    ];
    for name in names {
        let k = classify_segment(name).unwrap();
        let mut out = b"x/".to_vec();
        k.write_dir_name(&mut out);
        let mut want = b"x/".to_vec();
        want.extend_from_slice(name);
        assert_eq!(out, want);
        assert!(k.same(&k.duplicate()));
    }
}
