//! The naming grammar of route segments.
//!
//! A directory name is one of seven kinds of segment. Parsing a name is the
//! inverse of writing a well-formed segment out as a directory name.

use vstd::prelude::*;
use crate::bytes::{
    append_bytes, bytes_eq, copy_bytes, copy_range, AT, DOT, LBRACKET, LPAREN, RBRACKET, RPAREN,
    SLASH,
};
use crate::error::{ErrorKind, ErrorView, RouteError};

verus! {

/// How far above its own directory an intercept marker aims.
#[derive(Debug, Clone, Copy, PartialEq, Eq, Structural)]
pub enum InterceptLevel {
    /// `(.)`: the same level.
    Same,
    /// `(..)`: one level up.
    Parent,
    /// `(...)`: the root.
    Root,
}

/// One classified path segment.
#[derive(Debug, Clone, PartialEq, Eq)]
pub enum SegmentKind {
    /// `name`: matches itself.
    Static(Vec<u8>),
    /// `[name]`: binds one request segment.
    Dynamic(Vec<u8>),
    /// `[...name]`: binds one or more trailing request segments.
    CatchAll(Vec<u8>),
    /// `[[...name]]`: binds zero or more trailing request segments.
    OptionalCatchAll(Vec<u8>),
    /// `(name)`: organizes, and is invisible in the matched path.
    Group(Vec<u8>),
    /// `@name`: a slot matched on its own beside its siblings.
    ParallelSlot(Vec<u8>),
    /// `(.)name`, `(..)name`, `(...)name`: stands in for the route `name`
    /// under soft navigation.
    Intercept(InterceptLevel, Vec<u8>),
}

/// The mathematical content of a segment.
pub ghost enum SegmentView {
    Static(Seq<u8>),
    Dynamic(Seq<u8>),
    CatchAll(Seq<u8>),
    OptionalCatchAll(Seq<u8>),
    Group(Seq<u8>),
    ParallelSlot(Seq<u8>),
    Intercept(InterceptLevel, Seq<u8>),
}

/// Bytes that only the grammar may use.
pub open spec fn is_reserved(b: u8) -> bool {
    b == SLASH || b == LPAREN || b == RPAREN || b == LBRACKET || b == RBRACKET
}

/// Nonempty and free of reserved bytes.
pub open spec fn is_plain(s: Seq<u8>) -> bool {
    s.len() > 0 && forall|i: int| 0 <= i < s.len() ==> !is_reserved(#[trigger] s[i])
}

/// A name that a bracket, a group, a slot or an intercept may carry: plain,
/// and not beginning with a dot.
pub open spec fn is_label(s: Seq<u8>) -> bool {
    is_plain(s) && s[0] != DOT
}

/// The prefix that marks an intercept of the given level.
pub open spec fn intercept_marker(level: InterceptLevel) -> Seq<u8> {
    match level {
        InterceptLevel::Same => seq![LPAREN, DOT, RPAREN],
        InterceptLevel::Parent => seq![LPAREN, DOT, DOT, RPAREN],
        InterceptLevel::Root => seq![LPAREN, DOT, DOT, DOT, RPAREN],
    }
}

impl SegmentView {
    /// The name that the segment carries.
    pub open spec fn name(self) -> Seq<u8> {
        match self {
            SegmentView::Static(n) => n,
            SegmentView::Dynamic(n) => n,
            SegmentView::CatchAll(n) => n,
            SegmentView::OptionalCatchAll(n) => n,
            SegmentView::Group(n) => n,
            SegmentView::ParallelSlot(n) => n,
            SegmentView::Intercept(_, n) => n,
        }
    }

    /// Whether the segment's name is one that the grammar allows.
    pub open spec fn wf(self) -> bool {
        match self {
            SegmentView::Static(n) => is_plain(n) && n[0] != AT,
            _ => is_label(self.name()),
        }
    }

    /// The directory name that stands for the segment.
    pub open spec fn dir_name(self) -> Seq<u8> {
        match self {
            SegmentView::Static(n) => n,
            SegmentView::Dynamic(n) => seq![LBRACKET] + n + seq![RBRACKET],
            SegmentView::CatchAll(n) => seq![LBRACKET, DOT, DOT, DOT] + n + seq![RBRACKET],
            SegmentView::OptionalCatchAll(n) => seq![LBRACKET, LBRACKET, DOT, DOT, DOT] + n
                + seq![RBRACKET, RBRACKET],
            SegmentView::Group(n) => seq![LPAREN] + n + seq![RPAREN],
            SegmentView::ParallelSlot(n) => seq![AT] + n,
            SegmentView::Intercept(level, n) => intercept_marker(level) + n,
        }
    }

    /// Whether the segment consumes request segments when matched.
    pub open spec fn is_routing(self) -> bool {
        !(self is Group) && !(self is ParallelSlot)
    }

    /// Whether the segment absorbs every remaining request segment.
    pub open spec fn is_catch_all(self) -> bool {
        self is CatchAll || self is OptionalCatchAll
    }

    /// Whether the segment binds a parameter.
    pub open spec fn binds(self) -> bool {
        self is Dynamic || self is CatchAll || self is OptionalCatchAll
    }
}

impl View for SegmentKind {
    type V = SegmentView;

    open spec fn view(&self) -> SegmentView {
        match self {
            SegmentKind::Static(n) => SegmentView::Static(n@),
            SegmentKind::Dynamic(n) => SegmentView::Dynamic(n@),
            SegmentKind::CatchAll(n) => SegmentView::CatchAll(n@),
            SegmentKind::OptionalCatchAll(n) => SegmentView::OptionalCatchAll(n@),
            SegmentKind::Group(n) => SegmentView::Group(n@),
            SegmentKind::ParallelSlot(n) => SegmentView::ParallelSlot(n@),
            SegmentKind::Intercept(level, n) => SegmentView::Intercept(*level, n@),
        }
    }
}

/// The views of a sequence of segments.
pub open spec fn kind_views(v: Seq<SegmentKind>) -> Seq<SegmentView> {
    v.map_values(|k: SegmentKind| k@)
}

/// The segment that a directory name stands for, if it stands for one.
pub open spec fn parse_segment(name: Seq<u8>) -> Option<SegmentView> {
    let n = name.len() as int;
    if n == 0 {
        None
    } else if name[0] == LBRACKET {
        if n >= 2 && name[1] == LBRACKET {
            let inner = name.subrange(5, n - 2);
            if n >= 8 && name[2] == DOT && name[3] == DOT && name[4] == DOT && name[n - 1]
                == RBRACKET && name[n - 2] == RBRACKET && is_label(inner) {
                Some(SegmentView::OptionalCatchAll(inner))
            } else {
                None
            }
        } else if n >= 2 && name[1] == DOT {
            let inner = name.subrange(4, n - 1);
            if n >= 6 && name[2] == DOT && name[3] == DOT && name[n - 1] == RBRACKET && is_label(
                inner,
            ) {
                Some(SegmentView::CatchAll(inner))
            } else {
                None
            }
        } else {
            let inner = name.subrange(1, n - 1);
            if n >= 3 && name[n - 1] == RBRACKET && is_label(inner) {
                Some(SegmentView::Dynamic(inner))
            } else {
                None
            }
        }
    } else if name[0] == LPAREN {
        if n >= 2 && name[1] == DOT {
            if n >= 4 && name[2] == RPAREN {
                let target = name.subrange(3, n);
                if is_label(target) {
                    Some(SegmentView::Intercept(InterceptLevel::Same, target))
                } else {
                    None
                }
            } else if n >= 5 && name[2] == DOT && name[3] == RPAREN {
                let target = name.subrange(4, n);
                if is_label(target) {
                    Some(SegmentView::Intercept(InterceptLevel::Parent, target))
                } else {
                    None
                }
            } else if n >= 6 && name[2] == DOT && name[3] == DOT && name[4] == RPAREN {
                let target = name.subrange(5, n);
                if is_label(target) {
                    Some(SegmentView::Intercept(InterceptLevel::Root, target))
                } else {
                    None
                }
            } else {
                None
            }
        } else {
            let inner = name.subrange(1, n - 1);
            if n >= 3 && name[n - 1] == RPAREN && is_label(inner) {
                Some(SegmentView::Group(inner))
            } else {
                None
            }
        }
    } else if name[0] == AT {
        let inner = name.subrange(1, n);
        if is_label(inner) {
            Some(SegmentView::ParallelSlot(inner))
        } else {
            None
        }
    } else if is_plain(name) {
        Some(SegmentView::Static(name))
    } else {
        None
    }
}

/// A parsed name is a well-formed segment whose directory name is the name.
pub proof fn lemma_parse_sound(name: Seq<u8>)
    requires
        parse_segment(name) is Some,
    ensures
        parse_segment(name)->0.wf(),
        parse_segment(name)->0.dir_name() == name,
{
    let k = parse_segment(name)->0;
    assert(k.dir_name() =~= name);
}

/// Every well-formed segment is what its directory name parses to.
pub proof fn lemma_parse_complete(k: SegmentView)
    requires
        k.wf(),
    ensures
        parse_segment(k.dir_name()) == Some(k),
{
    let name = k.dir_name();
    let n = name.len() as int;
    let l = k.name();
    assert(!is_reserved(l[0]));
    match k {
        SegmentView::Static(_) => {},
        SegmentView::Dynamic(_) => {
            assert(name[1] == l[0]);
            assert(name.subrange(1, n - 1) =~= l);
        },
        SegmentView::CatchAll(_) => {
            assert(name.subrange(4, n - 1) =~= l);
        },
        SegmentView::OptionalCatchAll(_) => {
            assert(name.subrange(5, n - 2) =~= l);
        },
        SegmentView::Group(_) => {
            assert(name[1] == l[0]);
            assert(name.subrange(1, n - 1) =~= l);
        },
        SegmentView::ParallelSlot(_) => {
            assert(name.subrange(1, n) =~= l);
        },
        SegmentView::Intercept(level, _) => {
            match level {
                InterceptLevel::Same => {
                    assert(name.subrange(3, n) =~= l);
                },
                InterceptLevel::Parent => {
                    assert(name.subrange(4, n) =~= l);
                },
                InterceptLevel::Root => {
                    assert(name.subrange(5, n) =~= l);
                },
            }
        },
    }
}

/// Two well-formed segments with one directory name are one segment.
pub proof fn lemma_dir_name_injective(a: SegmentView, b: SegmentView)
    requires
        a.wf(),
        b.wf(),
        a.dir_name() == b.dir_name(),
    ensures
        a == b,
{
    lemma_parse_complete(a);
    lemma_parse_complete(b);
}

/// Whether `name[from..to]` is plain.
fn check_plain(name: &[u8], from: usize, to: usize) -> (r: bool)
    requires
        from <= to <= name@.len(),
    ensures
        r == is_plain(name@.subrange(from as int, to as int)),
{
    if from == to {
        return false;
    }
    let ghost s = name@.subrange(from as int, to as int);
    let mut i: usize = from;
    while i < to
        invariant
            from <= i <= to <= name@.len(),
            s == name@.subrange(from as int, to as int),
            forall|j: int| 0 <= j < i - from ==> !is_reserved(#[trigger] s[j]),
        decreases to - i,
    {
        let b: u8 = name[i];
        if b == SLASH || b == LPAREN || b == RPAREN || b == LBRACKET || b == RBRACKET {
            assert(is_reserved(s[i - from]));
            return false;
        }
        i += 1;
    }
    true
}

/// Whether `name[from..to]` is a label.
fn check_label(name: &[u8], from: usize, to: usize) -> (r: bool)
    requires
        from <= to <= name@.len(),
    ensures
        r == is_label(name@.subrange(from as int, to as int)),
{
    check_plain(name, from, to) && name[from] != DOT
}

/// Classifies a directory name. A name that no well-formed segment is
/// written as is rejected, with the name as the path at fault.
pub fn classify_segment(name: &[u8]) -> (r: Result<SegmentKind, RouteError>)
    ensures
        match r {
            Ok(k) => parse_segment(name@) == Some(k@),
            Err(e) => parse_segment(name@) is None && e@ == (ErrorView {
                kind: ErrorKind::InvalidSegmentSyntax,
                path: name@,
                other: Seq::empty(),
            }),
        },
{
    let n: usize = name.len();
    let mut found: Option<SegmentKind> = None;
    if n == 0 {
    } else if name[0] == LBRACKET {
        if n >= 2 && name[1] == LBRACKET {
            if n >= 8 && name[2] == DOT && name[3] == DOT && name[4] == DOT && name[n - 1]
                == RBRACKET && name[n - 2] == RBRACKET && check_label(name, 5, n - 2) {
                found = Some(SegmentKind::OptionalCatchAll(copy_range(name, 5, n - 2)));
            }
        } else if n >= 2 && name[1] == DOT {
            if n >= 6 && name[2] == DOT && name[3] == DOT && name[n - 1] == RBRACKET
                && check_label(name, 4, n - 1) {
                found = Some(SegmentKind::CatchAll(copy_range(name, 4, n - 1)));
            }
        } else {
            if n >= 3 && name[n - 1] == RBRACKET && check_label(name, 1, n - 1) {
                found = Some(SegmentKind::Dynamic(copy_range(name, 1, n - 1)));
            }
        }
    } else if name[0] == LPAREN {
        if n >= 2 && name[1] == DOT {
            if n >= 4 && name[2] == RPAREN {
                if check_label(name, 3, n) {
                    found = Some(
                        SegmentKind::Intercept(InterceptLevel::Same, copy_range(name, 3, n)),
                    );
                }
            } else if n >= 5 && name[2] == DOT && name[3] == RPAREN {
                if check_label(name, 4, n) {
                    found = Some(
                        SegmentKind::Intercept(InterceptLevel::Parent, copy_range(name, 4, n)),
                    );
                }
            } else if n >= 6 && name[2] == DOT && name[3] == DOT && name[4] == RPAREN {
                if check_label(name, 5, n) {
                    found = Some(
                        SegmentKind::Intercept(InterceptLevel::Root, copy_range(name, 5, n)),
                    );
                }
            }
        } else {
            if n >= 3 && name[n - 1] == RPAREN && check_label(name, 1, n - 1) {
                found = Some(SegmentKind::Group(copy_range(name, 1, n - 1)));
            }
        }
    } else if name[0] == AT {
        if check_label(name, 1, n) {
            found = Some(SegmentKind::ParallelSlot(copy_range(name, 1, n)));
        }
    } else {
        assert(name@.subrange(0, n as int) =~= name@);
        if check_plain(name, 0, n) {
            found = Some(SegmentKind::Static(copy_bytes(name)));
        }
    }
    match found {
        Some(k) => Ok(k),
        None => Err(RouteError::InvalidSegmentSyntax { path: copy_bytes(name) }),
    }
}

impl SegmentKind {
    /// A fresh copy of the segment.
    pub fn duplicate(&self) -> (r: SegmentKind)
        ensures
            r@ == self@,
    {
        match self {
            SegmentKind::Static(n) => SegmentKind::Static(copy_bytes(n.as_slice())),
            SegmentKind::Dynamic(n) => SegmentKind::Dynamic(copy_bytes(n.as_slice())),
            SegmentKind::CatchAll(n) => SegmentKind::CatchAll(copy_bytes(n.as_slice())),
            SegmentKind::OptionalCatchAll(n) => SegmentKind::OptionalCatchAll(
                copy_bytes(n.as_slice()),
            ),
            SegmentKind::Group(n) => SegmentKind::Group(copy_bytes(n.as_slice())),
            SegmentKind::ParallelSlot(n) => SegmentKind::ParallelSlot(copy_bytes(n.as_slice())),
            SegmentKind::Intercept(level, n) => SegmentKind::Intercept(
                *level,
                copy_bytes(n.as_slice()),
            ),
        }
    }

    /// Whether two segments are the same segment.
    pub fn same(&self, other: &SegmentKind) -> (r: bool)
        ensures
            r == (self@ == other@),
    {
        match (self, other) {
            (SegmentKind::Static(a), SegmentKind::Static(b)) => bytes_eq(
                a.as_slice(),
                b.as_slice(),
            ),
            (SegmentKind::Dynamic(a), SegmentKind::Dynamic(b)) => bytes_eq(
                a.as_slice(),
                b.as_slice(),
            ),
            (SegmentKind::CatchAll(a), SegmentKind::CatchAll(b)) => bytes_eq(
                a.as_slice(),
                b.as_slice(),
            ),
            (SegmentKind::OptionalCatchAll(a), SegmentKind::OptionalCatchAll(b)) => bytes_eq(
                a.as_slice(),
                b.as_slice(),
            ),
            (SegmentKind::Group(a), SegmentKind::Group(b)) => bytes_eq(a.as_slice(), b.as_slice()),
            (SegmentKind::ParallelSlot(a), SegmentKind::ParallelSlot(b)) => bytes_eq(
                a.as_slice(),
                b.as_slice(),
            ),
            (SegmentKind::Intercept(la, a), SegmentKind::Intercept(lb, b)) => *la == *lb
                && bytes_eq(a.as_slice(), b.as_slice()),
            _ => false,
        }
    }

    /// The name that the segment carries.
    pub fn name(&self) -> (r: &Vec<u8>)
        ensures
            r@ == self@.name(),
    {
        match self {
            SegmentKind::Static(n) => n,
            SegmentKind::Dynamic(n) => n,
            SegmentKind::CatchAll(n) => n,
            SegmentKind::OptionalCatchAll(n) => n,
            SegmentKind::Group(n) => n,
            SegmentKind::ParallelSlot(n) => n,
            SegmentKind::Intercept(_, n) => n,
        }
    }

    /// Appends the directory name of the segment to `out`.
    pub fn write_dir_name(&self, out: &mut Vec<u8>)
        ensures
            final(out)@ == old(out)@ + self@.dir_name(),
    {
        let ghost before = out@;
        match self {
            SegmentKind::Static(n) => {
                append_bytes(out, n.as_slice());
            },
            SegmentKind::Dynamic(n) => {
                out.push(LBRACKET);
                append_bytes(out, n.as_slice());
                out.push(RBRACKET);
            },
            SegmentKind::CatchAll(n) => {
                out.push(LBRACKET);
                out.push(DOT);
                out.push(DOT);
                out.push(DOT);
                append_bytes(out, n.as_slice());
                out.push(RBRACKET);
            },
            SegmentKind::OptionalCatchAll(n) => {
                out.push(LBRACKET);
                out.push(LBRACKET);
                out.push(DOT);
                out.push(DOT);
                out.push(DOT);
                append_bytes(out, n.as_slice());
                out.push(RBRACKET);
                out.push(RBRACKET);
            },
            SegmentKind::Group(n) => {
                out.push(LPAREN);
                append_bytes(out, n.as_slice());
                out.push(RPAREN);
            },
            SegmentKind::ParallelSlot(n) => {
                out.push(AT);
                append_bytes(out, n.as_slice());
            },
            SegmentKind::Intercept(level, n) => {
                out.push(LPAREN);
                out.push(DOT);
                match level {
                    InterceptLevel::Same => {},
                    InterceptLevel::Parent => {
                        out.push(DOT);
                    },
                    InterceptLevel::Root => {
                        out.push(DOT);
                        out.push(DOT);
                    },
                }
                out.push(RPAREN);
                append_bytes(out, n.as_slice());
            },
        }
        assert(out@ =~= before + self@.dir_name());
    }
}

} // verus!
