//! Byte-string helpers: names and paths are sequences of bytes.

use vstd::prelude::*;

verus! {

pub const SLASH: u8 = 47;

pub const DOT: u8 = 46;

pub const AT: u8 = 64;

pub const LPAREN: u8 = 40;

pub const RPAREN: u8 = 41;

pub const LBRACKET: u8 = 91;

pub const RBRACKET: u8 = 93;

/// The views of a sequence of byte vectors.
pub open spec fn seg_views(v: Seq<Vec<u8>>) -> Seq<Seq<u8>> {
    v.map_values(|x: Vec<u8>| x@)
}

/// Whether two byte strings hold the same bytes.
pub fn bytes_eq(a: &[u8], b: &[u8]) -> (r: bool)
    ensures
        r == (a@ == b@),
{
    if a.len() != b.len() {
        return false;
    }
    let n: usize = a.len();
    let mut i: usize = 0;
    while i < n
        invariant
            n == a@.len(),
            n == b@.len(),
            i <= n,
            forall|j: int| 0 <= j < i ==> a@[j] == b@[j],
        decreases n - i,
    {
        if a[i] != b[i] {
            return false;
        }
        i += 1;
    }
    assert(a@ =~= b@);
    true
}

/// Whether `a[from..to]` holds the same bytes as `b`.
pub(crate) fn range_eq(a: &[u8], from: usize, to: usize, b: &[u8]) -> (r: bool)
    requires
        from <= to <= a@.len(),
    ensures
        r == (a@.subrange(from as int, to as int) == b@),
{
    if to - from != b.len() {
        return false;
    }
    let n: usize = b.len();
    let mut i: usize = 0;
    while i < n
        invariant
            n == b@.len(),
            n == to - from,
            from <= to <= a@.len(),
            i <= n,
            forall|j: int| 0 <= j < i ==> a@[from + j] == b@[j],
        decreases n - i,
    {
        if a[from + i] != b[i] {
            assert(a@.subrange(from as int, to as int)[i as int] != b@[i as int]);
            return false;
        }
        i += 1;
    }
    assert(a@.subrange(from as int, to as int) =~= b@);
    true
}

/// A fresh vector holding `a[from..to]`.
pub(crate) fn copy_range(a: &[u8], from: usize, to: usize) -> (r: Vec<u8>)
    requires
        from <= to <= a@.len(),
    ensures
        r@ == a@.subrange(from as int, to as int),
{
    let mut out: Vec<u8> = Vec::new();
    let mut i: usize = from;
    while i < to
        invariant
            from <= i <= to <= a@.len(),
            out@ == a@.subrange(from as int, i as int),
        decreases to - i,
    {
        out.push(a[i]);
        assert(out@ =~= a@.subrange(from as int, i + 1));
        i += 1;
    }
    out
}

/// A fresh vector holding the bytes of `a`.
pub fn copy_bytes(a: &[u8]) -> (r: Vec<u8>)
    ensures
        r@ == a@,
{
    let r = copy_range(a, 0, a.len());
    assert(a@.subrange(0, a@.len() as int) =~= a@);
    r
}

/// Appends the bytes of `a` to `out`.
pub fn append_bytes(out: &mut Vec<u8>, a: &[u8])
    ensures
        final(out)@ == old(out)@ + a@,
{
    let ghost before = out@;
    let mut i: usize = 0;
    while i < a.len()
        invariant
            i <= a@.len(),
            out@ == before + a@.subrange(0, i as int),
        decreases a@.len() - i,
    {
        out.push(a[i]);
        assert(out@ =~= before + a@.subrange(0, i + 1));
        i += 1;
    }
    assert(a@.subrange(0, a@.len() as int) =~= a@);
}

/// A fresh vector of fresh copies of the byte strings `v[from..]`.
pub(crate) fn copy_tail(v: &Vec<Vec<u8>>, from: usize) -> (r: Vec<Vec<u8>>)
    requires
        from <= v@.len(),
    ensures
        seg_views(r@) == seg_views(v@).skip(from as int),
{
    let mut out: Vec<Vec<u8>> = Vec::new();
    let mut i: usize = from;
    while i < v.len()
        invariant
            from <= i <= v@.len(),
            out@.len() == i - from,
            seg_views(out@) == seg_views(v@).subrange(from as int, i as int),
        decreases v@.len() - i,
    {
        let ghost prev = out@;
        let c = copy_bytes(v[i].as_slice());
        out.push(c);
        assert forall|j: int| 0 <= j < out@.len() implies seg_views(out@)[j] == seg_views(
            v@,
        ).subrange(from as int, i + 1)[j] by {
            if j < prev.len() {
                assert(seg_views(prev)[j] == seg_views(v@).subrange(from as int, i as int)[j]);
            }
        }
        assert(seg_views(out@) =~= seg_views(v@).subrange(from as int, i + 1));
        i += 1;
    }
    assert(seg_views(v@).subrange(from as int, v@.len() as int) =~= seg_views(v@).skip(
        from as int,
    ));
    out
}

/// The pieces of `rest` between slashes, the first piece continuing `cur`.
pub open spec fn split_from(rest: Seq<u8>, cur: Seq<u8>) -> Seq<Seq<u8>>
    decreases rest.len(),
{
    if rest.len() == 0 {
        seq![cur]
    } else if rest[0] == SLASH {
        seq![cur] + split_from(rest.drop_first(), Seq::empty())
    } else {
        split_from(rest.drop_first(), cur.push(rest[0]))
    }
}

/// A path without one leading and one trailing slash.
pub open spec fn trim_slashes(path: Seq<u8>) -> Seq<u8> {
    let a: int = if path.len() > 0 && path[0] == SLASH {
        1
    } else {
        0
    };
    let b: int = if path.len() > a && path[path.len() - 1] == SLASH {
        path.len() - 1
    } else {
        path.len() as int
    };
    path.subrange(a, b)
}

/// The segments of a path: what stands between its slashes, after one
/// leading and one trailing slash are set aside. The root path has none.
pub open spec fn path_segments(path: Seq<u8>) -> Seq<Seq<u8>> {
    let inner = trim_slashes(path);
    if inner.len() == 0 {
        Seq::empty()
    } else {
        split_from(inner, Seq::empty())
    }
}

/// Splits a path into its segments.
pub fn split_path(path: &[u8]) -> (r: Vec<Vec<u8>>)
    ensures
        seg_views(r@) == path_segments(path@),
{
    let n: usize = path.len();
    let a: usize = if n > 0 && path[0] == SLASH {
        1
    } else {
        0
    };
    let b: usize = if n > a && path[n - 1] == SLASH {
        n - 1
    } else {
        n
    };
    let mut out: Vec<Vec<u8>> = Vec::new();
    if a >= b {
        assert(seg_views(out@) =~= Seq::<Seq<u8>>::empty());
        return out;
    }
    let ghost inner = path@.subrange(a as int, b as int);
    let mut cur: Vec<u8> = Vec::new();
    let mut i: usize = a;
    assert(inner.skip(0) =~= inner);
    assert(seg_views(out@) + split_from(inner, Seq::empty()) =~= split_from(inner, Seq::empty()));
    while i < b
        invariant
            a <= i <= b <= n,
            n == path@.len(),
            inner == path@.subrange(a as int, b as int),
            split_from(inner, Seq::empty()) == seg_views(out@) + split_from(
                inner.skip(i - a),
                cur@,
            ),
        decreases b - i,
    {
        let ghost rest = inner.skip(i - a);
        assert(rest.len() > 0 && rest[0] == path@[i as int]);
        assert(rest.drop_first() =~= inner.skip(i + 1 - a));
        if path[i] == SLASH {
            let ghost before = seg_views(out@);
            let ghost piece = cur@;
            out.push(cur);
            cur = Vec::new();
            assert(seg_views(out@) =~= before + seq![piece]);
            assert(before + (seq![piece] + split_from(rest.drop_first(), Seq::empty()))
                =~= (before + seq![piece]) + split_from(rest.drop_first(), Seq::empty()));
        } else {
            cur.push(path[i]);
        }
        i += 1;
    }
    let ghost before = seg_views(out@);
    let ghost piece = cur@;
    assert(inner.skip(b - a).len() == 0);
    out.push(cur);
    assert(seg_views(out@) =~= before + seq![piece]);
    out
}

} // verus!
