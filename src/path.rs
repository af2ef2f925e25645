//! Entry paths: sequences of segments, each segment a string of UTF-16 code units.

use vstd::prelude::*;

verus! {

/// The mathematical value of a path.
pub open spec fn path_view(p: Seq<Vec<u16>>) -> Seq<Seq<u16>> {
    p.map_values(|s: Vec<u16>| s@)
}

/// A path that an entry may have: at least one segment, no empty segment, and
/// counts that the index's 16-bit fields can hold.
pub open spec fn valid_path(p: Seq<Seq<u16>>) -> bool {
    &&& 0 < p.len() <= u16::MAX
    &&& forall|k: int| 0 <= k < p.len() ==> 0 < (#[trigger] p[k]).len() <= u16::MAX
}

/// `prefix` is the path itself or a folder above it.
pub open spec fn has_prefix(p: Seq<Seq<u16>>, prefix: Seq<Seq<u16>>) -> bool {
    prefix.len() <= p.len() && p.take(prefix.len() as int) == prefix
}

/// Whether two strings of code units are equal.
pub fn units_equal(a: &[u16], b: &[u16]) -> (r: bool)
    ensures
        r == (a@ == b@),
{
    if a.len() != b.len() {
        return false;
    }
    let mut i: usize = 0;
    while i < a.len()
        invariant
            a@.len() == b@.len(),
            i <= a@.len(),
            forall|k: int| 0 <= k < i ==> a@[k] == b@[k],
        decreases a@.len() - i,
    {
        if a[i] != b[i] {
            return false;
        }
        i = i + 1;
    }
    assert(a@ =~= b@);
    true
}

/// Whether the first `n` segments of two paths are equal.
fn segments_equal(a: &Vec<Vec<u16>>, b: &Vec<Vec<u16>>, n: usize) -> (r: bool)
    requires
        n <= a@.len(),
        n <= b@.len(),
    ensures
        r == (path_view(a@).take(n as int) == path_view(b@).take(n as int)),
{
    let ghost va = path_view(a@);
    let ghost vb = path_view(b@);
    let mut i: usize = 0;
    while i < n
        invariant
            n <= a@.len(),
            n <= b@.len(),
            va == path_view(a@),
            vb == path_view(b@),
            i <= n,
            forall|k: int| 0 <= k < i ==> va[k] == vb[k],
        decreases n - i,
    {
        if !units_equal(a[i].as_slice(), b[i].as_slice()) {
            assert(va.take(n as int)[i as int] != vb.take(n as int)[i as int]);
            return false;
        }
        i = i + 1;
    }
    assert(va.take(n as int) =~= vb.take(n as int));
    true
}

/// Whether two paths are equal.
pub fn paths_equal(a: &Vec<Vec<u16>>, b: &Vec<Vec<u16>>) -> (r: bool)
    ensures
        r == (path_view(a@) == path_view(b@)),
{
    if a.len() != b.len() {
        return false;
    }
    let r = segments_equal(a, b, a.len());
    assert(path_view(a@).take(a@.len() as int) =~= path_view(a@));
    assert(path_view(b@).take(b@.len() as int) =~= path_view(b@));
    r
}

/// Whether `prefix` is `p` itself or a folder above it.
pub fn starts_with(p: &Vec<Vec<u16>>, prefix: &Vec<Vec<u16>>) -> (r: bool)
    ensures
        r == has_prefix(path_view(p@), path_view(prefix@)),
{
    if prefix.len() > p.len() {
        return false;
    }
    let r = segments_equal(p, prefix, prefix.len());
    assert(path_view(prefix@).take(prefix@.len() as int) =~= path_view(prefix@));
    r
}

/// Whether a path may name an entry.
pub fn is_valid_path(p: &Vec<Vec<u16>>) -> (r: bool)
    ensures
        r == valid_path(path_view(p@)),
{
    if p.len() == 0 || p.len() > 65535 {
        return false;
    }
    let mut i: usize = 0;
    while i < p.len()
        invariant
            i <= p@.len(),
            forall|k: int| 0 <= k < i ==> 0 < (#[trigger] path_view(p@)[k]).len() <= u16::MAX,
        decreases p@.len() - i,
    {
        assert(path_view(p@)[i as int] == p@[i as int]@);
        if p[i].len() == 0 || p[i].len() > 65535 {
            return false;
        }
        i = i + 1;
    }
    true
}

/// A copy of a path.
pub fn copy_path(p: &Vec<Vec<u16>>) -> (r: Vec<Vec<u16>>)
    ensures
        path_view(r@) == path_view(p@),
{
    copy_segments(p, 0, p.len())
}

/// A copy of the segments of `p` from `from` up to `to`.
pub fn copy_segments(p: &Vec<Vec<u16>>, from: usize, to: usize) -> (r: Vec<Vec<u16>>)
    requires
        from <= to <= p@.len(),
    ensures
        path_view(r@) == path_view(p@).subrange(from as int, to as int),
{
    let mut r: Vec<Vec<u16>> = Vec::new();
    let mut i: usize = from;
    while i < to
        invariant
            from <= i <= to <= p@.len(),
            path_view(r@) =~= path_view(p@).subrange(from as int, i as int),
        decreases to - i,
    {
        let seg = copy_units(p[i].as_slice());
        proof {
            assert(path_view(r@.push(seg)) =~= path_view(r@).push(seg@));
        }
        r.push(seg);
        i = i + 1;
    }
    r
}

/// A copy of a string of code units.
pub fn copy_units(u: &[u16]) -> (r: Vec<u16>)
    ensures
        r@ == u@,
{
    vstd::slice::slice_to_vec(u)
}

} // verus!
