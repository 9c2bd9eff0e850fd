//! Byte-order helpers shared by the packet builders and the descriptor parsers.

use vstd::prelude::*;

verus! {

/// The two bytes of `v` in network (big-endian) order.
pub open spec fn be16(v: u16) -> Seq<u8> {
    seq![(v >> 8u16) as u8, v as u8]
}

/// The four bytes of `v` in network (big-endian) order.
pub open spec fn be32(v: u32) -> Seq<u8> {
    seq![(v >> 24u32) as u8, (v >> 16u32) as u8, (v >> 8u32) as u8, v as u8]
}

/// The two bytes of `v` in little-endian order.
pub open spec fn le16(v: u16) -> Seq<u8> {
    seq![v as u8, (v >> 8u16) as u8]
}

/// The four bytes of `v` in little-endian order.
pub open spec fn le32(v: u32) -> Seq<u8> {
    seq![v as u8, (v >> 8u32) as u8, (v >> 16u32) as u8, (v >> 24u32) as u8]
}

/// Appends `v` in big-endian order.
pub fn push_be16(out: &mut Vec<u8>, v: u16)
    ensures
        final(out)@ == old(out)@ + be16(v),
{
    out.push((v >> 8u16) as u8);
    out.push(v as u8);
    assert(out@ =~= old(out)@ + be16(v));
}

/// Appends `v` in big-endian order.
pub fn push_be32(out: &mut Vec<u8>, v: u32)
    ensures
        final(out)@ == old(out)@ + be32(v),
{
    out.push((v >> 24u32) as u8);
    out.push((v >> 16u32) as u8);
    out.push((v >> 8u32) as u8);
    out.push(v as u8);
    assert(out@ =~= old(out)@ + be32(v));
}

/// Appends `v` in little-endian order.
pub fn push_le16(out: &mut Vec<u8>, v: u16)
    ensures
        final(out)@ == old(out)@ + le16(v),
{
    out.push(v as u8);
    out.push((v >> 8u16) as u8);
    assert(out@ =~= old(out)@ + le16(v));
}

/// Appends `v` in little-endian order.
pub fn push_le32(out: &mut Vec<u8>, v: u32)
    ensures
        final(out)@ == old(out)@ + le32(v),
{
    out.push(v as u8);
    out.push((v >> 8u32) as u8);
    out.push((v >> 16u32) as u8);
    out.push((v >> 24u32) as u8);
    assert(out@ =~= old(out)@ + le32(v));
}

/// Appends every byte of `src`.
pub fn push_all(out: &mut Vec<u8>, src: &[u8])
    ensures
        final(out)@ == old(out)@ + src@,
{
    let mut i: usize = 0;
    while i < src.len()
        invariant
            i <= src.len(),
            out@ == old(out)@ + src@.subrange(0, i as int),
        decreases src.len() - i,
    {
        out.push(src[i]);
        i += 1;
        assert(out@ =~= old(out)@ + src@.subrange(0, i as int));
    }
    assert(src@.subrange(0, src.len() as int) =~= src@);
}

/// Whether two byte strings are equal.
pub fn bytes_eq(a: &[u8], b: &[u8]) -> (r: bool)
    ensures
        r == (a@ == b@),
{
    if a.len() != b.len() {
        return false;
    }
    let mut i: usize = 0;
    while i < a.len()
        invariant
            i <= a.len(),
            a.len() == b.len(),
            forall|k: int| 0 <= k < i ==> a@[k] == b@[k],
        decreases a.len() - i,
    {
        if a[i] != b[i] {
            return false;
        }
        i += 1;
    }
    assert(a@ =~= b@);
    true
}

/// A copy of `s[from..to]`.
pub fn copy_range(s: &[u8], from: usize, to: usize) -> (r: Vec<u8>)
    requires
        from <= to <= s.len(),
    ensures
        r@ == s@.subrange(from as int, to as int),
{
    let mut r: Vec<u8> = Vec::with_capacity(to - from);
    let mut i: usize = from;
    while i < to
        invariant
            from <= i <= to <= s.len(),
            r@ == s@.subrange(from as int, i as int),
        decreases to - i,
    {
        r.push(s[i]);
        i += 1;
        assert(r@ =~= s@.subrange(from as int, i as int));
    }
    r
}

/// Big-endian value of the two bytes at `i`.
pub open spec fn be16_at(s: Seq<u8>, i: int) -> int {
    s[i] as int * 256 + s[i + 1] as int
}

/// Little-endian value of the two bytes at `i`.
pub open spec fn le16_at(s: Seq<u8>, i: int) -> int {
    s[i] as int + s[i + 1] as int * 256
}

/// Little-endian value of the three bytes at `i`.
pub open spec fn le24_at(s: Seq<u8>, i: int) -> int {
    s[i] as int + s[i + 1] as int * 256 + s[i + 2] as int * 65536
}

/// Little-endian value of the four bytes at `i`.
pub open spec fn le32_at(s: Seq<u8>, i: int) -> int {
    s[i] as int + s[i + 1] as int * 256 + s[i + 2] as int * 65536 + s[i + 3] as int * 16777216
}


/// Index of the first byte `c` in `b` at or after `i` (`b.len()` if none).
pub open spec fn find_byte(b: Seq<u8>, c: u8, i: int) -> int
    decreases b.len() - i,
{
    if i < 0 || i >= b.len() {
        b.len() as int
    } else if b[i] == c {
        i
    } else {
        find_byte(b, c, i + 1)
    }
}

/// `find_byte` lands between `i` and the end.
pub proof fn lemma_find_byte_bounds(b: Seq<u8>, c: u8, i: int)
    requires
        0 <= i <= b.len(),
    ensures
        i <= find_byte(b, c, i) <= b.len(),
    decreases b.len() - i,
{
    if i < b.len() && b[i] != c {
        lemma_find_byte_bounds(b, c, i + 1);
    }
}

/// Index of the first byte `c` in `b` at or after `i` (`b.len()` if none).
pub fn find_byte_exec(b: &[u8], c: u8, i: usize) -> (r: usize)
    requires
        i <= b.len(),
    ensures
        r == find_byte(b@, c, i as int),
        i <= r <= b.len(),
{
    proof {
        lemma_find_byte_bounds(b@, c, i as int);
    }
    let mut k = i;
    while k < b.len()
        invariant
            i <= k <= b.len(),
            find_byte(b@, c, i as int) == find_byte(b@, c, k as int),
        decreases b.len() - k,
    {
        if b[k] == c {
            return k;
        }
        k += 1;
    }
    k
}

/// The index of the last element of `s` that satisfies `p`, if any.
pub open spec fn last_where<T>(s: Seq<T>, p: spec_fn(T) -> bool) -> Option<int>
    decreases s.len(),
{
    if s.len() == 0 {
        None
    } else if p(s.last()) {
        Some(s.len() - 1)
    } else {
        last_where(s.drop_last(), p)
    }
}

pub proof fn lemma_last_where_concat<T>(a: Seq<T>, b: Seq<T>, p: spec_fn(T) -> bool)
    ensures
        last_where(a + b, p) == match last_where(b, p) {
            Some(k) => Some(a.len() + k),
            None => last_where(a, p),
        },
    decreases b.len(),
{
    if b.len() == 0 {
        assert(a + b =~= a);
    } else {
        assert((a + b).drop_last() =~= a + b.drop_last());
        assert((a + b).last() == b.last());
        lemma_last_where_concat(a, b.drop_last(), p);
    }
}

pub proof fn lemma_last_where_single<T>(x: T, p: spec_fn(T) -> bool)
    ensures
        last_where(seq![x], p) == if p(x) { Some(0int) } else { None::<int> },
{
    let one = seq![x];
    assert(one.last() == x);
    assert(one.drop_last() =~= Seq::<T>::empty());
    assert(last_where(Seq::<T>::empty(), p) is None);
}

pub proof fn lemma_last_where_found<T>(s: Seq<T>, p: spec_fn(T) -> bool)
    ensures
        match last_where(s, p) {
            Some(k) => 0 <= k < s.len() && p(s[k]) && forall|j: int| k < j < s.len() ==> !p(#[trigger] s[j]),
            None => forall|j: int| 0 <= j < s.len() ==> !p(#[trigger] s[j]),
        },
    decreases s.len(),
{
    if s.len() > 0 && !p(s.last()) {
        lemma_last_where_found(s.drop_last(), p);
        assert forall|j: int| 0 <= j < s.len() - 1 implies s[j] == s.drop_last()[j] by {}
    }
}

} // verus!
