//! Triangle records and the exact vertex keys that decide which vertices are shared.
//!
//! Coordinates are kept as the raw bit patterns of single-precision floats, so a
//! record is copied bit for bit. Two coordinates are the same when their keys are
//! equal: every NaN has one key, negative zero has the key of positive zero, and
//! any other value is its own key. Nearby but distinct values never merge.
use vstd::prelude::*;

verus! {

/// The bit pattern that stands for every NaN.
pub const CANONICAL_NAN: u32 = 0x7fc0_0000;

/// The bit pattern of negative zero.
pub const NEGATIVE_ZERO: u32 = 0x8000_0000;

/// A triangle of a mesh file: a normal, three vertices and the attribute word,
/// each coordinate held as the bit pattern of an `f32`.
#[derive(Clone, Copy, Debug, PartialEq, Eq)]
pub struct Triangle {
    pub normal: [u32; 3],
    pub v1: [u32; 3],
    pub v2: [u32; 3],
    pub v3: [u32; 3],
    pub attr_byte_count: u16,
}

/// Whether a bit pattern is a NaN: all exponent bits set and a nonzero mantissa.
pub open spec fn is_nan_bits(b: u32) -> bool {
    b & 0x7f80_0000 == 0x7f80_0000 && b & 0x007f_ffff != 0
}

/// The key of one coordinate.
pub open spec fn coord_key(b: u32) -> u32 {
    if is_nan_bits(b) {
        CANONICAL_NAN
    } else if b == NEGATIVE_ZERO {
        0
    } else {
        b
    }
}

/// Two vertices are the same point when their coordinates have equal keys.
pub open spec fn same_point(p: [u32; 3], q: [u32; 3]) -> bool {
    &&& coord_key(p[0]) == coord_key(q[0])
    &&& coord_key(p[1]) == coord_key(q[1])
    &&& coord_key(p[2]) == coord_key(q[2])
}

/// The three coordinate keys of a vertex packed into one integer.
pub open spec fn point_code(p: [u32; 3]) -> u128 {
    ((coord_key(p[0]) as u128) << 64u128) | ((coord_key(p[1]) as u128) << 32u128) | (coord_key(
        p[2],
    ) as u128)
}

/// Whether triangle `t` has a vertex at point `p`.
pub open spec fn has_point(t: Triangle, p: [u32; 3]) -> bool {
    same_point(t.v1, p) || same_point(t.v2, p) || same_point(t.v3, p)
}

/// Whether triangle `t` has a vertex whose packed key is `c`.
pub open spec fn has_code(t: Triangle, c: u128) -> bool {
    point_code(t.v1) == c || point_code(t.v2) == c || point_code(t.v3) == c
}

/// Whether two triangles share at least one vertex.
pub open spec fn touches(s: Triangle, t: Triangle) -> bool {
    has_point(t, s.v1) || has_point(t, s.v2) || has_point(t, s.v3)
}

proof fn lemma_pack(a: u32, b: u32, c: u32, x: u32, y: u32, z: u32)
    ensures
        ((((a as u128) << 64u128) | ((b as u128) << 32u128) | (c as u128)) == (((x as u128)
            << 64u128) | ((y as u128) << 32u128) | (z as u128))) == (a == x && b == y && c == z),
{
    assert(((((a as u128) << 64u128) | ((b as u128) << 32u128) | (c as u128)) == (((x as u128)
        << 64u128) | ((y as u128) << 32u128) | (z as u128))) == (a == x && b == y && c == z))
        by (bit_vector);
}

/// Packed keys are equal exactly when the vertices are the same point.
pub proof fn lemma_point_code(p: [u32; 3], q: [u32; 3])
    ensures
        (point_code(p) == point_code(q)) == same_point(p, q),
{
    lemma_pack(
        coord_key(p[0]),
        coord_key(p[1]),
        coord_key(p[2]),
        coord_key(q[0]),
        coord_key(q[1]),
        coord_key(q[2]),
    );
}

/// `has_code` on a vertex's packed key is `has_point` on the vertex.
pub proof fn lemma_has_code(t: Triangle, p: [u32; 3])
    ensures
        has_code(t, point_code(p)) == has_point(t, p),
{
    lemma_point_code(t.v1, p);
    lemma_point_code(t.v2, p);
    lemma_point_code(t.v3, p);
}

/// The key of one coordinate.
pub fn coordinate_key(b: u32) -> (r: u32)
    ensures
        r == coord_key(b),
{
    if b & 0x7f80_0000 == 0x7f80_0000 && b & 0x007f_ffff != 0 {
        CANONICAL_NAN
    } else if b == NEGATIVE_ZERO {
        0
    } else {
        b
    }
}

/// The packed key of a vertex.
pub fn vertex_key(p: &[u32; 3]) -> (r: u128)
    ensures
        r == point_code(*p),
{
    let x = coordinate_key(p[0]);
    let y = coordinate_key(p[1]);
    let z = coordinate_key(p[2]);
    ((x as u128) << 64u128) | ((y as u128) << 32u128) | (z as u128)
}

/// The packed keys of a triangle's three vertices.
pub fn get_vertices(t: &Triangle) -> (r: [u128; 3])
    ensures
        r[0] == point_code(t.v1),
        r[1] == point_code(t.v2),
        r[2] == point_code(t.v3),
{
    [vertex_key(&t.v1), vertex_key(&t.v2), vertex_key(&t.v3)]
}

fn key_among(ks: &[u128; 3], c: u128) -> (r: bool)
    ensures
        r == (ks[0] == c || ks[1] == c || ks[2] == c),
{
    ks[0] == c || ks[1] == c || ks[2] == c
}

/// Whether two triangles share a vertex.
pub fn triangles_connected(a: &Triangle, b: &Triangle) -> (r: bool)
    ensures
        r == touches(*a, *b),
{
    let ka = get_vertices(a);
    let kb = get_vertices(b);
    proof {
        lemma_has_code(*b, a.v1);
        lemma_has_code(*b, a.v2);
        lemma_has_code(*b, a.v3);
    }
    key_among(&kb, ka[0]) || key_among(&kb, ka[1]) || key_among(&kb, ka[2])
}

} // verus!
