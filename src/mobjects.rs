//! Index logic of drawable shapes.

use vstd::prelude::*;

verus! {

/// Fan triangulation of a convex polygon with `n` vertices: for each `i` in
/// `1..n-1` the triangle `(0, i, i + 1)`, indices taken as `u16` (wrapping).
pub open spec fn fan_indices(n: nat) -> Seq<u16> {
    if n < 3 {
        Seq::empty()
    } else {
        Seq::new(
            (3 * (n - 2)) as nat,
            |j: int|
                if j % 3 == 0 {
                    0u16
                } else {
                    ((j / 3 + j % 3) % 0x10000) as u16
                },
        )
    }
}

/// Triangle indices of a convex polygon with `vertex_count` vertices, as a fan
/// from the first vertex; none for fewer than three vertices.
pub fn triangle_fan(vertex_count: usize) -> (r: Vec<u16>)
    requires
        3 * vertex_count <= usize::MAX,
    ensures
        r@ == fan_indices(vertex_count as nat),
{
    let mut indices: Vec<u16> = Vec::new();
    if vertex_count < 3 {
        return indices;
    }
    let mut i: usize = 1;
    while i < vertex_count - 1
        invariant
            3 <= vertex_count,
            3 * vertex_count <= usize::MAX,
            1 <= i <= vertex_count - 1,
            indices@ == fan_indices(vertex_count as nat).subrange(0, 3 * (i - 1)),
        decreases vertex_count - i,
    {
        let next: usize = i + 1;
        indices.push(0);
        indices.push(i as u16);
        indices.push(next as u16);
        proof {
            let f = fan_indices(vertex_count as nat);
            let b = 3 * (i - 1);
            assert(f[b] == 0u16);
            assert(b / 3 == i - 1 && b % 3 == 0);
            assert((b + 1) / 3 == i - 1 && (b + 1) % 3 == 1);
            assert((b + 2) / 3 == i - 1 && (b + 2) % 3 == 2);
            assert(f[b + 1] == (i % 0x10000) as u16);
            assert(f[b + 2] == ((i + 1) % 0x10000) as u16);
            assert((i as u16) == (i % 0x10000) as u16) by (bit_vector);
            assert((next as u16) == (next % 0x10000) as u16) by (bit_vector);
            assert(indices@ =~= f.subrange(0, 3 * i));
        }
        i += 1;
    }
    assert(indices@ =~= fan_indices(vertex_count as nat));
    indices
}

} // verus!
