//! Triangle index lists of the built-in meshes.
use vstd::prelude::*;

verus! {

/// Corner `m` (of six) of the two triangles of quad face `f`, whose four vertices are
/// numbered `4f .. 4f + 4` counter-clockwise.
pub open spec fn face_corner(f: int, m: int) -> int {
    4 * f + if m == 0 {
        0int
    } else if m == 1 {
        1int
    } else if m == 2 {
        2int
    } else if m == 3 {
        0int
    } else if m == 4 {
        2int
    } else {
        3int
    }
}

/// Indices of `faces` quads, each split into two triangles: `(0, 1, 2)` and `(0, 2, 3)`
/// of its own four vertices. One face is the quad mesh, six are the cube.
pub fn face_indices(faces: u16) -> (r: Vec<u16>)
    requires
        4 * faces <= 0x1_0000,
    ensures
        r@.len() == 6 * faces,
        forall|f: int, m: int|
            0 <= f < faces && 0 <= m < 6 ==> #[trigger] r@[6 * f + m] == face_corner(f, m),
{
    let mut r: Vec<u16> = Vec::new();
    let mut f: u16 = 0;
    while f < faces
        invariant
            f <= faces,
            4 * faces <= 0x1_0000,
            r@.len() == 6 * f,
            forall|g: int, m: int|
                0 <= g < f && 0 <= m < 6 ==> #[trigger] r@[6 * g + m] == face_corner(g, m),
        decreases faces - f,
    {
        let base = 4 * f;
        let ghost before = r@;
        r.push(base);
        r.push(base + 1);
        r.push(base + 2);
        r.push(base);
        r.push(base + 2);
        r.push(base + 3);
        proof {
            assert forall|g: int, m: int|
                0 <= g < f + 1 && 0 <= m < 6 implies #[trigger] r@[6 * g + m] == face_corner(g, m) by {
                if g < f {
                    assert(r@[6 * g + m] == before[6 * g + m]);
                }
            }
        }
        f += 1;
    }
    r
}

/// Corner `m` (of six) of the two triangles joining vertex `j` of ring `i` to the next
/// ring of a latitude-longitude sphere with `slices + 1` vertices per ring.
pub open spec fn sphere_corner(slices: int, i: int, j: int, m: int) -> int {
    let a = i * (slices + 1) + j;
    let b = a + slices + 1;
    if m == 0 {
        a
    } else if m == 1 {
        b
    } else if m == 2 {
        a + 1
    } else if m == 3 {
        a + 1
    } else if m == 4 {
        b
    } else {
        b + 1
    }
}

/// Indices of a latitude-longitude sphere of `stacks` rings of `slices` quads, each quad
/// split into two triangles. Indices are stored as 16 bits, so on meshes with more than
/// 65536 vertices they wrap.
pub fn sphere_indices(slices: u32, stacks: u32) -> (r: Vec<u16>)
    requires
        (stacks + 1) * (slices + 1) <= u32::MAX,
    ensures
        r@.len() == 6 * stacks * slices,
        forall|i: int, j: int, m: int|
            0 <= i < stacks && 0 <= j < slices && 0 <= m < 6 ==> #[trigger] r@[6 * (i * slices + j)
                + m] == sphere_corner(slices as int, i, j, m) as u16,
{
    let mut r: Vec<u16> = Vec::new();
    let mut i: u32 = 0;
    while i < stacks
        invariant
            i <= stacks,
            (stacks + 1) * (slices + 1) <= u32::MAX,
            r@.len() == 6 * (i * slices),
            forall|p: int, j: int, m: int|
                0 <= p < i && 0 <= j < slices && 0 <= m < 6 ==> #[trigger] r@[6 * (p * slices + j)
                    + m] == sphere_corner(slices as int, p, j, m) as u16,
        decreases stacks - i,
    {
        let mut j: u32 = 0;
        while j < slices
            invariant
                i < stacks,
                j <= slices,
                (stacks + 1) * (slices + 1) <= u32::MAX,
                r@.len() == 6 * (i * slices + j),
                forall|p: int, q: int, m: int|
                    0 <= p < i && 0 <= q < slices && 0 <= m < 6 ==> #[trigger] r@[6 * (p * slices
                        + q) + m] == sphere_corner(slices as int, p, q, m) as u16,
                forall|q: int, m: int|
                    0 <= q < j && 0 <= m < 6 ==> #[trigger] r@[6 * (i * slices + q) + m]
                        == sphere_corner(slices as int, i as int, q, m) as u16,
            decreases slices - j,
        {
            proof {
                assert(i * (slices + 1) + j + slices + 2 <= (stacks + 1) * (slices + 1)) by (nonlinear_arith)
                    requires
                        i < stacks,
                        j < slices,
                ;
            }
            let a = i * (slices + 1) + j;
            let b = a + slices + 1;
            let ghost before = r@;
            r.push(a as u16);
            r.push(b as u16);
            r.push((a + 1) as u16);
            r.push((a + 1) as u16);
            r.push(b as u16);
            r.push((b + 1) as u16);
            proof {
                assert forall|p: int, q: int, m: int|
                    0 <= p < i && 0 <= q < slices && 0 <= m < 6 implies #[trigger] r@[6 * (p
                    * slices + q) + m] == sphere_corner(slices as int, p, q, m) as u16 by {
                    assert(6 * (p * slices + q) + m < 6 * (i * slices + j)) by (nonlinear_arith)
                        requires
                            p < i,
                            q < slices,
                            m < 6,
                            0 <= j,
                    ;
                    assert(r@[6 * (p * slices + q) + m] == before[6 * (p * slices + q) + m]);
                }
                assert forall|q: int, m: int|
                    0 <= q < j + 1 && 0 <= m < 6 implies #[trigger] r@[6 * (i * slices + q) + m]
                    == sphere_corner(slices as int, i as int, q, m) as u16 by {
                    if q < j {
                        assert(r@[6 * (i * slices + q) + m] == before[6 * (i * slices + q) + m]);
                    }
                }
            }
            j += 1;
        }
        proof {
            assert(6 * (i * slices + slices) == 6 * ((i + 1) * slices)) by (nonlinear_arith);
        }
        i += 1;
    }
    proof {
        assert(6 * (stacks * slices) == 6 * stacks * slices) by (nonlinear_arith);
    }
    r
}

/// Every corner of a quad face names one of the face's own four vertices.
pub proof fn lemma_face_corner_in_face(f: int, m: int)
    requires
        0 <= f,
        0 <= m < 6,
    ensures
        4 * f <= face_corner(f, m) < 4 * f + 4,
{
}

/// Every corner of the sphere's triangles names one of its `(stacks + 1) * (slices + 1)`
/// vertices.
pub proof fn lemma_sphere_corner_in_range(slices: int, stacks: int, i: int, j: int, m: int)
    requires
        0 <= i < stacks,
        0 <= j < slices,
        0 <= m < 6,
    ensures
        0 <= sphere_corner(slices, i, j, m) < (stacks + 1) * (slices + 1),
{
    assert(i * (slices + 1) + j + slices + 3 <= (stacks + 1) * (slices + 1)) by (nonlinear_arith)
        requires
            i < stacks,
            j < slices,
            0 <= i,
            0 <= j,
    ;
    assert(0 <= i * (slices + 1)) by (nonlinear_arith)
        requires
            0 <= i,
            0 <= j < slices,
    ;
}

} // verus!
