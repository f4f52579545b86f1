//! The unit cube, as twelve triangles with integer corners.
//!
//! Each face of the cube `[0, 1]^3` is split into two triangles, wound so that
//! the normal `(p1 - p0) x (p2 - p0)` points out of the cube, which is what
//! back-face culling relies on.
use vstd::prelude::*;

verus! {

/// A point with integer coordinates.
#[derive(Clone, Copy, Debug, PartialEq, Eq, Structural)]
pub struct GridPoint {
    pub x: i64,
    pub y: i64,
    pub z: i64,
}

/// A triangle with integer corners.
#[derive(Clone, Copy, Debug, PartialEq, Eq, Structural)]
pub struct GridTriangle {
    pub p0: GridPoint,
    pub p1: GridPoint,
    pub p2: GridPoint,
}

pub open spec fn gp(x: i64, y: i64, z: i64) -> GridPoint {
    GridPoint { x, y, z }
}

pub open spec fn tri(p0: GridPoint, p1: GridPoint, p2: GridPoint) -> GridTriangle {
    GridTriangle { p0, p1, p2 }
}

/// The twelve triangles of the unit cube: south, east, north, west, top and
/// bottom faces, two triangles each.
pub open spec fn unit_cube_triangles() -> Seq<GridTriangle> {
    seq![
        tri(gp(0, 0, 0), gp(0, 1, 0), gp(1, 1, 0)),
        tri(gp(0, 0, 0), gp(1, 1, 0), gp(1, 0, 0)),
        tri(gp(1, 0, 0), gp(1, 1, 0), gp(1, 1, 1)),
        tri(gp(1, 0, 0), gp(1, 1, 1), gp(1, 0, 1)),
        tri(gp(1, 0, 1), gp(1, 1, 1), gp(0, 1, 1)),
        tri(gp(1, 0, 1), gp(0, 1, 1), gp(0, 0, 1)),
        tri(gp(0, 0, 1), gp(0, 1, 1), gp(0, 1, 0)),
        tri(gp(0, 0, 1), gp(0, 1, 0), gp(0, 0, 0)),
        tri(gp(0, 1, 0), gp(0, 1, 1), gp(1, 1, 1)),
        tri(gp(0, 1, 0), gp(1, 1, 1), gp(1, 1, 0)),
        tri(gp(1, 0, 1), gp(0, 0, 1), gp(0, 0, 0)),
        tri(gp(1, 0, 1), gp(0, 0, 0), gp(1, 0, 0)),
    ]
}

/// The normal `(p1 - p0) x (p2 - p0)` of a triangle, as `(x, y, z)`.
pub open spec fn normal(t: GridTriangle) -> (int, int, int) {
    let (ax, ay, az) = (t.p1.x - t.p0.x, t.p1.y - t.p0.y, t.p1.z - t.p0.z);
    let (bx, by, bz) = (t.p2.x - t.p0.x, t.p2.y - t.p0.y, t.p2.z - t.p0.z);
    (ay * bz - az * by, az * bx - ax * bz, ax * by - ay * bx)
}

/// Twice the offset of `p` from the centre of the unit cube.
pub open spec fn from_centre(p: GridPoint) -> (int, int, int) {
    (2 * p.x - 1, 2 * p.y - 1, 2 * p.z - 1)
}

pub open spec fn dot(a: (int, int, int), b: (int, int, int)) -> int {
    a.0 * b.0 + a.1 * b.1 + a.2 * b.2
}

/// `p` is a corner of the unit cube.
pub open spec fn is_corner(p: GridPoint) -> bool {
    0 <= p.x <= 1 && 0 <= p.y <= 1 && 0 <= p.z <= 1
}

/// The triangle's corners are corners of the cube and, seen from any of them,
/// its normal points away from the centre of the cube.
pub open spec fn faces_outward(t: GridTriangle) -> bool {
    &&& is_corner(t.p0) && is_corner(t.p1) && is_corner(t.p2)
    &&& dot(normal(t), from_centre(t.p0)) > 0
    &&& dot(normal(t), from_centre(t.p1)) > 0
    &&& dot(normal(t), from_centre(t.p2)) > 0
}

/// The unit cube mesh.
pub fn unit_cube() -> (r: Vec<GridTriangle>)
    ensures
        r@ == unit_cube_triangles(),
{
    let p000 = GridPoint { x: 0, y: 0, z: 0 };
    let p001 = GridPoint { x: 0, y: 0, z: 1 };
    let p010 = GridPoint { x: 0, y: 1, z: 0 };
    let p011 = GridPoint { x: 0, y: 1, z: 1 };
    let p100 = GridPoint { x: 1, y: 0, z: 0 };
    let p101 = GridPoint { x: 1, y: 0, z: 1 };
    let p110 = GridPoint { x: 1, y: 1, z: 0 };
    let p111 = GridPoint { x: 1, y: 1, z: 1 };
    let r = vec![
        // south
        GridTriangle { p0: p000, p1: p010, p2: p110 },
        GridTriangle { p0: p000, p1: p110, p2: p100 },
        // east
        GridTriangle { p0: p100, p1: p110, p2: p111 },
        GridTriangle { p0: p100, p1: p111, p2: p101 },
        // north
        GridTriangle { p0: p101, p1: p111, p2: p011 },
        GridTriangle { p0: p101, p1: p011, p2: p001 },
        // west
        GridTriangle { p0: p001, p1: p011, p2: p010 },
        GridTriangle { p0: p001, p1: p010, p2: p000 },
        // top
        GridTriangle { p0: p010, p1: p011, p2: p111 },
        GridTriangle { p0: p010, p1: p111, p2: p110 },
        // bottom
        GridTriangle { p0: p101, p1: p001, p2: p000 },
        GridTriangle { p0: p101, p1: p000, p2: p100 },
    ];
    assert(r@ =~= unit_cube_triangles());
    r
}

/// The elements of `unit_cube_triangles`, one by one.
proof fn lemma_unit_cube_elements()
    ensures
        unit_cube_triangles().len() == 12,
        unit_cube_triangles()[0] == tri(gp(0, 0, 0), gp(0, 1, 0), gp(1, 1, 0)),
        unit_cube_triangles()[1] == tri(gp(0, 0, 0), gp(1, 1, 0), gp(1, 0, 0)),
        unit_cube_triangles()[2] == tri(gp(1, 0, 0), gp(1, 1, 0), gp(1, 1, 1)),
        unit_cube_triangles()[3] == tri(gp(1, 0, 0), gp(1, 1, 1), gp(1, 0, 1)),
        unit_cube_triangles()[4] == tri(gp(1, 0, 1), gp(1, 1, 1), gp(0, 1, 1)),
        unit_cube_triangles()[5] == tri(gp(1, 0, 1), gp(0, 1, 1), gp(0, 0, 1)),
        unit_cube_triangles()[6] == tri(gp(0, 0, 1), gp(0, 1, 1), gp(0, 1, 0)),
        unit_cube_triangles()[7] == tri(gp(0, 0, 1), gp(0, 1, 0), gp(0, 0, 0)),
        unit_cube_triangles()[8] == tri(gp(0, 1, 0), gp(0, 1, 1), gp(1, 1, 1)),
        unit_cube_triangles()[9] == tri(gp(0, 1, 0), gp(1, 1, 1), gp(1, 1, 0)),
        unit_cube_triangles()[10] == tri(gp(1, 0, 1), gp(0, 0, 1), gp(0, 0, 0)),
        unit_cube_triangles()[11] == tri(gp(1, 0, 1), gp(0, 0, 0), gp(1, 0, 0)),
{
}

/// Every triangle of the unit cube is wound so that its normal points out of
/// the cube, and all its corners are corners of the cube.
pub proof fn lemma_unit_cube_faces_outward()
    ensures
        forall|i: int|
            0 <= i < unit_cube_triangles().len() ==> faces_outward(
                #[trigger] unit_cube_triangles()[i],
            ),
{
    let s = unit_cube_triangles();
    lemma_unit_cube_elements();
    assert(faces_outward(s[0])) by (nonlinear_arith)
        requires
            s[0] == tri(gp(0, 0, 0), gp(0, 1, 0), gp(1, 1, 0)),
    ;
    assert(faces_outward(s[1])) by (nonlinear_arith)
        requires
            s[1] == tri(gp(0, 0, 0), gp(1, 1, 0), gp(1, 0, 0)),
    ;
    assert(faces_outward(s[2])) by (nonlinear_arith)
        requires
            s[2] == tri(gp(1, 0, 0), gp(1, 1, 0), gp(1, 1, 1)),
    ;
    assert(faces_outward(s[3])) by (nonlinear_arith)
        requires
            s[3] == tri(gp(1, 0, 0), gp(1, 1, 1), gp(1, 0, 1)),
    ;
    assert(faces_outward(s[4])) by (nonlinear_arith)
        requires
            s[4] == tri(gp(1, 0, 1), gp(1, 1, 1), gp(0, 1, 1)),
    ;
    assert(faces_outward(s[5])) by (nonlinear_arith)
        requires
            s[5] == tri(gp(1, 0, 1), gp(0, 1, 1), gp(0, 0, 1)),
    ;
    assert(faces_outward(s[6])) by (nonlinear_arith)
        requires
            s[6] == tri(gp(0, 0, 1), gp(0, 1, 1), gp(0, 1, 0)),
    ;
    assert(faces_outward(s[7])) by (nonlinear_arith)
        requires
            s[7] == tri(gp(0, 0, 1), gp(0, 1, 0), gp(0, 0, 0)),
    ;
    assert(faces_outward(s[8])) by (nonlinear_arith)
        requires
            s[8] == tri(gp(0, 1, 0), gp(0, 1, 1), gp(1, 1, 1)),
    ;
    assert(faces_outward(s[9])) by (nonlinear_arith)
        requires
            s[9] == tri(gp(0, 1, 0), gp(1, 1, 1), gp(1, 1, 0)),
    ;
    assert(faces_outward(s[10])) by (nonlinear_arith)
        requires
            s[10] == tri(gp(1, 0, 1), gp(0, 0, 1), gp(0, 0, 0)),
    ;
    assert(faces_outward(s[11])) by (nonlinear_arith)
        requires
            s[11] == tri(gp(1, 0, 1), gp(0, 0, 0), gp(1, 0, 0)),
    ;
}

/// Each of the cube's six faces is covered by two of its triangles: the normals
/// of triangles `2k` and `2k + 1` are equal, and the six normals are distinct.
pub proof fn lemma_unit_cube_faces_paired()
    ensures
        forall|k: int|
            0 <= k < 6 ==> normal(#[trigger] unit_cube_triangles()[2 * k]) == normal(
                unit_cube_triangles()[2 * k + 1],
            ),
        forall|k: int, l: int|
            0 <= k < l < 6 ==> normal(#[trigger] unit_cube_triangles()[2 * k]) != normal(
                #[trigger] unit_cube_triangles()[2 * l],
            ),
{
    let s = unit_cube_triangles();
    lemma_unit_cube_elements();
    assert(normal(s[0]) == (0int, 0int, -1int)) by (nonlinear_arith)
        requires
            s[0] == tri(gp(0, 0, 0), gp(0, 1, 0), gp(1, 1, 0)),
    ;
    assert(normal(s[1]) == (0int, 0int, -1int)) by (nonlinear_arith)
        requires
            s[1] == tri(gp(0, 0, 0), gp(1, 1, 0), gp(1, 0, 0)),
    ;
    assert(normal(s[2]) == (1int, 0int, 0int)) by (nonlinear_arith)
        requires
            s[2] == tri(gp(1, 0, 0), gp(1, 1, 0), gp(1, 1, 1)),
    ;
    assert(normal(s[3]) == (1int, 0int, 0int)) by (nonlinear_arith)
        requires
            s[3] == tri(gp(1, 0, 0), gp(1, 1, 1), gp(1, 0, 1)),
    ;
    assert(normal(s[4]) == (0int, 0int, 1int)) by (nonlinear_arith)
        requires
            s[4] == tri(gp(1, 0, 1), gp(1, 1, 1), gp(0, 1, 1)),
    ;
    assert(normal(s[5]) == (0int, 0int, 1int)) by (nonlinear_arith)
        requires
            s[5] == tri(gp(1, 0, 1), gp(0, 1, 1), gp(0, 0, 1)),
    ;
    assert(normal(s[6]) == (-1int, 0int, 0int)) by (nonlinear_arith)
        requires
            s[6] == tri(gp(0, 0, 1), gp(0, 1, 1), gp(0, 1, 0)),
    ;
    assert(normal(s[7]) == (-1int, 0int, 0int)) by (nonlinear_arith)
        requires
            s[7] == tri(gp(0, 0, 1), gp(0, 1, 0), gp(0, 0, 0)),
    ;
    assert(normal(s[8]) == (0int, 1int, 0int)) by (nonlinear_arith)
        requires
            s[8] == tri(gp(0, 1, 0), gp(0, 1, 1), gp(1, 1, 1)),
    ;
    assert(normal(s[9]) == (0int, 1int, 0int)) by (nonlinear_arith)
        requires
            s[9] == tri(gp(0, 1, 0), gp(1, 1, 1), gp(1, 1, 0)),
    ;
    assert(normal(s[10]) == (0int, -1int, 0int)) by (nonlinear_arith)
        requires
            s[10] == tri(gp(1, 0, 1), gp(0, 0, 1), gp(0, 0, 0)),
    ;
    assert(normal(s[11]) == (0int, -1int, 0int)) by (nonlinear_arith)
        requires
            s[11] == tri(gp(1, 0, 1), gp(0, 0, 0), gp(1, 0, 0)),
    ;
    assert forall|k: int| 0 <= k < 6 implies normal(#[trigger] s[2 * k]) == normal(s[2 * k + 1]) by {
        assert(k == 0 || k == 1 || k == 2 || k == 3 || k == 4 || k == 5);
    }
    assert forall|k: int, l: int| 0 <= k < l < 6 implies normal(#[trigger] s[2 * k]) != normal(
        #[trigger] s[2 * l],
    ) by {
        assert(k == 0 || k == 1 || k == 2 || k == 3 || k == 4);
        assert(l == 1 || l == 2 || l == 3 || l == 4 || l == 5);
    }
}

} // verus!
