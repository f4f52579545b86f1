use threedee::cube::{unit_cube, GridPoint, GridTriangle};

fn cross(t: &GridTriangle) -> (i64, i64, i64) {
    let (ax, ay, az) = (t.p1.x - t.p0.x, t.p1.y - t.p0.y, t.p1.z - t.p0.z);
    let (bx, by, bz) = (t.p2.x - t.p0.x, t.p2.y - t.p0.y, t.p2.z - t.p0.z);
    (ay * bz - az * by, az * bx - ax * bz, ax * by - ay * bx)
}

#[test]
fn cube_has_twelve_triangles_in_order() {
    let c = unit_cube();
    assert_eq!(c.len(), 12);
    let p = |x, y, z| GridPoint { x, y, z };
    assert_eq!(c[0], GridTriangle { p0: p(0, 0, 0), p1: p(0, 1, 0), p2: p(1, 1, 0) });
    assert_eq!(c[11], GridTriangle { p0: p(1, 0, 1), p1: p(0, 0, 0), p2: p(1, 0, 0) });
}

#[test]
fn cube_triangles_face_outward() {
    for t in unit_cube().iter() {
        let n = cross(t);
        for q in [t.p0, t.p1, t.p2].iter() {
            let d = n.0 * (2 * q.x - 1) + n.1 * (2 * q.y - 1) + n.2 * (2 * q.z - 1);
            assert!(d > 0, "triangle {:?}", t);
        }
    }
}

#[test]
fn cube_faces_are_covered_in_pairs() {
    let c = unit_cube();
    let mut normals = Vec::new();
    for k in 0..6 {
        assert_eq!(cross(&c[2 * k]), cross(&c[2 * k + 1]));
        normals.push(cross(&c[2 * k]));
    }
    normals.sort();
    normals.dedup();
    assert_eq!(normals.len(), 6);
}
