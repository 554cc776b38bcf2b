use sg_wasm::mesh::{frame_plan, prism_plan, Corner, Face, Level, Mesh, Ring};

fn c(ring: Ring, vertex: usize, level: Level) -> Corner {
    Corner { ring, vertex, level }
}

#[test]
fn new_mesh_is_empty() {
    let m = Mesh::new();
    assert!(m.is_empty());
    assert!(m.pos().is_empty() && m.nrm().is_empty() && m.idx().is_empty());
    assert!(Mesh::default().is_empty());
}

#[test]
fn push_triangle_counts_vertices() {
    let mut m = Mesh::new();
    m.push_triangle([1, 2, 3], [4, 5, 6], [7, 8, 9], [10, 11, 12]);
    m.push_triangle([13, 14, 15], [16, 17, 18], [19, 20, 21], [22, 23, 24]);
    assert!(!m.is_empty());
    assert_eq!(m.idx(), &[0, 1, 2, 3, 4, 5]);
    assert_eq!(m.pos()[..9], [1, 2, 3, 4, 5, 6, 7, 8, 9]);
    assert_eq!(m.pos().len(), 18);
    assert_eq!(m.nrm()[..9], [10, 11, 12, 10, 11, 12, 10, 11, 12]);
    assert_eq!(m.nrm()[9..12], [22, 23, 24]);
}

#[test]
fn prism_of_triangle() {
    let f = prism_plan(3, &[]);
    assert_eq!(f.len(), 8);
    assert_eq!(
        f[0],
        Face { a: c(Ring::Outer, 0, Level::Top), b: c(Ring::Outer, 1, Level::Top), c: c(Ring::Outer, 2, Level::Top) }
    );
    assert_eq!(
        f[1],
        Face {
            a: c(Ring::Outer, 0, Level::Bottom),
            b: c(Ring::Outer, 2, Level::Bottom),
            c: c(Ring::Outer, 1, Level::Bottom)
        }
    );
    // last edge wraps from vertex 2 to vertex 0
    assert_eq!(
        f[6],
        Face {
            a: c(Ring::Outer, 2, Level::Bottom),
            b: c(Ring::Outer, 0, Level::Bottom),
            c: c(Ring::Outer, 0, Level::Top)
        }
    );
    assert_eq!(
        f[7],
        Face { a: c(Ring::Outer, 2, Level::Bottom), b: c(Ring::Outer, 0, Level::Top), c: c(Ring::Outer, 2, Level::Top) }
    );
}

#[test]
fn prism_face_counts() {
    assert_eq!(prism_plan(4, &[]).len(), 12);
    assert_eq!(prism_plan(6, &[]).len(), 20);
    assert_eq!(prism_plan(4, &[false, true, false, false]).len(), 10);
    assert_eq!(prism_plan(4, &[true, true, true, true]).len(), 4);
    assert!(prism_plan(2, &[]).is_empty());
    assert!(prism_plan(0, &[]).is_empty());
}

#[test]
fn frame_face_counts() {
    assert_eq!(frame_plan(4, 4, &[]).len(), 32);
    assert_eq!(frame_plan(3, 3, &[false, true, false]).len(), 16);
    assert!(frame_plan(4, 3, &[]).is_empty());
    assert!(frame_plan(2, 2, &[]).is_empty());
    assert!(frame_plan(3, 3, &[true, true, true]).is_empty());
}

#[test]
fn frame_segment_order() {
    let f = frame_plan(3, 3, &[]);
    assert_eq!(
        f[0],
        Face { a: c(Ring::Outer, 0, Level::Top), b: c(Ring::Outer, 1, Level::Top), c: c(Ring::Inner, 1, Level::Top) }
    );
    assert_eq!(
        f[2],
        Face {
            a: c(Ring::Outer, 0, Level::Bottom),
            b: c(Ring::Inner, 0, Level::Bottom),
            c: c(Ring::Inner, 1, Level::Bottom)
        }
    );
    assert_eq!(
        f[7],
        Face { a: c(Ring::Inner, 1, Level::Bottom), b: c(Ring::Inner, 0, Level::Top), c: c(Ring::Inner, 1, Level::Top) }
    );
    // no face lies flat on the inner ring: the hole stays open
    for face in &f {
        let inner = face.a.ring == Ring::Inner && face.b.ring == Ring::Inner && face.c.ring == Ring::Inner;
        let flat = face.a.level == face.b.level && face.b.level == face.c.level;
        assert!(!(inner && flat));
    }
}
