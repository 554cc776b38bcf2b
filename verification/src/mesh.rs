//! Triangle-soup mesh accumulator and the face plans of prism and
//! lead-annulus extrusion.
//!
//! Coordinates and normals are stored as the IEEE-754 bit patterns of
//! their `f32` values, which is exactly what the binary buffer of a GLB file
//! holds; the index buffer of a triangle soup simply counts the vertices.

use vstd::prelude::*;

verus! {

/// Largest number of vertices a mesh can hold: indices are `u32`.
pub open spec fn max_vertices() -> int {
    0x1_0000_0000
}

/// A triangle soup: three position words and three normal words per vertex,
/// and one index per vertex.
pub struct Mesh {
    pos: Vec<u32>,
    nrm: Vec<u32>,
    idx: Vec<u32>,
}

impl Mesh {
    /// Position words (x, y, z per vertex) as `f32` bit patterns.
    pub closed spec fn positions(&self) -> Seq<u32> {
        self.pos@
    }

    /// Normal words (x, y, z per vertex) as `f32` bit patterns.
    pub closed spec fn normals(&self) -> Seq<u32> {
        self.nrm@
    }

    /// The index buffer.
    pub closed spec fn indices(&self) -> Seq<u32> {
        self.idx@
    }

    /// Number of vertices.
    pub open spec fn vertex_count(&self) -> nat {
        self.indices().len()
    }

    /// The triangle-soup invariant: every vertex owns three position and three
    /// normal words, index `k` is `k`, and the vertices come in triangles.
    pub open spec fn wf(&self) -> bool {
        &&& self.positions().len() == 3 * self.vertex_count()
        &&& self.normals().len() == 3 * self.vertex_count()
        &&& self.vertex_count() % 3 == 0
        &&& self.vertex_count() <= max_vertices()
        &&& forall|k: int| 0 <= k < self.vertex_count() ==> #[trigger] self.indices()[k] == k
    }

    /// An empty mesh.
    pub fn new() -> (m: Mesh)
        ensures
            m.wf(),
            m.positions() == Seq::<u32>::empty(),
            m.normals() == Seq::<u32>::empty(),
            m.indices() == Seq::<u32>::empty(),
    {
        Mesh { pos: Vec::new(), nrm: Vec::new(), idx: Vec::new() }
    }

    /// Position words.
    pub fn pos(&self) -> (r: &[u32])
        ensures
            r@ == self.positions(),
    {
        self.pos.as_slice()
    }

    /// Normal words.
    pub fn nrm(&self) -> (r: &[u32])
        ensures
            r@ == self.normals(),
    {
        self.nrm.as_slice()
    }

    /// Index buffer.
    pub fn idx(&self) -> (r: &[u32])
        ensures
            r@ == self.indices(),
    {
        self.idx.as_slice()
    }

    /// Append one triangle `a, b, c` whose three vertices share the normal `n`.
    pub fn push_triangle(&mut self, a: [u32; 3], b: [u32; 3], c: [u32; 3], n: [u32; 3])
        requires
            old(self).wf(),
            old(self).vertex_count() + 3 <= max_vertices(),
        ensures
            final(self).wf(),
            final(self).positions() == old(self).positions() + a@ + b@ + c@,
            final(self).normals() == old(self).normals() + n@ + n@ + n@,
            final(self).vertex_count() == old(self).vertex_count() + 3,
    {
        let ghost p0 = self.pos@;
        let ghost n0 = self.nrm@;
        let corners = [a, b, c];
        let mut t: usize = 0;
        while t < 3
            invariant
                0 <= t <= 3,
                corners@ == seq![a, b, c],
                self.pos@.len() == 3 * self.idx@.len(),
                self.nrm@.len() == 3 * self.idx@.len(),
                self.idx@.len() == old(self).idx@.len() + t,
                old(self).idx@.len() + 3 <= max_vertices(),
                old(self).idx@.len() % 3 == 0,
                forall|k: int| 0 <= k < self.idx@.len() ==> #[trigger] self.idx@[k] == k,
                t == 0 ==> self.pos@ == p0 && self.nrm@ == n0,
                t == 1 ==> self.pos@ == p0 + a@ && self.nrm@ == n0 + n@,
                t == 2 ==> self.pos@ == p0 + a@ + b@ && self.nrm@ == n0 + n@ + n@,
                t == 3 ==> self.pos@ == p0 + a@ + b@ + c@ && self.nrm@ == n0 + n@ + n@ + n@,
                p0 == old(self).pos@,
                n0 == old(self).nrm@,
            decreases 3 - t,
        {
            let p = corners[t];
            let base = (self.pos.len() / 3) as u32;
            self.pos.push(p[0]);
            self.pos.push(p[1]);
            self.pos.push(p[2]);
            self.nrm.push(n[0]);
            self.nrm.push(n[1]);
            self.nrm.push(n[2]);
            self.idx.push(base);
            proof {
                let s = self.pos@;
                if t == 0 {
                    assert(s =~= p0 + a@);
                } else if t == 1 {
                    assert(s =~= p0 + a@ + b@);
                } else {
                    assert(s =~= p0 + a@ + b@ + c@);
                }
                let m = self.nrm@;
                if t == 0 {
                    assert(m =~= n0 + n@);
                } else if t == 1 {
                    assert(m =~= n0 + n@ + n@);
                } else {
                    assert(m =~= n0 + n@ + n@ + n@);
                }
            }
            t = t + 1;
        }
    }

    /// True when the mesh holds no triangle.
    pub fn is_empty(&self) -> (r: bool)
        ensures
            r == (self.vertex_count() == 0),
    {
        self.idx.len() == 0
    }
}

impl Default for Mesh {
    fn default() -> (m: Mesh)
        ensures
            m.wf(),
            m.vertex_count() == 0,
            m.positions() == Seq::<u32>::empty(),
            m.normals() == Seq::<u32>::empty(),
    {
        Mesh::new()
    }
}


/// Which ring of a lead frame a corner lies on (a prism has only the outer one).
#[derive(Clone, Copy, Debug, PartialEq, Eq, Structural)]
pub enum Ring {
    Outer,
    Inner,
}

/// Which face of the slab a corner lies on: `Bottom` is `z0`, `Top` is `z1`.
#[derive(Clone, Copy, Debug, PartialEq, Eq, Structural)]
pub enum Level {
    Bottom,
    Top,
}

/// A corner of an extruded solid: vertex `vertex` of a polygon ring, lifted
/// to one of the two levels.
#[derive(Clone, Copy, Debug, PartialEq, Eq, Structural)]
pub struct Corner {
    pub ring: Ring,
    pub vertex: usize,
    pub level: Level,
}

/// A triangle, counter-clockwise seen from the side it faces.
#[derive(Clone, Copy, Debug, PartialEq, Eq, Structural)]
pub struct Face {
    pub a: Corner,
    pub b: Corner,
    pub c: Corner,
}

pub open spec fn corner(ring: Ring, vertex: int, level: Level) -> Corner {
    Corner { ring, vertex: vertex as usize, level }
}

pub open spec fn face(a: Corner, b: Corner, c: Corner) -> Face {
    Face { a, b, c }
}

/// A quad `a b c d` is split along the diagonal `a c`.
pub open spec fn quad(a: Corner, b: Corner, c: Corner, d: Corner) -> Seq<Face> {
    seq![face(a, b, c), face(a, c, d)]
}

/// Edge `i` (from vertex `i` to vertex `i + 1`) is left without walls.
pub open spec fn edge_skipped(skip: Seq<bool>, i: int) -> bool {
    0 <= i < skip.len() && skip[i]
}

/// The vertex after `i` on a ring of `n` vertices.
pub open spec fn next(n: nat, i: int) -> int {
    (i + 1) % (n as int)
}

/// The top cap of a prism: a fan from vertex 0, facing +Z.
pub open spec fn top_fan(n: nat) -> Seq<Face> {
    Seq::new(
        (n - 2) as nat,
        |k: int|
            face(
                corner(Ring::Outer, 0, Level::Top),
                corner(Ring::Outer, k + 1, Level::Top),
                corner(Ring::Outer, k + 2, Level::Top),
            ),
    )
}

/// The bottom cap of a prism: the reversed fan, facing -Z.
pub open spec fn bottom_fan(n: nat) -> Seq<Face> {
    Seq::new(
        (n - 2) as nat,
        |k: int|
            face(
                corner(Ring::Outer, 0, Level::Bottom),
                corner(Ring::Outer, k + 2, Level::Bottom),
                corner(Ring::Outer, k + 1, Level::Bottom),
            ),
    )
}

/// The side wall of a prism along edge `i`, facing outwards.
pub open spec fn side_wall(n: nat, i: int) -> Seq<Face> {
    quad(
        corner(Ring::Outer, i, Level::Bottom),
        corner(Ring::Outer, next(n, i), Level::Bottom),
        corner(Ring::Outer, next(n, i), Level::Top),
        corner(Ring::Outer, i, Level::Top),
    )
}

/// Side walls of the first `m` edges, skipped edges left out.
pub open spec fn side_walls(n: nat, skip: Seq<bool>, m: nat) -> Seq<Face>
    decreases m,
{
    if m == 0 {
        Seq::empty()
    } else {
        side_walls(n, skip, (m - 1) as nat) + if edge_skipped(skip, m - 1) {
            Seq::<Face>::empty()
        } else {
            side_wall(n, m - 1)
        }
    }
}

/// All faces of the prism over a convex ring of `n` vertices.
pub open spec fn prism_faces(n: nat, skip: Seq<bool>) -> Seq<Face> {
    if n < 3 {
        Seq::empty()
    } else {
        top_fan(n) + bottom_fan(n) + side_walls(n, skip, n)
    }
}

/// The four quads of a lead frame along edge `i`: top strip, bottom strip,
/// outer wall and inner wall.
pub open spec fn frame_segment(n: nat, i: int) -> Seq<Face> {
    let j = next(n, i);
    quad(
        corner(Ring::Outer, i, Level::Top),
        corner(Ring::Outer, j, Level::Top),
        corner(Ring::Inner, j, Level::Top),
        corner(Ring::Inner, i, Level::Top),
    ) + quad(
        corner(Ring::Outer, i, Level::Bottom),
        corner(Ring::Inner, i, Level::Bottom),
        corner(Ring::Inner, j, Level::Bottom),
        corner(Ring::Outer, j, Level::Bottom),
    ) + quad(
        corner(Ring::Outer, i, Level::Bottom),
        corner(Ring::Outer, j, Level::Bottom),
        corner(Ring::Outer, j, Level::Top),
        corner(Ring::Outer, i, Level::Top),
    ) + quad(
        corner(Ring::Inner, j, Level::Bottom),
        corner(Ring::Inner, i, Level::Bottom),
        corner(Ring::Inner, i, Level::Top),
        corner(Ring::Inner, j, Level::Top),
    )
}

/// Frame segments of the first `m` edges, skipped edges left out.
pub open spec fn frame_segments(n: nat, skip: Seq<bool>, m: nat) -> Seq<Face>
    decreases m,
{
    if m == 0 {
        Seq::empty()
    } else {
        frame_segments(n, skip, (m - 1) as nat) + if edge_skipped(skip, m - 1) {
            Seq::<Face>::empty()
        } else {
            frame_segment(n, m - 1)
        }
    }
}

/// All faces of the lead frame between an outer ring of `n` vertices and an
/// inner ring of `inner_len` vertices; nothing unless both rings match.
pub open spec fn frame_faces(n: nat, inner_len: nat, skip: Seq<bool>) -> Seq<Face> {
    if n < 3 || inner_len != n {
        Seq::empty()
    } else {
        frame_segments(n, skip, n)
    }
}

/// Every corner of every face names a vertex of a ring of `n` vertices.
pub open spec fn faces_within(faces: Seq<Face>, n: nat) -> bool {
    forall|k: int|
        0 <= k < faces.len() ==> {
            &&& (#[trigger] faces[k]).a.vertex < n
            &&& faces[k].b.vertex < n
            &&& faces[k].c.vertex < n
        }
}

fn push_quad(out: &mut Vec<Face>, a: Corner, b: Corner, c: Corner, d: Corner)
    ensures
        final(out)@ == old(out)@ + quad(a, b, c, d),
{
    out.push(Face { a, b, c });
    out.push(Face { a, b: c, c: d });
    assert(out@ =~= old(out)@ + quad(a, b, c, d));
}

/// The faces that extruding a convex counter-clockwise polygon of `n`
/// vertices into a prism produces, in order: top fan, bottom fan, then one
/// side wall per edge whose `skip` flag is not set (edges beyond `skip` are
/// never skipped).
pub fn prism_plan(n: usize, skip: &[bool]) -> (faces: Vec<Face>)
    ensures
        faces@ == prism_faces(n as nat, skip@),
        faces_within(faces@, n as nat),
{
    let mut out: Vec<Face> = Vec::new();
    if n < 3 {
        return out;
    }
    let mut k: usize = 0;
    while k < n - 2
        invariant
            3 <= n,
            k <= n - 2,
            out@ == top_fan(n as nat).take(k as int),
        decreases n - 2 - k,
    {
        out.push(Face {
            a: Corner { ring: Ring::Outer, vertex: 0, level: Level::Top },
            b: Corner { ring: Ring::Outer, vertex: k + 1, level: Level::Top },
            c: Corner { ring: Ring::Outer, vertex: k + 2, level: Level::Top },
        });
        assert(out@ =~= top_fan(n as nat).take(k + 1));
        k = k + 1;
    }
    assert(out@ =~= top_fan(n as nat));
    let ghost caps = out@;
    k = 0;
    while k < n - 2
        invariant
            3 <= n,
            k <= n - 2,
            caps == top_fan(n as nat),
            out@ == caps + bottom_fan(n as nat).take(k as int),
        decreases n - 2 - k,
    {
        out.push(Face {
            a: Corner { ring: Ring::Outer, vertex: 0, level: Level::Bottom },
            b: Corner { ring: Ring::Outer, vertex: k + 2, level: Level::Bottom },
            c: Corner { ring: Ring::Outer, vertex: k + 1, level: Level::Bottom },
        });
        assert(out@ =~= caps + bottom_fan(n as nat).take(k + 1));
        k = k + 1;
    }
    assert(out@ =~= top_fan(n as nat) + bottom_fan(n as nat));
    let ghost fans = out@;
    let mut i: usize = 0;
    while i < n
        invariant
            3 <= n,
            i <= n,
            fans == top_fan(n as nat) + bottom_fan(n as nat),
            out@ == fans + side_walls(n as nat, skip@, i as nat),
        decreases n - i,
    {
        let j = (i + 1) % n;
        let skipped = i < skip.len() && skip[i];
        if !skipped {
            push_quad(
                &mut out,
                Corner { ring: Ring::Outer, vertex: i, level: Level::Bottom },
                Corner { ring: Ring::Outer, vertex: j, level: Level::Bottom },
                Corner { ring: Ring::Outer, vertex: j, level: Level::Top },
                Corner { ring: Ring::Outer, vertex: i, level: Level::Top },
            );
        }
        assert(out@ =~= fans + side_walls(n as nat, skip@, (i + 1) as nat));
        i = i + 1;
    }
    proof {
        lemma_side_walls_within(n as nat, skip@, n as nat);
    }
    out
}

/// The faces of a lead frame (annulus) between an outer ring of `n` vertices
/// and an inner ring of `inner_len` vertices, both counter-clockwise: for each
/// edge whose `skip` flag is not set, the top strip, bottom strip, outer wall
/// and inner wall. The hole inside the inner ring stays open. Nothing is
/// produced unless the rings have the same, at least three, vertices.
pub fn frame_plan(n: usize, inner_len: usize, skip: &[bool]) -> (faces: Vec<Face>)
    ensures
        faces@ == frame_faces(n as nat, inner_len as nat, skip@),
        faces_within(faces@, n as nat),
{
    let mut out: Vec<Face> = Vec::new();
    if n < 3 || inner_len != n {
        return out;
    }
    let mut i: usize = 0;
    while i < n
        invariant
            3 <= n,
            i <= n,
            out@ == frame_segments(n as nat, skip@, i as nat),
        decreases n - i,
    {
        let j = (i + 1) % n;
        let skipped = i < skip.len() && skip[i];
        if !skipped {
            let ghost before = out@;
            push_quad(
                &mut out,
                Corner { ring: Ring::Outer, vertex: i, level: Level::Top },
                Corner { ring: Ring::Outer, vertex: j, level: Level::Top },
                Corner { ring: Ring::Inner, vertex: j, level: Level::Top },
                Corner { ring: Ring::Inner, vertex: i, level: Level::Top },
            );
            push_quad(
                &mut out,
                Corner { ring: Ring::Outer, vertex: i, level: Level::Bottom },
                Corner { ring: Ring::Inner, vertex: i, level: Level::Bottom },
                Corner { ring: Ring::Inner, vertex: j, level: Level::Bottom },
                Corner { ring: Ring::Outer, vertex: j, level: Level::Bottom },
            );
            push_quad(
                &mut out,
                Corner { ring: Ring::Outer, vertex: i, level: Level::Bottom },
                Corner { ring: Ring::Outer, vertex: j, level: Level::Bottom },
                Corner { ring: Ring::Outer, vertex: j, level: Level::Top },
                Corner { ring: Ring::Outer, vertex: i, level: Level::Top },
            );
            push_quad(
                &mut out,
                Corner { ring: Ring::Inner, vertex: j, level: Level::Bottom },
                Corner { ring: Ring::Inner, vertex: i, level: Level::Bottom },
                Corner { ring: Ring::Inner, vertex: i, level: Level::Top },
                Corner { ring: Ring::Inner, vertex: j, level: Level::Top },
            );
            assert(out@ =~= before + frame_segment(n as nat, i as int));
        }
        assert(out@ =~= frame_segments(n as nat, skip@, (i + 1) as nat));
        i = i + 1;
    }
    proof {
        lemma_frame_segments_within(n as nat, skip@, n as nat);
    }
    out
}

proof fn lemma_frame_segments_within(n: nat, skip: Seq<bool>, m: nat)
    requires
        m <= n,
        n >= 1,
    ensures
        faces_within(frame_segments(n, skip, m), n),
    decreases m,
{
    if m > 0 {
        lemma_frame_segments_within(n, skip, (m - 1) as nat);
        let prev = frame_segments(n, skip, (m - 1) as nat);
        let all = frame_segments(n, skip, m);
        assert forall|k: int| 0 <= k < all.len() implies {
            &&& (#[trigger] all[k]).a.vertex < n
            &&& all[k].b.vertex < n
            &&& all[k].c.vertex < n
        } by {
            if k < prev.len() {
                assert(all[k] == prev[k]);
            }
        }
    }
}

proof fn lemma_side_walls_within(n: nat, skip: Seq<bool>, m: nat)
    requires
        m <= n,
        n >= 1,
    ensures
        faces_within(side_walls(n, skip, m), n),
    decreases m,
{
    if m > 0 {
        lemma_side_walls_within(n, skip, (m - 1) as nat);
        let prev = side_walls(n, skip, (m - 1) as nat);
        let all = side_walls(n, skip, m);
        assert forall|k: int| 0 <= k < all.len() implies {
            &&& (#[trigger] all[k]).a.vertex < n
            &&& all[k].b.vertex < n
            &&& all[k].c.vertex < n
        } by {
            if k < prev.len() {
                assert(all[k] == prev[k]);
            }
        }
    }
}


/// Number of edges among the first `m` that keep their walls.
pub open spec fn open_edges(skip: Seq<bool>, m: nat) -> nat
    decreases m,
{
    if m == 0 {
        0
    } else {
        open_edges(skip, (m - 1) as nat) + if edge_skipped(skip, m - 1) {
            0nat
        } else {
            1nat
        }
    }
}

proof fn lemma_open_edges_no_skip(m: nat)
    ensures
        open_edges(Seq::<bool>::empty(), m) == m,
    decreases m,
{
    if m > 0 {
        lemma_open_edges_no_skip((m - 1) as nat);
    }
}

proof fn lemma_side_walls_len(n: nat, skip: Seq<bool>, m: nat)
    ensures
        side_walls(n, skip, m).len() == 2 * open_edges(skip, m),
    decreases m,
{
    if m > 0 {
        lemma_side_walls_len(n, skip, (m - 1) as nat);
    }
}

proof fn lemma_frame_segments_len(n: nat, skip: Seq<bool>, m: nat)
    ensures
        frame_segments(n, skip, m).len() == 8 * open_edges(skip, m),
    decreases m,
{
    if m > 0 {
        lemma_frame_segments_len(n, skip, (m - 1) as nat);
    }
}

/// A prism over a convex ring of `n >= 3` vertices has two fans of `n - 2`
/// triangles and two triangles per walled edge; with no edge skipped that
/// is `4n - 4` triangles.
pub proof fn lemma_prism_face_count(n: nat, skip: Seq<bool>)
    requires
        n >= 3,
    ensures
        prism_faces(n, skip).len() == 2 * (n - 2) + 2 * open_edges(skip, n),
        prism_faces(n, Seq::<bool>::empty()).len() == 4 * n - 4,
{
    lemma_side_walls_len(n, skip, n);
    lemma_side_walls_len(n, Seq::<bool>::empty(), n);
    lemma_open_edges_no_skip(n);
}

/// A lead frame has eight triangles per walled edge; with no edge skipped
/// that is `8n` triangles.
pub proof fn lemma_frame_face_count(n: nat, skip: Seq<bool>)
    requires
        n >= 3,
    ensures
        frame_faces(n, n, skip).len() == 8 * open_edges(skip, n),
        frame_faces(n, n, Seq::<bool>::empty()).len() == 8 * n,
{
    lemma_frame_segments_len(n, skip, n);
    lemma_frame_segments_len(n, Seq::<bool>::empty(), n);
    lemma_open_edges_no_skip(n);
}


/// A face that lies in the plane of the hole: all three corners on the inner
/// ring and on one level.
pub open spec fn covers_hole(f: Face) -> bool {
    &&& f.a.ring == Ring::Inner
    &&& f.b.ring == Ring::Inner
    &&& f.c.ring == Ring::Inner
    &&& f.a.level == f.b.level
    &&& f.b.level == f.c.level
}

/// The lead frame leaves the hole open: none of its faces spans the inner
/// ring within one level, so the glass inside stays visible from both sides.
pub proof fn lemma_frame_leaves_hole_open(n: nat, inner_len: nat, skip: Seq<bool>)
    ensures
        forall|k: int|
            0 <= k < frame_faces(n, inner_len, skip).len() ==> !covers_hole(
                #[trigger] frame_faces(n, inner_len, skip)[k],
            ),
{
    if n >= 3 && inner_len == n {
        lemma_frame_segments_open(n, skip, n);
    }
}

proof fn lemma_frame_segments_open(n: nat, skip: Seq<bool>, m: nat)
    ensures
        forall|k: int|
            0 <= k < frame_segments(n, skip, m).len() ==> !covers_hole(
                #[trigger] frame_segments(n, skip, m)[k],
            ),
    decreases m,
{
    if m > 0 {
        lemma_frame_segments_open(n, skip, (m - 1) as nat);
        let prev = frame_segments(n, skip, (m - 1) as nat);
        let all = frame_segments(n, skip, m);
        assert forall|k: int| 0 <= k < all.len() implies !covers_hole(#[trigger] all[k]) by {
            if k < prev.len() {
                assert(all[k] == prev[k]);
            }
        }
    }
}


proof fn lemma_side_walls_at(n: nat, skip: Seq<bool>, m: nat, i: int)
    requires
        0 <= i < m,
        !edge_skipped(skip, i),
    ensures
        side_walls(n, skip, m).len() >= 2 * open_edges(skip, i as nat) + 2,
        side_walls(n, skip, m)[2 * open_edges(skip, i as nat) as int] == side_wall(n, i)[0],
        side_walls(n, skip, m)[2 * open_edges(skip, i as nat) as int + 1] == side_wall(n, i)[1],
    decreases m,
{
    lemma_side_walls_len(n, skip, (m - 1) as nat);
    lemma_side_walls_len(n, skip, m);
    if i < m - 1 {
        lemma_side_walls_at(n, skip, (m - 1) as nat, i);
    }
}

proof fn lemma_open_edges_grow(skip: Seq<bool>, a: nat, b: nat)
    requires
        a <= b,
    ensures
        open_edges(skip, a) <= open_edges(skip, b),
        open_edges(skip, b) <= open_edges(skip, a) + (b - a),
    decreases b,
{
    if b > a {
        lemma_open_edges_grow(skip, a, (b - 1) as nat);
    }
}

/// The prism of a convex ring of `n >= 3` vertices, face by face: the top
/// cap is the fan from vertex 0 over every consecutive pair `(k+1, k+2)`,
/// facing up; the bottom cap is the same fan reversed, facing down; and
/// every edge `i -> i+1 (mod n)` that is not skipped gets the two wall
/// triangles `(i, i+1, i+1')` and `(i, i+1', i')`, where `'` is the top.
pub proof fn lemma_prism_faces(n: nat, skip: Seq<bool>)
    requires
        n >= 3,
    ensures
        forall|k: int|
            0 <= k < n - 2 ==> #[trigger] prism_faces(n, skip)[k] == (Face {
                a: Corner { ring: Ring::Outer, vertex: 0, level: Level::Top },
                b: Corner { ring: Ring::Outer, vertex: (k + 1) as usize, level: Level::Top },
                c: Corner { ring: Ring::Outer, vertex: (k + 2) as usize, level: Level::Top },
            }),
        forall|k: int|
            0 <= k < n - 2 ==> #[trigger] prism_faces(n, skip)[n - 2 + k] == (Face {
                a: Corner { ring: Ring::Outer, vertex: 0, level: Level::Bottom },
                b: Corner { ring: Ring::Outer, vertex: (k + 2) as usize, level: Level::Bottom },
                c: Corner { ring: Ring::Outer, vertex: (k + 1) as usize, level: Level::Bottom },
            }),
        forall|i: int|
            0 <= i < n && !(0 <= i < skip.len() && skip[i]) ==> {
                &&& #[trigger] prism_faces(n, skip)[2 * (n - 2) + 2 * open_edges(skip, i as nat)]
                    == (Face {
                    a: Corner { ring: Ring::Outer, vertex: i as usize, level: Level::Bottom },
                    b: Corner { ring: Ring::Outer, vertex: ((i + 1) % (n as int)) as usize, level: Level::Bottom },
                    c: Corner { ring: Ring::Outer, vertex: ((i + 1) % (n as int)) as usize, level: Level::Top },
                })
                &&& prism_faces(n, skip)[2 * (n - 2) + 2 * open_edges(skip, i as nat) + 1] == (Face {
                    a: Corner { ring: Ring::Outer, vertex: i as usize, level: Level::Bottom },
                    b: Corner { ring: Ring::Outer, vertex: ((i + 1) % (n as int)) as usize, level: Level::Top },
                    c: Corner { ring: Ring::Outer, vertex: i as usize, level: Level::Top },
                })
            },
        prism_faces(n, skip).len() == 2 * (n - 2) + 2 * open_edges(skip, n),
{
    lemma_side_walls_len(n, skip, n);
    let all = prism_faces(n, skip);
    let caps = top_fan(n) + bottom_fan(n);
    assert forall|i: int| 0 <= i < n && !(0 <= i < skip.len() && skip[i]) implies {
        &&& #[trigger] all[2 * (n - 2) + 2 * open_edges(skip, i as nat)] == (Face {
            a: Corner { ring: Ring::Outer, vertex: i as usize, level: Level::Bottom },
            b: Corner { ring: Ring::Outer, vertex: ((i + 1) % (n as int)) as usize, level: Level::Bottom },
            c: Corner { ring: Ring::Outer, vertex: ((i + 1) % (n as int)) as usize, level: Level::Top },
        })
        &&& all[2 * (n - 2) + 2 * open_edges(skip, i as nat) + 1] == (Face {
            a: Corner { ring: Ring::Outer, vertex: i as usize, level: Level::Bottom },
            b: Corner { ring: Ring::Outer, vertex: ((i + 1) % (n as int)) as usize, level: Level::Top },
            c: Corner { ring: Ring::Outer, vertex: i as usize, level: Level::Top },
        })
    } by {
        lemma_side_walls_at(n, skip, n, i);
        let o = 2 * open_edges(skip, i as nat) as int;
        assert(all[2 * (n - 2) + o] == side_walls(n, skip, n)[o]);
        assert(all[2 * (n - 2) + o + 1] == side_walls(n, skip, n)[o + 1]);
    }
}


proof fn lemma_frame_segments_at(n: nat, skip: Seq<bool>, m: nat, i: int, t: int)
    requires
        0 <= i < m,
        !edge_skipped(skip, i),
        0 <= t < 8,
    ensures
        frame_segments(n, skip, m).len() >= 8 * open_edges(skip, i as nat) + 8,
        frame_segments(n, skip, m)[8 * open_edges(skip, i as nat) as int + t] == frame_segment(n, i)[t],
    decreases m,
{
    lemma_frame_segments_len(n, skip, (m - 1) as nat);
    lemma_frame_segments_len(n, skip, m);
    if i < m - 1 {
        lemma_frame_segments_at(n, skip, (m - 1) as nat, i, t);
    }
}

/// The lead frame of a ring of `n >= 3` vertices, face by face: every edge
/// `i -> j = i+1 (mod n)` that is not skipped gets, in this order, the top
/// strip between the rings, the bottom strip, the outer wall (closing the
/// frame on the outer ring) and the inner wall (facing into the hole), each
/// as two triangles; nothing else is in the frame.
pub proof fn lemma_frame_faces(n: nat, skip: Seq<bool>)
    requires
        n >= 3,
    ensures
        frame_faces(n, n, skip).len() == 8 * open_edges(skip, n),
        forall|i: int|
            0 <= i < n && !(0 <= i < skip.len() && skip[i]) ==> {
                &&& #[trigger] frame_faces(n, n, skip)[8 * open_edges(skip, i as nat) as int] == (Face {
                    a: Corner { ring: Ring::Outer, vertex: i as usize, level: Level::Top },
                    b: Corner { ring: Ring::Outer, vertex: ((i + 1) % (n as int)) as usize, level: Level::Top },
                    c: Corner { ring: Ring::Inner, vertex: ((i + 1) % (n as int)) as usize, level: Level::Top },
                })
                &&& frame_faces(n, n, skip)[8 * open_edges(skip, i as nat) as int + 1] == (Face {
                    a: Corner { ring: Ring::Outer, vertex: i as usize, level: Level::Top },
                    b: Corner { ring: Ring::Inner, vertex: ((i + 1) % (n as int)) as usize, level: Level::Top },
                    c: Corner { ring: Ring::Inner, vertex: i as usize, level: Level::Top },
                })
                &&& frame_faces(n, n, skip)[8 * open_edges(skip, i as nat) as int + 2] == (Face {
                    a: Corner { ring: Ring::Outer, vertex: i as usize, level: Level::Bottom },
                    b: Corner { ring: Ring::Inner, vertex: i as usize, level: Level::Bottom },
                    c: Corner { ring: Ring::Inner, vertex: ((i + 1) % (n as int)) as usize, level: Level::Bottom },
                })
                &&& frame_faces(n, n, skip)[8 * open_edges(skip, i as nat) as int + 3] == (Face {
                    a: Corner { ring: Ring::Outer, vertex: i as usize, level: Level::Bottom },
                    b: Corner { ring: Ring::Inner, vertex: ((i + 1) % (n as int)) as usize, level: Level::Bottom },
                    c: Corner { ring: Ring::Outer, vertex: ((i + 1) % (n as int)) as usize, level: Level::Bottom },
                })
                &&& frame_faces(n, n, skip)[8 * open_edges(skip, i as nat) as int + 4] == (Face {
                    a: Corner { ring: Ring::Outer, vertex: i as usize, level: Level::Bottom },
                    b: Corner { ring: Ring::Outer, vertex: ((i + 1) % (n as int)) as usize, level: Level::Bottom },
                    c: Corner { ring: Ring::Outer, vertex: ((i + 1) % (n as int)) as usize, level: Level::Top },
                })
                &&& frame_faces(n, n, skip)[8 * open_edges(skip, i as nat) as int + 5] == (Face {
                    a: Corner { ring: Ring::Outer, vertex: i as usize, level: Level::Bottom },
                    b: Corner { ring: Ring::Outer, vertex: ((i + 1) % (n as int)) as usize, level: Level::Top },
                    c: Corner { ring: Ring::Outer, vertex: i as usize, level: Level::Top },
                })
                &&& frame_faces(n, n, skip)[8 * open_edges(skip, i as nat) as int + 6] == (Face {
                    a: Corner { ring: Ring::Inner, vertex: ((i + 1) % (n as int)) as usize, level: Level::Bottom },
                    b: Corner { ring: Ring::Inner, vertex: i as usize, level: Level::Bottom },
                    c: Corner { ring: Ring::Inner, vertex: i as usize, level: Level::Top },
                })
                &&& frame_faces(n, n, skip)[8 * open_edges(skip, i as nat) as int + 7] == (Face {
                    a: Corner { ring: Ring::Inner, vertex: ((i + 1) % (n as int)) as usize, level: Level::Bottom },
                    b: Corner { ring: Ring::Inner, vertex: i as usize, level: Level::Top },
                    c: Corner { ring: Ring::Inner, vertex: ((i + 1) % (n as int)) as usize, level: Level::Top },
                })
            },
{
    lemma_frame_segments_len(n, skip, n);
    assert forall|i: int| 0 <= i < n && !(0 <= i < skip.len() && skip[i]) implies {
                &&& #[trigger] frame_faces(n, n, skip)[8 * open_edges(skip, i as nat) as int] == (Face {
                    a: Corner { ring: Ring::Outer, vertex: i as usize, level: Level::Top },
                    b: Corner { ring: Ring::Outer, vertex: ((i + 1) % (n as int)) as usize, level: Level::Top },
                    c: Corner { ring: Ring::Inner, vertex: ((i + 1) % (n as int)) as usize, level: Level::Top },
                })
                &&& frame_faces(n, n, skip)[8 * open_edges(skip, i as nat) as int + 1] == (Face {
                    a: Corner { ring: Ring::Outer, vertex: i as usize, level: Level::Top },
                    b: Corner { ring: Ring::Inner, vertex: ((i + 1) % (n as int)) as usize, level: Level::Top },
                    c: Corner { ring: Ring::Inner, vertex: i as usize, level: Level::Top },
                })
                &&& frame_faces(n, n, skip)[8 * open_edges(skip, i as nat) as int + 2] == (Face {
                    a: Corner { ring: Ring::Outer, vertex: i as usize, level: Level::Bottom },
                    b: Corner { ring: Ring::Inner, vertex: i as usize, level: Level::Bottom },
                    c: Corner { ring: Ring::Inner, vertex: ((i + 1) % (n as int)) as usize, level: Level::Bottom },
                })
                &&& frame_faces(n, n, skip)[8 * open_edges(skip, i as nat) as int + 3] == (Face {
                    a: Corner { ring: Ring::Outer, vertex: i as usize, level: Level::Bottom },
                    b: Corner { ring: Ring::Inner, vertex: ((i + 1) % (n as int)) as usize, level: Level::Bottom },
                    c: Corner { ring: Ring::Outer, vertex: ((i + 1) % (n as int)) as usize, level: Level::Bottom },
                })
                &&& frame_faces(n, n, skip)[8 * open_edges(skip, i as nat) as int + 4] == (Face {
                    a: Corner { ring: Ring::Outer, vertex: i as usize, level: Level::Bottom },
                    b: Corner { ring: Ring::Outer, vertex: ((i + 1) % (n as int)) as usize, level: Level::Bottom },
                    c: Corner { ring: Ring::Outer, vertex: ((i + 1) % (n as int)) as usize, level: Level::Top },
                })
                &&& frame_faces(n, n, skip)[8 * open_edges(skip, i as nat) as int + 5] == (Face {
                    a: Corner { ring: Ring::Outer, vertex: i as usize, level: Level::Bottom },
                    b: Corner { ring: Ring::Outer, vertex: ((i + 1) % (n as int)) as usize, level: Level::Top },
                    c: Corner { ring: Ring::Outer, vertex: i as usize, level: Level::Top },
                })
                &&& frame_faces(n, n, skip)[8 * open_edges(skip, i as nat) as int + 6] == (Face {
                    a: Corner { ring: Ring::Inner, vertex: ((i + 1) % (n as int)) as usize, level: Level::Bottom },
                    b: Corner { ring: Ring::Inner, vertex: i as usize, level: Level::Bottom },
                    c: Corner { ring: Ring::Inner, vertex: i as usize, level: Level::Top },
                })
                &&& frame_faces(n, n, skip)[8 * open_edges(skip, i as nat) as int + 7] == (Face {
                    a: Corner { ring: Ring::Inner, vertex: ((i + 1) % (n as int)) as usize, level: Level::Bottom },
                    b: Corner { ring: Ring::Inner, vertex: i as usize, level: Level::Top },
                    c: Corner { ring: Ring::Inner, vertex: ((i + 1) % (n as int)) as usize, level: Level::Top },
                })
    } by {
        let o = 8 * open_edges(skip, i as nat) as int;
        lemma_frame_segments_at(n, skip, n, i, 0);
        lemma_frame_segments_at(n, skip, n, i, 1);
        lemma_frame_segments_at(n, skip, n, i, 2);
        lemma_frame_segments_at(n, skip, n, i, 3);
        lemma_frame_segments_at(n, skip, n, i, 4);
        lemma_frame_segments_at(n, skip, n, i, 5);
        lemma_frame_segments_at(n, skip, n, i, 6);
        lemma_frame_segments_at(n, skip, n, i, 7);
    }
}

} // verus!
