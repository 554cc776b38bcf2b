//! Polygon bookkeeping for the hatch tessellation: the case analysis of
//! Sutherland–Hodgman clipping, winding normalisation and pattern names.

use vstd::prelude::*;
use vstd::string::StringSliceAdditionalSpecFns;

verus! {

/// One output vertex of clipping a polygon against a half-plane.
#[derive(Clone, Copy, Debug, PartialEq, Eq, Structural)]
pub enum ClipStep {
    /// Vertex `i` of the input, which lies inside.
    Keep(usize),
    /// The point where edge `prev -> cur` crosses the boundary.
    Cross(usize, usize),
}

/// The vertex before `i` on a ring of `n` vertices.
pub open spec fn prev_vertex(n: int, i: int) -> int {
    (i + n - 1) % n
}

/// What vertex `i` contributes: entering the half-plane adds the crossing
/// and the vertex, staying inside adds the vertex, leaving adds the
/// crossing, staying outside adds nothing.
pub open spec fn clip_step(keep: Seq<bool>, i: int) -> Seq<ClipStep> {
    let p = prev_vertex(keep.len() as int, i);
    if keep[i] {
        if keep[p] {
            seq![ClipStep::Keep(i as usize)]
        } else {
            seq![ClipStep::Cross(p as usize, i as usize), ClipStep::Keep(i as usize)]
        }
    } else if keep[p] {
        seq![ClipStep::Cross(p as usize, i as usize)]
    } else {
        Seq::empty()
    }
}

/// The steps of the first `m` vertices.
pub open spec fn clip_steps(keep: Seq<bool>, m: nat) -> Seq<ClipStep>
    decreases m,
{
    if m == 0 {
        Seq::empty()
    } else {
        clip_steps(keep, (m - 1) as nat) + clip_step(keep, m - 1)
    }
}

/// The vertices of a polygon clipped against one half-plane, given which
/// input vertices lie inside (`keep`), in Sutherland–Hodgman order.
pub fn clip_plan(keep: &[bool]) -> (steps: Vec<ClipStep>)
    ensures
        steps@ == clip_steps(keep@, keep@.len()),
{
    let n = keep.len();
    let mut out: Vec<ClipStep> = Vec::new();
    if n == 0 {
        return out;
    }
    let mut i: usize = 0;
    while i < n
        invariant
            n == keep@.len(),
            n > 0,
            i <= n,
            out@ == clip_steps(keep@, i as nat),
        decreases n - i,
    {
        let p = if i == 0 { n - 1 } else { i - 1 };
        proof {
            if i == 0 {
                vstd::arithmetic::div_mod::lemma_small_mod((n - 1) as nat, n as nat);
            } else {
                vstd::arithmetic::div_mod::lemma_mod_add_multiples_vanish(i - 1, n as int);
                vstd::arithmetic::div_mod::lemma_small_mod((i - 1) as nat, n as nat);
            }
        }
        assert(p == prev_vertex(n as int, i as int));
        let ci = keep[i];
        let pi = keep[p];
        if ci {
            if !pi {
                out.push(ClipStep::Cross(p, i));
            }
            out.push(ClipStep::Keep(i));
        } else if pi {
            out.push(ClipStep::Cross(p, i));
        }
        assert(out@ =~= clip_steps(keep@, (i + 1) as nat));
        i = i + 1;
    }
    out
}

/// When every vertex lies inside, clipping keeps the polygon as it is.
pub proof fn lemma_clip_all_inside(keep: Seq<bool>)
    requires
        forall|i: int| 0 <= i < keep.len() ==> #[trigger] keep[i],
    ensures
        clip_steps(keep, keep.len()) == Seq::new(keep.len(), |i: int| ClipStep::Keep(i as usize)),
{
    lemma_clip_all_inside_upto(keep, keep.len());
}

proof fn lemma_clip_all_inside_upto(keep: Seq<bool>, m: nat)
    requires
        m <= keep.len(),
        forall|i: int| 0 <= i < keep.len() ==> #[trigger] keep[i],
    ensures
        clip_steps(keep, m) == Seq::new(m, |i: int| ClipStep::Keep(i as usize)),
    decreases m,
{
    if m > 0 {
        lemma_clip_all_inside_upto(keep, (m - 1) as nat);
        let p = prev_vertex(keep.len() as int, m - 1);
        assert(keep[p]);
        assert(clip_steps(keep, m) =~= Seq::new(m, |i: int| ClipStep::Keep(i as usize)));
    }
}

/// When every vertex lies outside, clipping leaves nothing.
pub proof fn lemma_clip_all_outside(keep: Seq<bool>)
    requires
        forall|i: int| 0 <= i < keep.len() ==> !#[trigger] keep[i],
    ensures
        clip_steps(keep, keep.len()) == Seq::<ClipStep>::empty(),
{
    lemma_clip_all_outside_upto(keep, keep.len());
}

proof fn lemma_clip_all_outside_upto(keep: Seq<bool>, m: nat)
    requires
        m <= keep.len(),
        forall|i: int| 0 <= i < keep.len() ==> !#[trigger] keep[i],
    ensures
        clip_steps(keep, m) == Seq::<ClipStep>::empty(),
    decreases m,
{
    if m > 0 {
        lemma_clip_all_outside_upto(keep, (m - 1) as nat);
        let p = prev_vertex(keep.len() as int, m - 1);
        assert(!keep[p]);
        assert(clip_steps(keep, m) =~= Seq::<ClipStep>::empty());
    }
}

/// 1 when `b` holds, else 0.
pub open spec fn ind(b: bool) -> nat {
    if b {
        1
    } else {
        0
    }
}

/// Number of the first `m` vertices whose incoming edge crosses the boundary.
pub open spec fn crossings(keep: Seq<bool>, m: nat) -> nat
    decreases m,
{
    if m == 0 {
        0
    } else {
        crossings(keep, (m - 1) as nat) + ind(
            keep[m - 1] != keep[prev_vertex(keep.len() as int, m - 1)],
        )
    }
}

pub open spec fn is_cross(s: ClipStep) -> bool {
    s is Cross
}

proof fn lemma_cross_steps(keep: Seq<bool>, m: nat)
    requires
        m <= keep.len(),
    ensures
        clip_steps(keep, m).filter(|s: ClipStep| is_cross(s)).len() == crossings(keep, m),
    decreases m,
{
    if m > 0 {
        lemma_cross_steps(keep, (m - 1) as nat);
        let f = |s: ClipStep| is_cross(s);
        let a = clip_steps(keep, (m - 1) as nat);
        let b = clip_step(keep, m - 1);
        Seq::filter_distributes_over_add(a, b, f);
        reveal_with_fuel(Seq::filter, 3);
        assert(b.filter(f).len() == ind(keep[m - 1] != keep[prev_vertex(keep.len() as int, m - 1)]));
    }
}

proof fn lemma_crossings_parity(keep: Seq<bool>, m: nat)
    requires
        1 <= m <= keep.len(),
    ensures
        (crossings(keep, m) + ind(keep[0] != keep[keep.len() - 1]) + ind(keep[0] != keep[m - 1]))
            % 2 == 0,
    decreases m,
{
    let n = keep.len() as int;
    if m == 1 {
        assert(prev_vertex(n, 0) == n - 1) by {
            vstd::arithmetic::div_mod::lemma_small_mod((n - 1) as nat, n as nat);
        }
        assert(crossings(keep, 1) == ind(keep[0] != keep[n - 1]));
    } else {
        lemma_crossings_parity(keep, (m - 1) as nat);
        assert(prev_vertex(n, m - 1) == m - 2) by {
            vstd::arithmetic::div_mod::lemma_mod_add_multiples_vanish(m - 2, n);
            vstd::arithmetic::div_mod::lemma_small_mod((m - 2) as nat, n as nat);
        }
        let c = crossings(keep, (m - 1) as nat);
        assert(crossings(keep, m) == c + ind(keep[m - 1] != keep[m - 2]));
        let e = ind(keep[0] != keep[n - 1]);
        assert((c + e + ind(keep[0] != keep[m - 2])) % 2 == 0);
        if keep[0] == keep[m - 2] {
            assert(ind(keep[0] != keep[m - 1]) == ind(keep[m - 1] != keep[m - 2]));
        } else {
            assert(ind(keep[0] != keep[m - 1]) + ind(keep[m - 1] != keep[m - 2]) == 1);
        }
    }
}

/// Clipping a closed ring leaves the half-plane as often as it enters it:
/// the clipped polygon has an even number of crossing points.
pub proof fn lemma_clip_crossings_even(keep: Seq<bool>)
    ensures
        clip_steps(keep, keep.len()).filter(|s: ClipStep| is_cross(s)).len() % 2 == 0,
{
    lemma_cross_steps(keep, keep.len());
    if keep.len() > 0 {
        lemma_crossings_parity(keep, keep.len());
    }
}

/// The ring `p` in counter-clockwise order: reversed when it winds
/// clockwise, unchanged otherwise.
pub fn orient<T: Copy>(p: &[T], clockwise: bool) -> (q: Vec<T>)
    ensures
        q@ == if clockwise {
            p@.reverse()
        } else {
            p@
        },
{
    let n = p.len();
    let mut q: Vec<T> = Vec::new();
    let mut i: usize = 0;
    while i < n
        invariant
            n == p@.len(),
            i <= n,
            q@.len() == i,
            forall|k: int|
                0 <= k < i ==> #[trigger] q@[k] == if clockwise {
                    p@[n - 1 - k]
                } else {
                    p@[k]
                },
        decreases n - i,
    {
        if clockwise {
            q.push(p[n - 1 - i]);
        } else {
            q.push(p[i]);
        }
        i = i + 1;
    }
    if clockwise {
        assert(q@ =~= p@.reverse());
    } else {
        assert(q@ =~= p@);
    }
    q
}


/// The cells `(o, i)` of row `o` with `i0 <= i < i1`, in increasing `i`.
pub open spec fn lattice_row(o: int, i0: int, i1: int) -> Seq<(i32, i32)> {
    Seq::new(if i1 > i0 { (i1 - i0) as nat } else { 0 }, |c: int| (o as i32, (i0 + c) as i32))
}

/// The cells `(o, i)` with `o0 <= o < o1` and `i0 <= i < i1`, row by row.
pub open spec fn lattice_cells(o0: int, o1: int, i0: int, i1: int) -> Seq<(i32, i32)>
    decreases o1 - o0,
{
    if o1 <= o0 {
        Seq::empty()
    } else {
        lattice_cells(o0, o1 - 1, i0, i1) + lattice_row(o1 - 1, i0, i1)
    }
}

/// The cell indices a hatch generator visits: `(o, i)` for every `o` in
/// `o0..o1` (outer loop) and every `i` in `i0..i1` (inner loop).
pub fn lattice(o0: i32, o1: i32, i0: i32, i1: i32) -> (cells: Vec<(i32, i32)>)
    ensures
        cells@ == lattice_cells(o0 as int, o1 as int, i0 as int, i1 as int),
{
    let mut out: Vec<(i32, i32)> = Vec::new();
    if o1 <= o0 {
        return out;
    }
    let mut o: i32 = o0;
    while o < o1
        invariant
            o0 <= o <= o1,
            out@ == lattice_cells(o0 as int, o as int, i0 as int, i1 as int),
        decreases o1 - o,
    {
        let ghost before = out@;
        let mut i: i32 = i0;
        if i0 < i1 {
            while i < i1
                invariant
                    i0 <= i <= i1,
                    out@ == before + lattice_row(o as int, i0 as int, i1 as int).take(i - i0),
                decreases i1 - i,
            {
                out.push((o, i));
                assert(out@ =~= before + lattice_row(o as int, i0 as int, i1 as int).take(i + 1 - i0));
                i = i + 1;
            }
            assert(lattice_row(o as int, i0 as int, i1 as int).take(i1 - i0) =~= lattice_row(
                o as int,
                i0 as int,
                i1 as int,
            ));
        } else {
            assert(out@ =~= before + lattice_row(o as int, i0 as int, i1 as int));
        }
        assert(lattice_cells(o0 as int, o + 1, i0 as int, i1 as int) == lattice_cells(
            o0 as int,
            o as int,
            i0 as int,
            i1 as int,
        ) + lattice_row(o as int, i0 as int, i1 as int));
        o = o + 1;
    }
    out
}

/// A lattice has one cell per row and column, and row `o` starts at
/// position `(o - o0) * columns`.
pub proof fn lemma_lattice_shape(o0: int, o1: int, i0: int, i1: int)
    requires
        o0 <= o1,
        i0 <= i1,
    ensures
        lattice_cells(o0, o1, i0, i1).len() == (o1 - o0) * (i1 - i0),
        forall|o: int, i: int|
            o0 <= o < o1 && i0 <= i < i1 ==> #[trigger] lattice_cells(o0, o1, i0, i1)[(o - o0) * (i1
                - i0) + (i - i0)] == (o as i32, i as i32),
    decreases o1 - o0,
{
    if o1 == o0 {
        assert(0 * (i1 - i0) == 0) by (nonlinear_arith);
    }
    if o1 > o0 {
        lemma_lattice_shape(o0, o1 - 1, i0, i1);
        let prev = lattice_cells(o0, o1 - 1, i0, i1);
        let all = lattice_cells(o0, o1, i0, i1);
        let w = i1 - i0;
        assert((o1 - o0) * w == (o1 - 1 - o0) * w + w) by (nonlinear_arith);
        assert forall|o: int, i: int| o0 <= o < o1 && i0 <= i < i1 implies #[trigger] all[(o - o0) * w
            + (i - i0)] == (o as i32, i as i32) by {
            if o < o1 - 1 {
                assert((o - o0) * w + (i - i0) < (o1 - 1 - o0) * w) by (nonlinear_arith)
                    requires
                        o < o1 - 1,
                        o0 <= o,
                        0 <= i - i0 < w,
                ;
                assert(0 <= (o - o0) * w) by (nonlinear_arith)
                    requires
                        o0 <= o,
                        0 <= w,
                ;
                assert(all[(o - o0) * w + (i - i0)] == prev[(o - o0) * w + (i - i0)]);
            } else {
                assert(all[(o - o0) * w + (i - i0)] == lattice_row(o1 - 1, i0, i1)[i - i0]);
            }
        }
    }
}

/// Row `j` is an odd row of a staggered pattern (counting from row 0, also
/// for negative rows).
pub fn odd_row(j: i32) -> (odd: bool)
    ensures
        odd == (j % 2 == 1),
{
    let r = j % 2;
    r != 0
}

/// The five hatch patterns.
#[derive(Clone, Copy, Debug, PartialEq, Eq, Structural)]
pub enum Pattern {
    Rectangle,
    Brick,
    Diamond,
    Hexagonal,
    Triangle,
}

/// The name under which each pattern is requested, as ASCII bytes:
/// "rectangle", "brick", "diamond", "hexagonal", "triangle".
pub open spec fn pattern_name(p: Pattern) -> Seq<u8> {
    match p {
        Pattern::Rectangle => seq![114u8, 101, 99, 116, 97, 110, 103, 108, 101],
        Pattern::Brick => seq![98u8, 114, 105, 99, 107],
        Pattern::Diamond => seq![100u8, 105, 97, 109, 111, 110, 100],
        Pattern::Hexagonal => seq![104u8, 101, 120, 97, 103, 111, 110, 97, 108],
        Pattern::Triangle => seq![116u8, 114, 105, 97, 110, 103, 108, 101],
    }
}

fn bytes_eq(a: &[u8], b: &[u8]) -> (r: bool)
    ensures
        r == (a@ == b@),
{
    if a.len() != b.len() {
        return false;
    }
    let mut i: usize = 0;
    while i < a.len()
        invariant
            a@.len() == b@.len(),
            i <= a@.len(),
            forall|k: int| 0 <= k < i ==> a@[k] == b@[k],
        decreases a@.len() - i,
    {
        if a[i] != b[i] {
            return false;
        }
        i = i + 1;
    }
    assert(a@ =~= b@);
    true
}

impl Pattern {
    /// The pattern requested by `name`; an unknown name falls back to the
    /// diamond pattern.
    pub fn from_name(name: &str) -> (p: Pattern)
        ensures
            name.spec_bytes() == pattern_name(Pattern::Rectangle) ==> p == Pattern::Rectangle,
            name.spec_bytes() == pattern_name(Pattern::Brick) ==> p == Pattern::Brick,
            name.spec_bytes() == pattern_name(Pattern::Hexagonal) ==> p == Pattern::Hexagonal,
            name.spec_bytes() == pattern_name(Pattern::Triangle) ==> p == Pattern::Triangle,
            p != Pattern::Diamond ==> name.spec_bytes() == pattern_name(p),
    {
        let b = name.as_bytes();
        let rectangle: [u8; 9] = [114u8, 101, 99, 116, 97, 110, 103, 108, 101];
        let brick: [u8; 5] = [98u8, 114, 105, 99, 107];
        let hexagonal: [u8; 9] = [104u8, 101, 120, 97, 103, 111, 110, 97, 108];
        let triangle: [u8; 8] = [116u8, 114, 105, 97, 110, 103, 108, 101];
        assert(rectangle@ =~= pattern_name(Pattern::Rectangle));
        assert(brick@ =~= pattern_name(Pattern::Brick));
        assert(hexagonal@ =~= pattern_name(Pattern::Hexagonal));
        assert(triangle@ =~= pattern_name(Pattern::Triangle));
        if bytes_eq(b, rectangle.as_slice()) {
            Pattern::Rectangle
        } else if bytes_eq(b, brick.as_slice()) {
            Pattern::Brick
        } else if bytes_eq(b, hexagonal.as_slice()) {
            Pattern::Hexagonal
        } else if bytes_eq(b, triangle.as_slice()) {
            Pattern::Triangle
        } else {
            Pattern::Diamond
        }
    }
}


/// The vertex before `i` on a ring of `n`, written out.
pub open spec fn before(n: int, i: int) -> int {
    if i == 0 {
        n - 1
    } else {
        i - 1
    }
}

/// Every output vertex is justified: a kept vertex lies inside, and a
/// crossing lies on an edge `before(c) -> c` whose ends are on different
/// sides.
pub open spec fn clip_sound(keep: Seq<bool>, m: nat, out: Seq<ClipStep>) -> bool {
    forall|a: int|
        0 <= a < out.len() ==> match #[trigger] out[a] {
            ClipStep::Keep(i) => i < m && keep[i as int],
            ClipStep::Cross(p, c) => c < m && p == before(keep.len() as int, c as int) && keep[p as int]
                != keep[c as int],
        }
}

/// Every inside vertex is kept, and every edge whose ends lie on different
/// sides contributes its crossing.
pub open spec fn clip_complete(keep: Seq<bool>, m: nat, out: Seq<ClipStep>) -> bool {
    &&& forall|i: int| 0 <= i < m && keep[i] ==> #[trigger] out.contains(ClipStep::Keep(i as usize))
    &&& forall|i: int|
        0 <= i < m && keep[i] != keep[before(keep.len() as int, i)] ==> #[trigger] out.contains(
            ClipStep::Cross(before(keep.len() as int, i) as usize, i as usize),
        )
}

/// Where the ring enters the half-plane at vertex `i`, the crossing comes
/// right before `i` itself.
pub open spec fn clip_enters_in_order(keep: Seq<bool>, out: Seq<ClipStep>) -> bool {
    forall|a: int|
        0 <= a < out.len() && (#[trigger] out[a]) is Keep && !keep[before(
            keep.len() as int,
            out[a]->Keep_0 as int,
        )] ==> a > 0 && out[a - 1] == ClipStep::Cross(
            before(keep.len() as int, out[a]->Keep_0 as int) as usize,
            out[a]->Keep_0,
        )
}

proof fn lemma_clip_step_explicit(keep: Seq<bool>, i: int)
    requires
        0 <= i < keep.len(),
    ensures
        prev_vertex(keep.len() as int, i) == before(keep.len() as int, i),
{
    let n = keep.len() as int;
    if i == 0 {
        vstd::arithmetic::div_mod::lemma_small_mod((n - 1) as nat, n as nat);
    } else {
        vstd::arithmetic::div_mod::lemma_mod_add_multiples_vanish(i - 1, n);
        vstd::arithmetic::div_mod::lemma_small_mod((i - 1) as nat, n as nat);
    }
}

proof fn lemma_clip_sound(keep: Seq<bool>, m: nat)
    requires
        m <= keep.len(),
        keep.len() <= usize::MAX,
    ensures
        clip_sound(keep, m, clip_steps(keep, m)),
    decreases m,
{
    if m > 0 {
        lemma_clip_sound(keep, (m - 1) as nat);
        lemma_clip_step_explicit(keep, m - 1);
        let prev = clip_steps(keep, (m - 1) as nat);
        let out = clip_steps(keep, m);
        assert forall|a: int| 0 <= a < out.len() implies match #[trigger] out[a] {
            ClipStep::Keep(i) => i < m && keep[i as int],
            ClipStep::Cross(p, c) => c < m && p == before(keep.len() as int, c as int) && keep[p as int]
                != keep[c as int],
        } by {
            if a < prev.len() {
                assert(out[a] == prev[a]);
            } else {
                assert(out[a] == clip_step(keep, m - 1)[a - prev.len()]);
            }
        }
    }
}

proof fn lemma_clip_complete(keep: Seq<bool>, m: nat)
    requires
        m <= keep.len(),
        keep.len() <= usize::MAX,
    ensures
        clip_complete(keep, m, clip_steps(keep, m)),
    decreases m,
{
    let n = keep.len() as int;
    if m > 0 {
        lemma_clip_complete(keep, (m - 1) as nat);
        let i = m - 1;
        lemma_clip_step_explicit(keep, i);
        let prev = clip_steps(keep, (m - 1) as nat);
        let out = clip_steps(keep, m);
        assert forall|j: int| 0 <= j < m && keep[j] implies #[trigger] out.contains(
            ClipStep::Keep(j as usize),
        ) by {
            if j < i {
                assert(prev.contains(ClipStep::Keep(j as usize)));
                let a = choose|a: int| 0 <= a < prev.len() && prev[a] == ClipStep::Keep(j as usize);
                assert(out[a] == prev[a]);
            } else {
                assert(out[out.len() - 1] == ClipStep::Keep(j as usize));
            }
        }
        assert forall|j: int| 0 <= j < m && keep[j] != keep[before(n, j)] implies #[trigger] out.contains(
            ClipStep::Cross(before(n, j) as usize, j as usize),
        ) by {
            if j < i {
                assert(prev.contains(ClipStep::Cross(before(n, j) as usize, j as usize)));
                let a = choose|a: int|
                    0 <= a < prev.len() && prev[a] == ClipStep::Cross(before(n, j) as usize, j as usize);
                assert(out[a] == prev[a]);
            } else {
                assert(out[prev.len() as int] == ClipStep::Cross(before(n, j) as usize, j as usize));
            }
        }
    }
}

proof fn lemma_clip_enters_in_order(keep: Seq<bool>, m: nat)
    requires
        m <= keep.len(),
        keep.len() <= usize::MAX,
    ensures
        clip_enters_in_order(keep, clip_steps(keep, m)),
    decreases m,
{
    if m > 0 {
        lemma_clip_enters_in_order(keep, (m - 1) as nat);
        lemma_clip_step_explicit(keep, m - 1);
        let prev = clip_steps(keep, (m - 1) as nat);
        let out = clip_steps(keep, m);
        assert forall|a: int|
            0 <= a < out.len() && (#[trigger] out[a]) is Keep && !keep[before(
                keep.len() as int,
                out[a]->Keep_0 as int,
            )] implies a > 0 && out[a - 1] == ClipStep::Cross(
            before(keep.len() as int, out[a]->Keep_0 as int) as usize,
            out[a]->Keep_0,
        ) by {
            if a < prev.len() {
                assert(out[a] == prev[a]);
                assert(out[a - 1] == prev[a - 1]);
            } else {
                let st = clip_step(keep, m - 1);
                assert(out[a] == st[a - prev.len()]);
                if a > prev.len() {
                    assert(out[a - 1] == st[a - 1 - prev.len()]);
                }
            }
        }
    }
}

/// Clipping keeps exactly the vertices inside, adds the crossing point of
/// exactly the edges `before(c) -> c` whose ends lie on different sides, and
/// lists an entering crossing right before the vertex it enters at.
pub proof fn lemma_clip_meaning(keep: Seq<bool>)
    requires
        keep.len() <= usize::MAX,
    ensures
        clip_sound(keep, keep.len(), clip_steps(keep, keep.len())),
        clip_complete(keep, keep.len(), clip_steps(keep, keep.len())),
        clip_enters_in_order(keep, clip_steps(keep, keep.len())),
{
    lemma_clip_sound(keep, keep.len());
    lemma_clip_complete(keep, keep.len());
    lemma_clip_enters_in_order(keep, keep.len());
}

} // verus!
