//! Neighbour lookup for merging same-coloured cells: a uniform bucket grid
//! over the panel, and the decision taken on each probed edge.

use vstd::prelude::*;

verus! {

fn probe(grid: &mut Vec<Vec<u32>>, b: usize, t: u32)
    requires
        b < old(grid)@.len(),
    ensures
        final(grid)@.len() == old(grid)@.len(),
        final(grid)@[b as int]@ == old(grid)@[b as int]@.push(t),
        forall|j: int| 0 <= j < old(grid)@.len() && j != b ==> final(grid)@[j] == old(grid)@[j],
{
    grid[b].push(t);
}


/// The buckets a tile's bounding box touches: columns `gx0..=gx1` and rows
/// `gy0..=gy1` (an empty range when the first bound exceeds the second).
#[derive(Clone, Copy, Debug, PartialEq, Eq, Structural)]
pub struct BucketRange {
    pub gx0: usize,
    pub gx1: usize,
    pub gy0: usize,
    pub gy1: usize,
}

pub open spec fn covers(r: BucketRange, gx: int, gy: int) -> bool {
    r.gx0 <= gx <= r.gx1 && r.gy0 <= gy <= r.gy1
}

/// Number of the bucket in column `gx` and row `gy` of a grid `nx` wide.
pub open spec fn bucket(nx: int, gx: int, gy: int) -> int {
    gy * nx + gx
}

/// The tiles among the first `m` whose range covers bucket `(gx, gy)`, in
/// increasing order.
pub open spec fn bucket_tiles(ranges: Seq<BucketRange>, gx: int, gy: int, m: nat) -> Seq<u32>
    decreases m,
{
    if m == 0 {
        Seq::empty()
    } else {
        bucket_tiles(ranges, gx, gy, (m - 1) as nat) + if covers(ranges[m - 1], gx, gy) {
            seq![(m - 1) as u32]
        } else {
            Seq::<u32>::empty()
        }
    }
}

/// Every range lies inside an `nx` by `ny` grid.
pub open spec fn ranges_fit(ranges: Seq<BucketRange>, nx: int, ny: int) -> bool {
    forall|t: int|
        0 <= t < ranges.len() ==> {
            &&& (#[trigger] ranges[t]).gx0 < nx
            &&& ranges[t].gx1 < nx
            &&& ranges[t].gy0 < ny
            &&& ranges[t].gy1 < ny
        }
}

proof fn lemma_bucket_in_grid(nx: int, ny: int, gx: int, gy: int)
    requires
        0 <= gx < nx,
        0 <= gy < ny,
    ensures
        0 <= bucket(nx, gx, gy) < nx * ny,
{
    assert(0 <= gy * nx + gx < nx * ny) by (nonlinear_arith)
        requires
            0 <= gx < nx,
            0 <= gy < ny,
    ;
}

proof fn lemma_bucket_unique(nx: int, gx: int, gy: int, hx: int, hy: int)
    requires
        0 <= gx < nx,
        0 <= hx < nx,
        0 <= gy,
        0 <= hy,
        bucket(nx, gx, gy) == bucket(nx, hx, hy),
    ensures
        gx == hx,
        gy == hy,
{
    assert(gy == hy) by (nonlinear_arith)
        requires
            0 <= gx < nx,
            0 <= hx < nx,
            0 <= gy,
            0 <= hy,
            gy * nx + gx == hy * nx + hx,
    ;
}

/// The part of the current tile's range that has been entered already:
/// rows before `cy`, and the columns before `cx` of row `cy`.
pub open spec fn entered(r: BucketRange, gx: int, gy: int, cx: int, cy: int) -> bool {
    covers(r, gx, gy) && (gy < cy || (gy == cy && gx < cx))
}

/// Bucket `(gx, gy)` holds the tiles before `t`, and `t` itself once entered.
pub open spec fn grid_state(
    g: Seq<Vec<u32>>,
    ranges: Seq<BucketRange>,
    nx: int,
    ny: int,
    t: nat,
    cx: int,
    cy: int,
) -> bool {
    forall|gx: int, gy: int|
        0 <= gx < nx && 0 <= gy < ny ==> #[trigger] g[bucket(nx, gx, gy)]@ == bucket_tiles(
            ranges,
            gx,
            gy,
            t,
        ) + if t < ranges.len() && entered(ranges[t as int], gx, gy, cx, cy) {
            seq![t as u32]
        } else {
            Seq::<u32>::empty()
        }
}

/// A uniform bucket grid, `nx` columns by `ny` rows, numbered row by row:
/// bucket `(gx, gy)` lists, in increasing order, every tile whose range
/// covers it.
pub fn bucket_grid(nx: usize, ny: usize, ranges: &[BucketRange]) -> (grid: Vec<Vec<u32>>)
    requires
        nx * ny <= usize::MAX,
        ranges@.len() <= u32::MAX + 1,
        ranges_fit(ranges@, nx as int, ny as int),
    ensures
        grid@.len() == nx * ny,
        forall|gx: int, gy: int|
            0 <= gx < nx && 0 <= gy < ny ==> #[trigger] grid@[bucket(nx as int, gx, gy)]@
                == bucket_tiles(ranges@, gx, gy, ranges@.len()),
        forall|gx: int, gy: int|
            0 <= gx < nx && 0 <= gy < ny ==> #[trigger] grid@[gy * nx + gx]@ == bucket_tiles(
                ranges@,
                gx,
                gy,
                ranges@.len(),
            ),
{
    let cells = nx * ny;
    let mut grid: Vec<Vec<u32>> = Vec::new();
    let mut b: usize = 0;
    while b < cells
        invariant
            b <= cells,
            grid@.len() == b,
            forall|j: int| 0 <= j < b ==> (#[trigger] grid@[j])@ == Seq::<u32>::empty(),
        decreases cells - b,
    {
        grid.push(Vec::new());
        b = b + 1;
    }
    assert forall|gx: int, gy: int| 0 <= gx < nx && 0 <= gy < ny implies #[trigger] grid@[bucket(
        nx as int,
        gx,
        gy,
    )]@ == bucket_tiles(ranges@, gx, gy, 0) by {
        lemma_bucket_in_grid(nx as int, ny as int, gx, gy);
    }
    let mut t: usize = 0;
    while t < ranges.len()
        invariant
            cells == nx * ny,
            grid@.len() == cells,
            nx * ny <= usize::MAX,
            t <= ranges@.len(),
            ranges@.len() <= u32::MAX + 1,
            ranges_fit(ranges@, nx as int, ny as int),
            forall|gx: int, gy: int|
                0 <= gx < nx && 0 <= gy < ny ==> #[trigger] grid@[bucket(nx as int, gx, gy)]@
                    == bucket_tiles(ranges@, gx, gy, t as nat),
        decreases ranges@.len() - t,
    {
        add_tile(&mut grid, nx, ny, ranges, t);
        t = t + 1;
    }
    assert forall|gx: int, gy: int| 0 <= gx < nx && 0 <= gy < ny implies #[trigger] grid@[gy * nx
        + gx]@ == bucket_tiles(ranges@, gx, gy, ranges@.len()) by {
        assert(grid@[bucket(nx as int, gx, gy)]@ == bucket_tiles(ranges@, gx, gy, ranges@.len()));
    }
    grid
}

#[verifier::rlimit(40)]
fn add_tile(grid: &mut Vec<Vec<u32>>, nx: usize, ny: usize, ranges: &[BucketRange], t: usize)
    requires
        old(grid)@.len() == nx * ny,
        nx * ny <= usize::MAX,
        t < ranges@.len(),
        ranges@.len() <= u32::MAX + 1,
        ranges_fit(ranges@, nx as int, ny as int),
        forall|gx: int, gy: int|
            0 <= gx < nx && 0 <= gy < ny ==> #[trigger] old(grid)@[bucket(nx as int, gx, gy)]@
                == bucket_tiles(ranges@, gx, gy, t as nat),
    ensures
        final(grid)@.len() == nx * ny,
        forall|gx: int, gy: int|
            0 <= gx < nx && 0 <= gy < ny ==> #[trigger] final(grid)@[bucket(nx as int, gx, gy)]@
                == bucket_tiles(ranges@, gx, gy, (t + 1) as nat),
{
    let r = ranges[t];
    assert(r == ranges@[t as int]);
    assert(r.gx0 < nx && r.gx1 < nx && r.gy0 < ny && r.gy1 < ny);
    assert(grid_state(grid@, ranges@, nx as int, ny as int, t as nat, r.gx0 as int, r.gy0 as int));
    let mut gy = r.gy0;
    while gy <= r.gy1
        invariant
            r == ranges@[t as int],
            r.gx0 < nx && r.gx1 < nx && r.gy0 < ny && r.gy1 < ny,
            t < ranges@.len(),
            ranges@.len() <= u32::MAX + 1,
            grid@.len() == nx * ny,
            r.gy0 <= gy,
            gy <= r.gy1 + 1 || gy == r.gy0,
            nx * ny <= usize::MAX,
            grid_state(grid@, ranges@, nx as int, ny as int, t as nat, r.gx0 as int, gy as int),
        decreases r.gy1 + 1 - gy,
    {
        let mut gx = r.gx0;
        while gx <= r.gx1
            invariant
                r == ranges@[t as int],
                r.gx0 < nx && r.gx1 < nx && r.gy0 < ny && r.gy1 < ny,
                t < ranges@.len(),
                ranges@.len() <= u32::MAX + 1,
                grid@.len() == nx * ny,
                r.gy0 <= gy <= r.gy1,
                r.gx0 <= gx,
                gx <= r.gx1 + 1 || gx == r.gx0,
                nx * ny <= usize::MAX,
                grid_state(grid@, ranges@, nx as int, ny as int, t as nat, gx as int, gy as int),
            decreases r.gx1 + 1 - gx,
        {
            proof {
                lemma_bucket_in_grid(nx as int, ny as int, gx as int, gy as int);
            }
            let ghost before = grid@;
            assert(gy * nx <= bucket(nx as int, gx as int, gy as int));
            let b = gy * nx + gx;
            probe(grid, b, t as u32);
            assert forall|hx: int, hy: int| 0 <= hx < nx && 0 <= hy < ny implies #[trigger] grid@[bucket(
                nx as int,
                hx,
                hy,
            )]@ == bucket_tiles(ranges@, hx, hy, t as nat) + if entered(r, hx, hy, gx + 1, gy as int) {
                seq![t as u32]
            } else {
                Seq::<u32>::empty()
            } by {
                lemma_bucket_in_grid(nx as int, ny as int, hx, hy);
                assert(before[bucket(nx as int, hx, hy)]@ == bucket_tiles(ranges@, hx, hy, t as nat) + if entered(r, hx, hy, gx as int, gy as int) {
                    seq![t as u32]
                } else {
                    Seq::<u32>::empty()
                });
                if bucket(nx as int, hx, hy) == b {
                    lemma_bucket_unique(nx as int, hx, hy, gx as int, gy as int);
                }
            }
            gx = gx + 1;
        }
        assert(grid_state(grid@, ranges@, nx as int, ny as int, t as nat, r.gx0 as int, gy + 1));
        gy = gy + 1;
    }
    let ghost cy = gy as int;
    assert forall|hx: int, hy: int| 0 <= hx < nx && 0 <= hy < ny implies #[trigger] grid@[bucket(
        nx as int,
        hx,
        hy,
    )]@ == bucket_tiles(ranges@, hx, hy, (t + 1) as nat) by {
        assert(entered(r, hx, hy, r.gx0 as int, cy) == covers(r, hx, hy));
    }
}


/// The first candidate tile whose polygon contains the probe point, given
/// for each candidate whether it does.
pub fn first_hit(candidates: &[u32], inside: &[bool]) -> (found: Option<usize>)
    requires
        candidates@.len() == inside@.len(),
    ensures
        found is None <==> forall|k: int| 0 <= k < inside@.len() ==> !#[trigger] inside@[k],
        found matches Some(t) ==> exists|k: int|
            0 <= k < inside@.len() && inside@[k] && t == candidates@[k] && forall|e: int|
                0 <= e < k ==> !#[trigger] inside@[e],
{
    let mut k: usize = 0;
    while k < candidates.len()
        invariant
            candidates@.len() == inside@.len(),
            k <= inside@.len(),
            forall|e: int| 0 <= e < k ==> !#[trigger] inside@[e],
        decreases inside@.len() - k,
    {
        if inside[k] {
            return Some(candidates[k] as usize);
        }
        k = k + 1;
    }
    None
}

/// The probe found a different tile of the same colour as tile `ti`.
pub open spec fn joins_same_colour(ti: int, found: Option<usize>, colors: Seq<usize>) -> bool {
    match found {
        Some(j) => j != ti && colors[j as int] == colors[ti],
        None => false,
    }
}

/// Every probe that is looked at names a tile with a colour: a probe is
/// looked at while all probes before it joined a same-coloured neighbour,
/// and its colour is read when it found a tile other than `ti`.
pub open spec fn probes_readable(ti: int, probes: Seq<Option<usize>>, colors: Seq<usize>) -> bool {
    forall|k: int|
        0 <= k < probes.len() && (forall|e: int|
            0 <= e < k ==> joins_same_colour(ti, #[trigger] probes[e], colors)) ==> (
        #[trigger] probes[k] matches Some(j) ==> (j != ti ==> j < colors.len()))
}

/// An edge of tile `ti` is merged (its lead dropped) when every probe just
/// outside it found another tile of the same colour.
pub fn edge_merges(ti: usize, probes: &[Option<usize>], colors: &[usize]) -> (merged: bool)
    requires
        ti < colors@.len(),
        probes_readable(ti as int, probes@, colors@),
    ensures
        merged == forall|k: int|
            0 <= k < probes@.len() ==> joins_same_colour(ti as int, #[trigger] probes@[k], colors@),
        merged == forall|k: int|
            0 <= k < probes@.len() ==> {
                &&& #[trigger] probes@[k] is Some
                &&& probes@[k]->0 != ti
                &&& colors@[probes@[k]->0 as int] == colors@[ti as int]
            },
{
    let mut k: usize = 0;
    while k < probes.len()
        invariant
            ti < colors@.len(),
            k <= probes@.len(),
            probes_readable(ti as int, probes@, colors@),
            forall|e: int| 0 <= e < k ==> joins_same_colour(ti as int, #[trigger] probes@[e], colors@),
        decreases probes@.len() - k,
    {
        let ok = match probes[k] {
            Some(j) => j != ti && colors[j] == colors[ti],
            None => false,
        };
        if !ok {
            assert(!joins_same_colour(ti as int, probes@[k as int], colors@));
            return false;
        }
        k = k + 1;
    }
    true
}


/// A probe joins exactly when it found another tile of the same colour, and
/// joining is symmetric: tile `a` finding tile `b` joins exactly when `b`
/// finding `a` does, whichever of the two has the smaller number; a probe
/// that found nothing, or found the tile itself, never joins.
pub proof fn lemma_join_symmetric(a: usize, b: usize, colors: Seq<usize>)
    ensures
        joins_same_colour(a as int, Some(b), colors) <==> (a != b && colors[a as int] == colors[b as int]),
        joins_same_colour(a as int, Some(b), colors) <==> joins_same_colour(b as int, Some(a), colors),
        !joins_same_colour(a as int, None, colors),
        !joins_same_colour(a as int, Some(a), colors),
{
}


/// Bucket `(gx, gy)` lists, in strictly increasing order, exactly the tiles
/// `t` whose range has `gx0 <= gx <= gx1` and `gy0 <= gy <= gy1`.
pub proof fn lemma_bucket_tiles_members(ranges: Seq<BucketRange>, gx: int, gy: int, m: nat)
    requires
        m <= ranges.len(),
        m <= u32::MAX + 1,
    ensures
        forall|t: int|
            0 <= t < m ==> (bucket_tiles(ranges, gx, gy, m).contains(t as u32) <==> (
            #[trigger] ranges[t].gx0 <= gx <= ranges[t].gx1 && ranges[t].gy0 <= gy
                <= ranges[t].gy1)),
        forall|a: int|
            0 <= a < bucket_tiles(ranges, gx, gy, m).len() ==> #[trigger] bucket_tiles(
                ranges,
                gx,
                gy,
                m,
            )[a] < m,
        forall|a: int, b: int|
            0 <= a < b < bucket_tiles(ranges, gx, gy, m).len() ==> bucket_tiles(ranges, gx, gy, m)[a]
                < bucket_tiles(ranges, gx, gy, m)[b],
    decreases m,
{
    if m > 0 {
        lemma_bucket_tiles_members(ranges, gx, gy, (m - 1) as nat);
        let prev = bucket_tiles(ranges, gx, gy, (m - 1) as nat);
        let all = bucket_tiles(ranges, gx, gy, m);
        assert forall|t: int| 0 <= t < m implies (all.contains(t as u32) <==> (
        #[trigger] ranges[t].gx0 <= gx <= ranges[t].gx1 && ranges[t].gy0 <= gy <= ranges[t].gy1)) by {
            if all.contains(t as u32) {
                let a = choose|a: int| 0 <= a < all.len() && all[a] == t as u32;
                if a < prev.len() {
                    assert(prev[a] == all[a]);
                    assert(prev.contains(t as u32));
                }
            }
            if t < m - 1 && prev.contains(t as u32) {
                let a = choose|a: int| 0 <= a < prev.len() && prev[a] == t as u32;
                assert(all[a] == prev[a]);
            }
            if t == m - 1 && covers(ranges[t], gx, gy) {
                assert(all[all.len() - 1] == t as u32);
            }
        }
    }
}

} // verus!
