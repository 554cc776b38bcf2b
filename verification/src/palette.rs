//! Palette handling: the flat RGB byte form exchanged with callers, image
//! sampling for palette estimation, and nearest-colour assignment.

use vstd::prelude::*;

verus! {

/// The colours of a flat RGB byte string: one per complete group of three
/// bytes; trailing bytes that do not make a colour are ignored.
pub open spec fn palette_of(bytes: Seq<u8>) -> Seq<[u8; 3]> {
    Seq::new(
        bytes.len() / 3,
        |i: int| [bytes[3 * i], bytes[3 * i + 1], bytes[3 * i + 2]],
    )
}

/// The flat RGB byte string of a palette.
pub open spec fn bytes_of(pal: Seq<[u8; 3]>) -> Seq<u8> {
    Seq::new(3 * pal.len(), |k: int| pal[k / 3]@[k % 3])
}

/// Split a flat RGB byte string into colours.
pub fn parse_pal(palette: &[u8]) -> (pal: Vec<[u8; 3]>)
    ensures
        pal@ == palette_of(palette@),
{
    let mut pal: Vec<[u8; 3]> = Vec::new();
    let len = palette.len();
    let n = len / 3;
    let mut i: usize = 0;
    assert(3 * n <= len);
    while i < n
        invariant
            n == palette@.len() / 3,
            3 * n <= len,
            len == palette@.len(),
            i <= n,
            pal@ == palette_of(palette@).take(i as int),
        decreases n - i,
    {
        pal.push([palette[3 * i], palette[3 * i + 1], palette[3 * i + 2]]);
        assert(pal@ =~= palette_of(palette@).take(i + 1));
        i = i + 1;
    }
    assert(pal@ =~= palette_of(palette@));
    pal
}

/// Flatten a palette into RGB bytes.
pub fn flatten_palette(pal: &[[u8; 3]]) -> (bytes: Vec<u8>)
    requires
        3 * pal@.len() <= usize::MAX,
    ensures
        bytes@ == bytes_of(pal@),
{
    let mut out: Vec<u8> = Vec::new();
    let mut i: usize = 0;
    while i < pal.len()
        invariant
            i <= pal@.len(),
            3 * pal@.len() <= usize::MAX,
            out@ == bytes_of(pal@).take(3 * i),
        decreases pal@.len() - i,
    {
        let c = pal[i];
        out.push(c[0]);
        out.push(c[1]);
        out.push(c[2]);
        assert(out@ =~= bytes_of(pal@).take(3 * (i + 1))) by {
            assert((3 * i) / 3 == i && (3 * i) % 3 == 0);
            assert((3 * i + 1) / 3 == i && (3 * i + 1) % 3 == 1);
            assert((3 * i + 2) / 3 == i && (3 * i + 2) % 3 == 2);
        }
        i = i + 1;
    }
    assert(out@ =~= bytes_of(pal@));
    out
}

/// Flattening a parsed byte string gives back its complete colours, and
/// parsing a flattened palette gives back the palette.
pub proof fn lemma_palette_roundtrip(bytes: Seq<u8>, pal: Seq<[u8; 3]>)
    ensures
        bytes_of(palette_of(bytes)) == bytes.take(3 * (bytes.len() as int / 3)),
        palette_of(bytes_of(pal)) == pal,
{
    let p = palette_of(bytes);
    assert forall|k: int| 0 <= k < 3 * p.len() implies #[trigger] bytes_of(p)[k] == bytes[k] by {
        let i = k / 3;
        let j = k % 3;
        assert(k == 3 * i + j);
    }
    assert(bytes_of(p) =~= bytes.take(3 * (bytes.len() as int / 3)));
    let b = bytes_of(pal);
    assert forall|i: int| 0 <= i < pal.len() implies #[trigger] palette_of(b)[i] == pal[i] by {
        assert((3 * i) / 3 == i && (3 * i) % 3 == 0);
        assert((3 * i + 1) / 3 == i && (3 * i + 1) % 3 == 1);
        assert((3 * i + 2) / 3 == i && (3 * i + 2) % 3 == 2);
        assert(palette_of(b)[i]@ =~= pal[i]@);
    }
    assert(palette_of(b) =~= pal);
}


/// Squared distance between two colours in RGB space.
pub open spec fn dist2(a: [u8; 3], b: [u8; 3]) -> int {
    (a[0] - b[0]) * (a[0] - b[0]) + (a[1] - b[1]) * (a[1] - b[1]) + (a[2] - b[2]) * (a[2] - b[2])
}

/// `best` is the first palette entry at the least distance from `c`.
pub open spec fn is_nearest(c: [u8; 3], pal: Seq<[u8; 3]>, best: int) -> bool {
    &&& 0 <= best < pal.len()
    &&& forall|j: int| 0 <= j < pal.len() ==> dist2(c, pal[best]) <= #[trigger] dist2(c, pal[j])
    &&& forall|j: int| 0 <= j < best ==> dist2(c, pal[best]) < #[trigger] dist2(c, pal[j])
}

fn channel_dist2(a: u8, b: u8) -> (d: u32)
    ensures
        d == (a - b) * (a - b),
        d <= 65025,
{
    let diff: u32 = if a >= b { (a - b) as u32 } else { (b - a) as u32 };
    assert(diff * diff <= 65025 && diff * diff == (a - b) * (a - b)) by (nonlinear_arith)
        requires
            diff <= 255,
            diff == a - b || diff == b - a,
    ;
    diff * diff
}

fn colour_dist2(a: [u8; 3], b: [u8; 3]) -> (d: u32)
    ensures
        d == dist2(a, b),
        d <= 195075,
{
    channel_dist2(a[0], b[0]) + channel_dist2(a[1], b[1]) + channel_dist2(a[2], b[2])
}

/// Index of the palette colour nearest to `c` (the first one on ties); 0
/// for an empty palette.
pub fn nearest(c: [u8; 3], pal: &[[u8; 3]]) -> (best: usize)
    ensures
        pal@.len() == 0 ==> best == 0,
        pal@.len() > 0 ==> is_nearest(c, pal@, best as int),
{
    let mut best: usize = 0;
    let mut bd: u32 = u32::MAX;
    let mut i: usize = 0;
    while i < pal.len()
        invariant
            i <= pal@.len(),
            i == 0 ==> best == 0 && bd == u32::MAX,
            i > 0 ==> best < i && bd == dist2(c, pal@[best as int]),
            forall|j: int| 0 <= j < i ==> bd <= #[trigger] dist2(c, pal@[j]),
            forall|j: int| 0 <= j < best ==> bd < #[trigger] dist2(c, pal@[j]),
        decreases pal@.len() - i,
    {
        let d = colour_dist2(c, pal[i]);
        if d < bd {
            bd = d;
            best = i;
        }
        i = i + 1;
    }
    best
}


/// The three bytes starting at `at`.
pub open spec fn rgb_at(px: Seq<u8>, at: int) -> [u8; 3] {
    [px[at], px[at + 1], px[at + 2]]
}

/// Pixel stride used when sampling `total` pixels: about 4000 samples, and
/// at least every pixel.
pub open spec fn sample_stride(total: int) -> int {
    if total / 4000 > 1 {
        total / 4000
    } else {
        1
    }
}

/// The pixel number of sample `k`.
pub open spec fn sampled(k: int, stride: int) -> int {
    k * stride
}

/// Every sampled pixel of an image of `total` pixels with `ch` bytes per
/// pixel has its three colour bytes inside a buffer of `len` bytes.
pub open spec fn samples_fit(len: int, total: int, ch: int) -> bool {
    forall|k: int|
        0 <= k && #[trigger] sampled(k, sample_stride(total)) < total ==> sampled(
            k,
            sample_stride(total),
        ) * ch + 2 < len
}

proof fn lemma_sampled_step(k: int, stride: int)
    ensures
        sampled(k + 1, stride) == sampled(k, stride) + stride,
{
    assert((k + 1) * stride == k * stride + stride) by (nonlinear_arith);
}

/// `data` is the sampling of an image of `total` pixels with `ch` bytes per
/// pixel: one colour per sample, for as many samples as fall inside the
/// image, each the first three bytes of its pixel.
pub open spec fn is_sampling(pixels: Seq<u8>, total: int, ch: int, data: Seq<[u8; 3]>) -> bool {
    &&& total == 0 ==> data.len() == 0
    &&& total > 0 ==> sampled(data.len() - 1, sample_stride(total)) < total <= sampled(
        data.len() as int,
        sample_stride(total),
    )
    &&& forall|k: int|
        0 <= k < data.len() ==> #[trigger] data[k] == rgb_at(
            pixels,
            sampled(k, sample_stride(total)) * ch,
        )
}

/// The colours sampled for palette estimation: every `sample_stride`-th
/// pixel of an `iw` by `ih` image with `ch` bytes per pixel, from the first
/// pixel on, as its first three bytes.
pub fn palette_samples(pixels: &[u8], iw: u32, ih: u32, ch: u32) -> (data: Vec<[u8; 3]>)
    requires
        iw * ih + iw * ih / 4000 <= usize::MAX,
        samples_fit(pixels@.len() as int, iw * ih, ch as int),
    ensures
        is_sampling(pixels@, iw * ih, ch as int, data@),
{
    let total = (iw as usize) * (ih as usize);
    let mut data: Vec<[u8; 3]> = Vec::new();
    if total == 0 {
        return data;
    }
    let stride = if total / 4000 > 1 { total / 4000 } else { 1 };
    assert(stride == sample_stride(total as int));
    let mut i: usize = 0;
    while i < total
        invariant
            total == iw * ih,
            total > 0,
            stride == sample_stride(total as int),
            total + stride <= usize::MAX,
            stride >= 1,
            i < total + stride,
            pixels@.len() == pixels.len(),
            i == sampled(data@.len() as int, stride as int),
            data@.len() > 0 ==> sampled(data@.len() - 1, stride as int) < total,
            samples_fit(pixels@.len() as int, total as int, ch as int),
            forall|k: int|
                0 <= k < data@.len() ==> #[trigger] data@[k] == rgb_at(
                    pixels@,
                    sampled(k, stride as int) * ch,
                ),
        decreases total + stride - i,
    {
        assert(sampled(data@.len() as int, stride as int) < total);
        assert((i as int) * (ch as int) + 2 < pixels@.len());
        let at = i * (ch as usize);
        data.push([pixels[at], pixels[at + 1], pixels[at + 2]]);
        proof {
            lemma_sampled_step((data@.len() - 1) as int, stride as int);
        }
        i = i + stride;
    }
    data
}

/// The pixel number of column `col` and row `row`, each clamped to the last
/// column or row of an image `iw` pixels wide and `ih` high.
pub open spec fn pixel_number(iw: u32, ih: u32, col: u32, row: u32) -> int {
    let c = if col < iw - 1 { col as int } else { iw - 1 };
    let r = if row < ih - 1 { row as int } else { ih - 1 };
    r * iw + c
}

/// Pixels are numbered row by row: moving one row down (inside the image)
/// moves `iw` pixels on, moving one column right moves one pixel on, the
/// first pixel is number 0 and every pixel number lies inside the image;
/// rows and columns past the edge read the last row or column.
pub proof fn lemma_pixel_numbering(iw: u32, ih: u32, col: u32, row: u32)
    requires
        iw >= 1,
        ih >= 1,
    ensures
        row + 1 < ih ==> pixel_number(iw, ih, col, (row + 1) as u32) == pixel_number(iw, ih, col, row)
            + iw,
        col + 1 < iw ==> pixel_number(iw, ih, (col + 1) as u32, row) == pixel_number(iw, ih, col, row)
            + 1,
        pixel_number(iw, ih, 0, 0) == 0,
        0 <= pixel_number(iw, ih, col, row) < iw * ih,
        row >= ih ==> pixel_number(iw, ih, col, row) == pixel_number(iw, ih, col, (ih - 1) as u32),
        col >= iw ==> pixel_number(iw, ih, col, row) == pixel_number(iw, ih, (iw - 1) as u32, row),
{
    let c = vstd::math::min(col as int, iw - 1);
    let r = vstd::math::min(row as int, ih - 1);
    assert(r * iw + c < iw * ih) by (nonlinear_arith)
        requires
            0 <= r < ih,
            0 <= c < iw,
    ;
    assert(0 <= r * iw) by (nonlinear_arith)
        requires
            0 <= r,
            0 <= iw,
    ;
    assert((r + 1) * iw == r * iw + iw) by (nonlinear_arith);
    assert(0 * (iw as int) == 0);
}

/// Read the colour of a pixel with `ch` bytes per pixel; `col` and `row` are
/// clamped to the image. The offset is computed in `u32`.
pub fn sample_pixel(pixels: &[u8], iw: u32, ih: u32, ch: u32, col: u32, row: u32) -> (rgb: [u8; 3])
    requires
        iw >= 1,
        ih >= 1,
        pixel_number(iw, ih, col, row) * ch <= u32::MAX,
        pixel_number(iw, ih, col, row) <= u32::MAX,
        pixel_number(iw, ih, col, row) * ch + 2 < pixels@.len(),
    ensures
        rgb == rgb_at(pixels@, pixel_number(iw, ih, col, row) * ch),
        rgb[0] == pixels@[(vstd::math::min(row as int, ih - 1) * iw + vstd::math::min(
            col as int,
            iw - 1,
        )) * ch],
        rgb[1] == pixels@[(vstd::math::min(row as int, ih - 1) * iw + vstd::math::min(
            col as int,
            iw - 1,
        )) * ch + 1],
        rgb[2] == pixels@[(vstd::math::min(row as int, ih - 1) * iw + vstd::math::min(
            col as int,
            iw - 1,
        )) * ch + 2],
{
    let c = if col < iw - 1 { col } else { iw - 1 };
    let r = if row < ih - 1 { row } else { ih - 1 };
    assert(r * iw <= pixel_number(iw, ih, col, row));
    let n = r * iw + c;
    let at = (n * ch) as usize;
    [pixels[at], pixels[at + 1], pixels[at + 2]]
}


proof fn lemma_dist2_zero(a: [u8; 3], b: [u8; 3])
    ensures
        dist2(a, b) >= 0,
        dist2(a, b) == 0 <==> a@ == b@,
{
    let d0 = a[0] - b[0];
    let d1 = a[1] - b[1];
    let d2 = a[2] - b[2];
    assert(d0 * d0 >= 0 && d1 * d1 >= 0 && d2 * d2 >= 0) by (nonlinear_arith);
    assert(d0 * d0 + d1 * d1 + d2 * d2 == 0 ==> d0 == 0 && d1 == 0 && d2 == 0) by (nonlinear_arith);
    assert(a@.len() == 3 && b@.len() == 3);
    if dist2(a, b) == 0 {
        assert(a@ =~= b@);
    }
    if a@ == b@ {
        assert(a@[0] == b@[0] && a@[1] == b@[1] && a@[2] == b@[2]);
        assert(d0 == 0 && d1 == 0 && d2 == 0);
        assert(d0 * d0 + d1 * d1 + d2 * d2 == 0) by (nonlinear_arith)
            requires
                d0 == 0 && d1 == 0 && d2 == 0,
        ;
    }
}

/// A colour that occurs in the palette is assigned a palette entry equal to
/// it (the first such entry).
pub proof fn lemma_nearest_of_palette_colour(c: [u8; 3], pal: Seq<[u8; 3]>, best: int, j: int)
    requires
        0 <= j < pal.len(),
        pal[j]@ == c@,
        is_nearest(c, pal, best),
    ensures
        pal[best]@ == c@,
        best <= j,
{
    lemma_dist2_zero(c, pal[j]);
    lemma_dist2_zero(c, pal[best]);
    assert(c@ =~= pal[j]@);
}


proof fn lemma_sampled_monotone(a: int, b: int, stride: int)
    requires
        a <= b,
        stride >= 1,
    ensures
        sampled(a, stride) <= sampled(b, stride),
{
    assert(a * stride <= b * stride) by (nonlinear_arith)
        requires
            a <= b,
            stride >= 1,
    ;
}

/// The alpha byte of a four-byte pixel never reaches the samples: two RGBA
/// images that differ only in alpha are sampled to the same colours.
pub proof fn lemma_samples_ignore_alpha(
    px1: Seq<u8>,
    px2: Seq<u8>,
    total: int,
    d1: Seq<[u8; 3]>,
    d2: Seq<[u8; 3]>,
)
    requires
        total >= 0,
        px1.len() == px2.len(),
        forall|i: int| 0 <= i < px1.len() && i % 4 != 3 ==> #[trigger] px1[i] == px2[i],
        samples_fit(px1.len() as int, total, 4),
        is_sampling(px1, total, 4, d1),
        is_sampling(px2, total, 4, d2),
    ensures
        d1 == d2,
{
    let s = sample_stride(total);
    if total > 0 {
        if d1.len() < d2.len() {
            lemma_sampled_monotone(d1.len() as int, d2.len() - 1, s);
        } else if d2.len() < d1.len() {
            lemma_sampled_monotone(d2.len() as int, d1.len() - 1, s);
        }
    }
    assert(d1.len() == d2.len());
    assert forall|k: int| 0 <= k < d1.len() implies d1[k] == d2[k] by {
        let at = sampled(k, s) * 4;
        lemma_sampled_monotone(k, d1.len() - 1, s);
        lemma_sampled_monotone(0, k, s);
        assert(sampled(k, s) < total);
        assert(at + 2 < px1.len());
        assert(at % 4 == 0 && (at + 1) % 4 == 1 && (at + 2) % 4 == 2);
        assert(px1[at] == px2[at]);
        assert(px1[at + 1] == px2[at + 1]);
        assert(px1[at + 2] == px2[at + 2]);
        assert(d1[k]@ =~= d2[k]@);
    }
    assert(d1 =~= d2);
}


/// Some tile with colour `k` is drawn (`drawn` marks the tiles that are).
pub open spec fn colour_used(colors: Seq<usize>, drawn: Seq<bool>, k: int) -> bool {
    exists|t: int| 0 <= t < colors.len() && drawn[t] && colors[t] == k
}

/// The palette colours that at least one drawn tile carries, in increasing
/// order, each once: the glass groups of a panel.
pub fn used_colours(colors: &[usize], drawn: &[bool], n_colours: usize) -> (used: Vec<usize>)
    requires
        colors@.len() == drawn@.len(),
        forall|t: int| 0 <= t < colors@.len() ==> #[trigger] colors@[t] < n_colours,
    ensures
        forall|a: int, b: int| 0 <= a < b < used@.len() ==> used@[a] < used@[b],
        forall|a: int| 0 <= a < used@.len() ==> colour_used(colors@, drawn@, #[trigger] used@[a] as int),
        forall|k: int|
            0 <= k < n_colours && colour_used(colors@, drawn@, k) ==> #[trigger] used@.contains(
                k as usize,
            ),
{
    let mut seen: Vec<bool> = Vec::new();
    let mut k: usize = 0;
    while k < n_colours
        invariant
            k <= n_colours,
            seen@.len() == k,
            forall|j: int| 0 <= j < k ==> !(#[trigger] seen@[j]),
        decreases n_colours - k,
    {
        seen.push(false);
        k = k + 1;
    }
    let mut t: usize = 0;
    while t < colors.len()
        invariant
            colors@.len() == drawn@.len(),
            forall|u: int| 0 <= u < colors@.len() ==> #[trigger] colors@[u] < n_colours,
            t <= colors@.len(),
            seen@.len() == n_colours,
            forall|j: int| 0 <= j < n_colours ==> (#[trigger] seen@[j] <==> exists|u: int|
                0 <= u < t && drawn@[u] && colors@[u] == j),
        decreases colors@.len() - t,
    {
        if drawn[t] {
            let c = colors[t];
            seen.set(c, true);
        }
        assert forall|j: int| 0 <= j < n_colours implies (#[trigger] seen@[j] <==> exists|u: int|
            0 <= u < t + 1 && drawn@[u] && colors@[u] == j) by {
            if drawn@[t as int] && colors@[t as int] == j {
                assert(0 <= t < t + 1 && drawn@[t as int] && colors@[t as int] == j);
            }
        }
        t = t + 1;
    }
    let mut used: Vec<usize> = Vec::new();
    k = 0;
    while k < n_colours
        invariant
            k <= n_colours,
            seen@.len() == n_colours,
            forall|j: int| 0 <= j < n_colours ==> (#[trigger] seen@[j] <==> colour_used(colors@, drawn@, j)),
            forall|a: int, b: int| 0 <= a < b < used@.len() ==> used@[a] < used@[b],
            forall|a: int| 0 <= a < used@.len() ==> used@[a] < k,
            forall|a: int| 0 <= a < used@.len() ==> colour_used(colors@, drawn@, #[trigger] used@[a] as int),
            forall|j: int| 0 <= j < k && colour_used(colors@, drawn@, j) ==> #[trigger] used@.contains(j as usize),
        decreases n_colours - k,
    {
        let ghost before = used@;
        if seen[k] {
            used.push(k);
            assert(used@[used@.len() - 1] == k);
        }
        assert forall|j: int| 0 <= j < k + 1 && colour_used(colors@, drawn@, j) implies #[trigger] used@.contains(j as usize) by {
            if j < k {
                assert(before.contains(j as usize));
                let a = choose|a: int| 0 <= a < before.len() && before[a] == j as usize;
                assert(used@[a] == before[a]);
            } else {
                assert(used@[used@.len() - 1] == k);
            }
        }
        k = k + 1;
    }
    used
}


/// Sampling reads every pixel of an image of fewer than 8000 pixels, in
/// order; a larger image is read every `total / 4000` pixels, starting at
/// the first, which gives at least 4000 samples. Each sample is the first
/// three bytes of its pixel.
pub proof fn lemma_sampling_pixels(px: Seq<u8>, total: int, ch: int, data: Seq<[u8; 3]>)
    requires
        0 < total,
        is_sampling(px, total, ch, data),
    ensures
        total < 8000 ==> data.len() == total,
        total >= 8000 ==> data.len() >= 4000,
        forall|k: int|
            0 <= k < data.len() ==> #[trigger] data[k]@ == seq![
                px[(k * if total < 8000 { 1 } else { total / 4000 }) * ch],
                px[(k * if total < 8000 { 1 } else { total / 4000 }) * ch + 1],
                px[(k * if total < 8000 { 1 } else { total / 4000 }) * ch + 2],
            ],
{
    let s = sample_stride(total);
    assert(s == if total < 8000 { 1 } else { total / 4000 });
    if total < 8000 {
        let l = data.len() as int;
        assert((l - 1) * 1 == l - 1 && l * 1 == l) by (nonlinear_arith);
        assert(sampled(l - 1, 1) == l - 1);
        assert(sampled(l, 1) == l);
    } else {
        let l = data.len() as int;
        assert(total <= l * s);
        assert(4000 * s <= total);
        assert(l >= 4000) by (nonlinear_arith)
            requires
                total <= l * s,
                4000 * s <= total,
                s >= 2,
        ;
    }
    assert forall|k: int| 0 <= k < data.len() implies #[trigger] data[k]@ == seq![
        px[(k * if total < 8000 { 1 } else { total / 4000 }) * ch],
        px[(k * if total < 8000 { 1 } else { total / 4000 }) * ch + 1],
        px[(k * if total < 8000 { 1 } else { total / 4000 }) * ch + 2],
    ] by {
        assert(data[k] == rgb_at(px, sampled(k, s) * ch));
        assert(data[k]@ =~= seq![
            px[(k * if total < 8000 { 1 } else { total / 4000 }) * ch],
            px[(k * if total < 8000 { 1 } else { total / 4000 }) * ch + 1],
            px[(k * if total < 8000 { 1 } else { total / 4000 }) * ch + 2],
        ]);
    }
}

} // verus!
