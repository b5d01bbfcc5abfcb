//! Choosing a palette per tile and quantizing the image to palette indices
//! with error diffusion.
use vstd::prelude::*;
use crate::color::{
    Oklab, ColorFrequency, colors_wf, pixels_wf, delta_e, oklab_delta_e, saturate, error_term,
};
use crate::palette::{Palette, palettes_fit};
use crate::tiling::{
    Config, ImageConverter, lemma_sizes, lemma_raster_compose, lemma_raster_decompose, tiles_fit, views,
    MAX_PIXELS,
};

verus! {

/// The distance that an empty palette gives: beyond every colour difference.
pub const NO_MATCH: u32 = 0x80_0000;

/// Divisor of the diffused error (the sum of the kernel's weights).
pub const DIFFUSION_DIVISOR: u32 = 32;

/// The smallest difference between `c` and a colour of `colors`, or
/// `NO_MATCH` when there is none.
pub open spec fn min_distance(c: Oklab, colors: Seq<ColorFrequency>) -> nat
    decreases colors.len(),
{
    if colors.len() == 0 {
        NO_MATCH as nat
    } else {
        let m = min_distance(c, colors.drop_last());
        let d = delta_e(c, colors.last().color);
        if d < m {
            d
        } else {
            m
        }
    }
}

/// The sum over the pixels of `tile` of their smallest difference to `colors`.
pub open spec fn tile_error(tile: Seq<Oklab>, colors: Seq<ColorFrequency>) -> nat
    decreases tile.len(),
{
    if tile.len() == 0 {
        0
    } else {
        tile_error(tile.drop_last(), colors) + min_distance(tile.last(), colors)
    }
}

/// `i` is the first colour of `colors` nearest to `c`.
pub open spec fn is_nearest(c: Oklab, colors: Seq<ColorFrequency>, i: int) -> bool {
    &&& 0 <= i < colors.len()
    &&& forall|j: int| 0 <= j < colors.len() ==> delta_e(c, colors[i].color) <= delta_e(c, #[trigger] colors[j].color)
    &&& forall|j: int| 0 <= j < i ==> delta_e(c, colors[i].color) < delta_e(c, #[trigger] colors[j].color)
}

/// The index of the first colour of `colors` nearest to `c`.
pub open spec fn nearest(c: Oklab, colors: Seq<ColorFrequency>) -> int {
    choose|i: int| is_nearest(c, colors, i)
}

proof fn lemma_nearest_unique(c: Oklab, colors: Seq<ColorFrequency>, i: int, k: int)
    requires
        is_nearest(c, colors, i),
        is_nearest(c, colors, k),
    ensures
        i == k,
{
    if i < k {
        assert(delta_e(c, colors[k].color) < delta_e(c, colors[i].color));
    } else if k < i {
        assert(delta_e(c, colors[i].color) < delta_e(c, colors[k].color));
    }
}

/// The index of the first colour of `colors` nearest to `color`.
pub fn nearest_color_index(color: Oklab, colors: &[ColorFrequency]) -> (r: usize)
    requires
        color.wf(),
        colors_wf(colors@),
        colors@.len() >= 1,
    ensures
        is_nearest(color, colors@, r as int),
        r == nearest(color, colors@),
        min_distance(color, colors@) == delta_e(color, colors@[r as int].color),
{
    let mut best: usize = 0;
    let mut best_d = oklab_delta_e(color, colors[0].color);
    let mut j: usize = 1;
    proof {
        assert(colors@.take(1).drop_last() =~= colors@.take(0));
        assert(colors@.take(1).last() == colors@[0]);
        assert(min_distance(color, colors@.take(0)) == NO_MATCH);
    }
    while j < colors.len()
        invariant
            1 <= j <= colors@.len(),
            best < j,
            color.wf(),
            colors_wf(colors@),
            best_d == delta_e(color, colors@[best as int].color),
            forall|k: int| 0 <= k < j ==> best_d <= delta_e(color, #[trigger] colors@[k].color),
            forall|k: int| 0 <= k < best ==> best_d < delta_e(color, #[trigger] colors@[k].color),
            min_distance(color, colors@.take(j as int)) == best_d,
        decreases colors@.len() - j,
    {
        let d = oklab_delta_e(color, colors[j].color);
        proof {
            assert(colors@.take(j + 1).drop_last() =~= colors@.take(j as int));
        }
        if d < best_d {
            best = j;
            best_d = d;
        }
        j = j + 1;
    }
    proof {
        assert(colors@.take(j as int) =~= colors@);
        let c = nearest(color, colors@);
        assert(is_nearest(color, colors@, best as int));
        lemma_nearest_unique(color, colors@, best as int, c);
    }
    best
}

/// The smallest difference between `color` and a colour of `colors`.
pub fn min_color_distance(color: Oklab, colors: &[ColorFrequency]) -> (r: u32)
    requires
        color.wf(),
        colors_wf(colors@),
    ensures
        r == min_distance(color, colors@),
        r <= NO_MATCH,
{
    let mut best: u32 = NO_MATCH;
    let mut j: usize = 0;
    while j < colors.len()
        invariant
            j <= colors@.len(),
            color.wf(),
            colors_wf(colors@),
            best == min_distance(color, colors@.take(j as int)),
            best <= NO_MATCH,
        decreases colors@.len() - j,
    {
        let d = oklab_delta_e(color, colors[j].color);
        proof {
            assert(colors@.take(j + 1).drop_last() =~= colors@.take(j as int));
        }
        if d < best {
            best = d;
        }
        j = j + 1;
    }
    proof {
        assert(colors@.take(j as int) =~= colors@);
    }
    best
}

/// The sum over the pixels of `tile` of their smallest difference to `colors`.
pub fn palette_error(tile: &[Oklab], colors: &[ColorFrequency]) -> (r: u64)
    requires
        pixels_wf(tile@),
        colors_wf(colors@),
        tile@.len() <= MAX_PIXELS,
    ensures
        r == tile_error(tile@, colors@),
{
    let mut sum: u64 = 0;
    let mut i: usize = 0;
    while i < tile.len()
        invariant
            i <= tile@.len(),
            tile@.len() <= MAX_PIXELS,
            pixels_wf(tile@),
            colors_wf(colors@),
            sum == tile_error(tile@.take(i as int), colors@),
            sum <= i * NO_MATCH,
        decreases tile@.len() - i,
    {
        let d = min_color_distance(tile[i], colors);
        proof {
            assert(tile@.take(i + 1).drop_last() =~= tile@.take(i as int));
        }
        sum = sum + d as u64;
        i = i + 1;
    }
    proof {
        assert(tile@.take(i as int) =~= tile@);
    }
    sum
}

/// `r` is the first palette of least error for `tile`.
pub open spec fn is_best_palette(tile: Seq<Oklab>, palettes: Seq<Palette>, r: int) -> bool {
    &&& 0 <= r < palettes.len()
    &&& forall|q: int|
        0 <= q < palettes.len() ==> tile_error(tile, palettes[r].colors@) <= tile_error(
            tile,
            (#[trigger] palettes[q]).colors@,
        )
    &&& forall|q: int|
        0 <= q < r ==> tile_error(tile, palettes[r].colors@) < tile_error(
            tile,
            (#[trigger] palettes[q]).colors@,
        )
}

/// The index of pixel `p` in a quantized tile packed four bits per pixel,
/// four pixels to a word, the first pixel in the lowest bits.
pub open spec fn nibble(words: Seq<u16>, p: int) -> int {
    ((words[p / 4] >> (4 * (p % 4)) as u16) & 15u16) as int
}

proof fn lemma_pack_word(a: u16, b: u16, c: u16, d: u16)
    requires
        a < 16,
        b < 16,
        c < 16,
        d < 16,
    ensures
        ((a | (b << 4u16) | (c << 8u16) | (d << 12u16)) >> 0u16) & 15u16 == a,
        ((a | (b << 4u16) | (c << 8u16) | (d << 12u16)) >> 4u16) & 15u16 == b,
        ((a | (b << 4u16) | (c << 8u16) | (d << 12u16)) >> 8u16) & 15u16 == c,
        ((a | (b << 4u16) | (c << 8u16) | (d << 12u16)) >> 12u16) & 15u16 == d,
{
    assert(((a | (b << 4u16) | (c << 8u16) | (d << 12u16)) >> 0u16) & 15u16 == a) by (bit_vector)
        requires
            a < 16,
            b < 16,
            c < 16,
            d < 16,
    ;
    assert(((a | (b << 4u16) | (c << 8u16) | (d << 12u16)) >> 4u16) & 15u16 == b) by (bit_vector)
        requires
            a < 16,
            b < 16,
            c < 16,
            d < 16,
    ;
    assert(((a | (b << 4u16) | (c << 8u16) | (d << 12u16)) >> 8u16) & 15u16 == c) by (bit_vector)
        requires
            a < 16,
            b < 16,
            c < 16,
            d < 16,
    ;
    assert(((a | (b << 4u16) | (c << 8u16) | (d << 12u16)) >> 12u16) & 15u16 == d) by (bit_vector)
        requires
            a < 16,
            b < 16,
            c < 16,
            d < 16,
    ;
}

/// Packs four-bit indices four to a word, the first pixel in the lowest bits;
/// a last partial word is filled with zeros.
pub fn pack_indices(indices: &Vec<u8>) -> (r: Vec<u16>)
    requires
        forall|p: int| 0 <= p < indices@.len() ==> #[trigger] indices@[p] < 16,
        indices@.len() <= MAX_PIXELS,
    ensures
        r@.len() == (indices@.len() + 3) / 4,
        forall|p: int| 0 <= p < indices@.len() ==> #[trigger] nibble(r@, p) == indices@[p],
        forall|p: int| indices@.len() <= p < 4 * r@.len() ==> #[trigger] nibble(r@, p) == 0,
{
    let n = indices.len();
    let mut words: Vec<u16> = Vec::new();
    let mut w: usize = 0;
    while w * 4 < n
        invariant
            n == indices@.len(),
            n <= MAX_PIXELS,
            forall|p: int| 0 <= p < n ==> #[trigger] indices@[p] < 16,
            words@.len() == w,
            w * 4 <= n + 3,
            forall|p: int| 0 <= p < 4 * w && p < n ==> #[trigger] nibble(words@, p) == indices@[p],
            forall|p: int| n <= p < 4 * w ==> #[trigger] nibble(words@, p) == 0,
        decreases n + 4 - w * 4,
    {
        let base = w * 4;
        let a: u16 = indices[base] as u16;
        let b: u16 = if base + 1 < n {
            indices[base + 1] as u16
        } else {
            0
        };
        let c: u16 = if base + 2 < n {
            indices[base + 2] as u16
        } else {
            0
        };
        let d: u16 = if base + 3 < n {
            indices[base + 3] as u16
        } else {
            0
        };
        let word: u16 = a | (b << 4u16) | (c << 8u16) | (d << 12u16);
        proof {
            lemma_pack_word(a, b, c, d);
        }
        let ghost prev = words@;
        words.push(word);
        proof {
            assert forall|p: int| 0 <= p < 4 * (w + 1) && p < n implies #[trigger] nibble(words@, p)
                == indices@[p] by {
                if p >= 4 * w {
                    assert(p / 4 == w);
                    assert(words@[p / 4] == word);
                    if p % 4 == 0 {
                        assert((4 * (p % 4)) as u16 == 0u16);
                    } else if p % 4 == 1 {
                        assert((4 * (p % 4)) as u16 == 4u16);
                    } else if p % 4 == 2 {
                        assert((4 * (p % 4)) as u16 == 8u16);
                    } else {
                        assert((4 * (p % 4)) as u16 == 12u16);
                    }
                } else {
                    assert(p / 4 < w);
                    assert(words@[p / 4] == prev[p / 4]);
                    assert(nibble(prev, p) == indices@[p]);
                }
            }
            assert forall|p: int| n <= p < 4 * (w + 1) implies #[trigger] nibble(words@, p) == 0 by {
                if p >= 4 * w {
                    assert(p / 4 == w);
                    assert(words@[p / 4] == word);
                    if p % 4 == 0 {
                        assert((4 * (p % 4)) as u16 == 0u16);
                    } else if p % 4 == 1 {
                        assert((4 * (p % 4)) as u16 == 4u16);
                    } else if p % 4 == 2 {
                        assert((4 * (p % 4)) as u16 == 8u16);
                    } else {
                        assert((4 * (p % 4)) as u16 == 12u16);
                    }
                } else {
                    assert(words@[p / 4] == prev[p / 4]);
                    assert(nibble(prev, p) == 0);
                }
            }
        }
        w = w + 1;
    }
    words
}

/// The index of pixel `p` in a packed tile.
pub fn unpack_index(words: &Vec<u16>, p: usize) -> (r: u8)
    requires
        p / 4 < words@.len(),
    ensures
        r == nibble(words@, p as int),
{
    let word = words[p / 4];
    let shift = (4 * (p % 4)) as u16;
    let v = (word >> shift) & 15u16;
    proof {
        assert(v < 16) by (bit_vector)
            requires
                v == (word >> shift) & 15u16,
        ;
    }
    v as u8
}

/// The weight of the diffusion kernel for a pixel `dx` columns right and `dy`
/// rows down of the pixel being quantized: 5 and 3 on its row; 2, 4, 5, 4, 2
/// on the next; 2, 3, 2 on the one after.
pub open spec fn sierra_weight(dx: int, dy: int) -> int {
    if dy == 0 {
        if dx == 1 {
            5
        } else if dx == 2 {
            3
        } else {
            0
        }
    } else if dy == 1 {
        if dx == -2 || dx == 2 {
            2
        } else if dx == -1 || dx == 1 {
            4
        } else if dx == 0 {
            5
        } else {
            0
        }
    } else if dy == 2 {
        if dx == -1 || dx == 1 {
            2
        } else if dx == 0 {
            3
        } else {
            0
        }
    } else {
        0
    }
}

/// The weight that the pixel at column `x`, row `y` sends to position `i` of
/// a row-major image `width` pixels wide.
pub open spec fn diffusion_weight(i: int, x: int, y: int, width: int) -> int {
    sierra_weight(i % width - x, i / width - y)
}

pub open spec fn weighted(c: Oklab, d: Oklab, w: int) -> Oklab {
    Oklab {
        l: saturate(c.l + d.l * w) as i32,
        a: saturate(c.a + d.a * w) as i32,
        b: saturate(c.b + d.b * w) as i32,
    }
}

/// The error accumulator after the pixel at (`x`, `y`) diffused `diff`.
pub open spec fn diffused(error: Seq<Oklab>, diff: Oklab, x: int, y: int, width: int) -> Seq<Oklab> {
    Seq::new(error.len(), |i: int| weighted(error[i], diff, diffusion_weight(i, x, y, width)))
}

proof fn lemma_split(i: int, w: int)
    requires
        w >= 1,
        i >= 0,
    ensures
        i == (i / w) * w + i % w,
        0 <= i % w < w,
        0 <= i / w,
{
    vstd::arithmetic::div_mod::lemma_fundamental_div_mod(i, w);
    vstd::arithmetic::div_mod::lemma_mod_bound(i, w);
    vstd::arithmetic::div_mod::lemma_div_pos_is_pos(i, w);
    assert(w * (i / w) == (i / w) * w) by (nonlinear_arith);
}

proof fn lemma_div_mod_of(i: int, w: int, q: int, r: int)
    requires
        w >= 1,
        0 <= r < w,
        i == q * w + r,
    ensures
        i % w == r,
        i / w == q,
{
    vstd::arithmetic::div_mod::lemma_fundamental_div_mod_converse(i, w, q, r);
}

/// Column offset of kernel entry `k`.
pub open spec fn kernel_dx(k: int) -> int {
    if k == 0 || k == 5 || k == 9 {
        1
    } else if k == 1 || k == 6 {
        2
    } else if k == 2 {
        -2
    } else if k == 3 || k == 7 {
        -1
    } else {
        0
    }
}

/// Row offset of kernel entry `k`.
pub open spec fn kernel_dy(k: int) -> int {
    if k < 2 {
        0
    } else if k < 7 {
        1
    } else {
        2
    }
}

fn kernel_entry(k: usize) -> (r: (i64, i64, u32))
    requires
        k < 10,
    ensures
        r.0 == kernel_dx(k as int),
        r.1 == kernel_dy(k as int),
        r.2 == sierra_weight(kernel_dx(k as int), kernel_dy(k as int)),
{
    match k {
        0 => (1, 0, 5),
        1 => (2, 0, 3),
        2 => (-2, 1, 2),
        3 => (-1, 1, 4),
        4 => (0, 1, 5),
        5 => (1, 1, 4),
        6 => (2, 1, 2),
        7 => (-1, 2, 2),
        8 => (0, 2, 3),
        _ => (1, 2, 2),
    }
}

/// Position `i` is the target of one of the first `k` kernel entries.
pub open spec fn hit_before(i: int, x: int, y: int, width: int, k: int) -> bool {
    exists|j: int| 0 <= j < k && i % width - x == kernel_dx(j) && i / width - y == kernel_dy(j)
}

proof fn lemma_kernel_covers(dx: int, dy: int)
    requires
        sierra_weight(dx, dy) != 0,
    ensures
        exists|j: int| 0 <= j < 10 && dx == kernel_dx(j) && dy == kernel_dy(j),
{
    if dy == 0 {
        if dx == 1 {
            assert(kernel_dx(0) == dx && kernel_dy(0) == dy);
        } else {
            assert(kernel_dx(1) == dx && kernel_dy(1) == dy);
        }
    } else if dy == 1 {
        if dx == -2 {
            assert(kernel_dx(2) == dx && kernel_dy(2) == dy);
        } else if dx == -1 {
            assert(kernel_dx(3) == dx && kernel_dy(3) == dy);
        } else if dx == 0 {
            assert(kernel_dx(4) == dx && kernel_dy(4) == dy);
        } else if dx == 1 {
            assert(kernel_dx(5) == dx && kernel_dy(5) == dy);
        } else {
            assert(kernel_dx(6) == dx && kernel_dy(6) == dy);
        }
    } else {
        if dx == -1 {
            assert(kernel_dx(7) == dx && kernel_dy(7) == dy);
        } else if dx == 0 {
            assert(kernel_dx(8) == dx && kernel_dy(8) == dy);
        } else {
            assert(kernel_dx(9) == dx && kernel_dy(9) == dy);
        }
    }
}

/// Diffuses `diff` from the pixel at (`x`, `y`) of a `width` × `height`
/// image to the pixels after it, by the weights of the kernel; targets
/// outside the image are skipped.
pub fn apply_sierra_dithering(error: &mut Vec<Oklab>, diff: &Oklab, x: usize, y: usize, width: usize, height: usize)
    requires
        old(error)@.len() == width * height,
        width * height <= MAX_PIXELS,
        x < width,
        y < height,
        pixels_wf(old(error)@),
        diff.wf(),
    ensures
        final(error)@ == diffused(old(error)@, *diff, x as int, y as int, width as int),
        pixels_wf(final(error)@),
{
    let ghost start = error@;
    let ghost w = width as int;
    proof {
        assert(width <= MAX_PIXELS && height <= MAX_PIXELS) by (nonlinear_arith)
            requires
                width * height <= MAX_PIXELS,
                x < width,
                y < height,
        ;
    }
    let mut k: usize = 0;
    while k < 10
        invariant
            k <= 10,
            error@.len() == start.len(),
            start.len() == width * height,
            width * height <= MAX_PIXELS,
            width <= MAX_PIXELS,
            height <= MAX_PIXELS,
            x < width,
            y < height,
            w == width,
            pixels_wf(start),
            pixels_wf(error@),
            diff.wf(),
            forall|i: int|
                0 <= i < start.len() ==> #[trigger] error@[i] == if hit_before(i, x as int, y as int, w, k as int) {
                    weighted(start[i], *diff, diffusion_weight(i, x as int, y as int, w))
                } else {
                    start[i]
                },
        decreases 10 - k,
    {
        let (dx, dy, weight) = kernel_entry(k);
        let tx = x as i64 + dx;
        let ty = y as i64 + dy;
        if 0 <= tx && tx < width as i64 && ty < height as i64 {
            proof {
                assert(ty * w + tx < w * height) by (nonlinear_arith)
                    requires
                        0 <= tx < w,
                        0 <= ty < height,
                ;
            }
            let index = ty as usize * width + tx as usize;
            let ghost before = error@;
            proof {
                assert(index == ty * w + tx);
                lemma_div_mod_of(index as int, w, ty as int, tx as int);
                assert(!hit_before(index as int, x as int, y as int, w, k as int));
            }
            let mut e = error[index];
            e.weighted_add(diff, weight);
            error[index] = e;
            proof {
                assert forall|i: int| 0 <= i < start.len() implies #[trigger] error@[i] == if hit_before(
                    i,
                    x as int,
                    y as int,
                    w,
                    k + 1,
                ) {
                    weighted(start[i], *diff, diffusion_weight(i, x as int, y as int, w))
                } else {
                    start[i]
                } by {
                    if i == index {
                        assert(hit_before(i, x as int, y as int, w, k + 1));
                    } else {
                        if i % w - x == kernel_dx(k as int) && i / w - y == kernel_dy(k as int) {
                            lemma_split(i, w);
                            assert(false);
                        }
                        if hit_before(i, x as int, y as int, w, k + 1) {
                            let j = choose|j: int|
                                0 <= j < k + 1 && i % w - x == kernel_dx(j) && i / w - y == kernel_dy(j);
                            assert(hit_before(i, x as int, y as int, w, k as int));
                        }
                        if hit_before(i, x as int, y as int, w, k as int) {
                            let j = choose|j: int|
                                0 <= j < k && i % w - x == kernel_dx(j) && i / w - y == kernel_dy(j);
                            assert(hit_before(i, x as int, y as int, w, k + 1));
                        }
                    }
                }
            }
        } else {
            proof {
                assert forall|i: int| 0 <= i < start.len() implies #[trigger] error@[i] == if hit_before(
                    i,
                    x as int,
                    y as int,
                    w,
                    k + 1,
                ) {
                    weighted(start[i], *diff, diffusion_weight(i, x as int, y as int, w))
                } else {
                    start[i]
                } by {
                    lemma_split(i, w);
                    if i % w - x == kernel_dx(k as int) && i / w - y == kernel_dy(k as int) {
                        assert(i / w < height) by (nonlinear_arith)
                            requires
                                i == (i / w) * w + i % w,
                                0 <= i % w,
                                i < w * height,
                                w >= 1,
                        ;
                        assert(false);
                    }
                    if hit_before(i, x as int, y as int, w, k + 1) {
                        let j = choose|j: int|
                            0 <= j < k + 1 && i % w - x == kernel_dx(j) && i / w - y == kernel_dy(j);
                        assert(hit_before(i, x as int, y as int, w, k as int));
                    }
                    if hit_before(i, x as int, y as int, w, k as int) {
                        let j = choose|j: int|
                            0 <= j < k && i % w - x == kernel_dx(j) && i / w - y == kernel_dy(j);
                        assert(hit_before(i, x as int, y as int, w, k + 1));
                    }
                }
            }
        }
        k = k + 1;
    }
    proof {
        let target = diffused(start, *diff, x as int, y as int, w);
        assert forall|i: int| 0 <= i < start.len() implies #[trigger] error@[i] == target[i] by {
            let dx = i % w - x;
            let dy = i / w - y;
            if hit_before(i, x as int, y as int, w, 10) {
                let j = choose|j: int| 0 <= j < 10 && i % w - x == kernel_dx(j) && i / w - y == kernel_dy(j);
            } else {
                if sierra_weight(dx, dy) != 0 {
                    lemma_kernel_covers(dx, dy);
                }
                assert(weighted(start[i], *diff, 0) == start[i]);
            }
        }
        assert(error@ =~= target);
    }
}

/// The colours of each palette.
pub open spec fn palette_colors(palettes: Seq<Palette>) -> Seq<Seq<ColorFrequency>> {
    palettes.map_values(|p: Palette| p.colors@)
}

/// Componentwise sum clamped to the component range.
pub open spec fn add_colors(c: Oklab, e: Oklab) -> Oklab {
    Oklab { l: saturate(c.l + e.l) as i32, a: saturate(c.a + e.a) as i32, b: saturate(c.b + e.b) as i32 }
}

/// The colour that quantization matches: the pixel plus the error diffused
/// to it, when dithering.
pub open spec fn working_color(cfg: Config, c: Oklab, e: Oklab) -> Oklab {
    if cfg.dithering {
        add_colors(c, e)
    } else {
        c
    }
}

/// The error that a quantized pixel diffuses: (working − chosen) × factor / 32.
pub open spec fn residual(cfg: Config, c: Oklab, chosen: Oklab) -> Oklab {
    Oklab {
        l: error_term(c.l - chosen.l, cfg.dither_factor as int, DIFFUSION_DIVISOR as int) as i32,
        a: error_term(c.a - chosen.a, cfg.dither_factor as int, DIFFUSION_DIVISOR as int) as i32,
        b: error_term(c.b - chosen.b, cfg.dither_factor as int, DIFFUSION_DIVISOR as int) as i32,
    }
}

/// The error accumulator, one colour per image pixel, before any pixel is
/// quantized.
pub open spec fn zero_error(cfg: Config) -> Seq<Oklab> {
    Seq::new(cfg.pixel_count() as nat, |i: int| Oklab { l: 0, a: 0, b: 0 })
}

/// The error accumulator and the chosen palette indices after the first `k`
/// pixels in row-major order over the whole image: each pixel is matched,
/// with the error diffused to it so far, to the nearest colour of its tile's
/// palette, and then diffuses its own error forward.
pub open spec fn dither_run(
    cfg: Config,
    tiles: Seq<Seq<Oklab>>,
    palettes: Seq<Seq<ColorFrequency>>,
    choice: Seq<usize>,
    k: nat,
) -> (Seq<Oklab>, Seq<int>)
    decreases k,
{
    if k == 0 {
        (zero_error(cfg), Seq::empty())
    } else {
        let prev = dither_run(cfg, tiles, palettes, choice, (k - 1) as nat);
        let g = k - 1;
        let t = cfg.raster_tile(g);
        let p = cfg.raster_pixel(g);
        let colors = palettes[choice[t] as int];
        let c = working_color(cfg, tiles[t][p], prev.0[g]);
        let i = nearest(c, colors);
        let error = if cfg.dithering {
            diffused(
                prev.0,
                residual(cfg, c, colors[i].color),
                g % cfg.image_width(),
                g / cfg.image_width(),
                cfg.image_width(),
            )
        } else {
            prev.0
        };
        (error, prev.1.push(i))
    }
}

/// Palette choices that fit: one per tile, each naming a palette with colours.
pub open spec fn choices_fit(cfg: Config, palettes: Seq<Palette>, choice: Seq<usize>) -> bool {
    &&& choice.len() == cfg.tile_count()
    &&& forall|t: int|
        0 <= t < choice.len() ==> {
            &&& (#[trigger] choice[t]) < palettes.len()
            &&& palettes[choice[t] as int].colors@.len() >= 1
        }
}

impl ImageConverter {
    /// For each tile, the first palette whose error (the sum over the tile's
    /// pixels of the distance to the nearest palette colour) is least.
    pub fn assign_palettes(&self, tiles: &Vec<Vec<Oklab>>, palettes: &Vec<Palette>) -> (r: Vec<usize>)
        requires
            self.config.wf(),
            tiles_fit(self.config, tiles@),
            palettes@.len() >= 1,
            palettes_fit(palettes@, self.config.colors_per_palette as int),
        ensures
            r@.len() == tiles@.len(),
            forall|t: int| 0 <= t < tiles@.len() ==> is_best_palette(tiles@[t]@, palettes@, #[trigger] r@[t] as int),
    {
        proof {
            lemma_sizes(self.config);
        }
        let mut choice: Vec<usize> = Vec::new();
        let mut t: usize = 0;
        while t < tiles.len()
            invariant
                self.config.wf(),
                tiles_fit(self.config, tiles@),
                self.config.tile_size() <= MAX_PIXELS,
                palettes@.len() >= 1,
                palettes_fit(palettes@, self.config.colors_per_palette as int),
                t <= tiles@.len(),
                choice@.len() == t,
                forall|u: int| 0 <= u < t ==> is_best_palette(tiles@[u]@, palettes@, #[trigger] choice@[u] as int),
            decreases tiles@.len() - t,
        {
            let tile = tiles[t].as_slice();
            let mut best: usize = 0;
            let mut best_err = palette_error(tile, palettes[0].colors.as_slice());
            let mut q: usize = 1;
            while q < palettes.len()
                invariant
                    palettes_fit(palettes@, self.config.colors_per_palette as int),
                    pixels_wf(tile@),
                    tile@.len() <= MAX_PIXELS,
                    tile@ == tiles@[t as int]@,
                    1 <= q <= palettes@.len(),
                    best < q,
                    best_err == tile_error(tile@, palettes@[best as int].colors@),
                    forall|j: int| 0 <= j < q ==> best_err <= tile_error(tile@, (#[trigger] palettes@[j]).colors@),
                    forall|j: int| 0 <= j < best ==> best_err < tile_error(tile@, (#[trigger] palettes@[j]).colors@),
                decreases palettes@.len() - q,
            {
                let err = palette_error(tile, palettes[q].colors.as_slice());
                if err < best_err {
                    best = q;
                    best_err = err;
                }
                q = q + 1;
            }
            choice.push(best);
            t = t + 1;
        }
        choice
    }

    /// Quantizes every pixel to an index of its tile's palette, in row-major
    /// order over the whole image, diffusing the error when dithering; the
    /// indices of each tile are packed four bits per pixel into 16-bit words.
    pub fn quantize_tiles(&self, tiles: &Vec<Vec<Oklab>>, palettes: &Vec<Palette>, choice: &Vec<usize>) -> (r: Vec<Vec<u16>>)
        requires
            self.config.wf(),
            tiles_fit(self.config, tiles@),
            palettes_fit(palettes@, self.config.colors_per_palette as int),
            choices_fit(self.config, palettes@, choice@),
        ensures
            r@.len() == tiles@.len(),
            forall|t: int| 0 <= t < r@.len() ==> (#[trigger] r@[t])@.len() == (self.config.tile_size() + 3) / 4,
            forall|t: int, p: int|
                0 <= t < r@.len() && 0 <= p < self.config.tile_size() ==> #[trigger] nibble(r@[t]@, p)
                    == dither_run(
                    self.config,
                    views(tiles@),
                    palette_colors(palettes@),
                    choice@,
                    self.config.pixel_count() as nat,
                ).1[self.config.raster_index(t, p)],
            forall|t: int, p: int|
                0 <= t < r@.len() && 0 <= p < self.config.tile_size() ==> #[trigger] nibble(r@[t]@, p)
                    < palettes@[choice@[t] as int].colors@.len(),
            forall|t: int, p: int|
                0 <= t < r@.len() && 0 <= p < self.config.tile_size() ==> #[trigger] nibble(r@[t]@, p)
                    < self.config.colors_per_palette,
    {
        let cfg = self.config;
        proof {
            lemma_sizes(cfg);
        }
        let ghost tv = views(tiles@);
        let ghost pc = palette_colors(palettes@);
        let width = (cfg.tilemap_width * cfg.tile_width) as usize;
        let height = (cfg.tilemap_height * cfg.tile_height) as usize;
        let n = width * height;
        let tile_count = tiles.len();
        let tile_size = (cfg.tile_width * cfg.tile_height) as usize;
        proof {
            assert(tile_count * tile_size == n);
        }
        let mut error: Vec<Oklab> = Vec::new();
        let mut i: usize = 0;
        while i < n
            invariant
                i <= n,
                n == cfg.pixel_count(),
                error@ == zero_error(cfg).take(i as int),
            decreases n - i,
        {
            error.push(Oklab::black());
            proof {
                assert(error@ =~= zero_error(cfg).take(i + 1));
            }
            i = i + 1;
        }
        proof {
            assert(error@ =~= zero_error(cfg));
        }
        let mut flat: Vec<u8> = Vec::new();
        let mut i: usize = 0;
        while i < n
            invariant
                i <= n,
                flat@.len() == i,
                forall|j: int| 0 <= j < i ==> #[trigger] flat@[j] == 0,
            decreases n - i,
        {
            flat.push(0);
            i = i + 1;
        }
        proof {
            assert forall|j: int| #![trigger flat@[j]] 0 <= j < n implies flat@[j] < palettes@[choice@[j / tile_size as int] as int].colors@.len() by {
                lemma_split_at_tile(j, tile_size as int, tile_count as int);
            }
        }
        let ghost mut run = dither_run(cfg, tv, pc, choice@, 0);
        let mut g: usize = 0;
        while g < n
            invariant
                cfg == self.config,
                cfg.wf(),
                tiles_fit(cfg, tiles@),
                tv == views(tiles@),
                pc == palette_colors(palettes@),
                palettes_fit(palettes@, cfg.colors_per_palette as int),
                choices_fit(cfg, palettes@, choice@),
                width == cfg.image_width(),
                height == cfg.image_height(),
                n == cfg.pixel_count(),
                n <= MAX_PIXELS,
                tile_count == cfg.tile_count(),
                tile_size == cfg.tile_size(),
                tile_count * tile_size == n,
                g <= n,
                run == dither_run(cfg, tv, pc, choice@, g as nat),
                error@ == run.0,
                run.1.len() == g,
                pixels_wf(error@),
                error@.len() == n,
                flat@.len() == n,
                forall|j: int| #![trigger flat@[j]] 0 <= j < n ==> flat@[j] < palettes@[choice@[j / tile_size as int] as int].colors@.len(),
                forall|h: int|
                    0 <= h < g ==> flat@[cfg.raster_tile(h) * tile_size + cfg.raster_pixel(h)]
                        == #[trigger] run.1[h],
            decreases n - g,
        {
            proof {
                lemma_raster_decompose(cfg, g as int);
            }
            let gx = g % width;
            let gy = g / width;
            let t = (gy / cfg.tile_height as usize) * cfg.tilemap_width as usize + gx / cfg.tile_width as usize;
            let p = (gy % cfg.tile_height as usize) * cfg.tile_width as usize + gx % cfg.tile_width as usize;
            proof {
                assert(t == cfg.raster_tile(g as int));
                assert(p == cfg.raster_pixel(g as int));
            }
            let colors = palettes[choice[t]].colors.as_slice();
            let original = tiles[t][p];
            let c = if cfg.dithering {
                original.add(&error[g])
            } else {
                original
            };
            let k = nearest_color_index(c, colors);
            let ghost before = flat@;
            proof {
                assert(t * tile_size + p < n) by (nonlinear_arith)
                    requires
                        t < tile_count,
                        p < tile_size,
                        tile_count * tile_size == n,
                ;
            }
            flat[t * tile_size + p] = k as u8;
            if cfg.dithering {
                let diff = c.dither_error_term(&colors[k].color, cfg.dither_factor, DIFFUSION_DIVISOR);
                apply_sierra_dithering(&mut error, &diff, gx, gy, width, height);
            }
            proof {
                let next = dither_run(cfg, tv, pc, choice@, (g + 1) as nat);
                assert(tv[t as int] == tiles@[t as int]@);
                assert(pc[choice@[t as int] as int] == colors@);
                assert(next.1 == run.1.push(k as int));
                lemma_flat_index(tile_size as int, t as int, p as int);
                assert forall|h: int|
                    0 <= h < g + 1 implies flat@[cfg.raster_tile(h) * tile_size + cfg.raster_pixel(h)]
                        == #[trigger] next.1[h] by {
                    if h < g {
                        lemma_raster_decompose(cfg, h);
                        lemma_flat_index(tile_size as int, cfg.raster_tile(h), cfg.raster_pixel(h));
                        if cfg.raster_tile(h) == t && cfg.raster_pixel(h) == p {
                            assert(h == g);
                        }
                        let idx = cfg.raster_tile(h) * tile_size + cfg.raster_pixel(h);
                        assert(idx != t * tile_size + p);
                        assert(idx < n) by (nonlinear_arith)
                            requires
                                idx == cfg.raster_tile(h) * tile_size + cfg.raster_pixel(h),
                                0 <= cfg.raster_tile(h) < tile_count,
                                0 <= cfg.raster_pixel(h) < tile_size,
                                tile_count * tile_size == n,
                        ;
                        assert(flat@[idx] == before[idx]);
                        assert(before[idx] == run.1[h]);
                        assert(next.1[h] == run.1[h]);
                    } else {
                        assert(next.1[h] == k);
                    }
                }
                assert forall|j: int| #![trigger flat@[j]] 0 <= j < n implies flat@[j] < palettes@[choice@[j / tile_size as int] as int].colors@.len() by {
                    if j == t * tile_size + p {
                        assert(j / tile_size as int == t);
                    } else {
                        assert(flat@[j] == before[j]);
                    }
                }
                run = next;
            }
            g = g + 1;
        }
        let mut result: Vec<Vec<u16>> = Vec::new();
        let mut t: usize = 0;
        while t < tile_count
            invariant
                cfg == self.config,
                cfg.wf(),
                tiles_fit(cfg, tiles@),
                tile_count == cfg.tile_count(),
                tile_size == cfg.tile_size(),
                tile_count * tile_size == n,
                n == cfg.pixel_count(),
                n <= MAX_PIXELS,
                tile_size <= MAX_PIXELS,
                flat@.len() == n,
                palettes_fit(palettes@, cfg.colors_per_palette as int),
                choices_fit(cfg, palettes@, choice@),
                forall|j: int| #![trigger flat@[j]] 0 <= j < n ==> flat@[j] < palettes@[choice@[j / tile_size as int] as int].colors@.len(),
                t <= tile_count,
                result@.len() == t,
                forall|u: int| 0 <= u < t ==> (#[trigger] result@[u])@.len() == (tile_size + 3) / 4,
                forall|u: int, q: int|
                    0 <= u < t && 0 <= q < tile_size ==> #[trigger] nibble(result@[u]@, q) == flat@[u * tile_size + q],
            decreases tile_count - t,
        {
            let mut indices: Vec<u8> = Vec::new();
            let mut q: usize = 0;
            while q < tile_size
                invariant
                    t < tile_count,
                    tile_count * tile_size == n,
                    flat@.len() == n,
                    n <= MAX_PIXELS,
                    tile_size <= MAX_PIXELS,
                    t < choice@.len(),
                    cfg.colors_per_palette <= 16,
                    palettes_fit(palettes@, cfg.colors_per_palette as int),
                    choices_fit(cfg, palettes@, choice@),
                    forall|j: int| #![trigger flat@[j]] 0 <= j < n ==> flat@[j] < palettes@[choice@[j / tile_size as int] as int].colors@.len(),
                    q <= tile_size,
                    indices@.len() == q,
                    forall|v: int| 0 <= v < q ==> #[trigger] indices@[v] == flat@[t * tile_size + v],
                    forall|v: int| 0 <= v < q ==> #[trigger] indices@[v] < 16,
                decreases tile_size - q,
            {
                proof {
                    lemma_flat_index(tile_size as int, t as int, q as int);
                    assert(t * tile_size + q < n) by (nonlinear_arith)
                        requires
                            t < tile_count,
                            q < tile_size,
                            tile_count * tile_size == n,
                    ;
                    let j = t * tile_size + q;
                    assert(flat@[j] < palettes@[choice@[j / tile_size as int] as int].colors@.len());
                    assert(palettes@[choice@[t as int] as int].colors@.len() <= cfg.colors_per_palette);
                }
                indices.push(flat[t * tile_size + q]);
                q = q + 1;
            }
            let words = pack_indices(&indices);
            result.push(words);
            t = t + 1;
        }
        proof {
            let fin = dither_run(cfg, tv, pc, choice@, n as nat);
            assert forall|u: int, q: int|
                0 <= u < result@.len() && 0 <= q < cfg.tile_size() implies #[trigger] nibble(result@[u]@, q)
                    == fin.1[cfg.raster_index(u, q)] by {
                lemma_raster_compose(cfg, u, q);
            }
            assert forall|u: int, q: int|
                0 <= u < result@.len() && 0 <= q < cfg.tile_size() implies #[trigger] nibble(result@[u]@, q)
                    < cfg.colors_per_palette by {
                lemma_flat_index(tile_size as int, u, q);
                assert(u * tile_size + q < n) by (nonlinear_arith)
                    requires
                        u < tile_count,
                        q < tile_size,
                        tile_count * tile_size == n,
                ;
                assert(palettes@[choice@[u] as int].colors@.len() <= cfg.colors_per_palette);
            }
            assert forall|u: int, q: int|
                0 <= u < result@.len() && 0 <= q < cfg.tile_size() implies #[trigger] nibble(result@[u]@, q)
                    < palettes@[choice@[u] as int].colors@.len() by {
                lemma_flat_index(tile_size as int, u, q);
                assert(u * tile_size + q < n) by (nonlinear_arith)
                    requires
                        u < tile_count,
                        q < tile_size,
                        tile_count * tile_size == n,
                ;
            }
        }
        result
    }
}

proof fn lemma_split_at_tile(j: int, size: int, count: int)
    requires
        size >= 1,
        0 <= j < count * size,
    ensures
        0 <= j / size < count,
{
    lemma_split(j, size);
    assert(j / size < count) by (nonlinear_arith)
        requires
            j == (j / size) * size + j % size,
            0 <= j % size,
            j < count * size,
            size >= 1,
    ;
}

proof fn lemma_flat_index(size: int, t: int, p: int)
    requires
        size >= 1,
        t >= 0,
        0 <= p < size,
    ensures
        (t * size + p) / size == t,
        (t * size + p) % size == p,
{
    lemma_div_mod_of(t * size + p, size, t, p);
}

/// Tiles and palette choices as `dither_run` reads them.
pub open spec fn run_inputs_fit(cfg: Config, tiles: Seq<Seq<Oklab>>, palettes: Seq<Seq<ColorFrequency>>, choice: Seq<usize>) -> bool {
    &&& tiles.len() == cfg.tile_count()
    &&& forall|t: int| 0 <= t < tiles.len() ==> (#[trigger] tiles[t]).len() == cfg.tile_size()
    &&& forall|t: int| 0 <= t < tiles.len() ==> pixels_wf(#[trigger] tiles[t])
    &&& choice.len() == cfg.tile_count()
    &&& forall|t: int| 0 <= t < choice.len() ==> (#[trigger] choice[t]) < palettes.len()
}

/// With a dither factor of zero the error accumulator stays zero through
/// the whole run, and every pixel is quantized to the nearest colour of its
/// tile's palette, as without dithering.
pub proof fn lemma_zero_dither_factor_is_nearest(
    cfg: Config,
    tiles: Seq<Seq<Oklab>>,
    palettes: Seq<Seq<ColorFrequency>>,
    choice: Seq<usize>,
    k: nat,
)
    requires
        cfg.wf(),
        cfg.dither_factor == 0,
        k <= cfg.pixel_count(),
        run_inputs_fit(cfg, tiles, palettes, choice),
    ensures
        dither_run(cfg, tiles, palettes, choice, k).0 == zero_error(cfg),
        dither_run(cfg, tiles, palettes, choice, k).1.len() == k,
        forall|g: int|
            0 <= g < k ==> #[trigger] dither_run(cfg, tiles, palettes, choice, k).1[g] == nearest(
                tiles[cfg.raster_tile(g)][cfg.raster_pixel(g)],
                palettes[choice[cfg.raster_tile(g)] as int],
            ),
    decreases k,
{
    if k > 0 {
        let prev = dither_run(cfg, tiles, palettes, choice, (k - 1) as nat);
        lemma_zero_dither_factor_is_nearest(cfg, tiles, palettes, choice, (k - 1) as nat);
        let g = k - 1;
        lemma_raster_decompose(cfg, g);
        let t = cfg.raster_tile(g);
        let p = cfg.raster_pixel(g);
        let x = tiles[t][p];
        assert(x.wf());
        assert(prev.0[g] == Oklab { l: 0, a: 0, b: 0 });
        assert(working_color(cfg, x, prev.0[g]) == x);
        let colors = palettes[choice[t] as int];
        let i = nearest(x, colors);
        let zero = Oklab { l: 0, a: 0, b: 0 };
        assert(residual(cfg, x, colors[i].color) == zero);
        let w = cfg.image_width();
        assert(diffused(prev.0, zero, g % w, g / w, w) =~= zero_error(cfg));
        let cur = dither_run(cfg, tiles, palettes, choice, k);
        assert forall|h: int| 0 <= h < k implies #[trigger] cur.1[h] == nearest(
            tiles[cfg.raster_tile(h)][cfg.raster_pixel(h)],
            palettes[choice[cfg.raster_tile(h)] as int],
        ) by {
            if h < g {
                assert(cur.1[h] == prev.1[h]);
            }
        }
    }
}

} // verus!
