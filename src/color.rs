//! Perceptual colours in fixed point, the colour-difference metric and the
//! greedy grouping of similar colours.
use vstd::prelude::*;

verus! {

/// Fixed-point units per unit of the perceptual scale.
pub const COLOR_SCALE: i32 = 65536;

/// Largest magnitude that a colour component may take.
pub const COMPONENT_LIMIT: i32 = 1048576;

/// The dither factor that stands for one whole.
pub const DITHER_FACTOR_ONE: u32 = 256;

/// Largest dither factor accepted (four wholes).
pub const DITHER_FACTOR_LIMIT: u32 = 1024;

pub open spec fn component_ok(x: int) -> bool {
    -COMPONENT_LIMIT <= x <= COMPONENT_LIMIT
}

/// `x` clamped into the component range.
pub open spec fn saturate(x: int) -> int {
    if x > COMPONENT_LIMIT {
        COMPONENT_LIMIT as int
    } else if x < -COMPONENT_LIMIT {
        -COMPONENT_LIMIT
    } else {
        x
    }
}

pub open spec fn abs(x: int) -> int {
    if x < 0 {
        -x
    } else {
        x
    }
}

/// Division that rounds toward zero.
pub open spec fn div_toward_zero(x: int, d: int) -> int {
    if x >= 0 {
        x / d
    } else {
        -((-x) / d)
    }
}

pub open spec fn is_floor_sqrt(x: nat, r: nat) -> bool {
    r * r <= x && x < (r + 1) * (r + 1)
}

/// The largest natural number whose square does not exceed `x`.
pub open spec fn floor_sqrt(x: nat) -> nat {
    choose|r: nat| is_floor_sqrt(x, r)
}

proof fn lemma_floor_sqrt_unique(x: nat, r: nat, s: nat)
    requires
        is_floor_sqrt(x, r),
        is_floor_sqrt(x, s),
    ensures
        r == s,
{
    if r < s {
        assert((r + 1) * (r + 1) <= s * s) by (nonlinear_arith)
            requires
                r + 1 <= s,
        ;
    } else if s < r {
        assert((s + 1) * (s + 1) <= r * r) by (nonlinear_arith)
            requires
                s + 1 <= r,
        ;
    }
}

proof fn lemma_floor_sqrt_is(x: nat, r: nat)
    requires
        is_floor_sqrt(x, r),
    ensures
        floor_sqrt(x) == r,
{
    let c = floor_sqrt(x);
    assert(is_floor_sqrt(x, c));
    lemma_floor_sqrt_unique(x, r, c);
}

/// Integer square root, rounded down.
pub fn isqrt(x: u64) -> (r: u64)
    requires
        x < 0x4000_0000_0000_0000,
    ensures
        r == floor_sqrt(x as nat),
        is_floor_sqrt(x as nat, r as nat),
        r < 0x8000_0000,
{
    let mut lo: u64 = 0;
    let mut hi: u64 = 0x8000_0000;
    assert(hi * hi == 0x4000_0000_0000_0000);
    while hi - lo > 1
        invariant
            lo < hi <= 0x8000_0000,
            lo * lo <= x,
            x < hi * hi,
        decreases hi - lo,
    {
        let mid: u64 = lo + (hi - lo) / 2;
        assert(mid * mid < 0x4000_0000_0000_0000) by (nonlinear_arith)
            requires
                mid < 0x8000_0000,
        ;
        if mid * mid <= x {
            lo = mid;
        } else {
            hi = mid;
        }
    }
    proof {
        assert(hi == lo + 1);
        lemma_floor_sqrt_is(x as nat, lo as nat);
    }
    lo
}

/// A perceptual colour: lightness `l` and the two opponent axes `a`, `b`, in
/// units of `1 / COLOR_SCALE`.
#[derive(Clone, Copy, Debug, PartialEq, Eq, Structural)]
pub struct Oklab {
    pub l: i32,
    pub a: i32,
    pub b: i32,
}

pub open spec fn chroma_of(c: Oklab) -> nat {
    floor_sqrt((c.a * c.a + c.b * c.b) as nat)
}

/// The colour difference: with ΔL, ΔC (difference of chromas), Δa, Δb, and
/// ΔH² = |Δa² + Δb² − ΔC²|, it is √(ΔL² + ΔC² + ΔH²), rounded down.
pub open spec fn delta_e(x: Oklab, y: Oklab) -> nat {
    let dl = x.l - y.l;
    let dc = chroma_of(x) - chroma_of(y);
    let da = x.a - y.a;
    let db = x.b - y.b;
    floor_sqrt((dl * dl + dc * dc + abs(da * da + db * db - dc * dc)) as nat)
}

/// The error term of dithering for one component difference.
pub open spec fn error_term(d: int, factor: int, divisor: int) -> int {
    div_toward_zero(d * factor, divisor * DITHER_FACTOR_ONE)
}

proof fn lemma_square_bound(x: int, m: int)
    requires
        -m <= x <= m,
    ensures
        0 <= x * x <= m * m,
{
    assert(0 <= x * x <= m * m) by (nonlinear_arith)
        requires
            -m <= x <= m,
    ;
}

impl Oklab {
    pub open spec fn wf(self) -> bool {
        component_ok(self.l as int) && component_ok(self.a as int) && component_ok(self.b as int)
    }

    /// The colour with the components given.
    pub fn new(l: i32, a: i32, b: i32) -> (r: Self)
        ensures
            r == (Oklab { l, a, b }),
    {
        Oklab { l, a, b }
    }

    /// Pure black.
    pub fn black() -> (r: Self)
        ensures
            r == (Oklab { l: 0, a: 0, b: 0 }),
            r.wf(),
    {
        Oklab { l: 0, a: 0, b: 0 }
    }

    /// The chroma √(a² + b²), rounded down.
    pub fn chroma(&self) -> (r: u32)
        requires
            self.wf(),
        ensures
            r == chroma_of(*self),
            r < 0x20_0000,
    {
        let a = self.a as i64;
        let b = self.b as i64;
        proof {
            lemma_square_bound(a as int, COMPONENT_LIMIT as int);
            lemma_square_bound(b as int, COMPONENT_LIMIT as int);
        }
        let s = (a * a + b * b) as u64;
        let r = isqrt(s);
        proof {
            let rr = r as int;
            assert(rr < 0x20_0000) by (nonlinear_arith)
                requires
                    rr * rr <= s,
                    s <= 2 * 1048576 * 1048576,
                    rr >= 0,
            ;
        }
        r as u32
    }

    /// Componentwise sum, each component clamped to the component range.
    pub fn add(&self, other: &Self) -> (r: Self)
        ensures
            r == (Oklab {
                l: saturate(self.l + other.l) as i32,
                a: saturate(self.a + other.a) as i32,
                b: saturate(self.b + other.b) as i32,
            }),
            r.wf(),
    {
        Oklab {
            l: saturate_i64(self.l as i64 + other.l as i64),
            a: saturate_i64(self.a as i64 + other.a as i64),
            b: saturate_i64(self.b as i64 + other.b as i64),
        }
    }

    /// The scaled error term of dithering: (self − other) × factor / divisor,
    /// with `factor` in units of `1 / DITHER_FACTOR_ONE`, rounded toward zero.
    pub fn dither_error_term(&self, other: &Self, factor: u32, divisor: u32) -> (r: Self)
        requires
            self.wf(),
            other.wf(),
            factor <= DITHER_FACTOR_LIMIT,
            divisor >= 8,
        ensures
            r.l == error_term(self.l - other.l, factor as int, divisor as int),
            r.a == error_term(self.a - other.a, factor as int, divisor as int),
            r.b == error_term(self.b - other.b, factor as int, divisor as int),
            r.wf(),
    {
        Oklab {
            l: scaled_difference(self.l, other.l, factor, divisor),
            a: scaled_difference(self.a, other.a, factor, divisor),
            b: scaled_difference(self.b, other.b, factor, divisor),
        }
    }

    /// Adds `diff` × `weight` to this colour, each component clamped to the
    /// component range.
    pub fn weighted_add(&mut self, diff: &Oklab, weight: u32)
        requires
            old(self).wf(),
            diff.wf(),
            weight <= 64,
        ensures
            *final(self) == (Oklab {
                l: saturate(old(self).l + diff.l * weight) as i32,
                a: saturate(old(self).a + diff.a * weight) as i32,
                b: saturate(old(self).b + diff.b * weight) as i32,
            }),
            final(self).wf(),
    {
        proof {
            assert(-64 * 1048576 <= diff.l * weight <= 64 * 1048576) by (nonlinear_arith)
                requires
                    -1048576 <= diff.l <= 1048576,
                    0 <= weight <= 64,
            ;
            assert(-64 * 1048576 <= diff.a * weight <= 64 * 1048576) by (nonlinear_arith)
                requires
                    -1048576 <= diff.a <= 1048576,
                    0 <= weight <= 64,
            ;
            assert(-64 * 1048576 <= diff.b * weight <= 64 * 1048576) by (nonlinear_arith)
                requires
                    -1048576 <= diff.b <= 1048576,
                    0 <= weight <= 64,
            ;
        }
        let w = weight as i64;
        self.l = saturate_i64(self.l as i64 + diff.l as i64 * w);
        self.a = saturate_i64(self.a as i64 + diff.a as i64 * w);
        self.b = saturate_i64(self.b as i64 + diff.b as i64 * w);
    }
}

fn saturate_i64(x: i64) -> (r: i32)
    ensures
        r == saturate(x as int),
{
    if x > COMPONENT_LIMIT as i64 {
        COMPONENT_LIMIT
    } else if x < -(COMPONENT_LIMIT as i64) {
        -COMPONENT_LIMIT
    } else {
        x as i32
    }
}

fn scaled_difference(x: i32, y: i32, factor: u32, divisor: u32) -> (r: i32)
    requires
        component_ok(x as int),
        component_ok(y as int),
        factor <= DITHER_FACTOR_LIMIT,
        divisor >= 8,
    ensures
        r == error_term(x - y, factor as int, divisor as int),
        component_ok(r as int),
{
    let d = x as i64 - y as i64;
    proof {
        assert(-2 * 1048576 * 1024 <= d * factor <= 2 * 1048576 * 1024) by (nonlinear_arith)
            requires
                -2 * 1048576 <= d <= 2 * 1048576,
                0 <= factor <= 1024,
        ;
    }
    let n = d * factor as i64;
    let q = divisor as i64 * 256;
    let r = if n >= 0 {
        n / q
    } else {
        -((-n) / q)
    };
    proof {
        let m = abs(n as int);
        assert(m / (q as int) <= m / 2048) by (nonlinear_arith)
            requires
                q >= 2048,
                m >= 0,
        ;
        assert(m / 2048 <= 1048576);
    }
    r as i32
}

/// The colour difference of `x` and `y` (see `delta_e`).
pub fn oklab_delta_e(x: Oklab, y: Oklab) -> (r: u32)
    requires
        x.wf(),
        y.wf(),
    ensures
        r == delta_e(x, y),
        r <= 0x40_0000,
{
    let c1 = x.chroma() as i64;
    let c2 = y.chroma() as i64;
    let dl = x.l as i64 - y.l as i64;
    let dc = c1 - c2;
    let da = x.a as i64 - y.a as i64;
    let db = x.b as i64 - y.b as i64;
    proof {
        lemma_square_bound(dl as int, 2097152int);
        lemma_square_bound(dc as int, 0x20_0000int);
        lemma_square_bound(da as int, 2097152int);
        lemma_square_bound(db as int, 2097152int);
    }
    let h = da * da + db * db - dc * dc;
    let h_abs = if h < 0 {
        -h
    } else {
        h
    };
    let s = (dl * dl + dc * dc + h_abs) as u64;
    let r = isqrt(s);
    proof {
        let rr = r as int;
        assert(rr <= 0x40_0000) by (nonlinear_arith)
            requires
                rr * rr <= s,
                s <= 16 * 1048576 * 1048576,
                rr >= 0,
        ;
    }
    r as u32
}

/// A colour and the number of pixels that it stands for.
#[derive(Clone, Copy, Debug, PartialEq, Eq, Structural)]
pub struct ColorFrequency {
    pub color: Oklab,
    pub frequency: usize,
}

impl ColorFrequency {
    pub fn new(color: Oklab, frequency: usize) -> (r: Self)
        ensures
            r == (ColorFrequency { color, frequency }),
    {
        ColorFrequency { color, frequency }
    }

}

impl Default for ColorFrequency {
    /// Black, standing for no pixel.
    fn default() -> (r: Self)
        ensures
            r == (ColorFrequency { color: Oklab { l: 0, a: 0, b: 0 }, frequency: 0 }),
    {
        ColorFrequency { color: Oklab::black(), frequency: 0 }
    }
}

pub open spec fn colors_wf(s: Seq<ColorFrequency>) -> bool {
    forall|i: int| 0 <= i < s.len() ==> (#[trigger] s[i]).color.wf()
}

pub open spec fn pixels_wf(s: Seq<Oklab>) -> bool {
    forall|i: int| 0 <= i < s.len() ==> (#[trigger] s[i]).wf()
}

pub open spec fn similar(x: Oklab, y: Oklab, threshold: nat) -> bool {
    delta_e(x, y) < threshold
}

/// `i` is the first entry of `colors` whose colour lies under `threshold`
/// of `c`.
pub open spec fn is_first_similar(colors: Seq<ColorFrequency>, c: Oklab, threshold: nat, i: int) -> bool {
    &&& 0 <= i < colors.len()
    &&& similar(c, colors[i].color, threshold)
    &&& forall|j: int| 0 <= j < i ==> !similar(c, #[trigger] colors[j].color, threshold)
}

/// One pixel merged into the candidate list: it counts toward the first
/// similar candidate, or else becomes a new candidate of frequency one.
pub open spec fn merge_color(colors: Seq<ColorFrequency>, c: Oklab, threshold: nat) -> Seq<ColorFrequency> {
    if exists|i: int| is_first_similar(colors, c, threshold, i) {
        let i = choose|i: int| is_first_similar(colors, c, threshold, i);
        colors.update(
            i,
            ColorFrequency { color: colors[i].color, frequency: (colors[i].frequency + 1) as usize },
        )
    } else {
        colors.push(ColorFrequency { color: c, frequency: 1 })
    }
}

/// The candidate list after merging every pixel of `pixels`, in order.
pub open spec fn extracted(colors: Seq<ColorFrequency>, pixels: Seq<Oklab>, threshold: nat) -> Seq<ColorFrequency>
    decreases pixels.len(),
{
    if pixels.len() == 0 {
        colors
    } else {
        merge_color(extracted(colors, pixels.drop_last(), threshold), pixels.last(), threshold)
    }
}

/// The sum of the frequencies.
pub open spec fn total_frequency(s: Seq<ColorFrequency>) -> nat
    decreases s.len(),
{
    if s.len() == 0 {
        0
    } else {
        total_frequency(s.drop_last()) + s.last().frequency as nat
    }
}

/// The first entry of `palette` whose colour lies under `threshold` of
/// `color`, if any.
pub fn find_similar_color(color: Oklab, palette: &[ColorFrequency], threshold: u32) -> (r: Option<usize>)
    requires
        color.wf(),
        colors_wf(palette@),
    ensures
        match r {
            Some(i) => is_first_similar(palette@, color, threshold as nat, i as int),
            None => forall|j: int| 0 <= j < palette@.len() ==> !similar(color, #[trigger] palette@[j].color, threshold as nat),
        },
{
    let mut i: usize = 0;
    while i < palette.len()
        invariant
            i <= palette@.len(),
            color.wf(),
            colors_wf(palette@),
            forall|j: int| 0 <= j < i ==> !similar(color, #[trigger] palette@[j].color, threshold as nat),
        decreases palette@.len() - i,
    {
        let d = oklab_delta_e(color, palette[i].color);
        if d < threshold {
            return Some(i);
        }
        i = i + 1;
    }
    None
}

proof fn lemma_first_similar_unique(colors: Seq<ColorFrequency>, c: Oklab, threshold: nat, i: int, k: int)
    requires
        is_first_similar(colors, c, threshold, i),
        is_first_similar(colors, c, threshold, k),
    ensures
        i == k,
{
    if i < k {
        assert(!similar(c, colors[i].color, threshold));
    } else if k < i {
        assert(!similar(c, colors[k].color, threshold));
    }
}

/// Merges every pixel of `tile`, in order, into the candidate list `colors`:
/// a pixel counts toward the first candidate under `threshold` of it, or
/// else becomes a new candidate of frequency one.
pub fn extract_colors(tile: &[Oklab], threshold: u32, colors: &mut Vec<ColorFrequency>)
    requires
        pixels_wf(tile@),
        colors_wf(old(colors)@),
        forall|k: int| 0 <= k < old(colors)@.len() ==> #[trigger] old(colors)@[k].frequency + tile@.len() <= usize::MAX,
    ensures
        final(colors)@ == extracted(old(colors)@, tile@, threshold as nat),
        colors_wf(final(colors)@),
{
    let ghost start = colors@;
    let mut i: usize = 0;
    while i < tile.len()
        invariant
            i <= tile@.len(),
            pixels_wf(tile@),
            colors_wf(colors@),
            colors@ == extracted(start, tile@.take(i as int), threshold as nat),
            forall|k: int| 0 <= k < colors@.len() ==> #[trigger] colors@[k].frequency + (tile@.len() - i) <= usize::MAX,
        decreases tile@.len() - i,
    {
        let pixel = tile[i];
        let ghost before = colors@;
        match find_similar_color(pixel, colors.as_slice(), threshold) {
            Some(k) => {
                let item = colors[k];
                colors[k] = ColorFrequency { color: item.color, frequency: item.frequency + 1 };
                proof {
                    let c = choose|j: int| is_first_similar(before, pixel, threshold as nat, j);
                    lemma_first_similar_unique(before, pixel, threshold as nat, k as int, c);
                }
            },
            None => {
                colors.push(ColorFrequency { color: pixel, frequency: 1 });
                proof {
                    if exists|j: int| is_first_similar(before, pixel, threshold as nat, j) {
                        let j = choose|j: int| is_first_similar(before, pixel, threshold as nat, j);
                        assert(!similar(pixel, before[j].color, threshold as nat));
                    }
                }
            },
        }
        proof {
            assert(tile@.take(i + 1).drop_last() =~= tile@.take(i as int));
            assert(tile@.take(i + 1).last() == pixel);
        }
        i = i + 1;
    }
    proof {
        assert(tile@.take(i as int) =~= tile@);
    }
}

/// Colour `i` of a feature vector laid out in three planes (all L, then all
/// a, then all b).
pub open spec fn planar_color(v: Seq<i32>, i: int) -> Oklab {
    let n = v.len() / 3;
    Oklab { l: v[i], a: v[n + i], b: v[2 * n + i] }
}

/// The summed colour difference of the first `k` colours of two planar
/// feature vectors.
pub open spec fn planar_distance(x: Seq<i32>, y: Seq<i32>, k: int) -> nat
    decreases k,
{
    if k <= 0 {
        0
    } else {
        planar_distance(x, y, k - 1) + delta_e(planar_color(x, k - 1), planar_color(y, k - 1))
    }
}

/// Feature vectors of well-formed colours in three planes.
pub open spec fn planar_wf(v: Seq<i32>) -> bool {
    &&& v.len() % 3 == 0
    &&& forall|i: int| 0 <= i < v.len() ==> component_ok(#[trigger] v[i] as int)
}

/// The distance of the clustering: the sum of the colour differences of the
/// colours of two feature vectors in planar layout.
pub struct OklabDistance;

impl OklabDistance {
    /// The sum over the colours of `a` and `b` of their colour difference.
    pub fn distance(&self, a: &[i32], b: &[i32]) -> (r: u64)
        requires
            a@.len() == b@.len(),
            a@.len() <= 0x3000_0000,
            planar_wf(a@),
            planar_wf(b@),
        ensures
            r == planar_distance(a@, b@, (a@.len() / 3) as int),
    {
        let n = a.len() / 3;
        let mut sum: u64 = 0;
        let mut i: usize = 0;
        while i < n
            invariant
                n == a@.len() / 3,
                a@.len() == b@.len(),
                a@.len() <= 0x3000_0000,
                planar_wf(a@),
                planar_wf(b@),
                i <= n,
                sum == planar_distance(a@, b@, i as int),
                sum <= i * 0x40_0000,
            decreases n - i,
        {
            let x = Oklab { l: a[i], a: a[n + i], b: a[2 * n + i] };
            let y = Oklab { l: b[i], a: b[n + i], b: b[2 * n + i] };
            let d = oklab_delta_e(x, y);
            sum = sum + d as u64;
            i = i + 1;
        }
        sum
    }
}

} // verus!
