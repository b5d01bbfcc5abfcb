//! Quality of a conversion: perceptual differences per pixel and their
//! distribution, and the squared error of each RGB channel.
use vstd::prelude::*;
use crate::color::{Oklab, pixels_wf, delta_e, oklab_delta_e};
use crate::order::{is_index_permutation, stable_order};
use crate::tiling::MAX_PIXELS;

verus! {

/// The perceptual difference of each rendered pixel from the original one.
pub fn pixel_deltas(original: &Vec<Oklab>, rendered: &Vec<Oklab>) -> (r: Vec<u32>)
    requires
        original@.len() == rendered@.len(),
        pixels_wf(original@),
        pixels_wf(rendered@),
    ensures
        r@.len() == original@.len(),
        forall|i: int| 0 <= i < r@.len() ==> #[trigger] r@[i] == delta_e(rendered@[i], original@[i]),
{
    let mut out: Vec<u32> = Vec::new();
    let mut i: usize = 0;
    while i < original.len()
        invariant
            original@.len() == rendered@.len(),
            pixels_wf(original@),
            pixels_wf(rendered@),
            i <= original@.len(),
            out@.len() == i,
            forall|j: int| 0 <= j < i ==> #[trigger] out@[j] == delta_e(rendered@[j], original@[j]),
        decreases original@.len() - i,
    {
        out.push(oklab_delta_e(rendered[i], original[i]));
        i = i + 1;
    }
    out
}

/// Summary of the per-pixel differences.
#[derive(Clone, Copy, Debug, PartialEq, Eq, Structural)]
pub struct DeltaStats {
    pub min: u32,
    pub mean: u32,
    pub median: u32,
    pub p75: u32,
    pub p90: u32,
    pub p95: u32,
    pub p99: u32,
    pub max: u32,
}

pub open spec fn sum_of(s: Seq<u32>) -> nat
    decreases s.len(),
{
    if s.len() == 0 {
        0
    } else {
        sum_of(s.drop_last()) + s.last() as nat
    }
}

/// Position of the `q`-th percentile in a sorted list of `n` values.
pub open spec fn percentile_index(n: int, q: int) -> int {
    if n * q / 100 < n - 1 {
        n * q / 100
    } else {
        n - 1
    }
}

/// `s` lists `values` in ascending order.
pub open spec fn is_ascending_arrangement(values: Seq<u32>, s: Seq<u32>) -> bool {
    exists|p: Seq<usize>|
        {
            &&& is_index_permutation(p, values.len())
            &&& s.len() == values.len()
            &&& (forall|i: int| 0 <= i < s.len() ==> #[trigger] s[i] == values[p[i] as int])
            &&& forall|i: int, j: int| 0 <= i < j < s.len() ==> s[i] <= s[j]
        }
}

/// The statistics of `values` read from their ascending arrangement `s`.
pub open spec fn stats_of(values: Seq<u32>, s: Seq<u32>) -> DeltaStats {
    let n = values.len() as int;
    DeltaStats {
        min: s[0],
        mean: (sum_of(values) / (n as nat)) as u32,
        median: s[n / 2],
        p75: s[percentile_index(n, 75)],
        p90: s[percentile_index(n, 90)],
        p95: s[percentile_index(n, 95)],
        p99: s[percentile_index(n, 99)],
        max: s[n - 1],
    }
}

fn percentile_at(n: usize, q: usize) -> (r: usize)
    requires
        1 <= n <= MAX_PIXELS,
        q <= 100,
    ensures
        r == percentile_index(n as int, q as int),
        r < n,
{
    proof {
        assert(n * q <= 100 * MAX_PIXELS) by (nonlinear_arith)
            requires
                n <= MAX_PIXELS,
                q <= 100,
        ;
        assert(n * q / 100 <= n) by (nonlinear_arith)
            requires
                q <= 100,
                n >= 0,
        ;
    }
    let k = (n as u64 * q as u64 / 100) as usize;
    if k < n - 1 {
        k
    } else {
        n - 1
    }
}

/// Minimum, mean (rounded down), median, 75th, 90th, 95th and 99th
/// percentiles and maximum of `values`.
pub fn delta_statistics(values: &Vec<u32>) -> (r: DeltaStats)
    requires
        1 <= values@.len() <= MAX_PIXELS,
    ensures
        exists|s: Seq<u32>| is_ascending_arrangement(values@, s) && r == stats_of(values@, s),
{
    let n = values.len();
    let mut keys: Vec<i64> = Vec::new();
    let mut sum: u64 = 0;
    let mut i: usize = 0;
    while i < n
        invariant
            n == values@.len(),
            n <= MAX_PIXELS,
            i <= n,
            keys@.len() == i,
            forall|j: int| 0 <= j < i ==> #[trigger] keys@[j] == values@[j] as i64,
            sum == sum_of(values@.take(i as int)),
            sum <= i * 0xffff_ffff,
        decreases n - i,
    {
        keys.push(values[i] as i64);
        proof {
            assert(values@.take(i + 1).drop_last() =~= values@.take(i as int));
        }
        sum = sum + values[i] as u64;
        i = i + 1;
    }
    proof {
        assert(values@.take(i as int) =~= values@);
    }
    let p = stable_order(&keys);
    let mut sorted: Vec<u32> = Vec::new();
    let mut i: usize = 0;
    while i < n
        invariant
            n == values@.len(),
            is_index_permutation(p@, n as nat),
            crate::order::stably_sorted_by(keys@, p@),
            keys@.len() == n,
            forall|j: int| 0 <= j < n ==> #[trigger] keys@[j] == values@[j] as i64,
            i <= n,
            sorted@.len() == i,
            forall|j: int| 0 <= j < i ==> #[trigger] sorted@[j] == values@[p@[j] as int],
        decreases n - i,
    {
        sorted.push(values[p[i]]);
        i = i + 1;
    }
    proof {
        assert forall|a: int, b: int| 0 <= a < b < sorted@.len() implies sorted@[a] <= sorted@[b] by {
            assert(keys@[p@[a] as int] <= keys@[p@[b] as int]);
        }
        assert(is_ascending_arrangement(values@, sorted@));
    }
    let mean = (sum / n as u64) as u32;
    proof {
        assert((sum as int) / (n as int) <= 0xffff_ffff) by (nonlinear_arith)
            requires
                sum <= n * 0xffff_ffff,
                n >= 1,
        ;
    }
    let r = DeltaStats {
        min: sorted[0],
        mean,
        median: sorted[n / 2],
        p75: sorted[percentile_at(n, 75)],
        p90: sorted[percentile_at(n, 90)],
        p95: sorted[percentile_at(n, 95)],
        p99: sorted[percentile_at(n, 99)],
        max: sorted[n - 1],
    };
    proof {
        assert(r == stats_of(values@, sorted@));
    }
    r
}

/// The summed squared difference of channel `c` over the first `n` pixels of
/// two images of interleaved RGB bytes.
pub open spec fn channel_error(a: Seq<u8>, b: Seq<u8>, c: int, n: int) -> nat
    decreases n,
{
    if n <= 0 {
        0
    } else {
        let d = a[3 * (n - 1) + c] - b[3 * (n - 1) + c];
        channel_error(a, b, c, n - 1) + (d * d) as nat
    }
}

/// Squared error of each RGB channel between two images, from which the
/// peak signal-to-noise ratio follows.
#[derive(Clone, Copy, Debug, PartialEq, Eq, Structural)]
pub struct QualityReport {
    pub red_squared_error: u64,
    pub green_squared_error: u64,
    pub blue_squared_error: u64,
    pub pixel_count: usize,
}

impl QualityReport {
    pub open spec fn is_lossless_spec(self) -> bool {
        self.red_squared_error == 0 && self.green_squared_error == 0 && self.blue_squared_error == 0
    }

    /// Whether the images agree on every channel, so that the signal-to-noise
    /// ratio is infinite.
    pub fn is_lossless(&self) -> (r: bool)
        ensures
            r == self.is_lossless_spec(),
    {
        self.red_squared_error == 0 && self.green_squared_error == 0 && self.blue_squared_error == 0
    }
}

/// The squared error of each channel between `original` and `rendered`,
/// both interleaved RGB bytes.
pub fn quality_report(original: &Vec<u8>, rendered: &Vec<u8>) -> (r: QualityReport)
    requires
        original@.len() == rendered@.len(),
        original@.len() % 3 == 0,
        original@.len() <= 3 * MAX_PIXELS,
    ensures
        r.pixel_count == original@.len() / 3,
        r.red_squared_error == channel_error(original@, rendered@, 0, (original@.len() / 3) as int),
        r.green_squared_error == channel_error(original@, rendered@, 1, (original@.len() / 3) as int),
        r.blue_squared_error == channel_error(original@, rendered@, 2, (original@.len() / 3) as int),
        original@ == rendered@ ==> r.is_lossless_spec(),
{
    let n = original.len() / 3;
    let mut red: u64 = 0;
    let mut green: u64 = 0;
    let mut blue: u64 = 0;
    let mut i: usize = 0;
    while i < n
        invariant
            n == original@.len() / 3,
            original@.len() == rendered@.len(),
            original@.len() % 3 == 0,
            n <= MAX_PIXELS,
            i <= n,
            red == channel_error(original@, rendered@, 0, i as int),
            green == channel_error(original@, rendered@, 1, i as int),
            blue == channel_error(original@, rendered@, 2, i as int),
            red <= i * 65025,
            green <= i * 65025,
            blue <= i * 65025,
        decreases n - i,
    {
        let dr = original[3 * i] as i64 - rendered[3 * i] as i64;
        let dg = original[3 * i + 1] as i64 - rendered[3 * i + 1] as i64;
        let db = original[3 * i + 2] as i64 - rendered[3 * i + 2] as i64;
        proof {
            assert(dr * dr <= 65025) by (nonlinear_arith)
                requires
                    -255 <= dr <= 255,
            ;
            assert(dg * dg <= 65025) by (nonlinear_arith)
                requires
                    -255 <= dg <= 255,
            ;
            assert(db * db <= 65025) by (nonlinear_arith)
                requires
                    -255 <= db <= 255,
            ;
            assert(0 <= dr * dr && 0 <= dg * dg && 0 <= db * db) by (nonlinear_arith);
        }
        red = red + (dr * dr) as u64;
        green = green + (dg * dg) as u64;
        blue = blue + (db * db) as u64;
        i = i + 1;
    }
    proof {
        if original@ == rendered@ {
            lemma_identical_images_are_lossless(original@, n as int);
        }
    }
    QualityReport { red_squared_error: red, green_squared_error: green, blue_squared_error: blue, pixel_count: n }
}

/// An image compared with itself has no error in any channel, so its
/// signal-to-noise ratio is infinite.
pub proof fn lemma_identical_images_are_lossless(image: Seq<u8>, n: int)
    ensures
        channel_error(image, image, 0, n) == 0,
        channel_error(image, image, 1, n) == 0,
        channel_error(image, image, 2, n) == 0,
    decreases n,
{
    if n > 0 {
        lemma_identical_images_are_lossless(image, n - 1);
    }
}

} // verus!
