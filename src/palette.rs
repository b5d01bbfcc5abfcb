//! Palettes: grouping the colours of each tile cluster, reducing them to the
//! palette size, and ordering them.
use vstd::prelude::*;
use crate::color::{
    Oklab, ColorFrequency, colors_wf, pixels_wf, extracted, extract_colors, total_frequency,
    div_toward_zero,
};
use crate::order::{is_index_permutation, stably_sorted_by, stable_order};
use crate::tiling::{ConvertError, ImageConverter, tiles_fit, views, lemma_sizes, MAX_PIXELS};

verus! {

/// The colours of one palette, with the number of pixels each stands for.
#[derive(Clone, Debug)]
pub struct Palette {
    pub colors: Vec<ColorFrequency>,
}

/// Palettes whose colours are well-formed and at most `limit` in number.
pub open spec fn palettes_fit(palettes: Seq<Palette>, limit: int) -> bool {
    forall|i: int|
        0 <= i < palettes.len() ==> {
            &&& colors_wf((#[trigger] palettes[i]).colors@)
            &&& palettes[i].colors@.len() <= limit
        }
}

/// One unit of the hue fraction.
pub const HUE_UNIT: i64 = 0x1_0000_0000;

/// The quarter (or the negative axis) in which the hue angle of `c` lies, in
/// ascending order of angle over (−π, π]: 0 for (−π, −π/2), 1 for [−π/2, 0),
/// 2 for [0, π/2), 3 for [π/2, π), 4 for π.
pub open spec fn hue_class(c: Oklab) -> int {
    if c.b < 0 {
        if c.a < 0 {
            0
        } else {
            1
        }
    } else if c.b == 0 && c.a < 0 {
        4
    } else if c.b > 0 && c.a <= 0 {
        3
    } else {
        2
    }
}

/// Numerator and denominator of the position of `c` within its class: a
/// fraction in [0, 1) that grows with the angle.
pub open spec fn hue_fraction(c: Oklab) -> (int, int) {
    let k = hue_class(c);
    if k == 0 {
        (-c.b as int, -c.a - c.b)
    } else if k == 1 {
        (c.a as int, c.a - c.b)
    } else if k == 2 {
        (c.b as int, c.a + c.b)
    } else if k == 3 {
        (-c.a as int, c.b - c.a)
    } else {
        (0, 1)
    }
}

/// An integer key that orders colours by hue angle over (−π, π].
pub open spec fn hue_key_of(c: Oklab) -> int {
    let (num, den) = hue_fraction(c);
    hue_class(c) * HUE_UNIT + if den == 0 {
        0
    } else {
        (num * HUE_UNIT) / den
    }
}

/// The hue key of a colour (see `hue_key_of`).
pub fn hue_key(c: &Oklab) -> (r: i64)
    requires
        c.wf(),
    ensures
        r == hue_key_of(*c),
{
    let a = c.a as i64;
    let b = c.b as i64;
    let (class, num, den): (i64, i64, i64) = if b < 0 {
        if a < 0 {
            (0, -b, -a - b)
        } else {
            (1, a, a - b)
        }
    } else if b == 0 && a < 0 {
        (4, 0, 1)
    } else if b > 0 && a <= 0 {
        (3, -a, b - a)
    } else {
        (2, b, a + b)
    };
    let frac = if den == 0 {
        0
    } else {
        proof {
            assert(0 <= num * HUE_UNIT <= 0x10_0000 * HUE_UNIT) by (nonlinear_arith)
                requires
                    0 <= num <= 0x10_0000,
            ;
        }
        (num * HUE_UNIT) / den
    };
    proof {
        if den != 0 {
            assert(((num * HUE_UNIT) as int) / (den as int) <= num * HUE_UNIT) by (nonlinear_arith)
                requires
                    den >= 1,
                    num >= 0,
            ;
        }
    }
    class * HUE_UNIT + frac
}

/// The hue keys of the pixels of a tile.
pub open spec fn hue_keys(tile: Seq<Oklab>) -> Seq<i64> {
    tile.map_values(|c: Oklab| hue_key_of(c) as i64)
}

/// `sorted` is `tile` stably sorted by hue key.
pub open spec fn is_hue_sorting(tile: Seq<Oklab>, sorted: Seq<Oklab>) -> bool {
    exists|p: Seq<usize>|
        {
            &&& is_index_permutation(p, tile.len())
            &&& stably_sorted_by(hue_keys(tile), p)
            &&& sorted.len() == tile.len()
            &&& forall|i: int| 0 <= i < tile.len() ==> #[trigger] sorted[i] == tile[p[i] as int]
        }
}

/// Component `plane` (0: L, 1: a, 2: b) of `c`.
pub open spec fn component(c: Oklab, plane: int) -> int {
    if plane == 0 {
        c.l as int
    } else if plane == 1 {
        c.a as int
    } else {
        c.b as int
    }
}

/// Entry `j` of the rotation features of `s`: for each plane, for each
/// rotation `offset`, the plane's components of `s` rotated by `offset`.
pub open spec fn rotation_feature(s: Seq<Oklab>, j: int) -> int {
    let n = s.len() as int;
    let plane = j / (n * n);
    let offset = (j % (n * n)) / n;
    let i = j % n;
    component(s[(i + offset) % n], plane)
}

/// Largest tile accepted by the feature builders.
pub const MAX_FEATURE_TILE: usize = 4096;

fn component_of(c: &Oklab, plane: usize) -> (r: i32)
    requires
        plane < 3,
    ensures
        r == component(*c, plane as int),
{
    if plane == 0 {
        c.l
    } else if plane == 1 {
        c.a
    } else {
        c.b
    }
}

/// The tile's pixels sorted by hue angle, stably.
pub fn hue_sorted(tile: &Vec<Oklab>) -> (r: Vec<Oklab>)
    requires
        pixels_wf(tile@),
    ensures
        is_hue_sorting(tile@, r@),
        pixels_wf(r@),
{
    let mut keys: Vec<i64> = Vec::new();
    let mut i: usize = 0;
    while i < tile.len()
        invariant
            i <= tile@.len(),
            pixels_wf(tile@),
            keys@ == hue_keys(tile@).take(i as int),
        decreases tile@.len() - i,
    {
        let k = hue_key(&tile[i]);
        keys.push(k);
        proof {
            assert(keys@ =~= hue_keys(tile@).take(i + 1));
        }
        i = i + 1;
    }
    proof {
        assert(keys@ =~= hue_keys(tile@));
    }
    let p = stable_order(&keys);
    let mut sorted: Vec<Oklab> = Vec::new();
    let mut i: usize = 0;
    while i < p.len()
        invariant
            i <= p@.len(),
            is_index_permutation(p@, tile@.len()),
            pixels_wf(tile@),
            sorted@.len() == i,
            forall|j: int| 0 <= j < i ==> #[trigger] sorted@[j] == tile@[p@[j] as int],
        decreases p@.len() - i,
    {
        sorted.push(tile[p[i]]);
        i = i + 1;
    }
    proof {
        assert(is_hue_sorting(tile@, sorted@));
    }
    sorted
}

/// The clustering features of a tile: its pixels sorted by hue, then, plane
/// by plane (L, a, b), every rotation of that sorted sequence.
pub fn palette_feature_vector(tile: &Vec<Oklab>) -> (r: Vec<i32>)
    requires
        pixels_wf(tile@),
        1 <= tile@.len() <= MAX_FEATURE_TILE,
    ensures
        r@.len() == 3 * tile@.len() * tile@.len(),
        exists|s: Seq<Oklab>|
            is_hue_sorting(tile@, s) && forall|j: int| 0 <= j < r@.len() ==> #[trigger] r@[j] == rotation_feature(s, j),
{
    let sorted = hue_sorted(tile);
    let n = sorted.len();
    proof {
        assert(n * n <= MAX_FEATURE_TILE * MAX_FEATURE_TILE) by (nonlinear_arith)
            requires
                1 <= n <= MAX_FEATURE_TILE,
        ;
    }
    let mut features: Vec<i32> = Vec::new();
    let mut plane: usize = 0;
    while plane < 3
        invariant
            1 <= n <= MAX_FEATURE_TILE,
            n * n <= MAX_FEATURE_TILE * MAX_FEATURE_TILE,
            n == sorted@.len(),
            plane <= 3,
            features@.len() == plane * n * n,
            forall|j: int| 0 <= j < features@.len() ==> #[trigger] features@[j] == rotation_feature(sorted@, j),
        decreases 3 - plane,
    {
        let mut offset: usize = 0;
        while offset < n
            invariant
                1 <= n <= MAX_FEATURE_TILE,
                n * n <= MAX_FEATURE_TILE * MAX_FEATURE_TILE,
                n == sorted@.len(),
                plane < 3,
                offset <= n,
                features@.len() == plane * n * n + offset * n,
                forall|j: int| 0 <= j < features@.len() ==> #[trigger] features@[j] == rotation_feature(sorted@, j),
            decreases n - offset,
        {
            let mut i: usize = 0;
            while i < n
                invariant
                    1 <= n <= MAX_FEATURE_TILE,
                    n * n <= MAX_FEATURE_TILE * MAX_FEATURE_TILE,
                    n == sorted@.len(),
                    plane < 3,
                    offset < n,
                    i <= n,
                    features@.len() == plane * n * n + offset * n + i,
                    forall|j: int| 0 <= j < features@.len() ==> #[trigger] features@[j] == rotation_feature(sorted@, j),
                decreases n - i,
            {
                let v = component_of(&sorted[(i + offset) % n], plane);
                proof {
                    let j = plane * n * n + offset * n + i;
                    let nn = (n * n) as int;
                    assert(j == plane * nn + (offset * n + i)) by (nonlinear_arith)
                        requires
                            j == plane * n * n + offset * n + i,
                            nn == n * n,
                    ;
                    assert(0 <= offset * n + i < nn) by (nonlinear_arith)
                        requires
                            offset < n,
                            i < n,
                            nn == n * n,
                    ;
                    vstd::arithmetic::div_mod::lemma_fundamental_div_mod_converse(j, nn, plane as int, offset * n + i);
                    vstd::arithmetic::div_mod::lemma_fundamental_div_mod_converse(offset * n + i, n as int, offset as int, i as int);
                    assert(j == (plane * n + offset) * n + i) by (nonlinear_arith)
                        requires
                            j == plane * n * n + offset * n + i,
                    ;
                    vstd::arithmetic::div_mod::lemma_fundamental_div_mod_converse(j, n as int, plane * n + offset, i as int);
                    assert(rotation_feature(sorted@, j) == v);
                }
                features.push(v);
                proof {
                    assert(n * n + n * n + n * n <= 3 * MAX_FEATURE_TILE * MAX_FEATURE_TILE);
                }
                i = i + 1;
            }
            proof {
                assert(plane * n * n + offset * n + n == plane * n * n + (offset + 1) * n) by (nonlinear_arith);
            }
            offset = offset + 1;
        }
        proof {
            assert(plane * n * n + n * n == (plane + 1) * n * n) by (nonlinear_arith);
        }
        plane = plane + 1;
    }
    features
}

/// `clusters` gives each of `count` items a cluster below `k`.
pub open spec fn clusters_fit(clusters: Seq<usize>, count: int, k: int) -> bool {
    clusters.len() == count && forall|i: int| 0 <= i < count ==> #[trigger] clusters[i] < k
}

/// Item `i` is the first whose cluster is not below `k`.
pub open spec fn first_out_of_range(clusters: Seq<usize>, k: int, i: int) -> bool {
    &&& 0 <= i < clusters.len()
    &&& clusters[i] >= k
    &&& forall|j: int| 0 <= j < i ==> #[trigger] clusters[j] < k
}

/// Checks a clustering of `count` items into `k` clusters.
pub fn check_assignments(clusters: &Vec<usize>, count: usize, k: usize) -> (r: Result<(), ConvertError>)
    ensures
        r is Ok <==> clusters_fit(clusters@, count as int, k as int),
        (r == Err::<(), ConvertError>(
            ConvertError::AssignmentCountMismatch { expected: count, found: clusters@.len() as usize },
        )) <==> clusters@.len() != count,
        match r {
            Err(ConvertError::ClusterOutOfRange { item, cluster }) => clusters@.len() == count
                && first_out_of_range(clusters@, k as int, item as int) && cluster == clusters@[item as int],
            Err(ConvertError::AssignmentCountMismatch { .. }) => true,
            Err(_) => false,
            Ok(_) => true,
        },
        r matches Err(e) ==> check_assignments_error(clusters@, count as int, k as int, e),
{
    if clusters.len() != count {
        return Err(ConvertError::AssignmentCountMismatch { expected: count, found: clusters.len() });
    }
    let mut i: usize = 0;
    while i < count
        invariant
            clusters@.len() == count,
            i <= count,
            forall|j: int| 0 <= j < i ==> #[trigger] clusters@[j] < k,
        decreases count - i,
    {
        if clusters[i] >= k {
            let e = ConvertError::ClusterOutOfRange { item: i, cluster: clusters[i] };
            proof {
                assert(first_out_of_range(clusters@, k as int, i as int));
            }
            return Err(e);
        }
        i = i + 1;
    }
    Ok(())
}

/// The candidate colours of cluster `k` after the first `n` tiles: the
/// pixels of the cluster's tiles, in tile order, merged under `threshold`.
pub open spec fn cluster_candidates(
    tiles: Seq<Seq<Oklab>>,
    clusters: Seq<usize>,
    k: int,
    threshold: nat,
    n: int,
) -> Seq<ColorFrequency>
    decreases n,
{
    if n <= 0 {
        Seq::empty()
    } else {
        let prev = cluster_candidates(tiles, clusters, k, threshold, n - 1);
        if clusters[n - 1] == k {
            extracted(prev, tiles[n - 1], threshold)
        } else {
            prev
        }
    }
}

pub open spec fn frequencies_at_most(s: Seq<ColorFrequency>, f: int) -> bool {
    forall|i: int| 0 <= i < s.len() ==> (#[trigger] s[i]).frequency <= f
}

proof fn lemma_extracted_frequencies(colors: Seq<ColorFrequency>, pixels: Seq<Oklab>, threshold: nat, f: int)
    requires
        frequencies_at_most(colors, f),
        f + pixels.len() <= usize::MAX,
        f >= 0,
    ensures
        frequencies_at_most(extracted(colors, pixels, threshold), f + pixels.len()),
    decreases pixels.len(),
{
    if pixels.len() > 0 {
        let prev = extracted(colors, pixels.drop_last(), threshold);
        lemma_extracted_frequencies(colors, pixels.drop_last(), threshold, f);
        let c = pixels.last();
        if exists|i: int| crate::color::is_first_similar(prev, c, threshold, i) {
            let i = choose|i: int| crate::color::is_first_similar(prev, c, threshold, i);
            assert(prev[i].frequency <= f + pixels.len() - 1);
        }
    }
}

/// The palette colours of a clustering, before reduction.
pub open spec fn collected(tiles: Seq<Seq<Oklab>>, clusters: Seq<usize>, k: int, threshold: nat) -> Seq<Seq<ColorFrequency>> {
    Seq::new(k as nat, |j: int| cluster_candidates(tiles, clusters, j, threshold, tiles.len() as int))
}

/// Lists of well-formed colours whose frequencies stay under the pixel count.
pub open spec fn candidate_lists_fit(lists: Seq<Vec<ColorFrequency>>) -> bool {
    forall|i: int|
        0 <= i < lists.len() ==> {
            &&& colors_wf((#[trigger] lists[i])@)
            &&& total_frequency(lists[i]@) <= MAX_PIXELS
        }
}

pub open spec fn list_views(lists: Seq<Vec<ColorFrequency>>) -> Seq<Seq<ColorFrequency>> {
    lists.map_values(|v: Vec<ColorFrequency>| v@)
}

proof fn lemma_total_frequency_take(s: Seq<ColorFrequency>, i: int)
    requires
        0 <= i < s.len(),
    ensures
        total_frequency(s.take(i + 1)) == total_frequency(s.take(i)) + s[i].frequency,
{
    assert(s.take(i + 1).drop_last() =~= s.take(i));
}

proof fn lemma_total_frequency_prefix(s: Seq<ColorFrequency>, i: int)
    requires
        0 <= i <= s.len(),
    ensures
        total_frequency(s.take(i)) <= total_frequency(s),
    decreases s.len() - i,
{
    if i < s.len() {
        lemma_total_frequency_take(s, i);
        lemma_total_frequency_prefix(s, i + 1);
    } else {
        assert(s.take(i) =~= s);
    }
}

proof fn lemma_extracted_total(colors: Seq<ColorFrequency>, pixels: Seq<Oklab>, threshold: nat)
    requires
        pixels.len() <= MAX_PIXELS,
        frequencies_at_most(colors, usize::MAX - pixels.len()),
    ensures
        total_frequency(extracted(colors, pixels, threshold)) == total_frequency(colors) + pixels.len(),
    decreases pixels.len(),
{
    if pixels.len() > 0 {
        let prev = extracted(colors, pixels.drop_last(), threshold);
        lemma_extracted_total(colors, pixels.drop_last(), threshold);
        lemma_extracted_frequencies(colors, pixels.drop_last(), threshold, usize::MAX - pixels.len());
        let c = pixels.last();
        if exists|i: int| crate::color::is_first_similar(prev, c, threshold, i) {
            let i = choose|i: int| crate::color::is_first_similar(prev, c, threshold, i);
            lemma_total_frequency_update(prev, i, (prev[i].frequency + 1) as usize);
        } else {
            assert(prev.push(ColorFrequency { color: c, frequency: 1 }).drop_last() =~= prev);
        }
    }
}

/// Replacing the frequency of entry `i` changes the total by the difference.
proof fn lemma_total_frequency_update(s: Seq<ColorFrequency>, i: int, f: usize)
    requires
        0 <= i < s.len(),
    ensures
        total_frequency(s.update(i, ColorFrequency { color: s[i].color, frequency: f })) == total_frequency(s)
            - s[i].frequency + f,
    decreases s.len(),
{
    let u = s.update(i, ColorFrequency { color: s[i].color, frequency: f });
    if i == s.len() - 1 {
        assert(u.drop_last() =~= s.drop_last());
    } else {
        assert(u.drop_last() =~= s.drop_last().update(i, ColorFrequency { color: s[i].color, frequency: f }));
        lemma_total_frequency_update(s.drop_last(), i, f);
    }
}

impl ImageConverter {
    /// Gathers the candidate colours of each palette: the pixels of the tiles
    /// of each cluster, in tile order, merged greedily under the similarity
    /// threshold.
    pub fn collect_palette_colors(&self, tiles: &Vec<Vec<Oklab>>, clusters: &Vec<usize>) -> (r: Result<
        Vec<Vec<ColorFrequency>>,
        ConvertError,
    >)
        requires
            self.config.wf(),
            tiles_fit(self.config, tiles@),
        ensures
            r is Ok <==> clusters_fit(clusters@, tiles@.len() as int, self.config.num_palettes as int),
            r matches Err(e) ==> check_assignments_error(clusters@, tiles@.len() as int, self.config.num_palettes as int, e),
            r matches Ok(lists) ==> {
                &&& list_views(lists@) == collected(
                    views(tiles@),
                    clusters@,
                    self.config.num_palettes as int,
                    self.config.color_similarity_threshold as nat,
                )
                &&& candidate_lists_fit(lists@)
            },
    {
        let cfg = self.config;
        match check_assignments(clusters, tiles.len(), cfg.num_palettes) {
            Err(e) => {
                return Err(e);
            },
            Ok(()) => {},
        }
        proof {
            lemma_sizes(cfg);
        }
        let ghost tv = views(tiles@);
        let ghost th = cfg.color_similarity_threshold as nat;
        let tile_size = (cfg.tile_width * cfg.tile_height) as usize;
        let mut lists: Vec<Vec<ColorFrequency>> = Vec::new();
        let mut k: usize = 0;
        while k < cfg.num_palettes
            invariant
                k <= cfg.num_palettes,
                lists@.len() == k,
                forall|j: int| 0 <= j < k ==> (#[trigger] lists@[j])@ == Seq::<ColorFrequency>::empty(),
            decreases cfg.num_palettes - k,
        {
            lists.push(Vec::new());
            k = k + 1;
        }
        let mut t: usize = 0;
        while t < tiles.len()
            invariant
                cfg == self.config,
                cfg.wf(),
                tiles_fit(cfg, tiles@),
                tv == views(tiles@),
                th == cfg.color_similarity_threshold as nat,
                tile_size == cfg.tile_size(),
                tiles@.len() * tile_size <= MAX_PIXELS,
                clusters_fit(clusters@, tiles@.len() as int, cfg.num_palettes as int),
                t <= tiles@.len(),
                lists@.len() == cfg.num_palettes,
                forall|j: int| 0 <= j < lists@.len() ==> (#[trigger] lists@[j])@ == cluster_candidates(tv, clusters@, j, th, t as int),
                forall|j: int| 0 <= j < lists@.len() ==> colors_wf((#[trigger] lists@[j])@),
                forall|j: int| 0 <= j < lists@.len() ==> frequencies_at_most((#[trigger] lists@[j])@, t * tile_size),
                forall|j: int| 0 <= j < lists@.len() ==> total_frequency((#[trigger] lists@[j])@) <= t * tile_size,
            decreases tiles@.len() - t,
        {
            let k = clusters[t];
            let ghost before = lists@;
            proof {
                assert(t * tile_size + tile_size <= MAX_PIXELS) by (nonlinear_arith)
                    requires
                        t < tiles@.len(),
                        tiles@.len() * tile_size <= MAX_PIXELS,
                ;
                assert(tv[t as int] == tiles@[t as int]@);
                lemma_extracted_frequencies(lists@[k as int]@, tv[t as int], th, t * tile_size);
                lemma_extracted_total(lists@[k as int]@, tv[t as int], th);
                assert(tile_size <= MAX_PIXELS);
            }
            extract_colors(tiles[t].as_slice(), cfg.color_similarity_threshold, &mut lists[k]);
            proof {
                assert forall|j: int| 0 <= j < lists@.len() implies (#[trigger] lists@[j])@ == cluster_candidates(
                    tv,
                    clusters@,
                    j,
                    th,
                    t + 1,
                ) by {
                    if j != k {
                        assert(lists@[j] == before[j]);
                    }
                }
                assert forall|j: int| 0 <= j < lists@.len() implies frequencies_at_most((#[trigger] lists@[j])@, (t + 1) * tile_size) by {
                    if j != k {
                        assert(lists@[j] == before[j]);
                    }
                    assert(t * tile_size + tile_size == (t + 1) * tile_size) by (nonlinear_arith);
                }
                assert forall|j: int| 0 <= j < lists@.len() implies total_frequency((#[trigger] lists@[j])@) <= (t + 1) * tile_size by {
                    if j != k {
                        assert(lists@[j] == before[j]);
                    }
                    assert(t * tile_size + tile_size == (t + 1) * tile_size) by (nonlinear_arith);
                }
                assert forall|j: int| 0 <= j < lists@.len() implies colors_wf((#[trigger] lists@[j])@) by {
                    if j != k {
                        assert(lists@[j] == before[j]);
                    }
                }
            }
            t = t + 1;
        }
        proof {
            assert(list_views(lists@) =~= collected(tv, clusters@, cfg.num_palettes as int, th));
        }
        Ok(lists)
    }
}

/// The error that `check_assignments` reports for a clustering that does not fit.
pub open spec fn check_assignments_error(clusters: Seq<usize>, count: int, k: int, e: ConvertError) -> bool {
    if clusters.len() != count {
        e == ConvertError::AssignmentCountMismatch { expected: count as usize, found: clusters.len() as usize }
    } else {
        exists|i: int|
            first_out_of_range(clusters, k, i) && e == ConvertError::ClusterOutOfRange {
                item: i as usize,
                cluster: clusters[i],
            }
    }
}

/// The summed frequency of the first `n` colours that `clusters` puts in
/// cluster `k`.
pub open spec fn bucket_frequency(colors: Seq<ColorFrequency>, clusters: Seq<usize>, k: int, n: int) -> nat
    decreases n,
{
    if n <= 0 {
        0
    } else {
        bucket_frequency(colors, clusters, k, n - 1) + if clusters[n - 1] == k {
            colors[n - 1].frequency as nat
        } else {
            0
        }
    }
}

/// The frequency-weighted sum of component `plane` over the first `n`
/// colours of cluster `k`.
pub open spec fn bucket_moment(colors: Seq<ColorFrequency>, clusters: Seq<usize>, k: int, plane: int, n: int) -> int
    decreases n,
{
    if n <= 0 {
        0
    } else {
        bucket_moment(colors, clusters, k, plane, n - 1) + if clusters[n - 1] == k {
            component(colors[n - 1].color, plane) * colors[n - 1].frequency
        } else {
            0
        }
    }
}

/// The colour that stands for cluster `k`: the frequency-weighted mean of its
/// members (rounded toward zero) with their summed frequency, or black of
/// frequency zero for a cluster without weight.
pub open spec fn reduced_color(colors: Seq<ColorFrequency>, clusters: Seq<usize>, k: int) -> ColorFrequency {
    let n = colors.len() as int;
    let f = bucket_frequency(colors, clusters, k, n);
    if f == 0 {
        ColorFrequency { color: Oklab { l: 0, a: 0, b: 0 }, frequency: 0 }
    } else {
        ColorFrequency {
            color: Oklab {
                l: div_toward_zero(bucket_moment(colors, clusters, k, 0, n), f as int) as i32,
                a: div_toward_zero(bucket_moment(colors, clusters, k, 1, n), f as int) as i32,
                b: div_toward_zero(bucket_moment(colors, clusters, k, 2, n), f as int) as i32,
            },
            frequency: f as usize,
        }
    }
}

/// The palette colours of a list of candidates: the list itself when it fits
/// in `limit` colours, else one colour per cluster of `clusters`.
pub open spec fn resolved_colors(colors: Seq<ColorFrequency>, clusters: Seq<usize>, limit: int) -> Seq<ColorFrequency> {
    if colors.len() <= limit {
        colors
    } else {
        Seq::new(limit as nat, |k: int| reduced_color(colors, clusters, k))
    }
}

fn mean_toward_zero(sum: i64, count: usize) -> (r: i32)
    requires
        count >= 1,
        count <= MAX_PIXELS,
        -0x10_0000 * count <= sum <= 0x10_0000 * count,
    ensures
        r == div_toward_zero(sum as int, count as int),
        -0x10_0000 <= r <= 0x10_0000,
{
    let c = count as i64;
    let q = if sum >= 0 {
        sum / c
    } else {
        -((-sum) / c)
    };
    proof {
        let m = if sum >= 0 { sum as int } else { -sum };
        assert(m / (c as int) <= 0x10_0000) by (nonlinear_arith)
            requires
                0 <= m <= 0x10_0000 * c,
                c >= 1,
        ;
    }
    q as i32
}

impl ImageConverter {
    /// Reduces candidate colours to `colors_per_palette` colours by a
    /// clustering of them: each cluster becomes the frequency-weighted mean
    /// of its members with their summed frequency; a cluster without weight
    /// stays black with frequency zero.
    pub fn reduce_colors(&self, colors: &Vec<ColorFrequency>, clusters: &Vec<usize>) -> (r: Result<
        Vec<ColorFrequency>,
        ConvertError,
    >)
        requires
            self.config.wf(),
            colors_wf(colors@),
            total_frequency(colors@) <= MAX_PIXELS,
        ensures
            r is Ok <==> clusters_fit(clusters@, colors@.len() as int, self.config.colors_per_palette as int),
            r matches Err(e) ==> check_assignments_error(
                clusters@,
                colors@.len() as int,
                self.config.colors_per_palette as int,
                e,
            ),
            r matches Ok(v) ==> v@ == Seq::new(
                self.config.colors_per_palette as nat,
                |k: int| reduced_color(colors@, clusters@, k),
            ) && colors_wf(v@),
    {
        let cpp = self.config.colors_per_palette;
        match check_assignments(clusters, colors.len(), cpp) {
            Err(e) => {
                return Err(e);
            },
            Ok(()) => {},
        }
        let mut freq: Vec<usize> = Vec::new();
        let mut sum_l: Vec<i64> = Vec::new();
        let mut sum_a: Vec<i64> = Vec::new();
        let mut sum_b: Vec<i64> = Vec::new();
        let mut k: usize = 0;
        while k < cpp
            invariant
                k <= cpp,
                freq@.len() == k,
                sum_l@.len() == k,
                sum_a@.len() == k,
                sum_b@.len() == k,
                forall|j: int| 0 <= j < k ==> #[trigger] freq@[j] == 0,
                forall|j: int| 0 <= j < k ==> #[trigger] sum_l@[j] == 0,
                forall|j: int| 0 <= j < k ==> #[trigger] sum_a@[j] == 0,
                forall|j: int| 0 <= j < k ==> #[trigger] sum_b@[j] == 0,
            decreases cpp - k,
        {
            freq.push(0);
            sum_l.push(0);
            sum_a.push(0);
            sum_b.push(0);
            k = k + 1;
        }
        let mut i: usize = 0;
        while i < colors.len()
            invariant
                colors_wf(colors@),
                total_frequency(colors@) <= MAX_PIXELS,
                clusters_fit(clusters@, colors@.len() as int, cpp as int),
                i <= colors@.len(),
                freq@.len() == cpp,
                sum_l@.len() == cpp,
                sum_a@.len() == cpp,
                sum_b@.len() == cpp,
                forall|j: int| 0 <= j < cpp ==> #[trigger] freq@[j] == bucket_frequency(colors@, clusters@, j, i as int),
                forall|j: int| 0 <= j < cpp ==> #[trigger] sum_l@[j] == bucket_moment(colors@, clusters@, j, 0, i as int),
                forall|j: int| 0 <= j < cpp ==> #[trigger] sum_a@[j] == bucket_moment(colors@, clusters@, j, 1, i as int),
                forall|j: int| 0 <= j < cpp ==> #[trigger] sum_b@[j] == bucket_moment(colors@, clusters@, j, 2, i as int),
                forall|j: int| 0 <= j < cpp ==> #[trigger] freq@[j] <= total_frequency(colors@.take(i as int)),
                forall|j: int| 0 <= j < cpp ==> -0x10_0000 * freq@[j] <= #[trigger] sum_l@[j] <= 0x10_0000 * freq@[j],
                forall|j: int| 0 <= j < cpp ==> -0x10_0000 * freq@[j] <= #[trigger] sum_a@[j] <= 0x10_0000 * freq@[j],
                forall|j: int| 0 <= j < cpp ==> -0x10_0000 * freq@[j] <= #[trigger] sum_b@[j] <= 0x10_0000 * freq@[j],
            decreases colors@.len() - i,
        {
            let k = clusters[i];
            let c = colors[i];
            proof {
                lemma_total_frequency_take(colors@, i as int);
                lemma_total_frequency_prefix(colors@, i + 1);
                let f = c.frequency as int;
                assert(-0x10_0000 * f <= c.color.l * f <= 0x10_0000 * f) by (nonlinear_arith)
                    requires
                        -0x10_0000 <= c.color.l <= 0x10_0000,
                        f >= 0,
                ;
                assert(-0x10_0000 * f <= c.color.a * f <= 0x10_0000 * f) by (nonlinear_arith)
                    requires
                        -0x10_0000 <= c.color.a <= 0x10_0000,
                        f >= 0,
                ;
                assert(-0x10_0000 * f <= c.color.b * f <= 0x10_0000 * f) by (nonlinear_arith)
                    requires
                        -0x10_0000 <= c.color.b <= 0x10_0000,
                        f >= 0,
                ;
            }
            freq[k] = freq[k] + c.frequency;
            sum_l[k] = sum_l[k] + c.color.l as i64 * c.frequency as i64;
            sum_a[k] = sum_a[k] + c.color.a as i64 * c.frequency as i64;
            sum_b[k] = sum_b[k] + c.color.b as i64 * c.frequency as i64;
            i = i + 1;
        }
        let mut result: Vec<ColorFrequency> = Vec::new();
        let mut k: usize = 0;
        while k < cpp
            invariant
                colors_wf(colors@),
                i == colors@.len(),
                total_frequency(colors@) <= MAX_PIXELS,
                k <= cpp,
                freq@.len() == cpp,
                sum_l@.len() == cpp,
                sum_a@.len() == cpp,
                sum_b@.len() == cpp,
                forall|j: int| 0 <= j < cpp ==> #[trigger] freq@[j] == bucket_frequency(colors@, clusters@, j, i as int),
                forall|j: int| 0 <= j < cpp ==> #[trigger] sum_l@[j] == bucket_moment(colors@, clusters@, j, 0, i as int),
                forall|j: int| 0 <= j < cpp ==> #[trigger] sum_a@[j] == bucket_moment(colors@, clusters@, j, 1, i as int),
                forall|j: int| 0 <= j < cpp ==> #[trigger] sum_b@[j] == bucket_moment(colors@, clusters@, j, 2, i as int),
                forall|j: int| 0 <= j < cpp ==> #[trigger] freq@[j] <= total_frequency(colors@.take(i as int)),
                forall|j: int| 0 <= j < cpp ==> -0x10_0000 * freq@[j] <= #[trigger] sum_l@[j] <= 0x10_0000 * freq@[j],
                forall|j: int| 0 <= j < cpp ==> -0x10_0000 * freq@[j] <= #[trigger] sum_a@[j] <= 0x10_0000 * freq@[j],
                forall|j: int| 0 <= j < cpp ==> -0x10_0000 * freq@[j] <= #[trigger] sum_b@[j] <= 0x10_0000 * freq@[j],
                result@.len() == k,
                colors_wf(result@),
                forall|j: int| 0 <= j < k ==> #[trigger] result@[j] == reduced_color(colors@, clusters@, j),
            decreases cpp - k,
        {
            proof {
                assert(colors@.take(i as int) =~= colors@);
            }
            let f = freq[k];
            let entry = if f == 0 {
                ColorFrequency::default()
            } else {
                ColorFrequency {
                    color: Oklab {
                        l: mean_toward_zero(sum_l[k], f),
                        a: mean_toward_zero(sum_a[k], f),
                        b: mean_toward_zero(sum_b[k], f),
                    },
                    frequency: f,
                }
            };
            result.push(entry);
            k = k + 1;
        }
        proof {
            assert(result@ =~= Seq::new(cpp as nat, |k: int| reduced_color(colors@, clusters@, k)));
        }
        Ok(result)
    }

    /// The palette colours of one cluster: its candidates unchanged when they
    /// are at most `colors_per_palette`, else their reduction by `clusters`.
    pub fn resolve_palette_colors(&self, colors: &Vec<ColorFrequency>, clusters: &Vec<usize>) -> (r: Result<
        Vec<ColorFrequency>,
        ConvertError,
    >)
        requires
            self.config.wf(),
            colors_wf(colors@),
            total_frequency(colors@) <= MAX_PIXELS,
        ensures
            colors@.len() <= self.config.colors_per_palette ==> (r matches Ok(v) && v@ == colors@),
            r is Ok <==> (colors@.len() <= self.config.colors_per_palette || clusters_fit(
                clusters@,
                colors@.len() as int,
                self.config.colors_per_palette as int,
            )),
            r matches Ok(v) ==> v@ == resolved_colors(colors@, clusters@, self.config.colors_per_palette as int)
                && v@.len() <= self.config.colors_per_palette && colors_wf(v@),
    {
        if colors.len() <= self.config.colors_per_palette {
            Ok(copy_colors(colors))
        } else {
            self.reduce_colors(colors, clusters)
        }
    }
}

/// A copy of a colour list.
pub fn copy_colors(colors: &Vec<ColorFrequency>) -> (r: Vec<ColorFrequency>)
    ensures
        r@ == colors@,
{
    let mut out: Vec<ColorFrequency> = Vec::new();
    let mut i: usize = 0;
    while i < colors.len()
        invariant
            i <= colors@.len(),
            out@ == colors@.take(i as int),
        decreases colors@.len() - i,
    {
        out.push(colors[i]);
        proof {
            assert(out@ =~= colors@.take(i + 1));
        }
        i = i + 1;
    }
    proof {
        assert(out@ =~= colors@);
    }
    out
}

pub open spec fn luminance_keys(s: Seq<ColorFrequency>) -> Seq<i64> {
    s.map_values(|c: ColorFrequency| c.color.l as i64)
}

/// `sorted` is `s` stably sorted by ascending lightness.
pub open spec fn is_luminance_sorting(s: Seq<ColorFrequency>, sorted: Seq<ColorFrequency>) -> bool {
    exists|p: Seq<usize>|
        {
            &&& is_index_permutation(p, s.len())
            &&& stably_sorted_by(luminance_keys(s), p)
            &&& sorted.len() == s.len()
            &&& forall|i: int| 0 <= i < s.len() ==> #[trigger] sorted[i] == s[p[i] as int]
        }
}

pub open spec fn luminance_sum(s: Seq<ColorFrequency>) -> int
    decreases s.len(),
{
    if s.len() == 0 {
        0
    } else {
        luminance_sum(s.drop_last()) + s.last().color.l
    }
}

/// The mean lightness of a palette's colours, rounded down; an empty
/// palette sorts last.
pub open spec fn mean_luminance_key(s: Seq<ColorFrequency>) -> int {
    if s.len() == 0 {
        i64::MAX as int
    } else {
        luminance_sum(s) / (s.len() as int)
    }
}

pub open spec fn mean_keys(lists: Seq<Seq<ColorFrequency>>) -> Seq<i64> {
    lists.map_values(|s: Seq<ColorFrequency>| mean_luminance_key(s) as i64)
}

/// The first colour slot forced to black, keeping its frequency; a palette
/// without colours gets a black slot of frequency zero.
pub open spec fn anchored(s: Seq<ColorFrequency>) -> Seq<ColorFrequency> {
    if s.len() == 0 {
        seq![ColorFrequency { color: Oklab { l: 0, a: 0, b: 0 }, frequency: 0 }]
    } else {
        s.update(0, ColorFrequency { color: Oklab { l: 0, a: 0, b: 0 }, frequency: s[0].frequency })
    }
}

/// `palettes` are `lists` ordered by mean lightness (stably), each with its
/// colours sorted by lightness (stably), and the first colour of the first
/// palette forced to black.
pub open spec fn is_palette_order(lists: Seq<Seq<ColorFrequency>>, palettes: Seq<Palette>) -> bool {
    exists|p: Seq<usize>|
        {
            &&& is_index_permutation(p, lists.len())
            &&& stably_sorted_by(mean_keys(lists), p)
            &&& palettes.len() == lists.len()
            &&& forall|i: int|
                1 <= i < lists.len() ==> is_luminance_sorting(lists[p[i] as int], (#[trigger] palettes[i]).colors@)
            &&& lists.len() >= 1 ==> exists|s0: Seq<ColorFrequency>|
                is_luminance_sorting(lists[p[0] as int], s0) && palettes[0].colors@ == anchored(s0)
        }
}

fn mean_luminance(colors: &Vec<ColorFrequency>) -> (r: i64)
    requires
        colors_wf(colors@),
        colors@.len() <= MAX_PIXELS,
    ensures
        r == mean_luminance_key(colors@),
{
    let n = colors.len();
    if n == 0 {
        return i64::MAX;
    }
    let mut sum: i64 = 0;
    let mut i: usize = 0;
    while i < n
        invariant
            n == colors@.len(),
            n <= MAX_PIXELS,
            colors_wf(colors@),
            i <= n,
            sum == luminance_sum(colors@.take(i as int)),
            -0x10_0000 * i <= sum <= 0x10_0000 * i,
        decreases n - i,
    {
        proof {
            assert(colors@.take(i + 1).drop_last() =~= colors@.take(i as int));
        }
        sum = sum + colors[i].color.l as i64;
        i = i + 1;
    }
    proof {
        assert(colors@.take(i as int) =~= colors@);
    }
    let c = n as i64;
    if sum >= 0 {
        sum / c
    } else {
        let q = (-sum + c - 1) / c;
        proof {
            let m = -sum;
            assert(-(((m + c - 1) as int) / (c as int)) == (sum as int) / (c as int)) by (nonlinear_arith)
                requires
                    m == -sum,
                    m > 0,
                    c >= 1,
            ;
        }
        -q
    }
}

fn luminance_sorted(colors: &Vec<ColorFrequency>) -> (r: Vec<ColorFrequency>)
    requires
        colors_wf(colors@),
    ensures
        is_luminance_sorting(colors@, r@),
        colors_wf(r@),
{
    let mut keys: Vec<i64> = Vec::new();
    let mut i: usize = 0;
    while i < colors.len()
        invariant
            i <= colors@.len(),
            keys@ == luminance_keys(colors@).take(i as int),
        decreases colors@.len() - i,
    {
        keys.push(colors[i].color.l as i64);
        proof {
            assert(keys@ =~= luminance_keys(colors@).take(i + 1));
        }
        i = i + 1;
    }
    proof {
        assert(keys@ =~= luminance_keys(colors@));
    }
    let p = stable_order(&keys);
    let mut sorted: Vec<ColorFrequency> = Vec::new();
    let mut i: usize = 0;
    while i < p.len()
        invariant
            i <= p@.len(),
            is_index_permutation(p@, colors@.len()),
            colors_wf(colors@),
            sorted@.len() == i,
            forall|j: int| 0 <= j < i ==> #[trigger] sorted@[j] == colors@[p@[j] as int],
        decreases p@.len() - i,
    {
        sorted.push(colors[p[i]]);
        i = i + 1;
    }
    proof {
        assert(is_luminance_sorting(colors@, sorted@));
    }
    sorted
}

impl ImageConverter {
    /// Orders palettes by mean lightness and each palette's colours by
    /// lightness, then forces the first colour of the first palette to black.
    pub fn finish_palettes(&self, lists: &Vec<Vec<ColorFrequency>>) -> (r: Vec<Palette>)
        requires
            self.config.wf(),
            forall|i: int| 0 <= i < lists@.len() ==> colors_wf((#[trigger] lists@[i])@),
            forall|i: int| 0 <= i < lists@.len() ==> (#[trigger] lists@[i])@.len() <= self.config.colors_per_palette,
        ensures
            is_palette_order(list_views(lists@), r@),
            palettes_fit(r@, self.config.colors_per_palette as int),
    {
        let ghost lv = list_views(lists@);
        let mut keys: Vec<i64> = Vec::new();
        let mut i: usize = 0;
        while i < lists.len()
            invariant
                self.config.wf(),
                lv == list_views(lists@),
                forall|j: int| 0 <= j < lists@.len() ==> colors_wf((#[trigger] lists@[j])@),
                forall|j: int| 0 <= j < lists@.len() ==> (#[trigger] lists@[j])@.len() <= self.config.colors_per_palette,
                i <= lists@.len(),
                keys@ == mean_keys(lv).take(i as int),
            decreases lists@.len() - i,
        {
            let k = mean_luminance(&lists[i]);
            keys.push(k);
            proof {
                assert(lv[i as int] == lists@[i as int]@);
                assert(keys@ =~= mean_keys(lv).take(i + 1));
            }
            i = i + 1;
        }
        proof {
            assert(keys@ =~= mean_keys(lv));
        }
        let p = stable_order(&keys);
        let mut palettes: Vec<Palette> = Vec::new();
        let mut i: usize = 0;
        while i < p.len()
            invariant
                self.config.wf(),
                lv == list_views(lists@),
                is_index_permutation(p@, lists@.len()),
                forall|j: int| 0 <= j < lists@.len() ==> colors_wf((#[trigger] lists@[j])@),
                forall|j: int| 0 <= j < lists@.len() ==> (#[trigger] lists@[j])@.len() <= self.config.colors_per_palette,
                i <= p@.len(),
                palettes@.len() == i,
                forall|j: int| 0 <= j < i ==> is_luminance_sorting(lv[p@[j] as int], (#[trigger] palettes@[j]).colors@),
                palettes_fit(palettes@, self.config.colors_per_palette as int),
            decreases p@.len() - i,
        {
            let sorted = luminance_sorted(&lists[p[i]]);
            proof {
                assert(lv[p@[i as int] as int] == lists@[p@[i as int] as int]@);
            }
            palettes.push(Palette { colors: sorted });
            i = i + 1;
        }
        if palettes.len() > 0 {
            let ghost s0 = palettes@[0].colors@;
            let mut colors = copy_colors(&palettes[0].colors);
            proof {
                assert(colors@ =~= s0);
            }
            if colors.len() == 0 {
                colors.push(ColorFrequency::default());
            } else {
                let f = colors[0].frequency;
                colors[0] = ColorFrequency { color: Oklab::black(), frequency: f };
            }
            proof {
                assert(colors@ =~= anchored(s0));
            }
            palettes[0] = Palette { colors };
            proof {
                assert(is_luminance_sorting(lv[p@[0] as int], s0));
                assert(palettes_fit(palettes@, self.config.colors_per_palette as int)) by {
                    assert forall|i: int| 0 <= i < palettes@.len() implies {
                        &&& colors_wf((#[trigger] palettes@[i]).colors@)
                        &&& palettes@[i].colors@.len() <= self.config.colors_per_palette
                    } by {
                        if i == 0 {
                            assert(anchored(s0)[0].color.wf());
                        }
                    }
                }
            }
        }
        proof {
            assert(is_palette_order(lv, palettes@));
        }
        palettes
    }

    /// Builds the palettes from the candidate colours of each cluster: lists
    /// of more than `colors_per_palette` colours are reduced by the
    /// clustering that `reductions` gives for them; then the palettes are
    /// ordered and anchored (see `finish_palettes`).
    pub fn generate_palettes(&self, candidates: &Vec<Vec<ColorFrequency>>, reductions: &Vec<Vec<usize>>) -> (r: Result<
        Vec<Palette>,
        ConvertError,
    >)
        requires
            self.config.wf(),
            candidate_lists_fit(candidates@),
            reductions@.len() == candidates@.len(),
        ensures
            r is Ok <==> forall|i: int|
                0 <= i < candidates@.len() ==> ((#[trigger] candidates@[i])@.len() <= self.config.colors_per_palette
                    || clusters_fit(reductions@[i]@, candidates@[i]@.len() as int, self.config.colors_per_palette as int)),
            r matches Ok(palettes) ==> {
                &&& is_palette_order(
                    Seq::new(
                        candidates@.len(),
                        |i: int| resolved_colors(candidates@[i]@, reductions@[i]@, self.config.colors_per_palette as int),
                    ),
                    palettes@,
                )
                &&& palettes_fit(palettes@, self.config.colors_per_palette as int)
            },
    {
        let ghost target = Seq::new(
            candidates@.len(),
            |i: int| resolved_colors(candidates@[i]@, reductions@[i]@, self.config.colors_per_palette as int),
        );
        let n = candidates.len();
        let mut ordered: Vec<Vec<ColorFrequency>> = Vec::new();
        let mut i: usize = 0;
        while i < n
            invariant
                self.config.wf(),
                n == candidates@.len(),
                reductions@.len() == n,
                candidate_lists_fit(candidates@),
                target == Seq::new(
                    n as nat,
                    |j: int| resolved_colors(candidates@[j]@, reductions@[j]@, self.config.colors_per_palette as int),
                ),
                i <= n,
                ordered@.len() == i,
                forall|k: int| 0 <= k < i ==> (#[trigger] ordered@[k])@ == target[k],
                forall|k: int| 0 <= k < i ==> colors_wf((#[trigger] ordered@[k])@),
                forall|k: int| 0 <= k < i ==> (#[trigger] ordered@[k])@.len() <= self.config.colors_per_palette,
                forall|j: int|
                    0 <= j < i ==> ((#[trigger] candidates@[j])@.len() <= self.config.colors_per_palette
                        || clusters_fit(reductions@[j]@, candidates@[j]@.len() as int, self.config.colors_per_palette as int)),
            decreases n - i,
        {
            match self.resolve_palette_colors(&candidates[i], &reductions[i]) {
                Err(e) => {
                    return Err(e);
                },
                Ok(v) => {
                    ordered.push(v);
                },
            }
            i = i + 1;
        }
        proof {
            assert(list_views(ordered@) =~= target);
        }
        let palettes = self.finish_palettes(&ordered);
        Ok(palettes)
    }
}

/// The summed bucket frequencies of clusters `0..m` over the first `n` colours.
pub open spec fn buckets_total(colors: Seq<ColorFrequency>, clusters: Seq<usize>, m: int, n: int) -> nat
    decreases m,
{
    if m <= 0 {
        0
    } else {
        buckets_total(colors, clusters, m - 1, n) + bucket_frequency(colors, clusters, m - 1, n)
    }
}

proof fn lemma_buckets_step(colors: Seq<ColorFrequency>, clusters: Seq<usize>, m: int, n: int)
    requires
        0 <= n < colors.len(),
        n < clusters.len(),
        m >= 0,
    ensures
        buckets_total(colors, clusters, m, n + 1) == buckets_total(colors, clusters, m, n) + if clusters[n] < m {
            colors[n].frequency as nat
        } else {
            0
        },
    decreases m,
{
    if m > 0 {
        lemma_buckets_step(colors, clusters, m - 1, n);
    }
}

proof fn lemma_buckets_total(colors: Seq<ColorFrequency>, clusters: Seq<usize>, m: int, n: int)
    requires
        0 <= n <= colors.len(),
        m >= 0,
        clusters_fit(clusters, colors.len() as int, m),
    ensures
        buckets_total(colors, clusters, m, n) == total_frequency(colors.take(n)),
    decreases n,
{
    if n > 0 {
        lemma_buckets_total(colors, clusters, m, n - 1);
        lemma_buckets_step(colors, clusters, m, n - 1);
        lemma_total_frequency_take(colors, n - 1);
    } else {
        lemma_buckets_zero(colors, clusters, m);
    }
}

proof fn lemma_buckets_zero(colors: Seq<ColorFrequency>, clusters: Seq<usize>, m: int)
    ensures
        buckets_total(colors, clusters, m, 0) == 0,
    decreases m,
{
    if m > 0 {
        lemma_buckets_zero(colors, clusters, m - 1);
    }
}

proof fn lemma_bucket_bound(colors: Seq<ColorFrequency>, clusters: Seq<usize>, m: int, k: int)
    requires
        0 <= k < m,
    ensures
        bucket_frequency(colors, clusters, k, colors.len() as int) <= buckets_total(colors, clusters, m, colors.len() as int),
    decreases m,
{
    if k < m - 1 {
        lemma_bucket_bound(colors, clusters, m - 1, k);
    }
}

/// Reduction keeps the frequency mass: the reduced colours together stand for
/// as many pixels as the candidates did.
pub proof fn lemma_reduction_keeps_frequency(colors: Seq<ColorFrequency>, clusters: Seq<usize>, k: int)
    requires
        k >= 0,
        clusters_fit(clusters, colors.len() as int, k),
        total_frequency(colors) <= MAX_PIXELS,
    ensures
        total_frequency(Seq::new(k as nat, |j: int| reduced_color(colors, clusters, j))) == total_frequency(colors),
{
    let n = colors.len() as int;
    lemma_buckets_total(colors, clusters, k, n);
    assert(colors.take(n) =~= colors);
    lemma_reduced_prefix(colors, clusters, k, k);
}

proof fn lemma_reduced_prefix(colors: Seq<ColorFrequency>, clusters: Seq<usize>, k: int, m: int)
    requires
        0 <= m <= k,
        clusters_fit(clusters, colors.len() as int, k),
        buckets_total(colors, clusters, k, colors.len() as int) <= MAX_PIXELS,
    ensures
        total_frequency(Seq::new(m as nat, |j: int| reduced_color(colors, clusters, j))) == buckets_total(
            colors,
            clusters,
            m,
            colors.len() as int,
        ),
    decreases m,
{
    let s = Seq::new(m as nat, |j: int| reduced_color(colors, clusters, j));
    if m > 0 {
        lemma_reduced_prefix(colors, clusters, k, m - 1);
        assert(s.drop_last() =~= Seq::new((m - 1) as nat, |j: int| reduced_color(colors, clusters, j)));
        lemma_bucket_bound(colors, clusters, k, m - 1);
    }
}

/// The reduction features of a candidate list: the L, a and b of each
/// colour in turn, one sample of three values per colour.
pub fn color_features(colors: &Vec<ColorFrequency>) -> (r: Vec<i32>)
    requires
        colors@.len() <= MAX_PIXELS,
    ensures
        r@.len() == 3 * colors@.len(),
        forall|i: int|
            0 <= i < colors@.len() ==> {
                &&& #[trigger] r@[3 * i] == colors@[i].color.l
                &&& r@[3 * i + 1] == colors@[i].color.a
                &&& r@[3 * i + 2] == colors@[i].color.b
            },
{
    let mut out: Vec<i32> = Vec::new();
    let mut i: usize = 0;
    while i < colors.len()
        invariant
            colors@.len() <= MAX_PIXELS,
            i <= colors@.len(),
            out@.len() == 3 * i,
            forall|k: int|
                0 <= k < i ==> {
                    &&& #[trigger] out@[3 * k] == colors@[k].color.l
                    &&& out@[3 * k + 1] == colors@[k].color.a
                    &&& out@[3 * k + 2] == colors@[k].color.b
                },
        decreases colors@.len() - i,
    {
        let c = colors[i].color;
        let ghost prev = out@;
        out.push(c.l);
        out.push(c.a);
        out.push(c.b);
        proof {
            assert forall|k: int| 0 <= k < i + 1 implies {
                &&& #[trigger] out@[3 * k] == colors@[k].color.l
                &&& out@[3 * k + 1] == colors@[k].color.a
                &&& out@[3 * k + 2] == colors@[k].color.b
            } by {
                if k < i {
                    assert(out@[3 * k] == prev[3 * k]);
                    assert(out@[3 * k + 1] == prev[3 * k + 1]);
                    assert(out@[3 * k + 2] == prev[3 * k + 2]);
                }
            }
        }
        i = i + 1;
    }
    out
}

} // verus!
