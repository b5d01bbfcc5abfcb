//! Unique tiles, the choice of (tile, palette) per tilemap cell, and the
//! tilemap words.
use vstd::prelude::*;
use crate::color::{Oklab, ColorFrequency, colors_wf, pixels_wf, delta_e, oklab_delta_e};
use crate::palette::{Palette, palettes_fit, clusters_fit, check_assignments, check_assignments_error};
use crate::quantize::{nibble, unpack_index, NO_MATCH};
use crate::tiling::{ConvertError, ImageConverter, tiles_fit, lemma_sizes, MAX_PIXELS};

verus! {

/// Bit position of the palette index in a tilemap word.
pub const PALETTE_SHIFT: u16 = 10;

/// The cost of a pixel whose index falls outside the palette: one whole of
/// the perceptual scale.
pub const MISSING_PENALTY: u32 = 65536;

/// A representative quantized tile and the tile it was taken from.
#[derive(Clone, Debug)]
pub struct UniqueTile {
    pub quantized: Vec<u16>,
    pub source_tile: usize,
}

/// The unique tile and the palette chosen for one tilemap cell.
#[derive(Clone, Copy, Debug, PartialEq, Eq, Structural)]
pub struct TileAssignment {
    pub unique_tile_index: usize,
    pub palette_index: usize,
}

/// One tilemap word: `raw_value = (palette_index << 10) | tile_index`.
#[derive(Clone, Copy, Debug, PartialEq, Eq, Structural)]
pub struct TilemapEntry {
    pub palette_index: usize,
    pub tile_index: usize,
    pub raw_value: u16,
}

impl TilemapEntry {
    /// The entry for palette `palette_index` and tile `tile_index`.
    pub fn new(palette_index: usize, tile_index: usize) -> (r: Self)
        requires
            palette_index < 64,
            tile_index < 1024,
        ensures
            r.palette_index == palette_index,
            r.tile_index == tile_index,
            r.raw_value == palette_index * 1024 + tile_index,
            r.raw_value == ((palette_index as u16) << PALETTE_SHIFT) | (tile_index as u16),
    {
        let p = palette_index as u16;
        let t = tile_index as u16;
        let raw = (p << PALETTE_SHIFT) | t;
        proof {
            assert((p << 10u16) | t == p * 1024 + t) by (bit_vector)
                requires
                    p < 64,
                    t < 1024,
            ;
        }
        TilemapEntry { palette_index, tile_index, raw_value: raw }
    }

    /// The entry that a tilemap word stands for.
    pub fn from_raw(raw_value: u16) -> (r: Self)
        ensures
            r.raw_value == raw_value,
            r.palette_index == raw_value / 1024,
            r.tile_index == raw_value % 1024,
    {
        let p = raw_value >> PALETTE_SHIFT;
        let t = raw_value & 0x3ff;
        proof {
            assert(raw_value >> 10u16 == raw_value / 1024) by (bit_vector);
            assert(raw_value & 0x3ffu16 == raw_value % 1024) by (bit_vector);
        }
        TilemapEntry { palette_index: p as usize, tile_index: t as usize, raw_value }
    }
}

/// Tile `t` is the first that `clusters` puts in its cluster.
pub open spec fn first_in_cluster(clusters: Seq<usize>, t: int) -> bool {
    &&& 0 <= t < clusters.len()
    &&& forall|u: int| 0 <= u < t ==> #[trigger] clusters[u] != clusters[t]
}

/// The result of deduplication: `unique` are the first tiles of the clusters
/// that have tiles, in ascending order of cluster, each with the quantized
/// data of its source; `mapping` sends each tile to the representative of
/// its cluster.
pub open spec fn is_deduplication(
    quantized: Seq<Vec<u16>>,
    clusters: Seq<usize>,
    unique: Seq<UniqueTile>,
    mapping: Seq<usize>,
) -> bool {
    &&& mapping.len() == quantized.len()
    &&& forall|j: int|
        0 <= j < unique.len() ==> {
            &&& first_in_cluster(clusters, (#[trigger] unique[j]).source_tile as int)
            &&& unique[j].quantized@ == quantized[unique[j].source_tile as int]@
        }
    &&& forall|i: int, j: int|
        0 <= i < j < unique.len() ==> clusters[unique[i].source_tile as int] < clusters[unique[j].source_tile as int]
    &&& forall|t: int|
        0 <= t < quantized.len() ==> {
            &&& (#[trigger] mapping[t]) < unique.len()
            &&& clusters[unique[mapping[t] as int].source_tile as int] == clusters[t]
        }
}

/// Deduplication that keeps every tile: tile `t` is unique tile `t`.
pub open spec fn is_identity_deduplication(quantized: Seq<Vec<u16>>, unique: Seq<UniqueTile>, mapping: Seq<usize>) -> bool {
    &&& unique.len() == quantized.len()
    &&& mapping.len() == quantized.len()
    &&& forall|t: int|
        0 <= t < quantized.len() ==> {
            &&& (#[trigger] unique[t]).source_tile == t
            &&& unique[t].quantized@ == quantized[t]@
            &&& mapping[t] == t
        }
}

/// A copy of a quantized tile.
pub fn copy_words(words: &Vec<u16>) -> (r: Vec<u16>)
    ensures
        r@ == words@,
{
    let mut out: Vec<u16> = Vec::new();
    let mut i: usize = 0;
    while i < words.len()
        invariant
            i <= words@.len(),
            out@ == words@.take(i as int),
        decreases words@.len() - i,
    {
        out.push(words[i]);
        proof {
            assert(out@ =~= words@.take(i + 1));
        }
        i = i + 1;
    }
    proof {
        assert(out@ =~= words@);
    }
    out
}

/// The pixel cost of index `idx` of `colors` against the original colour `c`.
pub open spec fn pixel_cost(c: Oklab, idx: int, colors: Seq<ColorFrequency>) -> nat {
    if idx < colors.len() {
        delta_e(colors[idx].color, c)
    } else {
        MISSING_PENALTY as nat
    }
}

/// The cost of drawing `orig` with the quantized `words` through `colors`:
/// the sum of the pixel costs.
pub open spec fn decoded_cost(orig: Seq<Oklab>, words: Seq<u16>, colors: Seq<ColorFrequency>) -> nat
    decreases orig.len(),
{
    if orig.len() == 0 {
        0
    } else {
        decoded_cost(orig.drop_last(), words, colors) + pixel_cost(orig.last(), nibble(words, orig.len() - 1), colors)
    }
}

/// The cost of a (unique tile, palette) pair for tile `orig`.
pub open spec fn pair_cost(orig: Seq<Oklab>, unique: Seq<UniqueTile>, palettes: Seq<Palette>, u: int, p: int) -> nat {
    decoded_cost(orig, unique[u].quantized@, palettes[p].colors@)
}

/// `a` is the first pair, in order of unique tile then palette, of least cost
/// for `orig`.
pub open spec fn is_best_pair(orig: Seq<Oklab>, unique: Seq<UniqueTile>, palettes: Seq<Palette>, a: TileAssignment) -> bool {
    let u = a.unique_tile_index as int;
    let p = a.palette_index as int;
    let n = palettes.len() as int;
    &&& 0 <= u < unique.len()
    &&& 0 <= p < palettes.len()
    &&& forall|v: int, q: int|
        0 <= v < unique.len() && 0 <= q < palettes.len() ==> pair_cost(orig, unique, palettes, u, p) <= #[trigger] pair_cost(
            orig,
            unique,
            palettes,
            v,
            q,
        )
    &&& forall|v: int, q: int|
        0 <= v < unique.len() && 0 <= q < palettes.len() && v * n + q < u * n + p ==> pair_cost(
            orig,
            unique,
            palettes,
            u,
            p,
        ) < #[trigger] pair_cost(orig, unique, palettes, v, q)
}

proof fn lemma_lex(v: int, w: int, a: int, b: int, n: int)
    requires
        0 <= w < n,
        0 <= b < n,
    ensures
        (v * n + w < a * n + b) <==> (v < a || (v == a && w < b)),
{
    if v < a {
        assert(v * n + w < a * n + b) by (nonlinear_arith)
            requires
                v < a,
                0 <= w < n,
                0 <= b,
        ;
    } else if v > a {
        assert(v * n >= (a + 1) * n) by (nonlinear_arith)
            requires
                v >= a + 1,
                n >= 0,
        ;
        assert((a + 1) * n == a * n + n) by (nonlinear_arith);
    }
}

/// Unique tiles whose quantized data covers `tile_size` pixels.
pub open spec fn unique_fit(unique: Seq<UniqueTile>, tile_size: int) -> bool {
    forall|u: int| 0 <= u < unique.len() ==> (#[trigger] unique[u]).quantized@.len() == (tile_size + 3) / 4
}

/// The cost of drawing `orig` with `words` through `colors`.
pub fn candidate_cost(orig: &Vec<Oklab>, words: &Vec<u16>, colors: &Vec<ColorFrequency>) -> (r: u64)
    requires
        pixels_wf(orig@),
        colors_wf(colors@),
        orig@.len() <= MAX_PIXELS,
        words@.len() == (orig@.len() + 3) / 4,
    ensures
        r == decoded_cost(orig@, words@, colors@),
{
    let mut sum: u64 = 0;
    let mut i: usize = 0;
    while i < orig.len()
        invariant
            i <= orig@.len(),
            orig@.len() <= MAX_PIXELS,
            words@.len() == (orig@.len() + 3) / 4,
            pixels_wf(orig@),
            colors_wf(colors@),
            sum == decoded_cost(orig@.take(i as int), words@, colors@),
            sum <= i * NO_MATCH,
        decreases orig@.len() - i,
    {
        let idx = unpack_index(words, i) as usize;
        let cost: u32 = if idx < colors.len() {
            oklab_delta_e(colors[idx].color, orig[i])
        } else {
            MISSING_PENALTY
        };
        proof {
            assert(orig@.take(i + 1).drop_last() =~= orig@.take(i as int));
            assert(orig@.take(i + 1).last() == orig@[i as int]);
        }
        sum = sum + cost as u64;
        i = i + 1;
    }
    proof {
        assert(orig@.take(i as int) =~= orig@);
    }
    sum
}

impl ImageConverter {
    /// Reduces the quantized tiles to at most `max_unique_tiles` unique ones.
    /// When all tiles fit, every tile is its own unique tile and `clusters`
    /// is not read; otherwise `clusters` groups the tiles and the first tile
    /// of each group stands for it.
    pub fn deduplicate_tiles(&self, quantized: &Vec<Vec<u16>>, clusters: &Vec<usize>) -> (r: Result<
        (Vec<UniqueTile>, Vec<usize>),
        ConvertError,
    >)
        requires
            self.config.wf(),
        ensures
            quantized@.len() <= self.config.max_unique_tiles ==> (r matches Ok(pair)
                && is_identity_deduplication(quantized@, pair.0@, pair.1@)),
            r is Ok <==> (quantized@.len() <= self.config.max_unique_tiles || clusters_fit(
                clusters@,
                quantized@.len() as int,
                self.config.max_unique_tiles as int,
            )),
            r matches Err(e) ==> check_assignments_error(
                clusters@,
                quantized@.len() as int,
                self.config.max_unique_tiles as int,
                e,
            ),
            r matches Ok(pair) ==> is_deduplication(quantized@, (if quantized@.len() <= self.config.max_unique_tiles {
                Seq::new(quantized@.len(), |t: int| t as usize)
            } else {
                clusters@
            }), pair.0@, pair.1@) && pair.0@.len() <= self.config.max_unique_tiles,
    {
        let n = quantized.len();
        let max = self.config.max_unique_tiles;
        if n <= max {
            let ghost ids = Seq::new(n as nat, |t: int| t as usize);
            let mut unique: Vec<UniqueTile> = Vec::new();
            let mut mapping: Vec<usize> = Vec::new();
            let mut t: usize = 0;
            while t < n
                invariant
                    n == quantized@.len(),
                    t <= n,
                    ids == Seq::new(n as nat, |t: int| t as usize),
                    unique@.len() == t,
                    mapping@.len() == t,
                    forall|u: int|
                        0 <= u < t ==> {
                            &&& (#[trigger] unique@[u]).source_tile == u
                            &&& unique@[u].quantized@ == quantized@[u]@
                            &&& mapping@[u] == u
                        },
                decreases n - t,
            {
                unique.push(UniqueTile { quantized: copy_words(&quantized[t]), source_tile: t });
                mapping.push(t);
                t = t + 1;
            }
            proof {
                assert forall|j: int| 0 <= j < unique@.len() implies first_in_cluster(ids, (#[trigger] unique@[j]).source_tile as int) by {
                    assert forall|u: int| 0 <= u < j implies #[trigger] ids[u] != ids[j] by {}
                }
                assert forall|i: int, j: int| 0 <= i < j < unique@.len() implies ids[unique@[i].source_tile as int] < ids[unique@[j].source_tile as int] by {
                    assert(unique@[i].source_tile == i);
                    assert(unique@[j].source_tile == j);
                }
                assert forall|u: int| 0 <= u < n implies {
                    &&& (#[trigger] mapping@[u]) < unique@.len()
                    &&& ids[unique@[mapping@[u] as int].source_tile as int] == ids[u]
                } by {
                    assert(unique@[u].source_tile == u);
                    assert(mapping@[u] == u);
                }
                assert(is_deduplication(quantized@, ids, unique@, mapping@));
                assert(is_identity_deduplication(quantized@, unique@, mapping@));
            }
            return Ok((unique, mapping));
        }
        match check_assignments(clusters, n, max) {
            Err(e) => {
                return Err(e);
            },
            Ok(()) => {},
        }
        let mut unique: Vec<UniqueTile> = Vec::new();
        let mut slot: Vec<usize> = Vec::new();
        let mut k: usize = 0;
        while k < max
            invariant
                n == quantized@.len(),
                clusters_fit(clusters@, n as int, max as int),
                k <= max,
                slot@.len() == k,
                unique@.len() <= k,
                forall|j: int|
                    0 <= j < unique@.len() ==> {
                        &&& first_in_cluster(clusters@, (#[trigger] unique@[j]).source_tile as int)
                        &&& unique@[j].quantized@ == quantized@[unique@[j].source_tile as int]@
                        &&& clusters@[unique@[j].source_tile as int] < k
                    },
                forall|i: int, j: int|
                    0 <= i < j < unique@.len() ==> clusters@[unique@[i].source_tile as int]
                        < clusters@[unique@[j].source_tile as int],
                forall|t: int|
                    0 <= t < n && #[trigger] clusters@[t] < k ==> {
                        &&& slot@[clusters@[t] as int] < unique@.len()
                        &&& clusters@[unique@[slot@[clusters@[t] as int] as int].source_tile as int] == clusters@[t]
                    },
            decreases max - k,
        {
            let mut t: usize = 0;
            while t < n && clusters[t] != k
                invariant
                    n == quantized@.len(),
                    clusters@.len() == n,
                    t <= n,
                    forall|u: int| 0 <= u < t ==> #[trigger] clusters@[u] != k,
                decreases n - t,
            {
                t = t + 1;
            }
            if t < n {
                proof {
                    assert(first_in_cluster(clusters@, t as int));
                }
                unique.push(UniqueTile { quantized: copy_words(&quantized[t]), source_tile: t });
                slot.push(unique.len() - 1);
            } else {
                slot.push(0);
            }
            k = k + 1;
        }
        let mut mapping: Vec<usize> = Vec::new();
        let mut t: usize = 0;
        while t < n
            invariant
                n == quantized@.len(),
                clusters_fit(clusters@, n as int, max as int),
                slot@.len() == max,
                forall|t: int|
                    0 <= t < n && #[trigger] clusters@[t] < max ==> {
                        &&& slot@[clusters@[t] as int] < unique@.len()
                        &&& clusters@[unique@[slot@[clusters@[t] as int] as int].source_tile as int] == clusters@[t]
                    },
                t <= n,
                mapping@.len() == t,
                forall|u: int|
                    0 <= u < t ==> {
                        &&& (#[trigger] mapping@[u]) < unique@.len()
                        &&& clusters@[unique@[mapping@[u] as int].source_tile as int] == clusters@[u]
                    },
            decreases n - t,
        {
            proof {
                assert(clusters@[t as int] == clusters@[t as int]);
            }
            mapping.push(slot[clusters[t]]);
            t = t + 1;
        }
        Ok((unique, mapping))
    }

    /// For each tilemap cell, the first (unique tile, palette) pair, in order
    /// of unique tile then palette, whose decoded pixels are closest in sum to
    /// the cell's original pixels.
    pub fn optimize_assignments(&self, tiles: &Vec<Vec<Oklab>>, unique: &Vec<UniqueTile>, palettes: &Vec<Palette>) -> (r: Vec<
        TileAssignment,
    >)
        requires
            self.config.wf(),
            tiles_fit(self.config, tiles@),
            unique@.len() >= 1,
            unique_fit(unique@, self.config.tile_size()),
            palettes@.len() >= 1,
            palettes_fit(palettes@, self.config.colors_per_palette as int),
        ensures
            r@.len() == tiles@.len(),
            forall|t: int| 0 <= t < tiles@.len() ==> is_best_pair(tiles@[t]@, unique@, palettes@, #[trigger] r@[t]),
    {
        proof {
            lemma_sizes(self.config);
        }
        let np = palettes.len();
        let mut result: Vec<TileAssignment> = Vec::new();
        let mut t: usize = 0;
        while t < tiles.len()
            invariant
                self.config.wf(),
                tiles_fit(self.config, tiles@),
                self.config.tile_size() <= MAX_PIXELS,
                unique@.len() >= 1,
                unique_fit(unique@, self.config.tile_size()),
                np == palettes@.len(),
                np >= 1,
                palettes_fit(palettes@, self.config.colors_per_palette as int),
                t <= tiles@.len(),
                result@.len() == t,
                forall|s: int| 0 <= s < t ==> is_best_pair(tiles@[s]@, unique@, palettes@, #[trigger] result@[s]),
            decreases tiles@.len() - t,
        {
            let orig = &tiles[t];
            let ghost o = orig@;
            let mut best = TileAssignment { unique_tile_index: 0, palette_index: 0 };
            let mut best_cost = candidate_cost(orig, &unique[0].quantized, &palettes[0].colors);
            let mut u: usize = 0;
            while u < unique.len()
                invariant
                    o == tiles@[t as int]@,
                    o == orig@,
                    pixels_wf(o),
                    o.len() == self.config.tile_size(),
                    o.len() <= MAX_PIXELS,
                    unique_fit(unique@, self.config.tile_size()),
                    np == palettes@.len(),
                    np >= 1,
                    palettes_fit(palettes@, self.config.colors_per_palette as int),
                    u <= unique@.len(),
                    best.unique_tile_index < unique@.len(),
                    best.palette_index < np,
                    u >= 1 ==> best.unique_tile_index < u,
                    best_cost == pair_cost(o, unique@, palettes@, best.unique_tile_index as int, best.palette_index as int),
                    forall|v: int, q: int|
                        0 <= v < u && 0 <= q < np ==> best_cost <= #[trigger] pair_cost(o, unique@, palettes@, v, q),
                    forall|v: int, q: int|
                        0 <= v < u && 0 <= q < np && v * np + q < best.unique_tile_index * np
                            + best.palette_index ==> best_cost < #[trigger] pair_cost(o, unique@, palettes@, v, q),
                    u == 0 ==> best.unique_tile_index == 0 && best.palette_index == 0,
                decreases unique@.len() - u,
            {
                let mut q: usize = 0;
                while q < np
                    invariant
                        o == orig@,
                        pixels_wf(o),
                        o.len() == self.config.tile_size(),
                        o.len() <= MAX_PIXELS,
                        unique_fit(unique@, self.config.tile_size()),
                        np == palettes@.len(),
                        palettes_fit(palettes@, self.config.colors_per_palette as int),
                        u < unique@.len(),
                        q <= np,
                        best.unique_tile_index < unique@.len(),
                        best.palette_index < np,
                        best.unique_tile_index <= u,
                        best.unique_tile_index == u ==> best.palette_index < q || (q == 0 && u == 0),
                        best_cost == pair_cost(o, unique@, palettes@, best.unique_tile_index as int, best.palette_index as int),
                        forall|v: int, w: int|
                            (0 <= v < u && 0 <= w < np) || (v == u && 0 <= w < q) ==> best_cost <= #[trigger] pair_cost(
                                o,
                                unique@,
                                palettes@,
                                v,
                                w,
                            ),
                        forall|v: int, w: int|
                            ((0 <= v < u && 0 <= w < np) || (v == u && 0 <= w < q)) && v * np + w
                                < best.unique_tile_index * np + best.palette_index ==> best_cost < #[trigger] pair_cost(
                                o,
                                unique@,
                                palettes@,
                                v,
                                w,
                            ),
                        u == 0 && q == 0 ==> best.unique_tile_index == 0 && best.palette_index == 0,
                    decreases np - q,
                {
                    let cost = candidate_cost(orig, &unique[u].quantized, &palettes[q].colors);
                    if cost < best_cost {
                        best = TileAssignment { unique_tile_index: u, palette_index: q };
                        best_cost = cost;
                    }
                    proof {
                        assert forall|v: int, w: int|
                            ((0 <= v < u && 0 <= w < np) || (v == u && 0 <= w < q + 1)) && v * np + w
                                < best.unique_tile_index * np + best.palette_index implies best_cost < #[trigger] pair_cost(
                                o,
                                unique@,
                                palettes@,
                                v,
                                w,
                            ) by {
                            lemma_lex(v, w, best.unique_tile_index as int, best.palette_index as int, np as int);
                            lemma_lex(v, w, u as int, q as int, np as int);
                        }
                    }
                    q = q + 1;
                }
                u = u + 1;
            }
            proof {
                assert forall|v: int, q: int|
                    0 <= v < unique@.len() && 0 <= q < np && v * np + q < best.unique_tile_index * np
                        + best.palette_index implies pair_cost(
                    o,
                    unique@,
                    palettes@,
                    best.unique_tile_index as int,
                    best.palette_index as int,
                ) < #[trigger] pair_cost(o, unique@, palettes@, v, q) by {}
            }
            result.push(best);
            t = t + 1;
        }
        result
    }

    /// The tilemap words of the chosen pairs, in tilemap order.
    pub fn generate_tilemap(&self, assignments: &Vec<TileAssignment>) -> (r: Vec<TilemapEntry>)
        requires
            self.config.wf(),
            forall|t: int| 0 <= t < assignments@.len() ==> (#[trigger] assignments@[t]).palette_index < self.config.num_palettes,
            forall|t: int| 0 <= t < assignments@.len() ==> (#[trigger] assignments@[t]).unique_tile_index < self.config.max_unique_tiles,
        ensures
            r@.len() == assignments@.len(),
            forall|t: int|
                0 <= t < r@.len() ==> {
                    &&& (#[trigger] r@[t]).palette_index == assignments@[t].palette_index
                    &&& r@[t].tile_index == assignments@[t].unique_tile_index
                    &&& r@[t].raw_value == assignments@[t].palette_index * 1024 + assignments@[t].unique_tile_index
                },
    {
        let mut entries: Vec<TilemapEntry> = Vec::new();
        let mut t: usize = 0;
        while t < assignments.len()
            invariant
                self.config.wf(),
                forall|s: int| 0 <= s < assignments@.len() ==> (#[trigger] assignments@[s]).palette_index < self.config.num_palettes,
                forall|s: int| 0 <= s < assignments@.len() ==> (#[trigger] assignments@[s]).unique_tile_index < self.config.max_unique_tiles,
                t <= assignments@.len(),
                entries@.len() == t,
                forall|s: int|
                    0 <= s < t ==> {
                        &&& (#[trigger] entries@[s]).palette_index == assignments@[s].palette_index
                        &&& entries@[s].tile_index == assignments@[s].unique_tile_index
                        &&& entries@[s].raw_value == assignments@[s].palette_index * 1024 + assignments@[s].unique_tile_index
                    },
            decreases assignments@.len() - t,
        {
            let a = assignments[t];
            entries.push(TilemapEntry::new(a.palette_index, a.unique_tile_index));
            t = t + 1;
        }
        entries
    }
}

/// The colour that pixel `p` of a quantized tile takes through `colors`:
/// black when its index lies outside them.
pub open spec fn decoded_color(words: Seq<u16>, colors: Seq<ColorFrequency>, p: int) -> Oklab {
    let idx = nibble(words, p);
    if idx < colors.len() {
        colors[idx].color
    } else {
        Oklab { l: 0, a: 0, b: 0 }
    }
}

/// The deduplication features of a quantized tile: its pixels decoded
/// through `colors`, laid out in three planes (all L, then all a, then all b).
pub fn tile_color_features(words: &Vec<u16>, colors: &Vec<ColorFrequency>, size: usize) -> (r: Vec<i32>)
    requires
        size <= MAX_PIXELS,
        words@.len() >= (size + 3) / 4,
    ensures
        r@.len() == 3 * size,
        forall|p: int|
            0 <= p < size ==> {
                &&& #[trigger] r@[p] == decoded_color(words@, colors@, p).l
                &&& r@[size + p] == decoded_color(words@, colors@, p).a
                &&& r@[2 * size + p] == decoded_color(words@, colors@, p).b
            },
{
    let mut out: Vec<i32> = Vec::new();
    let mut plane: usize = 0;
    while plane < 3
        invariant
            size <= MAX_PIXELS,
            words@.len() >= (size + 3) / 4,
            plane <= 3,
            out@.len() == plane * size,
            forall|j: int|
                0 <= j < out@.len() ==> #[trigger] out@[j] == crate::palette::component(
                    decoded_color(words@, colors@, j % (size as int)),
                    j / (size as int),
                ),
        decreases 3 - plane,
    {
        let mut p: usize = 0;
        while p < size
            invariant
                size <= MAX_PIXELS,
                words@.len() >= (size + 3) / 4,
                plane < 3,
                p <= size,
                out@.len() == plane * size + p,
                forall|j: int|
                    0 <= j < out@.len() ==> #[trigger] out@[j] == crate::palette::component(
                        decoded_color(words@, colors@, j % (size as int)),
                        j / (size as int),
                    ),
            decreases size - p,
        {
            let idx = unpack_index(words, p) as usize;
            let c = if idx < colors.len() {
                colors[idx].color
            } else {
                Oklab::black()
            };
            let v = if plane == 0 {
                c.l
            } else if plane == 1 {
                c.a
            } else {
                c.b
            };
            proof {
                let j = plane * size + p;
                vstd::arithmetic::div_mod::lemma_fundamental_div_mod_converse(
                    j as int,
                    size as int,
                    plane as int,
                    p as int,
                );
            }
            out.push(v);
            p = p + 1;
        }
        proof {
            assert(plane * size + size == (plane + 1) * size) by (nonlinear_arith);
        }
        plane = plane + 1;
    }
    proof {
        assert forall|p: int| 0 <= p < size implies {
            &&& #[trigger] out@[p] == decoded_color(words@, colors@, p).l
            &&& out@[size + p] == decoded_color(words@, colors@, p).a
            &&& out@[2 * size + p] == decoded_color(words@, colors@, p).b
        } by {
            let n = size as int;
            vstd::arithmetic::div_mod::lemma_fundamental_div_mod_converse(p, n, 0, p);
            vstd::arithmetic::div_mod::lemma_fundamental_div_mod_converse(n + p, n, 1, p);
            vstd::arithmetic::div_mod::lemma_fundamental_div_mod_converse(2 * n + p, n, 2, p);
            assert(out@[p] == crate::palette::component(decoded_color(words@, colors@, p), 0));
            assert(out@[n + p] == crate::palette::component(decoded_color(words@, colors@, p), 1));
            assert(out@[2 * n + p] == crate::palette::component(decoded_color(words@, colors@, p), 2));
        }
    }
    out
}

} // verus!
