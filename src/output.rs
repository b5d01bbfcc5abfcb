//! The reconstructed image and the text files for the hardware: palettes,
//! tilemap and tiles, as lines of hexadecimal groups.
use vstd::prelude::*;
use crate::color::Oklab;
use crate::palette::{Palette, copy_colors};
use crate::quantize::{nibble, unpack_index};
use crate::tilemap::{TileAssignment, TilemapEntry, UniqueTile, unique_fit, copy_words};
use crate::tiling::{Config, ImageConverter, lemma_raster_decompose, lemma_sizes, MAX_PIXELS};

verus! {

/// ASCII space.
pub const SPACE: u8 = 32;

/// ASCII line feed.
pub const NEWLINE: u8 = 10;

/// The ASCII byte of the lowercase hexadecimal digit `d`.
pub open spec fn hex_digit(d: int) -> u8 {
    if d < 10 {
        (48 + d) as u8
    } else {
        (87 + d) as u8
    }
}

/// Two hexadecimal digits of a byte.
pub open spec fn hex_byte(v: u8) -> Seq<u8> {
    seq![hex_digit(v as int / 16), hex_digit(v as int % 16)]
}

/// Four hexadecimal digits of a word.
pub open spec fn hex_word(w: u16) -> Seq<u8> {
    let v = w as int;
    seq![hex_digit(v / 4096), hex_digit((v / 256) % 16), hex_digit((v / 16) % 16), hex_digit(v % 16)]
}

fn hex_digit_byte(d: u16) -> (r: u8)
    requires
        d < 16,
    ensures
        r == hex_digit(d as int),
{
    if d < 10 {
        48 + d as u8
    } else {
        87 + d as u8
    }
}

fn push_hex_byte(out: &mut Vec<u8>, v: u8)
    ensures
        final(out)@ == old(out)@ + hex_byte(v),
{
    let ghost start = out@;
    out.push(hex_digit_byte((v / 16) as u16));
    out.push(hex_digit_byte((v % 16) as u16));
    proof {
        assert(out@ =~= start + hex_byte(v));
    }
}

fn push_hex_word(out: &mut Vec<u8>, w: u16)
    ensures
        final(out)@ == old(out)@ + hex_word(w),
{
    let ghost start = out@;
    out.push(hex_digit_byte(w / 4096));
    out.push(hex_digit_byte((w / 256) % 16));
    out.push(hex_digit_byte((w / 16) % 16));
    out.push(hex_digit_byte(w % 16));
    proof {
        assert(out@ =~= start + hex_word(w));
    }
}

/// The tilemap file: each word as four hex digits and a space, with a line
/// break after every `width` words.
pub open spec fn tilemap_text(raws: Seq<u16>, width: int) -> Seq<u8>
    decreases raws.len(),
{
    if raws.len() == 0 {
        Seq::empty()
    } else {
        let i = raws.len() - 1;
        tilemap_text(raws.drop_last(), width) + hex_word(raws.last()) + seq![SPACE] + if i % width == width - 1 {
            seq![NEWLINE]
        } else {
            Seq::empty()
        }
    }
}

/// The colour groups of one palette line: `rrggbb` and a space per colour.
pub open spec fn colors_text(colors: Seq<(u8, u8, u8)>) -> Seq<u8>
    decreases colors.len(),
{
    if colors.len() == 0 {
        Seq::empty()
    } else {
        let c = colors.last();
        colors_text(colors.drop_last()) + hex_byte(c.0) + hex_byte(c.1) + hex_byte(c.2) + seq![SPACE]
    }
}

/// `k` groups `000000` and a space.
pub open spec fn padding_text(k: int) -> Seq<u8>
    decreases k,
{
    if k <= 0 {
        Seq::empty()
    } else {
        padding_text(k - 1) + seq![48u8, 48, 48, 48, 48, 48, SPACE]
    }
}

/// One palette line: its colours, padded with black groups up to `slots`.
pub open spec fn palette_line(colors: Seq<(u8, u8, u8)>, slots: int) -> Seq<u8> {
    colors_text(colors) + padding_text(slots - colors.len()) + seq![NEWLINE]
}

/// The palette file: one line per palette.
pub open spec fn palette_text(palettes: Seq<Seq<(u8, u8, u8)>>, slots: int) -> Seq<u8>
    decreases palettes.len(),
{
    if palettes.len() == 0 {
        Seq::empty()
    } else {
        palette_text(palettes.drop_last(), slots) + palette_line(palettes.last(), slots)
    }
}

/// Word `idx` of unique tile slot `slot`, zero past the tiles or their data.
pub open spec fn slot_word(tiles: Seq<Seq<u16>>, slot: int, idx: int) -> u16 {
    if 0 <= slot < tiles.len() && 0 <= idx < tiles[slot].len() {
        tiles[slot][idx]
    } else {
        0
    }
}

/// The first `k` groups of row `row` of the tiles file: for each slot, the
/// `per_row` words of that tile row, each as four hex digits and a space.
pub open spec fn tiles_row_text(tiles: Seq<Seq<u16>>, row: int, per_row: int, k: int) -> Seq<u8>
    decreases k,
{
    if k <= 0 {
        Seq::empty()
    } else {
        let j = k - 1;
        tiles_row_text(tiles, row, per_row, j) + hex_word(slot_word(tiles, j / per_row, row * per_row + j % per_row))
            + seq![SPACE]
    }
}

/// The tiles file: `rows` lines of `slots` × `per_row` groups.
pub open spec fn tiles_text(tiles: Seq<Seq<u16>>, rows: int, per_row: int, slots: int) -> Seq<u8>
    decreases rows,
{
    if rows <= 0 {
        Seq::empty()
    } else {
        tiles_text(tiles, rows - 1, per_row, slots) + tiles_row_text(tiles, rows - 1, per_row, slots * per_row)
            + seq![NEWLINE]
    }
}

pub open spec fn unique_words(unique: Seq<UniqueTile>) -> Seq<Seq<u16>> {
    unique.map_values(|u: UniqueTile| u.quantized@)
}

pub open spec fn raw_values(entries: Seq<TilemapEntry>) -> Seq<u16> {
    entries.map_values(|e: TilemapEntry| e.raw_value)
}

/// The colour of image position `g` as the tilemap draws it: the palette
/// colour of the index stored for that pixel, or black when the index lies
/// outside the palette.
pub open spec fn rendered_color(
    cfg: Config,
    unique: Seq<UniqueTile>,
    palettes: Seq<Palette>,
    assignments: Seq<TileAssignment>,
    g: int,
) -> Oklab {
    let a = assignments[cfg.raster_tile(g)];
    let idx = nibble(unique[a.unique_tile_index as int].quantized@, cfg.raster_pixel(g));
    let colors = palettes[a.palette_index as int].colors@;
    if idx < colors.len() {
        colors[idx].color
    } else {
        Oklab { l: 0, a: 0, b: 0 }
    }
}

/// Choices that name existing unique tiles and palettes, one per tile.
pub open spec fn assignments_fit(cfg: Config, unique: Seq<UniqueTile>, palettes: Seq<Palette>, assignments: Seq<TileAssignment>) -> bool {
    &&& assignments.len() == cfg.tile_count()
    &&& forall|t: int|
        0 <= t < assignments.len() ==> {
            &&& (#[trigger] assignments[t]).unique_tile_index < unique.len()
            &&& assignments[t].palette_index < palettes.len()
        }
}

/// The tilemap file of `entries`, lines `width` words long.
pub fn tilemap_file(entries: &Vec<TilemapEntry>, width: usize) -> (r: Vec<u8>)
    requires
        width >= 1,
    ensures
        r@ == tilemap_text(raw_values(entries@), width as int),
{
    let mut out: Vec<u8> = Vec::new();
    let mut i: usize = 0;
    while i < entries.len()
        invariant
            width >= 1,
            i <= entries@.len(),
            out@ == tilemap_text(raw_values(entries@).take(i as int), width as int),
        decreases entries@.len() - i,
    {
        let ghost before = out@;
        push_hex_word(&mut out, entries[i].raw_value);
        out.push(SPACE);
        if i % width == width - 1 {
            out.push(NEWLINE);
        }
        proof {
            let s = raw_values(entries@).take(i + 1);
            assert(s.drop_last() =~= raw_values(entries@).take(i as int));
            assert(s.last() == entries@[i as int].raw_value);
            assert(out@ =~= tilemap_text(s, width as int));
        }
        i = i + 1;
    }
    proof {
        assert(raw_values(entries@).take(i as int) =~= raw_values(entries@));
    }
    out
}

/// The palette file: for each palette a line of its colours as `rrggbb`
/// groups, padded with `000000` up to `slots` groups.
pub fn palette_file(palettes: &Vec<Vec<(u8, u8, u8)>>, slots: usize) -> (r: Vec<u8>)
    ensures
        r@ == palette_text(palettes@.map_values(|p: Vec<(u8, u8, u8)>| p@), slots as int),
{
    let ghost pv = palettes@.map_values(|p: Vec<(u8, u8, u8)>| p@);
    let mut out: Vec<u8> = Vec::new();
    let mut i: usize = 0;
    while i < palettes.len()
        invariant
            pv == palettes@.map_values(|p: Vec<(u8, u8, u8)>| p@),
            i <= palettes@.len(),
            out@ == palette_text(pv.take(i as int), slots as int),
        decreases palettes@.len() - i,
    {
        let colors = &palettes[i];
        let ghost line_start = out@;
        let mut j: usize = 0;
        while j < colors.len()
            invariant
                j <= colors@.len(),
                out@ == line_start + colors_text(colors@.take(j as int)),
            decreases colors@.len() - j,
        {
            let c = colors[j];
            push_hex_byte(&mut out, c.0);
            push_hex_byte(&mut out, c.1);
            push_hex_byte(&mut out, c.2);
            out.push(SPACE);
            proof {
                assert(colors@.take(j + 1).drop_last() =~= colors@.take(j as int));
                assert(colors@.take(j + 1).last() == c);
                assert(out@ =~= line_start + colors_text(colors@.take(j + 1)));
            }
            j = j + 1;
        }
        proof {
            assert(colors@.take(j as int) =~= colors@);
        }
        let ghost pad_start = out@;
        let mut k: usize = j;
        while k < slots
            invariant
                j <= k,
                k <= slots || k == j,
                out@ == pad_start + padding_text(k - j),
            decreases slots - k,
        {
            let ghost b = out@;
            out.push(48);
            out.push(48);
            out.push(48);
            out.push(48);
            out.push(48);
            out.push(48);
            out.push(SPACE);
            proof {
                assert(out@ =~= pad_start + padding_text(k + 1 - j));
            }
            k = k + 1;
        }
        proof {
            if slots <= j {
                assert(padding_text(slots - j) =~= padding_text(0));
            } else {
                assert(k == slots);
            }
            assert(padding_text(k - j) =~= padding_text(slots - colors@.len()));
        }
        out.push(NEWLINE);
        proof {
            let s = pv.take(i + 1);
            assert(s.drop_last() =~= pv.take(i as int));
            assert(s.last() == colors@);
            assert(out@ =~= palette_text(s, slots as int));
        }
        i = i + 1;
    }
    proof {
        assert(pv.take(i as int) =~= pv);
    }
    out
}

impl ImageConverter {
    /// The tiles file: for each tile row, a line that lists, for each of the
    /// `max_unique_tiles` slots, the words of that row of the slot's tile
    /// (`0000` past the unique tiles).
    pub fn tiles_file(&self, unique: &Vec<UniqueTile>) -> (r: Vec<u8>)
        requires
            self.config.wf(),
        ensures
            r@ == tiles_text(
                unique_words(unique@),
                self.config.tile_height as int,
                (self.config.tile_width + 3) / 4,
                self.config.max_unique_tiles as int,
            ),
    {
        let cfg = self.config;
        proof {
            lemma_sizes(cfg);
        }
        let ghost uw = unique_words(unique@);
        proof {
            assert(cfg.tile_width <= cfg.tile_size()) by (nonlinear_arith)
                requires
                    cfg.tile_height >= 1,
                    cfg.tile_size() == cfg.tile_width * cfg.tile_height,
            ;
        }
        let per_row = (cfg.tile_width as usize + 3) / 4;
        let slots = cfg.max_unique_tiles;
        let rows = cfg.tile_height as usize;
        proof {
            assert(rows * per_row <= 2 * MAX_PIXELS) by (nonlinear_arith)
                requires
                    rows == cfg.tile_height,
                    per_row <= cfg.tile_width,
                    cfg.tile_width * cfg.tile_height <= MAX_PIXELS,
            ;
            assert(slots * per_row <= 1024 * MAX_PIXELS) by (nonlinear_arith)
                requires
                    slots <= 1024,
                    per_row <= MAX_PIXELS,
            ;
        }
        let mut out: Vec<u8> = Vec::new();
        let mut row: usize = 0;
        while row < rows
            invariant
                uw == unique_words(unique@),
                per_row == (cfg.tile_width + 3) / 4,
                1 <= per_row <= MAX_PIXELS,
                rows * per_row <= 2 * MAX_PIXELS,
                slots <= 1024,
                slots * per_row <= 1024 * MAX_PIXELS,
                row <= rows,
                out@ == tiles_text(uw, row as int, per_row as int, slots as int),
            decreases rows - row,
        {
            let ghost line_start = out@;
            let total: u64 = slots as u64 * per_row as u64;
            let mut k: u64 = 0;
            while k < total
                invariant
                    uw == unique_words(unique@),
                    1 <= per_row <= MAX_PIXELS,
                    rows * per_row <= 2 * MAX_PIXELS,
                    row < rows,
                    slots * per_row <= 1024 * MAX_PIXELS,
                    total == slots * per_row,
                    k <= total,
                    out@ == line_start + tiles_row_text(uw, row as int, per_row as int, k as int),
                decreases total - k,
            {
                proof {
                    assert((k as int) / (per_row as int) < slots) by (nonlinear_arith)
                        requires
                            k < slots * per_row,
                            per_row >= 1,
                    ;
                }
                let slot = (k / per_row as u64) as usize;
                let col = (k % per_row as u64) as usize;
                proof {
                    assert(row * per_row + col < rows * per_row) by (nonlinear_arith)
                        requires
                            row < rows,
                            col < per_row,
                    ;
                }
                let idx = row * per_row + col;
                let word: u16 = if slot < unique.len() && idx < unique[slot].quantized.len() {
                    unique[slot].quantized[idx]
                } else {
                    0
                };
                proof {
                    assert(word == slot_word(uw, slot as int, idx as int));
                }
                let ghost prev = out@;
                push_hex_word(&mut out, word);
                out.push(SPACE);
                proof {
                    let kk = k as int;
                    let pr = per_row as int;
                    assert(slot as int == kk / pr);
                    assert(col as int == kk % pr);
                    assert(tiles_row_text(uw, row as int, pr, kk + 1) == tiles_row_text(uw, row as int, pr, kk)
                        + hex_word(slot_word(uw, kk / pr, row * pr + kk % pr)) + seq![SPACE]);
                    assert(out@ =~= prev + hex_word(word) + seq![SPACE]);
                    assert(out@ =~= line_start + tiles_row_text(uw, row as int, per_row as int, k + 1));
                }
                k = k + 1;
            }
            out.push(NEWLINE);
            proof {
                assert(out@ =~= tiles_text(uw, row + 1, per_row as int, slots as int));
            }
            row = row + 1;
        }
        out
    }

    /// The image that the tilemap draws, in row-major order.
    pub fn render(&self, unique: &Vec<UniqueTile>, palettes: &Vec<Palette>, assignments: &Vec<TileAssignment>) -> (r: Vec<Oklab>)
        requires
            self.config.wf(),
            unique_fit(unique@, self.config.tile_size()),
            assignments_fit(self.config, unique@, palettes@, assignments@),
        ensures
            r@.len() == self.config.pixel_count(),
            forall|g: int| 0 <= g < r@.len() ==> #[trigger] r@[g] == rendered_color(self.config, unique@, palettes@, assignments@, g),
    {
        let cfg = self.config;
        proof {
            lemma_sizes(cfg);
        }
        let width = (cfg.tilemap_width * cfg.tile_width) as usize;
        let height = (cfg.tilemap_height * cfg.tile_height) as usize;
        let n = width * height;
        let mut out: Vec<Oklab> = Vec::new();
        let mut g: usize = 0;
        while g < n
            invariant
                cfg == self.config,
                cfg.wf(),
                width == cfg.image_width(),
                n == cfg.pixel_count(),
                unique_fit(unique@, cfg.tile_size()),
                assignments_fit(cfg, unique@, palettes@, assignments@),
                g <= n,
                out@.len() == g,
                forall|h: int| 0 <= h < g ==> #[trigger] out@[h] == rendered_color(cfg, unique@, palettes@, assignments@, h),
            decreases n - g,
        {
            proof {
                lemma_raster_decompose(cfg, g as int);
                lemma_sizes(cfg);
            }
            let gx = g % width;
            let gy = g / width;
            let t = (gy / cfg.tile_height as usize) * cfg.tilemap_width as usize + gx / cfg.tile_width as usize;
            let p = (gy % cfg.tile_height as usize) * cfg.tile_width as usize + gx % cfg.tile_width as usize;
            proof {
                assert(t == cfg.raster_tile(g as int));
                assert(p == cfg.raster_pixel(g as int));
                assert(p / 4 < (cfg.tile_size() + 3) / 4);
            }
            let a = assignments[t];
            let idx = unpack_index(&unique[a.unique_tile_index].quantized, p) as usize;
            let colors = &palettes[a.palette_index].colors;
            let c = if idx < colors.len() {
                colors[idx].color
            } else {
                Oklab::black()
            };
            out.push(c);
            g = g + 1;
        }
        out
    }
}

/// A tile of the source image with its quantized indices.
#[derive(Clone, Debug)]
pub struct Tile {
    pub pixels: Vec<Oklab>,
    pub quantized: Vec<u16>,
}

/// Everything a conversion produced, for a structured dump.
#[derive(Clone, Debug)]
pub struct TilemapData {
    pub config: Config,
    pub tiles: Vec<Tile>,
    pub palettes: Vec<Palette>,
    pub tilemap: Vec<TilemapEntry>,
}

fn copy_pixels(pixels: &Vec<Oklab>) -> (r: Vec<Oklab>)
    ensures
        r@ == pixels@,
{
    let mut out: Vec<Oklab> = Vec::new();
    let mut i: usize = 0;
    while i < pixels.len()
        invariant
            i <= pixels@.len(),
            out@ == pixels@.take(i as int),
        decreases pixels@.len() - i,
    {
        out.push(pixels[i]);
        proof {
            assert(out@ =~= pixels@.take(i + 1));
        }
        i = i + 1;
    }
    proof {
        assert(out@ =~= pixels@);
    }
    out
}

impl ImageConverter {
    /// Gathers the results of a conversion: each source tile with its
    /// quantized indices, the palettes and the tilemap.
    pub fn create_tilemap_data(
        &self,
        raw_tiles: &Vec<Vec<Oklab>>,
        quantized: &Vec<Vec<u16>>,
        palettes: &Vec<Palette>,
        tilemap: &Vec<TilemapEntry>,
    ) -> (r: TilemapData)
        requires
            raw_tiles@.len() == quantized@.len(),
        ensures
            r.config == self.config,
            r.tiles@.len() == raw_tiles@.len(),
            forall|t: int|
                0 <= t < raw_tiles@.len() ==> (#[trigger] r.tiles@[t]).pixels@ == raw_tiles@[t]@
                    && r.tiles@[t].quantized@ == quantized@[t]@,
            r.palettes@.len() == palettes@.len(),
            forall|p: int| 0 <= p < palettes@.len() ==> (#[trigger] r.palettes@[p]).colors@ == palettes@[p].colors@,
            r.tilemap@ == tilemap@,
    {
        let mut tiles: Vec<Tile> = Vec::new();
        let mut t: usize = 0;
        while t < raw_tiles.len()
            invariant
                raw_tiles@.len() == quantized@.len(),
                t <= raw_tiles@.len(),
                tiles@.len() == t,
                forall|u: int|
                    0 <= u < t ==> (#[trigger] tiles@[u]).pixels@ == raw_tiles@[u]@ && tiles@[u].quantized@
                        == quantized@[u]@,
            decreases raw_tiles@.len() - t,
        {
            tiles.push(Tile { pixels: copy_pixels(&raw_tiles[t]), quantized: copy_words(&quantized[t]) });
            t = t + 1;
        }
        let mut pals: Vec<Palette> = Vec::new();
        let mut p: usize = 0;
        while p < palettes.len()
            invariant
                p <= palettes@.len(),
                pals@.len() == p,
                forall|q: int| 0 <= q < p ==> (#[trigger] pals@[q]).colors@ == palettes@[q].colors@,
            decreases palettes@.len() - p,
        {
            pals.push(Palette { colors: copy_colors(&palettes[p].colors) });
            p = p + 1;
        }
        let mut entries: Vec<TilemapEntry> = Vec::new();
        let mut i: usize = 0;
        while i < tilemap.len()
            invariant
                i <= tilemap@.len(),
                entries@ == tilemap@.take(i as int),
            decreases tilemap@.len() - i,
        {
            entries.push(tilemap[i]);
            proof {
                assert(entries@ =~= tilemap@.take(i + 1));
            }
            i = i + 1;
        }
        proof {
            assert(entries@ =~= tilemap@);
        }
        TilemapData { config: self.config, tiles, palettes: pals, tilemap: entries }
    }
}

} // verus!
