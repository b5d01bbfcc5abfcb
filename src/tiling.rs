//! The conversion settings, the errors of the pipeline and the partition of
//! an image into tiles.
use vstd::prelude::*;
use crate::color::{Oklab, pixels_wf, DITHER_FACTOR_LIMIT};

verus! {

/// Largest number of pixels of an image.
pub const MAX_PIXELS: u32 = 0x400_0000;

/// Largest number of palettes (the palette index of a tilemap word has six bits).
pub const MAX_PALETTES: usize = 64;

/// Largest number of unique tiles (the tile index of a tilemap word has ten bits).
pub const MAX_UNIQUE_TILES: usize = 1024;

/// Largest number of colours of a palette (indices are four bits wide).
pub const MAX_COLORS_PER_PALETTE: usize = 16;

/// Settings of one conversion.
#[derive(Clone, Copy, Debug, PartialEq, Eq, Structural)]
pub struct Config {
    /// Tile width in pixels.
    pub tile_width: u32,
    /// Tile height in pixels.
    pub tile_height: u32,
    /// Width of the tilemap in tiles.
    pub tilemap_width: u32,
    /// Height of the tilemap in tiles.
    pub tilemap_height: u32,
    /// Number of palettes to generate.
    pub num_palettes: usize,
    /// Largest number of colours of a palette.
    pub colors_per_palette: usize,
    /// Largest number of unique tiles.
    pub max_unique_tiles: usize,
    /// Whether quantization diffuses its error.
    pub dithering: bool,
    /// Scale of the diffused error, in units of `1 / DITHER_FACTOR_ONE`.
    pub dither_factor: u32,
    /// Colours closer than this (in colour units) count as one.
    pub color_similarity_threshold: u32,
}

impl Config {
    pub open spec fn tile_size(self) -> int {
        self.tile_width * self.tile_height
    }

    pub open spec fn tile_count(self) -> int {
        self.tilemap_width * self.tilemap_height
    }

    pub open spec fn image_width(self) -> int {
        self.tilemap_width * self.tile_width
    }

    pub open spec fn image_height(self) -> int {
        self.tilemap_height * self.tile_height
    }

    pub open spec fn pixel_count(self) -> int {
        self.image_width() * self.image_height()
    }

    /// The settings that the pipeline accepts.
    pub open spec fn wf(self) -> bool {
        &&& 1 <= self.tile_width
        &&& 1 <= self.tile_height
        &&& 1 <= self.tilemap_width
        &&& 1 <= self.tilemap_height
        &&& self.pixel_count() <= MAX_PIXELS
        &&& 1 <= self.num_palettes <= MAX_PALETTES
        &&& 1 <= self.colors_per_palette <= MAX_COLORS_PER_PALETTE
        &&& 1 <= self.max_unique_tiles <= MAX_UNIQUE_TILES
        &&& self.dither_factor <= DITHER_FACTOR_LIMIT
    }

    /// Column of tile `t` in the tilemap.
    pub open spec fn tile_column(self, t: int) -> int {
        t % (self.tilemap_width as int)
    }

    /// Row of tile `t` in the tilemap.
    pub open spec fn tile_row(self, t: int) -> int {
        t / (self.tilemap_width as int)
    }

    /// Image column of pixel `p` of tile `t`.
    pub open spec fn pixel_x(self, t: int, p: int) -> int {
        self.tile_column(t) * self.tile_width + p % (self.tile_width as int)
    }

    /// Image row of pixel `p` of tile `t`.
    pub open spec fn pixel_y(self, t: int, p: int) -> int {
        self.tile_row(t) * self.tile_height + p / (self.tile_width as int)
    }

    /// Row-major position in the image of pixel `p` of tile `t`.
    pub open spec fn raster_index(self, t: int, p: int) -> int {
        self.pixel_y(t, p) * self.image_width() + self.pixel_x(t, p)
    }

    /// Tile holding the pixel at row-major image position `g`.
    pub open spec fn raster_tile(self, g: int) -> int {
        let gx = g % self.image_width();
        let gy = g / self.image_width();
        (gy / (self.tile_height as int)) * self.tilemap_width + gx / (self.tile_width as int)
    }

    /// Position within its tile of the pixel at row-major image position `g`.
    pub open spec fn raster_pixel(self, g: int) -> int {
        let gx = g % self.image_width();
        let gy = g / self.image_width();
        (gy % (self.tile_height as int)) * self.tile_width + gx % (self.tile_width as int)
    }

    /// Whether the settings are accepted (see `wf`).
    pub fn is_valid(&self) -> (r: bool)
        ensures
            r == self.wf(),
    {
        if self.tile_width < 1 || self.tile_height < 1 || self.tilemap_width < 1
            || self.tilemap_height < 1 {
            return false;
        }
        let mw = self.tilemap_width as u64;
        let tw = self.tile_width as u64;
        let mh = self.tilemap_height as u64;
        let th = self.tile_height as u64;
        proof {
            lemma_product_bound(mw as int, tw as int);
            lemma_product_bound(mh as int, th as int);
        }
        let w = mw * tw;
        let h = mh * th;
        if w > MAX_PIXELS as u64 || h > MAX_PIXELS as u64 {
            proof {
                assert(self.pixel_count() > MAX_PIXELS) by (nonlinear_arith)
                    requires
                        self.pixel_count() == w * h,
                        w >= 1,
                        h >= 1,
                        w > MAX_PIXELS || h > MAX_PIXELS,
                ;
            }
            return false;
        }
        proof {
            assert(w * h <= 0x400_0000 * 0x400_0000) by (nonlinear_arith)
                requires
                    0 <= w <= 0x400_0000,
                    0 <= h <= 0x400_0000,
            ;
        }
        if w * h > MAX_PIXELS as u64 {
            return false;
        }
        1 <= self.num_palettes && self.num_palettes <= MAX_PALETTES && 1 <= self.colors_per_palette
            && self.colors_per_palette <= MAX_COLORS_PER_PALETTE && 1 <= self.max_unique_tiles
            && self.max_unique_tiles <= MAX_UNIQUE_TILES && self.dither_factor
            <= DITHER_FACTOR_LIMIT
    }
}

impl Default for Config {
    /// Tiles of 8 × 8 pixels on a 32 × 32 tilemap, 32 palettes of 16 colours,
    /// up to 1024 unique tiles, dithering at three quarters, and colours
    /// closer than 328 units (about half a hundredth) counted as one.
    fn default() -> (r: Self)
        ensures
            r == (Config {
                tile_width: 8,
                tile_height: 8,
                tilemap_width: 32,
                tilemap_height: 32,
                num_palettes: 32,
                colors_per_palette: 16,
                max_unique_tiles: 1024,
                dithering: true,
                dither_factor: 192,
                color_similarity_threshold: 328,
            }),
            r.wf(),
    {
        let r = Config {
            tile_width: 8,
            tile_height: 8,
            tilemap_width: 32,
            tilemap_height: 32,
            num_palettes: 32,
            colors_per_palette: 16,
            max_unique_tiles: 1024,
            dithering: true,
            dither_factor: 192,
            color_similarity_threshold: 328,
        };
        proof {
            assert(r.image_width() == 256);
            assert(r.image_height() == 256);
            assert(r.pixel_count() == 65536) by (nonlinear_arith)
                requires
                    r.image_width() == 256,
                    r.image_height() == 256,
                    r.pixel_count() == r.image_width() * r.image_height(),
            ;
        }
        r
    }
}

/// What makes a conversion fail.
#[derive(Clone, Copy, Debug, PartialEq, Eq, Structural)]
pub enum ConvertError {
    /// The image size is not a multiple of the tile size.
    InvalidDimensions { width: u32, height: u32 },
    /// The image size is not the tilemap size times the tile size.
    DimensionMismatch { width: u32, height: u32, expected_width: u32, expected_height: u32 },
    /// A clustering gave a list of assignments of the wrong length.
    AssignmentCountMismatch { expected: usize, found: usize },
    /// A clustering assigned item `item` to cluster `cluster`, beyond the
    /// number of clusters asked for.
    ClusterOutOfRange { item: usize, cluster: usize },
}

proof fn lemma_product_bound(x: int, y: int)
    requires
        1 <= x <= 0xffff_ffff,
        1 <= y <= 0xffff_ffff,
    ensures
        1 <= x * y <= 0xffff_fffe_0000_0001,
{
    assert(1 <= x * y <= 0xffff_ffff * 0xffff_ffff) by (nonlinear_arith)
        requires
            1 <= x <= 0xffff_ffff,
            1 <= y <= 0xffff_ffff,
    ;
}

/// The sizes that well-formed settings give.
pub proof fn lemma_sizes(cfg: Config)
    requires
        cfg.wf(),
    ensures
        1 <= cfg.tile_size() <= cfg.pixel_count(),
        1 <= cfg.tile_count() <= cfg.pixel_count(),
        1 <= cfg.image_width() <= cfg.pixel_count(),
        1 <= cfg.image_height() <= cfg.pixel_count(),
        cfg.pixel_count() == cfg.tile_count() * cfg.tile_size(),
        cfg.pixel_count() <= MAX_PIXELS,
{
    let mw = cfg.tilemap_width as int;
    let mh = cfg.tilemap_height as int;
    let tw = cfg.tile_width as int;
    let th = cfg.tile_height as int;
    assert(1 <= tw * th <= (mw * tw) * (mh * th)) by (nonlinear_arith)
        requires
            mw >= 1,
            mh >= 1,
            tw >= 1,
            th >= 1,
    ;
    assert(1 <= mw * mh <= (mw * tw) * (mh * th)) by (nonlinear_arith)
        requires
            mw >= 1,
            mh >= 1,
            tw >= 1,
            th >= 1,
    ;
    assert(1 <= mw * tw <= (mw * tw) * (mh * th)) by (nonlinear_arith)
        requires
            mw >= 1,
            mh >= 1,
            tw >= 1,
            th >= 1,
    ;
    assert(1 <= mh * th <= (mw * tw) * (mh * th)) by (nonlinear_arith)
        requires
            mw >= 1,
            mh >= 1,
            tw >= 1,
            th >= 1,
    ;
    assert((mw * tw) * (mh * th) == (mw * mh) * (tw * th)) by (nonlinear_arith);
}

pub proof fn lemma_geometry(cfg: Config, t: int, p: int)
    requires
        cfg.wf(),
        0 <= t < cfg.tile_count(),
        0 <= p < cfg.tile_size(),
    ensures
        0 <= cfg.pixel_x(t, p) < cfg.image_width(),
        0 <= cfg.pixel_y(t, p) < cfg.image_height(),
        0 <= cfg.raster_index(t, p) < cfg.pixel_count(),
        cfg.tile_size() <= cfg.pixel_count(),
        cfg.tile_count() <= cfg.pixel_count(),
        cfg.pixel_count() <= MAX_PIXELS,
{
    let mw = cfg.tilemap_width as int;
    let mh = cfg.tilemap_height as int;
    let tw = cfg.tile_width as int;
    let th = cfg.tile_height as int;
    let tx = t % mw;
    let ty = t / mw;
    let px = p % tw;
    let py = p / tw;
    assert(0 <= ty < mh) by (nonlinear_arith)
        requires
            0 <= t < mw * mh,
            mw >= 1,
            ty == t / mw,
    ;
    assert(0 <= py < th) by (nonlinear_arith)
        requires
            0 <= p < tw * th,
            tw >= 1,
            py == p / tw,
    ;
    assert(0 <= tx < mw);
    assert(0 <= px < tw);
    assert(0 <= tx * tw + px < mw * tw) by (nonlinear_arith)
        requires
            0 <= tx < mw,
            0 <= px < tw,
    ;
    assert(0 <= ty * th + py < mh * th) by (nonlinear_arith)
        requires
            0 <= ty < mh,
            0 <= py < th,
    ;
    let x = tx * tw + px;
    let y = ty * th + py;
    let w = mw * tw;
    let h = mh * th;
    assert(0 <= y * w + x < w * h) by (nonlinear_arith)
        requires
            0 <= x < w,
            0 <= y < h,
    ;
    assert(tw * th <= w * h) by (nonlinear_arith)
        requires
            w == mw * tw,
            h == mh * th,
            mw >= 1,
            mh >= 1,
            tw >= 1,
            th >= 1,
    ;
    assert(mw * mh <= w * h) by (nonlinear_arith)
        requires
            w == mw * tw,
            h == mh * th,
            mw >= 1,
            mh >= 1,
            tw >= 1,
            th >= 1,
    ;
}

proof fn lemma_div_mod_is(i: int, w: int, q: int, r: int)
    requires
        w >= 1,
        0 <= r < w,
        i == q * w + r,
    ensures
        i % w == r,
        i / w == q,
{
    vstd::arithmetic::div_mod::lemma_fundamental_div_mod_converse(i, w, q, r);
}

proof fn lemma_split_at(i: int, w: int)
    requires
        w >= 1,
        i >= 0,
    ensures
        i == (i / w) * w + i % w,
        0 <= i % w < w,
        0 <= i / w,
{
    vstd::arithmetic::div_mod::lemma_fundamental_div_mod(i, w);
    vstd::arithmetic::div_mod::lemma_mod_bound(i, w);
    vstd::arithmetic::div_mod::lemma_div_pos_is_pos(i, w);
    assert(w * (i / w) == (i / w) * w) by (nonlinear_arith);
}

/// Each image position lies in one tile, at one place of it.
pub proof fn lemma_raster_decompose(cfg: Config, g: int)
    requires
        cfg.wf(),
        0 <= g < cfg.pixel_count(),
    ensures
        0 <= cfg.raster_tile(g) < cfg.tile_count(),
        0 <= cfg.raster_pixel(g) < cfg.tile_size(),
        cfg.raster_index(cfg.raster_tile(g), cfg.raster_pixel(g)) == g,
        g % cfg.image_width() == cfg.pixel_x(cfg.raster_tile(g), cfg.raster_pixel(g)),
        g / cfg.image_width() == cfg.pixel_y(cfg.raster_tile(g), cfg.raster_pixel(g)),
        0 <= g % cfg.image_width() < cfg.image_width(),
        0 <= g / cfg.image_width() < cfg.image_height(),
{
    lemma_sizes(cfg);
    let w = cfg.image_width();
    let h = cfg.image_height();
    let mw = cfg.tilemap_width as int;
    let mh = cfg.tilemap_height as int;
    let tw = cfg.tile_width as int;
    let th = cfg.tile_height as int;
    lemma_split_at(g, w);
    let gx = g % w;
    let gy = g / w;
    assert(gy < h) by (nonlinear_arith)
        requires
            g == gy * w + gx,
            0 <= gx,
            g < w * h,
            w >= 1,
    ;
    lemma_split_at(gx, tw);
    lemma_split_at(gy, th);
    let tx = gx / tw;
    let px = gx % tw;
    let ty = gy / th;
    let py = gy % th;
    assert(tx < mw) by (nonlinear_arith)
        requires
            gx == tx * tw + px,
            0 <= px,
            gx < w,
            w == mw * tw,
            tw >= 1,
    ;
    assert(ty < mh) by (nonlinear_arith)
        requires
            gy == ty * th + py,
            0 <= py,
            gy < h,
            h == mh * th,
            th >= 1,
    ;
    let t = ty * mw + tx;
    let p = py * tw + px;
    assert(t < mw * mh) by (nonlinear_arith)
        requires
            t == ty * mw + tx,
            0 <= tx < mw,
            0 <= ty < mh,
    ;
    assert(p < tw * th) by (nonlinear_arith)
        requires
            p == py * tw + px,
            0 <= px < tw,
            0 <= py < th,
    ;
    assert(0 <= t) by (nonlinear_arith)
        requires
            t == ty * mw + tx,
            0 <= tx,
            0 <= ty,
            mw >= 1,
    ;
    assert(0 <= p) by (nonlinear_arith)
        requires
            p == py * tw + px,
            0 <= px,
            0 <= py,
            tw >= 1,
    ;
    lemma_div_mod_is(t, mw, ty, tx);
    lemma_div_mod_is(p, tw, py, px);
    assert(cfg.raster_tile(g) == t);
    assert(cfg.raster_pixel(g) == p);
}

/// The image position of pixel `p` of tile `t` lies in tile `t`, at place `p`.
pub proof fn lemma_raster_compose(cfg: Config, t: int, p: int)
    requires
        cfg.wf(),
        0 <= t < cfg.tile_count(),
        0 <= p < cfg.tile_size(),
    ensures
        0 <= cfg.raster_index(t, p) < cfg.pixel_count(),
        cfg.raster_tile(cfg.raster_index(t, p)) == t,
        cfg.raster_pixel(cfg.raster_index(t, p)) == p,
{
    lemma_sizes(cfg);
    lemma_geometry(cfg, t, p);
    let w = cfg.image_width();
    let mw = cfg.tilemap_width as int;
    let tw = cfg.tile_width as int;
    let th = cfg.tile_height as int;
    let g = cfg.raster_index(t, p);
    let x = cfg.pixel_x(t, p);
    let y = cfg.pixel_y(t, p);
    lemma_div_mod_is(g, w, y, x);
    lemma_split_at(t, mw);
    lemma_split_at(p, tw);
    let tx = t % mw;
    let ty = t / mw;
    let px = p % tw;
    let py = p / tw;
    assert(py < th) by (nonlinear_arith)
        requires
            p == py * tw + px,
            0 <= px,
            p < tw * th,
            tw >= 1,
    ;
    lemma_div_mod_is(x, tw, tx, px);
    lemma_div_mod_is(y, th, ty, py);
}

/// The tiles of a conversion: tile `t` lists, row by row, the pixels of the
/// `t`-th tile of the tilemap in row-major order.
pub open spec fn is_tiling(cfg: Config, pixels: Seq<Oklab>, tiles: Seq<Seq<Oklab>>) -> bool {
    &&& tiles.len() == cfg.tile_count()
    &&& forall|t: int| 0 <= t < tiles.len() ==> (#[trigger] tiles[t]).len() == cfg.tile_size()
    &&& forall|t: int, p: int|
        0 <= t < tiles.len() && 0 <= p < cfg.tile_size() ==> #[trigger] tiles[t][p]
            == pixels[cfg.raster_index(t, p)]
}

/// Tiles that fit the settings: `tile_count` tiles of `tile_size`
/// well-formed pixels each.
pub open spec fn tiles_fit(cfg: Config, tiles: Seq<Vec<Oklab>>) -> bool {
    &&& tiles.len() == cfg.tile_count()
    &&& forall|t: int| 0 <= t < tiles.len() ==> (#[trigger] tiles[t])@.len() == cfg.tile_size()
    &&& forall|t: int| 0 <= t < tiles.len() ==> pixels_wf((#[trigger] tiles[t])@)
}

pub open spec fn views(tiles: Seq<Vec<Oklab>>) -> Seq<Seq<Oklab>> {
    tiles.map_values(|v: Vec<Oklab>| v@)
}

/// The pipeline under one set of settings.
pub struct ImageConverter {
    pub config: Config,
}

impl ImageConverter {
    pub fn new(config: Config) -> (r: Self)
        ensures
            r.config == config,
    {
        ImageConverter { config }
    }

    /// Checks that an image of `width` × `height` pixels is made of whole
    /// tiles and matches the tilemap size.
    pub fn check_dimensions(&self, width: u32, height: u32) -> (r: Result<(), ConvertError>)
        requires
            self.config.wf(),
        ensures
            r matches Ok(_) <==> width == self.config.image_width() && height
                == self.config.image_height(),
            r matches Err(ConvertError::InvalidDimensions { .. }) <==> (width
                % self.config.tile_width != 0 || height % self.config.tile_height != 0),
            r matches Err(e) ==> e == (if width % self.config.tile_width != 0 || height
                % self.config.tile_height != 0 {
                ConvertError::InvalidDimensions { width, height }
            } else {
                ConvertError::DimensionMismatch {
                    width,
                    height,
                    expected_width: self.config.image_width() as u32,
                    expected_height: self.config.image_height() as u32,
                }
            }),
    {
        let cfg = self.config;
        if width % cfg.tile_width != 0 || height % cfg.tile_height != 0 {
            proof {
                if width == cfg.image_width() {
                    vstd::arithmetic::div_mod::lemma_mod_multiples_basic(
                        cfg.tilemap_width as int,
                        cfg.tile_width as int,
                    );
                }
                if height == cfg.image_height() {
                    vstd::arithmetic::div_mod::lemma_mod_multiples_basic(
                        cfg.tilemap_height as int,
                        cfg.tile_height as int,
                    );
                }
            }
            return Err(ConvertError::InvalidDimensions { width, height });
        }
        proof {
            lemma_sizes(cfg);
            assert(cfg.image_width() <= cfg.pixel_count()) by (nonlinear_arith)
                requires
                    cfg.pixel_count() == cfg.image_width() * cfg.image_height(),
                    cfg.image_height() >= 1,
                    cfg.image_width() >= 0,
            ;
            assert(cfg.image_height() <= cfg.pixel_count()) by (nonlinear_arith)
                requires
                    cfg.pixel_count() == cfg.image_width() * cfg.image_height(),
                    cfg.image_width() >= 1,
                    cfg.image_height() >= 0,
            ;
            assert(cfg.image_height() >= 1) by (nonlinear_arith)
                requires
                    cfg.tilemap_height >= 1,
                    cfg.tile_height >= 1,
                    cfg.image_height() == cfg.tilemap_height * cfg.tile_height,
            ;
            assert(cfg.image_width() >= 1) by (nonlinear_arith)
                requires
                    cfg.tilemap_width >= 1,
                    cfg.tile_width >= 1,
                    cfg.image_width() == cfg.tilemap_width * cfg.tile_width,
            ;
        }
        let expected_width = cfg.tilemap_width * cfg.tile_width;
        let expected_height = cfg.tilemap_height * cfg.tile_height;
        if width != expected_width || height != expected_height {
            return Err(
                ConvertError::DimensionMismatch { width, height, expected_width, expected_height },
            );
        }
        Ok(())
    }

    /// Splits a row-major image of `width` × `height` pixels into the tiles
    /// of the tilemap.
    pub fn extract_tiles(&self, pixels: &Vec<Oklab>, width: u32, height: u32) -> (r: Result<
        Vec<Vec<Oklab>>,
        ConvertError,
    >)
        requires
            self.config.wf(),
            pixels@.len() == width * height,
            pixels_wf(pixels@),
        ensures
            r matches Ok(_) <==> width == self.config.image_width() && height
                == self.config.image_height(),
            r matches Err(ConvertError::InvalidDimensions { .. }) <==> (width
                % self.config.tile_width != 0 || height % self.config.tile_height != 0),
            r matches Err(e) ==> e == (if width % self.config.tile_width != 0 || height
                % self.config.tile_height != 0 {
                ConvertError::InvalidDimensions { width, height }
            } else {
                ConvertError::DimensionMismatch {
                    width,
                    height,
                    expected_width: self.config.image_width() as u32,
                    expected_height: self.config.image_height() as u32,
                }
            }),
            r matches Ok(tiles) ==> is_tiling(self.config, pixels@, views(tiles@)) && tiles_fit(
                self.config,
                tiles@,
            ),
    {
        match self.check_dimensions(width, height) {
            Err(e) => {
                return Err(e);
            },
            Ok(()) => {},
        }
        let cfg = self.config;
        proof {
            lemma_sizes(cfg);
        }
        let tile_count = (cfg.tilemap_width * cfg.tilemap_height) as usize;
        let tile_size = (cfg.tile_width * cfg.tile_height) as usize;
        let mut tiles: Vec<Vec<Oklab>> = Vec::new();
        let mut t: usize = 0;
        while t < tile_count
            invariant
                cfg == self.config,
                cfg.wf(),
                width == cfg.image_width(),
                height == cfg.image_height(),
                pixels@.len() == cfg.pixel_count(),
                pixels_wf(pixels@),
                tile_count == cfg.tile_count(),
                tile_size == cfg.tile_size(),
                tile_count <= MAX_PIXELS,
                tile_size <= MAX_PIXELS,
                t <= tile_count,
                tiles@.len() == t,
                forall|u: int| 0 <= u < t ==> (#[trigger] tiles@[u])@.len() == cfg.tile_size(),
                forall|u: int| 0 <= u < t ==> pixels_wf((#[trigger] tiles@[u])@),
                forall|u: int, p: int|
                    0 <= u < t && 0 <= p < cfg.tile_size() ==> #[trigger] tiles@[u]@[p]
                        == pixels@[cfg.raster_index(u, p)],
            decreases tile_count - t,
        {
            let tx = (t as u32) % cfg.tilemap_width;
            let ty = (t as u32) / cfg.tilemap_width;
            let mut tile: Vec<Oklab> = Vec::new();
            let mut p: usize = 0;
            while p < tile_size
                invariant
                    cfg == self.config,
                    cfg.wf(),
                    width == cfg.image_width(),
                    pixels@.len() == cfg.pixel_count(),
                    pixels_wf(pixels@),
                    tile_count == cfg.tile_count(),
                    tile_size == cfg.tile_size(),
                    tile_count <= MAX_PIXELS,
                    tile_size <= MAX_PIXELS,
                    t < tile_count,
                    tx == cfg.tile_column(t as int),
                    ty == cfg.tile_row(t as int),
                    p <= tile_size,
                    tile@.len() == p,
                    pixels_wf(tile@),
                    forall|q: int| 0 <= q < p ==> #[trigger] tile@[q] == pixels@[cfg.raster_index(t as int, q)],
                decreases tile_size - p,
            {
                proof {
                    lemma_geometry(cfg, t as int, p as int);
                }
                let px = (p as u32) % cfg.tile_width;
                let py = (p as u32) / cfg.tile_width;
                proof {
                    assert(py as int == (p as int) / (cfg.tile_width as int));
                    assert(px as int == (p as int) % (cfg.tile_width as int));
                    assert(cfg.pixel_y(t as int, p as int) == ty * cfg.tile_height + py);
                    assert(cfg.pixel_x(t as int, p as int) == tx * cfg.tile_width + px);
                    lemma_sizes(cfg);
                }
                let x = tx * cfg.tile_width + px;
                let y = ty * cfg.tile_height + py;
                let index = y as usize * width as usize + x as usize;
                tile.push(pixels[index]);
                p = p + 1;
            }
            tiles.push(tile);
            t = t + 1;
        }
        proof {
            assert(views(tiles@).len() == tiles@.len());
            assert forall|u: int, p: int|
                0 <= u < views(tiles@).len() && 0 <= p < cfg.tile_size() implies #[trigger] views(
                tiles@,
            )[u][p] == pixels@[cfg.raster_index(u, p)] by {
                assert(views(tiles@)[u] == tiles@[u]@);
            }
            assert forall|u: int| 0 <= u < views(tiles@).len() implies (#[trigger] views(
                tiles@,
            )[u]).len() == cfg.tile_size() by {
                assert(views(tiles@)[u] == tiles@[u]@);
            }
        }
        Ok(tiles)
    }
}

} // verus!
