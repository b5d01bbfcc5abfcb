//! State of the emulated video display processor: its frame buffer with a
//! moving test pattern, its video memory and its tilemap registers.
use vstd::prelude::*;

verus! {

/// Bytes of video memory.
pub const VRAM_BYTES: usize = 0x80_0000;

/// Largest frame buffer accepted, in bytes.
pub const MAX_FRAME_BYTES: usize = 0x1000_0000;

/// Metadata of one tilemap, packed into a register word: bits 0–2 the width
/// as a power of two, bits 3–15 the tilemap page address, bits 16–18 the
/// extra stride as a power of two, bits 19–31 the texture page address.
#[derive(Clone, Copy, Debug, PartialEq, Eq, Structural)]
pub struct TilemapMetadata(pub u64);

impl TilemapMetadata {
    /// Width in tiles, as a power of two.
    pub fn width(&self) -> (r: u32)
        ensures
            r == self.0 % 8,
    {
        let v = self.0 & 7;
        proof {
            let bits = self.0;
            assert(bits & 7 == bits % 8) by (bit_vector);
        }
        v as u32
    }

    /// Page (of 2048 words) of the tilemap in video memory.
    pub fn tilemap_address(&self) -> (r: u32)
        ensures
            r == (self.0 / 8) % 8192,
    {
        let v = (self.0 >> 3) & 0x1fff;
        proof {
            let bits = self.0;
            assert((bits >> 3) & 0x1fff == (bits / 8) % 8192) by (bit_vector);
        }
        v as u32
    }

    /// Extra, undisplayed width as a power of two.
    pub fn extra_stride(&self) -> (r: u32)
        ensures
            r == (self.0 / 0x1_0000) % 8,
    {
        let v = (self.0 >> 16) & 7;
        proof {
            let bits = self.0;
            assert((bits >> 16) & 7 == (bits / 0x1_0000) % 8) by (bit_vector);
        }
        v as u32
    }

    /// Page (of 2048 words) of the texture in video memory.
    pub fn texture_address(&self) -> (r: u32)
        ensures
            r == (self.0 / 0x8_0000) % 8192,
    {
        let v = (self.0 >> 19) & 0x1fff;
        proof {
            let bits = self.0;
            assert((bits >> 19) & 0x1fff == (bits / 0x8_0000) % 8192) by (bit_vector);
        }
        v as u32
    }

    /// Sets the width (a power of two) to the low three bits of `v`.
    pub fn set_width(&mut self, v: u32)
        ensures
            final(self).0 % 8 == v % 8,
            final(self).0 / 8 == old(self).0 / 8,
    {
        let bits = self.0;
        let vv = v as u64;
        let new_bits = (bits & !0x7u64) | (vv & 0x7);
        proof {
            assert(new_bits % 8 == vv % 8) by (bit_vector)
                requires
                    new_bits == (bits & !0x7u64) | (vv & 0x7),
            ;
            assert(new_bits / 8 == bits / 8) by (bit_vector)
                requires
                    new_bits == (bits & !0x7u64) | (vv & 0x7),
            ;
        }
        self.0 = new_bits;
    }

    /// Sets the tilemap page to the low thirteen bits of `v`.
    pub fn set_tilemap_address(&mut self, v: u32)
        ensures
            (final(self).0 / 8) % 8192 == v % 8192,
            final(self).0 % 8 == old(self).0 % 8,
            final(self).0 / 0x1_0000 == old(self).0 / 0x1_0000,
    {
        let bits = self.0;
        let vv = v as u64;
        let new_bits = (bits & !(0x1fffu64 << 3u64)) | ((vv & 0x1fff) << 3u64);
        proof {
            assert(new_bits % 8 == bits % 8) by (bit_vector)
                requires
                    new_bits == (bits & !(0x1fffu64 << 3u64)) | ((vv & 0x1fff) << 3u64),
            ;
            assert((new_bits / 8) % 8192 == vv % 8192) by (bit_vector)
                requires
                    new_bits == (bits & !(0x1fffu64 << 3u64)) | ((vv & 0x1fff) << 3u64),
            ;
            assert(new_bits / 0x1_0000 == bits / 0x1_0000) by (bit_vector)
                requires
                    new_bits == (bits & !(0x1fffu64 << 3u64)) | ((vv & 0x1fff) << 3u64),
            ;
        }
        self.0 = new_bits;
    }

    /// Sets the extra stride (a power of two) to the low three bits of `v`.
    pub fn set_extra_stride(&mut self, v: u32)
        ensures
            (final(self).0 / 0x1_0000) % 8 == v % 8,
            final(self).0 % 0x1_0000 == old(self).0 % 0x1_0000,
            final(self).0 / 0x8_0000 == old(self).0 / 0x8_0000,
    {
        let bits = self.0;
        let vv = v as u64;
        let new_bits = (bits & !(0x7u64 << 16u64)) | ((vv & 0x7) << 16u64);
        proof {
            assert(new_bits % 0x1_0000 == bits % 0x1_0000) by (bit_vector)
                requires
                    new_bits == (bits & !(0x7u64 << 16u64)) | ((vv & 0x7) << 16u64),
            ;
            assert((new_bits / 65536) % 8 == vv % 8) by (bit_vector)
                requires
                    new_bits == (bits & !(0x7u64 << 16u64)) | ((vv & 0x7) << 16u64),
            ;
            assert(new_bits / 0x8_0000 == bits / 0x8_0000) by (bit_vector)
                requires
                    new_bits == (bits & !(0x7u64 << 16u64)) | ((vv & 0x7) << 16u64),
            ;
        }
        self.0 = new_bits;
    }

    /// Sets the texture page to the low thirteen bits of `v`.
    pub fn set_texture_address(&mut self, v: u32)
        ensures
            (final(self).0 / 0x8_0000) % 8192 == v % 8192,
            final(self).0 % 0x8_0000 == old(self).0 % 0x8_0000,
            final(self).0 / 0x1_0000_0000 == old(self).0 / 0x1_0000_0000,
    {
        let bits = self.0;
        let vv = v as u64;
        let new_bits = (bits & !(0x1fffu64 << 19u64)) | ((vv & 0x1fff) << 19u64);
        proof {
            assert(new_bits % 0x8_0000 == bits % 0x8_0000) by (bit_vector)
                requires
                    new_bits == (bits & !(0x1fffu64 << 19u64)) | ((vv & 0x1fff) << 19u64),
            ;
            assert((new_bits / 524288) % 8192 == vv % 8192) by (bit_vector)
                requires
                    new_bits == (bits & !(0x1fffu64 << 19u64)) | ((vv & 0x1fff) << 19u64),
            ;
            assert(new_bits / 0x1_0000_0000 == bits / 0x1_0000_0000) by (bit_vector)
                requires
                    new_bits == (bits & !(0x1fffu64 << 19u64)) | ((vv & 0x1fff) << 19u64),
            ;
        }
        self.0 = new_bits;
    }
}

/// A sprite: position, size and mirroring.
#[derive(Clone, Copy, Debug, PartialEq, Eq, Structural)]
pub struct Sprite {
    pub y: u16,
    pub height: u8,
    pub y_flip: bool,
    pub x: u16,
    pub width: u8,
    pub x_flip: bool,
}

/// The colour of the test pattern at (`x`, `y`) in frame `frame`: red
/// follows the column, green the row, blue their sum, all moving with the
/// frame count (sums taken modulo 2³²).
pub open spec fn pattern_pixel(x: int, y: int, frame: int) -> Seq<u8> {
    let f = frame % 0x1_0000_0000;
    seq![
        ((((x + f) % 0x1_0000_0000) / 2) % 256) as u8,
        ((((y + f) % 0x1_0000_0000) / 4) % 256) as u8,
        ((x + y + f) % 256) as u8,
        255u8,
    ]
}

/// The emulated display processor.
pub struct VdpState {
    pub width: u32,
    pub height: u32,
    /// RGBA bytes of the displayed frame, row by row.
    pub frame_buffer: Vec<u8>,
    pub frame_count: u64,
    pub vram: Vec<u8>,
    pub tilemaps: Vec<TilemapMetadata>,
    pub sprites: Vec<Sprite>,
}

impl VdpState {
    pub open spec fn wf(&self) -> bool {
        &&& self.width * self.height * 4 <= MAX_FRAME_BYTES
        &&& self.frame_buffer@.len() == self.width * self.height * 4
    }

    /// A display of `width` × `height` pixels, black, with cleared video
    /// memory and no tilemaps or sprites.
    pub fn new(width: u32, height: u32) -> (r: Self)
        requires
            width * height * 4 <= MAX_FRAME_BYTES,
        ensures
            r.wf(),
            r.width == width,
            r.height == height,
            r.frame_count == 0,
            forall|i: int| 0 <= i < r.frame_buffer@.len() ==> #[trigger] r.frame_buffer@[i] == 0,
            r.vram@.len() == VRAM_BYTES,
            r.tilemaps@.len() == 0,
            r.sprites@.len() == 0,
    {
        let n = (width as usize) * (height as usize) * 4;
        let mut frame_buffer: Vec<u8> = Vec::new();
        let mut i: usize = 0;
        while i < n
            invariant
                i <= n,
                frame_buffer@.len() == i,
                forall|j: int| 0 <= j < i ==> #[trigger] frame_buffer@[j] == 0,
            decreases n - i,
        {
            frame_buffer.push(0);
            i = i + 1;
        }
        let mut vram: Vec<u8> = Vec::new();
        let mut i: usize = 0;
        while i < VRAM_BYTES
            invariant
                i <= VRAM_BYTES,
                vram@.len() == i,
            decreases VRAM_BYTES - i,
        {
            vram.push(0);
            i = i + 1;
        }
        VdpState { width, height, frame_buffer, frame_count: 0, vram, tilemaps: Vec::new(), sprites: Vec::new() }
    }

    /// Advances the frame count and draws the test pattern of the new frame.
    pub fn update_frame_buffer_data(&mut self)
        requires
            old(self).wf(),
            old(self).frame_count < u64::MAX,
        ensures
            final(self).wf(),
            final(self).frame_count == old(self).frame_count + 1,
            final(self).width == old(self).width,
            final(self).height == old(self).height,
            forall|y: int, x: int, c: int|
                0 <= y < old(self).height && 0 <= x < old(self).width && 0 <= c < 4
                    ==> #[trigger] final(self).frame_buffer@[(y * old(self).width + x) * 4 + c] == pattern_pixel(
                    x,
                    y,
                    old(self).frame_count + 1,
                )[c],
    {
        self.frame_count = self.frame_count + 1;
        let count = self.frame_count;
        let frame = #[verifier::truncate] (count as u32);
        proof {
            assert(frame == count % 0x1_0000_0000) by (bit_vector)
                requires
                    frame == count as u32,
            ;
        }
        let w = self.width as usize;
        let h = self.height as usize;
        let ghost fc = self.frame_count as int;
        let mut y: usize = 0;
        while y < h
            invariant
                w == self.width,
                h == self.height,
                fc == self.frame_count,
                frame == fc % 0x1_0000_0000,
                self.wf(),
                y <= h,
                forall|yy: int, x: int, c: int|
                    0 <= yy < y && 0 <= x < w && 0 <= c < 4 ==> #[trigger] self.frame_buffer@[(yy * w + x) * 4
                        + c] == pattern_pixel(x, yy, fc)[c],
            decreases h - y,
        {
            let mut x: usize = 0;
            while x < w
                invariant
                    w == self.width,
                    h == self.height,
                    fc == self.frame_count,
                    frame == fc % 0x1_0000_0000,
                    self.wf(),
                    y < h,
                    x <= w,
                    forall|yy: int, xx: int, c: int|
                        0 <= yy < y && 0 <= xx < w && 0 <= c < 4 ==> #[trigger] self.frame_buffer@[(yy * w + xx)
                            * 4 + c] == pattern_pixel(xx, yy, fc)[c],
                    forall|xx: int, c: int|
                        0 <= xx < x && 0 <= c < 4 ==> #[trigger] self.frame_buffer@[(y * w + xx) * 4 + c]
                            == pattern_pixel(xx, y as int, fc)[c],
                decreases w - x,
            {
                proof {
                    assert((y * w + x) * 4 + 3 < w * h * 4) by (nonlinear_arith)
                        requires
                            y < h,
                            x < w,
                    ;
                    assert(w * h * 4 <= MAX_FRAME_BYTES);
                }
                let index = (y * w + x) * 4;
                let xs = x as u32;
                let ys = y as u32;
                let r = ((xs.wrapping_add(frame) / 2) % 256) as u8;
                let g = ((ys.wrapping_add(frame) / 4) % 256) as u8;
                let b = ((xs as u64 + ys as u64 + frame as u64) % 256) as u8;
                let ghost before = self.frame_buffer@;
                self.frame_buffer[index] = r;
                self.frame_buffer[index + 1] = g;
                self.frame_buffer[index + 2] = b;
                self.frame_buffer[index + 3] = 255;
                proof {
                    assert forall|yy: int, xx: int, c: int|
                        0 <= yy < y && 0 <= xx < w && 0 <= c < 4 implies #[trigger] self.frame_buffer@[(yy * w
                            + xx) * 4 + c] == pattern_pixel(xx, yy, fc)[c] by {
                        assert((yy * w + xx) * 4 + c < index) by (nonlinear_arith)
                            requires
                                yy < y,
                                xx < w,
                                c < 4,
                                index == (y * w + x) * 4,
                                0 <= x,
                        ;
                    }
                    assert forall|xx: int, c: int|
                        0 <= xx < x + 1 && 0 <= c < 4 implies #[trigger] self.frame_buffer@[(y * w + xx) * 4 + c]
                            == pattern_pixel(xx, y as int, fc)[c] by {
                        if xx < x {
                            assert((y * w + xx) * 4 + c < index) by (nonlinear_arith)
                                requires
                                    xx < x,
                                    c < 4,
                                    index == (y * w + x) * 4,
                            ;
                        }
                    }
                }
                x = x + 1;
            }
            y = y + 1;
        }
    }
}

} // verus!
