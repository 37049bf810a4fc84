//! Bitmap contexts: the formats of their pixels, and where a pixel is in memory.
use crate::cg_context;
use crate::cg_context::{Color, Transform};
use crate::mem::Mem;
use crate::objc::{Environment, HostObject, Id, ObjC};
use vstd::prelude::*;

verus! {

/// Where the alpha of a pixel is, if it has one.
pub const kCGImageAlphaNone: u32 = 0;

pub const kCGImageAlphaPremultipliedLast: u32 = 1;

pub const kCGImageAlphaPremultipliedFirst: u32 = 2;

pub const kCGImageAlphaLast: u32 = 3;

pub const kCGImageAlphaFirst: u32 = 4;

pub const kCGImageAlphaNoneSkipLast: u32 = 5;

pub const kCGImageAlphaNoneSkipFirst: u32 = 6;

pub const kCGImageAlphaOnly: u32 = 7;

pub const kCGBitmapAlphaInfoMask: u32 = 0x1f;

pub const kCGBitmapByteOrderMask: u32 = 0x7000;

pub const kCGImageByteOrderDefault: u32 = 0;

pub const kCGImageByteOrder32Big: u32 = 0x4000;

#[derive(Clone, Copy, Debug, PartialEq, Eq, Structural)]
pub enum ColorSpace {
    GenericRGB,
    GenericGray,
}

/// The format and the place of a bitmap.
#[derive(Clone, Copy, Debug, PartialEq, Eq, Structural)]
pub struct CGBitmapContextData {
    pub data: u32,
    pub data_is_owned: bool,
    pub width: u32,
    pub height: u32,
    pub bits_per_component: u32,
    pub bytes_per_row: u32,
    pub color_space: ColorSpace,
    pub alpha_info: u32,
}

/// How many components a pixel has; nothing for a format that is not known.
pub open spec fn component_count(color_space: ColorSpace, bitmap_info: u32) -> Option<u32> {
    let byte_order = bitmap_info & kCGBitmapByteOrderMask;
    let alpha_info = bitmap_info & kCGBitmapAlphaInfoMask;
    if byte_order != kCGImageByteOrderDefault && byte_order != kCGImageByteOrder32Big {
        None
    } else if alpha_info | byte_order != bitmap_info {
        None
    } else {
        components_of(color_space, alpha_info)
    }
}

/// How many components a pixel has for each place of the alpha.
pub open spec fn components_of(color_space: ColorSpace, alpha_info: u32) -> Option<u32> {
    let colors: u32 = if color_space == ColorSpace::GenericRGB {
        3
    } else {
        1
    };
    if alpha_info == kCGImageAlphaNone {
        Some(colors)
    } else if alpha_info < kCGImageAlphaOnly {
        Some((colors + 1) as u32)
    } else if alpha_info == kCGImageAlphaOnly {
        Some(1)
    } else {
        None
    }
}

fn known_components(color_space: ColorSpace, alpha_info: u32) -> (count: Option<u32>)
    ensures
        count == components_of(color_space, alpha_info),
{
    let colors: u32 = match color_space {
        ColorSpace::GenericRGB => 3,
        ColorSpace::GenericGray => 1,
    };
    if alpha_info == kCGImageAlphaNone {
        Some(colors)
    } else if alpha_info < kCGImageAlphaOnly {
        Some(colors + 1)
    } else if alpha_info == kCGImageAlphaOnly {
        Some(1)
    } else {
        None
    }
}

fn components_for(color_space: ColorSpace, bitmap_info: u32) -> (count: Option<u32>)
    ensures
        count == component_count(color_space, bitmap_info),
{
    let byte_order: u32 = bitmap_info & kCGBitmapByteOrderMask;
    if byte_order != kCGImageByteOrderDefault && byte_order != kCGImageByteOrder32Big {
        return None;
    }
    let alpha_info: u32 = bitmap_info & kCGBitmapAlphaInfoMask;
    if (alpha_info | byte_order) != bitmap_info {
        return None;
    }
    known_components(color_space, alpha_info)
}

/// How many components a pixel with colours has.
pub fn components_for_rgb(bitmap_info: u32) -> (count: Option<u32>)
    ensures
        count == component_count(ColorSpace::GenericRGB, bitmap_info),
{
    components_for(ColorSpace::GenericRGB, bitmap_info)
}

/// How many components a pixel with a shade of grey has.
pub fn components_for_gray(bitmap_info: u32) -> (count: Option<u32>)
    ensures
        count == component_count(ColorSpace::GenericGray, bitmap_info),
{
    components_for(ColorSpace::GenericGray, bitmap_info)
}

/// Where the components of a pixel are: the offsets of red, green and blue, and of
/// the alpha if there is one.
pub open spec fn offsets_of(color_space: ColorSpace, alpha_info: u32) -> (
    int,
    int,
    int,
    Option<int>,
) {
    let first = if alpha_info == kCGImageAlphaPremultipliedFirst || alpha_info
        == kCGImageAlphaFirst || alpha_info == kCGImageAlphaNoneSkipFirst {
        1int
    } else {
        0int
    };
    if alpha_info == kCGImageAlphaOnly {
        (0, 0, 0, Some(0int))
    } else {
        let colors = if color_space == ColorSpace::GenericRGB {
            3int
        } else {
            1int
        };
        let alpha = if alpha_info == kCGImageAlphaPremultipliedLast || alpha_info
            == kCGImageAlphaLast {
            Some(colors)
        } else if alpha_info == kCGImageAlphaPremultipliedFirst || alpha_info
            == kCGImageAlphaFirst {
            Some(0int)
        } else {
            None
        };
        if color_space == ColorSpace::GenericRGB {
            (first, first + 1, first + 2, alpha)
        } else {
            (first, first, first, alpha)
        }
    }
}

impl CGBitmapContextData {
    /// The format is known, and all of the pixels can be accessed.
    pub open spec fn wf(&self, mem: Mem) -> bool {
        &&& self.bits_per_component == 8
        &&& components_of(self.color_space, self.alpha_info) is Some
        &&& self.height * self.bytes_per_row <= u32::MAX
        &&& self.height * self.bytes_per_row == 0 || mem.mapped(
            self.data as int,
            self.height * self.bytes_per_row,
        )
    }

    /// The rows do not overlap.
    pub open spec fn has_full_rows(&self) -> bool {
        self.width * self.pixel_size() <= self.bytes_per_row
    }

    /// A pixel lies within the rows, or outside of the bitmap.
    pub open spec fn accessible(&self, coords: (i32, i32)) -> bool {
        self.place(coords.0 as int, coords.1 as int) matches Some(p) ==> p + self.pixel_size()
            <= self.height * self.bytes_per_row
    }

    pub open spec fn pixel_size(&self) -> int {
        components_of(self.color_space, self.alpha_info)->0 as int
    }

    pub fn bytes_per_pixel(&self) -> (size: u32)
        requires
            components_of(self.color_space, self.alpha_info) is Some,
        ensures
            size == self.pixel_size(),
            1 <= size <= 4,
    {
        match known_components(self.color_space, self.alpha_info) {
            Some(size) => size,
            None => 1,
        }
    }

    /// The place of a pixel in the bitmap, whose first row is the highest one;
    /// nothing outside of it.
    pub open spec fn place(&self, x: int, y: int) -> Option<int> {
        if 0 <= x < self.width && 0 <= y < self.height {
            Some((self.height - 1 - y) * self.bytes_per_row + x * self.pixel_size())
        } else {
            None
        }
    }

    /// The place of a pixel lies within the bitmap where rows do not overlap.
    pub proof fn lemma_place(&self, mem: Mem, x: int, y: int)
        requires
            self.wf(mem),
            self.has_full_rows(),
            0 <= x < self.width,
            0 <= y < self.height,
        ensures
            0 <= (self.height - 1 - y) * self.bytes_per_row,
            0 <= x * self.pixel_size(),
            (self.height - 1 - y) * self.bytes_per_row + x * self.pixel_size() + self.pixel_size()
                <= self.height * self.bytes_per_row,
    {
        let row = self.height - 1 - y;
        let bpr = self.bytes_per_row as int;
        let px = self.pixel_size();
        let h = self.height as int;
        let w = self.width as int;
        assert(0 <= row * bpr && row * bpr + bpr <= h * bpr) by (nonlinear_arith)
            requires
                0 <= row,
                row + 1 <= h,
                bpr >= 0,
        ;
        assert(0 <= x * px && x * px + px <= w * px) by (nonlinear_arith)
            requires
                0 <= x,
                x + 1 <= w,
                px >= 1,
        ;
    }

    /// Pixels do not overlap where rows do not.
    proof fn lemma_places_apart(&self, mem: Mem, x: int, y: int, other_x: int, other_y: int)
        requires
            self.wf(mem),
            self.has_full_rows(),
            0 <= x < self.width,
            0 <= y < self.height,
            0 <= other_x < self.width,
            0 <= other_y < self.height,
            (x, y) != (other_x, other_y),
        ensures
            ({
                let a = self.place(x, y)->0;
                let b = self.place(other_x, other_y)->0;
                a + self.pixel_size() <= b || b + self.pixel_size() <= a
            }),
    {
        self.lemma_place(mem, x, y);
        self.lemma_place(mem, other_x, other_y);
        let px = self.pixel_size();
        let bpr = self.bytes_per_row as int;
        let w = self.width as int;
        let a = self.place(x, y)->0;
        let b = self.place(other_x, other_y)->0;
        let row = self.height - 1 - y;
        let other_row = self.height - 1 - other_y;
        assert(a + px <= b || b + px <= a) by {
            assert(x * px + px <= w * px && other_x * px + px <= w * px) by (nonlinear_arith)
                requires
                    0 <= x < w,
                    0 <= other_x < w,
                    px >= 1,
            ;
            if row < other_row {
                assert(row * bpr + bpr <= other_row * bpr) by (nonlinear_arith)
                    requires
                        row + 1 <= other_row,
                        bpr >= 0,
                ;
            } else if other_row < row {
                assert(other_row * bpr + bpr <= row * bpr) by (nonlinear_arith)
                    requires
                        other_row + 1 <= row,
                        bpr >= 0,
                ;
            } else if x < other_x {
                assert(x * px + px <= other_x * px) by (nonlinear_arith)
                    requires
                        x + 1 <= other_x,
                        px >= 1,
                ;
            } else {
                assert(other_x * px + px <= x * px) by (nonlinear_arith)
                    requires
                        other_x + 1 <= x,
                        px >= 1,
                ;
            }
        }
    }

    proof fn lemma_row(&self, x: int, y: int)
        requires
            components_of(self.color_space, self.alpha_info) is Some,
            0 <= x < self.width,
            0 <= y < self.height,
        ensures
            0 <= (self.height - 1 - y) * self.bytes_per_row,
            0 <= x * self.pixel_size(),
    {
        assert(0 <= (self.height - 1 - y) * self.bytes_per_row) by (nonlinear_arith)
            requires
                y <= self.height - 1,
                0 <= self.bytes_per_row,
        ;
        let px = self.pixel_size();
        assert(0 <= x * px) by (nonlinear_arith)
            requires
                0 <= x,
                0 <= px,
        ;
    }

    /// The place of a pixel in the bitmap.
    pub fn pixel_place(&self, mem: &Mem, coords: (i32, i32)) -> (place: Option<u32>)
        requires
            self.wf(*mem),
            self.accessible(coords),
        ensures
            match place {
                Some(p) => self.place(coords.0 as int, coords.1 as int) == Some(p as int),
                None => self.place(coords.0 as int, coords.1 as int) is None,
            },
    {
        let (x, y): (i32, i32) = coords;
        if x < 0 || y < 0 {
            return None;
        }
        let px: u32 = x as u32;
        let py: u32 = y as u32;
        if px >= self.width || py >= self.height {
            return None;
        }
        proof {
            self.lemma_row(x as int, y as int);
        }
        let size: u32 = self.bytes_per_pixel();
        Some((self.height - 1 - py) * self.bytes_per_row + px * size)
    }

    /// The offsets of the components of a pixel.
    pub fn pixel_offsets(&self) -> (offsets: (u32, u32, u32, Option<u32>))
        requires
            components_of(self.color_space, self.alpha_info) is Some,
        ensures
            ({
                let (r, g, b, a) = offsets_of(self.color_space, self.alpha_info);
                &&& offsets.0 == r < self.pixel_size()
                &&& offsets.1 == g < self.pixel_size()
                &&& offsets.2 == b < self.pixel_size()
                &&& match offsets.3 {
                    Some(o) => a == Some(o as int) && o < self.pixel_size(),
                    None => a is None,
                }
            }),
    {
        let info: u32 = self.alpha_info;
        if info == kCGImageAlphaOnly {
            return (0, 0, 0, Some(0));
        }
        let first: u32 = if info == kCGImageAlphaPremultipliedFirst || info == kCGImageAlphaFirst
            || info == kCGImageAlphaNoneSkipFirst {
            1
        } else {
            0
        };
        let colors: u32 = match self.color_space {
            ColorSpace::GenericRGB => 3,
            ColorSpace::GenericGray => 1,
        };
        let alpha: Option<u32> = if info == kCGImageAlphaPremultipliedLast || info
            == kCGImageAlphaLast {
            Some(colors)
        } else if info == kCGImageAlphaPremultipliedFirst || info == kCGImageAlphaFirst {
            Some(0)
        } else {
            None
        };
        match self.color_space {
            ColorSpace::GenericRGB => (first, first + 1, first + 2, alpha),
            ColorSpace::GenericGray => (first, first, first, alpha),
        }
    }
}

/// A pixel as bytes: red, green, blue and alpha.
#[derive(Clone, Copy, Debug, PartialEq, Eq, Structural)]
pub struct PixelBytes {
    pub r: u8,
    pub g: u8,
    pub b: u8,
    pub a: u8,
}

/// The bytes of a pixel that is stored at an address; what it does not hold is
/// opaque.
pub open spec fn pixel_at(data: CGBitmapContextData, bytes: Seq<u8>, addr: int) -> PixelBytes {
    let (r, g, b, a) = offsets_of(data.color_space, data.alpha_info);
    PixelBytes {
        r: bytes[addr + r],
        g: bytes[addr + g],
        b: bytes[addr + b],
        a: match a {
            Some(o) => bytes[addr + o],
            None => 255,
        },
    }
}

/// Memory after a pixel has been stored at an address. Red is written first and the
/// alpha last.
pub open spec fn pixel_stored(
    data: CGBitmapContextData,
    bytes: Seq<u8>,
    addr: int,
    pixel: PixelBytes,
) -> Seq<u8> {
    let (r, g, b, a) = offsets_of(data.color_space, data.alpha_info);
    if data.alpha_info == kCGImageAlphaOnly {
        bytes.update(addr, pixel.a)
    } else {
        let colored = bytes.update(addr + r, pixel.r).update(addr + g, pixel.g).update(
            addr + b,
            pixel.b,
        );
        match a {
            Some(o) => colored.update(addr + o, pixel.a),
            None => colored,
        }
    }
}

/// How a colour is combined with the pixel that is there.
#[derive(Clone, Copy, Debug, PartialEq, Eq, Structural)]
pub enum BlendMode {
    Straight,
    Premultiplied,
    AlphaOnly,
    Replace,
}

/// How a color is combined with a pixel that has a kind of alpha.
pub open spec fn blend_of(alpha_info: u32, blend: bool) -> BlendMode {
    if !blend {
        BlendMode::Replace
    } else if alpha_info == kCGImageAlphaLast || alpha_info == kCGImageAlphaFirst {
        BlendMode::Straight
    } else if alpha_info == kCGImageAlphaPremultipliedLast || alpha_info
        == kCGImageAlphaPremultipliedFirst {
        BlendMode::Premultiplied
    } else if alpha_info == kCGImageAlphaOnly {
        BlendMode::AlphaOnly
    } else {
        BlendMode::Replace
    }
}

impl CGBitmapContextData {
    /// How a colour is combined with the pixel that is there.
    pub fn blend_mode(&self, blend: bool) -> (mode: BlendMode)
        ensures
            mode == if !blend {
                BlendMode::Replace
            } else if self.alpha_info == kCGImageAlphaLast || self.alpha_info
                == kCGImageAlphaFirst {
                BlendMode::Straight
            } else if self.alpha_info == kCGImageAlphaPremultipliedLast || self.alpha_info
                == kCGImageAlphaPremultipliedFirst {
                BlendMode::Premultiplied
            } else if self.alpha_info == kCGImageAlphaOnly {
                BlendMode::AlphaOnly
            } else {
                BlendMode::Replace
            },
            mode == blend_of(self.alpha_info, blend),
    {
        if !blend {
            BlendMode::Replace
        } else if self.alpha_info == kCGImageAlphaLast || self.alpha_info == kCGImageAlphaFirst {
            BlendMode::Straight
        } else if self.alpha_info == kCGImageAlphaPremultipliedLast || self.alpha_info
            == kCGImageAlphaPremultipliedFirst {
            BlendMode::Premultiplied
        } else if self.alpha_info == kCGImageAlphaOnly {
            BlendMode::AlphaOnly
        } else {
            BlendMode::Replace
        }
    }

    /// The bytes of a pixel; nothing outside of the bitmap.
    pub fn get_pixel(&self, mem: &Mem, coords: (i32, i32)) -> (pixel: Option<PixelBytes>)
        requires
            mem.wf(),
            self.wf(*mem),
            self.accessible(coords),
        ensures
            pixel == match self.place(coords.0 as int, coords.1 as int) {
                Some(p) => Some(pixel_at(*self, mem.bytes@, self.data + p)),
                None => None,
            },
    {
        let place: u32 = match self.pixel_place(mem, coords) {
            Some(place) => place,
            None => {
                return None;
            },
        };
        proof {
            self.lemma_row(coords.0 as int, coords.1 as int);
        }
        let (r, g, b, a): (u32, u32, u32, Option<u32>) = self.pixel_offsets();
        let at: u32 = self.data + place;
        let alpha: u8 = match a {
            Some(o) => mem.read_u8(at + o),
            None => 255,
        };
        Some(
            PixelBytes {
                r: mem.read_u8(at + r),
                g: mem.read_u8(at + g),
                b: mem.read_u8(at + b),
                a: alpha,
            },
        )
    }

    /// Stores a pixel. Nothing happens outside of the bitmap.
    pub fn put_pixel(&self, mem: &mut Mem, coords: (i32, i32), pixel: PixelBytes)
        requires
            old(mem).wf(),
            self.wf(*old(mem)),
            self.accessible(coords),
        ensures
            final(mem).wf(),
            self.wf(*final(mem)),
            final(mem).bytes@ == match self.place(coords.0 as int, coords.1 as int) {
                Some(p) => pixel_stored(*self, old(mem).bytes@, self.data + p, pixel),
                None => old(mem).bytes@,
            },
            final(mem).bytes@.len() == old(mem).bytes@.len(),
            final(mem).null_segment_size == old(mem).null_segment_size,
            final(mem).allocations@ == old(mem).allocations@,
    {
        let place: u32 = match self.pixel_place(mem, coords) {
            Some(place) => place,
            None => {
                return;
            },
        };
        proof {
            self.lemma_row(coords.0 as int, coords.1 as int);
        }
        let (r, g, b, a): (u32, u32, u32, Option<u32>) = self.pixel_offsets();
        let at: usize = (self.data + place) as usize;
        if self.alpha_info == kCGImageAlphaOnly {
            mem.bytes.set(at, pixel.a);
            return;
        }
        mem.bytes.set(at + r as usize, pixel.r);
        mem.bytes.set(at + g as usize, pixel.g);
        mem.bytes.set(at + b as usize, pixel.b);
        if let Some(o) = a {
            mem.bytes.set(at + o as usize, pixel.a);
        }
    }

    /// Stores an opaque pixel of an image. `roundtrip` gives for each byte of a
    /// colour the byte that it is stored as.
    pub fn put_opaque_srgb_pixel(
        &self,
        mem: &mut Mem,
        coords: (i32, i32),
        roundtrip: &Vec<u8>,
        r: u8,
        g: u8,
        b: u8,
    )
        requires
            old(mem).wf(),
            self.wf(*old(mem)),
            self.accessible(coords),
            roundtrip@.len() == 256,
        ensures
            final(mem).wf(),
            self.wf(*final(mem)),
            final(mem).bytes@ == match self.place(coords.0 as int, coords.1 as int) {
                Some(p) => pixel_stored(
                    *self,
                    old(mem).bytes@,
                    self.data + p,
                    PixelBytes {
                        r: roundtrip@[r as int],
                        g: roundtrip@[g as int],
                        b: roundtrip@[b as int],
                        a: 255,
                    },
                ),
                None => old(mem).bytes@,
            },
            final(mem).null_segment_size == old(mem).null_segment_size,
            final(mem).allocations@ == old(mem).allocations@,
    {
        let pixel = PixelBytes {
            r: roundtrip[r as usize],
            g: roundtrip[g as usize],
            b: roundtrip[b as usize],
            a: 255,
        };
        self.put_pixel(mem, coords, pixel);
    }
}

/// A pixel that has been stored is read back: all of it for colours with an alpha,
/// and opaque where there is none; only the alpha where there is nothing else.
pub proof fn law_pixel_round_trip(
    data: CGBitmapContextData,
    bytes: Seq<u8>,
    addr: int,
    pixel: PixelBytes,
)
    requires
        components_of(data.color_space, data.alpha_info) is Some,
        0 <= addr,
        addr + data.pixel_size() <= bytes.len(),
    ensures
        ({
            let read = pixel_at(data, pixel_stored(data, bytes, addr, pixel), addr);
            if data.alpha_info == kCGImageAlphaOnly {
                read.a == pixel.a
            } else {
                &&& data.color_space == ColorSpace::GenericRGB ==> read.r == pixel.r && read.g
                    == pixel.g && read.b == pixel.b
                &&& data.color_space == ColorSpace::GenericGray ==> read.r == pixel.b && read.g
                    == pixel.b && read.b == pixel.b
                &&& read.a == if offsets_of(data.color_space, data.alpha_info).3 is Some {
                    pixel.a
                } else {
                    255
                }
            }
        }),
{
}

/// Storing a pixel changes no other pixel.
pub proof fn law_pixels_are_separate(
    data: CGBitmapContextData,
    mem: Mem,
    x: int,
    y: int,
    other_x: int,
    other_y: int,
    pixel: PixelBytes,
)
    requires
        mem.wf(),
        data.wf(mem),
        data.has_full_rows(),
        0 <= x < data.width,
        0 <= y < data.height,
        0 <= other_x < data.width,
        0 <= other_y < data.height,
        (x, y) != (other_x, other_y),
    ensures
        pixel_at(
            data,
            pixel_stored(data, mem.bytes@, data.data + data.place(x, y)->0, pixel),
            data.data + data.place(other_x, other_y)->0,
        ) == pixel_at(data, mem.bytes@, data.data + data.place(other_x, other_y)->0),
{
    data.lemma_place(mem, x, y);
    data.lemma_place(mem, other_x, other_y);
    data.lemma_places_apart(mem, x, y, other_x, other_y);
}

/// The place of a texel in the pixels of an image with four bytes each; nothing
/// outside of it.
pub fn texel_place(width: u32, height: u32, x: i32, y: i32) -> (place: Option<usize>)
    requires
        width * height * 4 <= usize::MAX,
    ensures
        match place {
            Some(p) => 0 <= x < width && 0 <= y < height && p == y * width * 4 + x * 4,
            None => !(0 <= x < width && 0 <= y < height),
        },
{
    if x < 0 || y < 0 || x as u32 >= width || y as u32 >= height {
        return None;
    }
    proof {
        assert(y * width * 4 + x * 4 + 4 <= width * height * 4) by (nonlinear_arith)
            requires
                0 <= x,
                x + 1 <= width,
                0 <= y,
                y + 1 <= height,
        ;
        assert(0 <= y * width && y * width <= y * width * 4) by (nonlinear_arith)
            requires
                0 <= y,
                0 <= width,
        ;
    }
    Some(y as usize * width as usize * 4 + x as usize * 4)
}

/// The number of bytes in a row: that of all of its pixels if it is not given.
pub open spec fn row_size(width: u32, components: u32, bytes_per_row: u32) -> int {
    if bytes_per_row == 0 {
        width * components
    } else {
        bytes_per_row as int
    }
}

/// Makes a context for a bitmap. Without a buffer for the pixels it owns a new one.
pub fn CGBitmapContextCreate(
    env: &mut Environment,
    data: u32,
    width: u32,
    height: u32,
    bits_per_component: u32,
    bytes_per_row: u32,
    color_space: ColorSpace,
    bitmap_info: u32,
) -> (context: Id)
    requires
        old(env).wf(),
        bits_per_component == 8,
        component_count(color_space, bitmap_info) is Some,
        row_size(width, component_count(color_space, bitmap_info)->0, bytes_per_row) <= u32::MAX,
        data == 0 ==> old(env).has_room(
            1,
            row_size(width, component_count(color_space, bitmap_info)->0, bytes_per_row) * height,
        ),
        old(env).has_room(1, 0),
    ensures
        final(env).wf(),
        context == old(env).objc.objects@.len(),
        ({
            let row = row_size(
                width,
                component_count(color_space, bitmap_info)->0,
                bytes_per_row,
            );
            let object = final(env).objc.objects@.last();
            &&& final(env).objc.objects@ == old(env).objc.objects@.push(object)
            &&& object.retain_count == Some(1u32)
            &&& cg_context::is_context(final(env).objc.objects@, context)
            &&& cg_context::is_fresh(
                cg_context::context_at(final(env).objc.objects@, context),
                CGBitmapContextData {
                    data: if data == 0 {
                        old(env).mem.bytes@.len() as u32
                    } else {
                        data
                    },
                    data_is_owned: data == 0,
                    width,
                    height,
                    bits_per_component,
                    bytes_per_row: row as u32,
                    color_space,
                    alpha_info: bitmap_info & kCGBitmapAlphaInfoMask,
                },
            )
            &&& if data == 0 {
                &&& final(env).mem.bytes@ == old(env).mem.bytes@ + Seq::new(
                    (row * height) as nat,
                    |i: int| 0u8,
                )
                &&& final(env).mem.allocations@ == old(env).mem.allocations@.push(
                    (old(env).mem.bytes@.len() as u32, (row * height) as u32),
                )
                &&& final(env).mem.null_segment_size == old(env).mem.null_segment_size
            } else {
                final(env).mem == old(env).mem
            }
        }),
        final(env).autorelease_pool == old(env).autorelease_pool,
{
    let components: u32 = match components_for(color_space, bitmap_info) {
        Some(count) => count,
        None => 1,
    };
    let row: u32 = if bytes_per_row == 0 {
        width * components
    } else {
        bytes_per_row
    };
    let owned: bool = data == 0;
    let place: u32 = if owned {
        proof {
            assert(0 <= row * height) by (nonlinear_arith)
                requires
                    0 <= row,
                    0 <= height,
            ;
        }
        env.mem.allocate(row * height)
    } else {
        data
    };
    let host_object = cg_context::new_context(
        CGBitmapContextData {
            data: place,
            data_is_owned: owned,
            width,
            height,
            bits_per_component,
            bytes_per_row: row,
            color_space,
            alpha_info: bitmap_info & kCGBitmapAlphaInfoMask,
        },
    );
    env.objc.alloc_object(HostObject::Context(host_object))
}

pub fn CGBitmapContextGetData(env: &Environment, context: Id) -> (data: u32)
    requires
        cg_context::is_context(env.objc.objects@, context),
    ensures
        data == cg_context::context_at(env.objc.objects@, context).bitmap.data,
{
    cg_context::borrow_context(&env.objc, context).bitmap.data
}

pub fn CGBitmapContextGetWidth(env: &Environment, context: Id) -> (width: u32)
    requires
        cg_context::is_context(env.objc.objects@, context),
    ensures
        width == cg_context::context_at(env.objc.objects@, context).bitmap.width,
{
    cg_context::borrow_context(&env.objc, context).bitmap.width
}

pub fn CGBitmapContextGetHeight(env: &Environment, context: Id) -> (height: u32)
    requires
        cg_context::is_context(env.objc.objects@, context),
    ensures
        height == cg_context::context_at(env.objc.objects@, context).bitmap.height,
{
    cg_context::borrow_context(&env.objc, context).bitmap.height
}

pub fn CGBitmapContextGetBytesPerRow(env: &Environment, context: Id) -> (size: u32)
    requires
        cg_context::is_context(env.objc.objects@, context),
    ensures
        size == cg_context::context_at(env.objc.objects@, context).bitmap.bytes_per_row,
{
    cg_context::borrow_context(&env.objc, context).bitmap.bytes_per_row
}

/// The size of a context's bitmap, and where its pixels are.
pub fn get_data(objc: &ObjC, context: Id) -> (data: (u32, u32, u32))
    requires
        cg_context::is_context(objc.objects@, context),
    ensures
        ({
            let bitmap = cg_context::context_at(objc.objects@, context).bitmap;
            data == (bitmap.width, bitmap.height, bitmap.data)
        }),
{
    let bitmap = cg_context::borrow_context(objc, context).bitmap;
    (bitmap.width, bitmap.height, bitmap.data)
}

/// Whether an image can be made of a bitmap: it has full rows of colours, with
/// nothing or a multiplied alpha behind them.
pub open spec fn is_image_format(bitmap: CGBitmapContextData) -> bool {
    &&& bitmap.bits_per_component == 8
    &&& bitmap.bytes_per_row == bitmap.width * 4
    &&& bitmap.color_space == ColorSpace::GenericRGB
    &&& bitmap.alpha_info == kCGImageAlphaNoneSkipLast || bitmap.alpha_info
        == kCGImageAlphaPremultipliedLast
}

/// The pixels of an image that is made of a context's bitmap, with its width and
/// height.
pub fn CGBitmapContextCreateImage(env: &Environment, context: Id) -> (image: (Vec<u8>, u32, u32))
    requires
        env.wf(),
        cg_context::is_context(env.objc.objects@, context),
        is_image_format(cg_context::context_at(env.objc.objects@, context).bitmap),
        ({
            let bitmap = cg_context::context_at(env.objc.objects@, context).bitmap;
            env.mem.mapped(bitmap.data as int, bitmap.bytes_per_row * bitmap.height)
        }),
    ensures
        ({
            let bitmap = cg_context::context_at(env.objc.objects@, context).bitmap;
            &&& image.0@ == env.mem.span(
                bitmap.data as int,
                bitmap.bytes_per_row * bitmap.height,
            )
            &&& image.1 == bitmap.width
            &&& image.2 == bitmap.height
        }),
{
    let bitmap = cg_context::borrow_context(&env.objc, context).bitmap;
    proof {
        assert(0 <= bitmap.bytes_per_row * bitmap.height) by (nonlinear_arith)
            requires
                0 <= bitmap.bytes_per_row,
                0 <= bitmap.height,
        ;
    }
    let pixels = env.mem.bytes_at(bitmap.data, bitmap.bytes_per_row * bitmap.height);
    (pixels, bitmap.width, bitmap.height)
}

/// What drawing in a bitmap context needs of it.
#[derive(Clone, Copy, Debug, PartialEq, Eq, Structural)]
pub struct CGBitmapContextDrawer {
    pub bitmap_info: CGBitmapContextData,
    pub rgb_fill_color: Color,
    pub transform: Transform,
}

impl CGBitmapContextDrawer {
    pub fn new(objc: &ObjC, context: Id) -> (drawer: CGBitmapContextDrawer)
        requires
            cg_context::is_context(objc.objects@, context),
        ensures
            ({
                let host_obj = cg_context::context_at(objc.objects@, context);
                &&& drawer.bitmap_info == host_obj.bitmap
                &&& drawer.rgb_fill_color == host_obj.rgb_fill_color
                &&& drawer.transform == host_obj.transform
            }),
    {
        let host_obj = cg_context::borrow_context(objc, context);
        CGBitmapContextDrawer {
            bitmap_info: host_obj.bitmap,
            rgb_fill_color: host_obj.rgb_fill_color,
            transform: host_obj.transform,
        }
    }

    pub fn width(&self) -> (width: u32)
        ensures
            width == self.bitmap_info.width,
    {
        self.bitmap_info.width
    }

    pub fn height(&self) -> (height: u32)
        ensures
            height == self.bitmap_info.height,
    {
        self.bitmap_info.height
    }

    /// The fill colour as it was set, and whether it is to be multiplied by its
    /// alpha before it is decoded.
    pub fn rgb_fill_color(&self) -> (color: (Color, bool))
        ensures
            color.0 == self.rgb_fill_color,
            color.1 == (self.bitmap_info.alpha_info == kCGImageAlphaPremultipliedLast
                || self.bitmap_info.alpha_info == kCGImageAlphaPremultipliedFirst),
    {
        (
            self.rgb_fill_color,
            self.bitmap_info.alpha_info == kCGImageAlphaPremultipliedLast
                || self.bitmap_info.alpha_info == kCGImageAlphaPremultipliedFirst,
        )
    }

    /// Stores a pixel that has been combined with the one that was there, and been
    /// encoded. Nothing happens outside of the bitmap.
    pub fn put_pixel(&self, mem: &mut Mem, coords: (i32, i32), pixel: PixelBytes)
        requires
            old(mem).wf(),
            self.bitmap_info.wf(*old(mem)),
            self.bitmap_info.accessible(coords),
        ensures
            final(mem).wf(),
            self.bitmap_info.wf(*final(mem)),
            final(mem).bytes@ == with_pixel(self.bitmap_info, old(mem).bytes@, coords, pixel),
            final(mem).bytes@.len() == old(mem).bytes@.len(),
            final(mem).null_segment_size == old(mem).null_segment_size,
            final(mem).allocations@ == old(mem).allocations@,
    {
        self.bitmap_info.put_pixel(mem, coords, pixel);
    }
}

/// Memory after a pixel has been stored, if it is within the bitmap.
pub open spec fn with_pixel(
    data: CGBitmapContextData,
    bytes: Seq<u8>,
    coords: (i32, i32),
    pixel: PixelBytes,
) -> Seq<u8> {
    match data.place(coords.0 as int, coords.1 as int) {
        Some(p) => pixel_stored(data, bytes, data.data + p, pixel),
        None => bytes,
    }
}

/// Memory after the first `n` of some pixels have been stored.
pub open spec fn with_pixels(
    data: CGBitmapContextData,
    bytes: Seq<u8>,
    pixels: Seq<((i32, i32), PixelBytes)>,
    n: int,
) -> Seq<u8>
    decreases n,
{
    if n <= 0 {
        bytes
    } else {
        with_pixel(
            data,
            with_pixels(data, bytes, pixels, n - 1),
            pixels[n - 1].0,
            pixels[n - 1].1,
        )
    }
}

/// The context's pixels have changed and nothing else.
pub open spec fn pixels_changed(before: Environment, after: Environment, bytes: Seq<u8>) -> bool {
    &&& after.mem.bytes@ == bytes
    &&& after.mem.null_segment_size == before.mem.null_segment_size
    &&& after.mem.allocations@ == before.mem.allocations@
    &&& after.objc == before.objc
    &&& after.autorelease_pool == before.autorelease_pool
}

/// The bitmap of a context can be drawn in.
pub open spec fn can_draw(env: Environment, context: Id) -> bool {
    &&& env.wf()
    &&& cg_context::is_context(env.objc.objects@, context)
    &&& cg_context::context_at(env.objc.objects@, context).bitmap.wf(env.mem)
}

/// Stores the pixels that a drawing has covered, each as it has been combined with
/// the one that was there.
fn put_pixels(env: &mut Environment, context: Id, pixels: &Vec<((i32, i32), PixelBytes)>)
    requires
        can_draw(*old(env), context),
        forall|i: int|
            0 <= i < pixels@.len() ==> cg_context::context_at(
                old(env).objc.objects@,
                context,
            ).bitmap.accessible((#[trigger] pixels@[i]).0),
    ensures
        can_draw(*final(env), context),
        pixels_changed(
            *old(env),
            *final(env),
            with_pixels(
                cg_context::context_at(old(env).objc.objects@, context).bitmap,
                old(env).mem.bytes@,
                pixels@,
                pixels@.len() as int,
            ),
        ),
{
    let drawer = CGBitmapContextDrawer::new(&env.objc, context);
    let mut i: usize = 0;
    while i < pixels.len()
        invariant
            i <= pixels@.len(),
            can_draw(*env, context),
            drawer.bitmap_info == cg_context::context_at(old(env).objc.objects@, context).bitmap,
            forall|k: int|
                0 <= k < pixels@.len() ==> drawer.bitmap_info.accessible(
                    (#[trigger] pixels@[k]).0,
                ),
            env.mem.bytes@.len() == old(env).mem.bytes@.len(),
            pixels_changed(
                *old(env),
                *env,
                with_pixels(drawer.bitmap_info, old(env).mem.bytes@, pixels@, i as int),
            ),
        decreases pixels@.len() - i,
    {
        drawer.put_pixel(&mut env.mem, pixels[i].0, pixels[i].1);
        i = i + 1;
    }
}

/// Fills a rectangle: each covered pixel with the fill colour, combined with the
/// pixel that was there and encoded.
pub fn CGContextFillRect(
    env: &mut Environment,
    context: Id,
    covered: &Vec<((i32, i32), PixelBytes)>,
)
    requires
        can_draw(*old(env), context),
        forall|i: int|
            0 <= i < covered@.len() ==> cg_context::context_at(
                old(env).objc.objects@,
                context,
            ).bitmap.accessible((#[trigger] covered@[i]).0),
    ensures
        can_draw(*final(env), context),
        pixels_changed(
            *old(env),
            *final(env),
            with_pixels(
                cg_context::context_at(old(env).objc.objects@, context).bitmap,
                old(env).mem.bytes@,
                covered@,
                covered@.len() as int,
            ),
        ),
{
    put_pixels(env, context, covered);
}

/// The pixel that is left where a rectangle is cleared.
pub open spec fn clear_pixel() -> PixelBytes {
    PixelBytes { r: 0, g: 0, b: 0, a: 0 }
}

/// The pixels that a cleared rectangle covers, all clear.
pub open spec fn clear_pixels(covered: Seq<(i32, i32)>) -> Seq<((i32, i32), PixelBytes)> {
    Seq::new(covered.len(), |i: int| (covered[i], clear_pixel()))
}

/// Memory after a rectangle has been cleared.
pub open spec fn cleared(
    data: CGBitmapContextData,
    bytes: Seq<u8>,
    covered: Seq<(i32, i32)>,
) -> Seq<u8> {
    with_pixels(data, bytes, clear_pixels(covered), covered.len() as int)
}

/// Clears a rectangle, which is given by the pixels that it covers.
pub fn CGContextClearRect(env: &mut Environment, context: Id, covered: &Vec<(i32, i32)>)
    requires
        can_draw(*old(env), context),
        forall|i: int|
            0 <= i < covered@.len() ==> cg_context::context_at(
                old(env).objc.objects@,
                context,
            ).bitmap.accessible(#[trigger] covered@[i]),
    ensures
        can_draw(*final(env), context),
        pixels_changed(
            *old(env),
            *final(env),
            cleared(
                cg_context::context_at(old(env).objc.objects@, context).bitmap,
                old(env).mem.bytes@,
                covered@,
            ),
        ),
{
    let mut pixels: Vec<((i32, i32), PixelBytes)> = Vec::new();
    let mut i: usize = 0;
    while i < covered.len()
        invariant
            i <= covered@.len(),
            pixels@.len() == i,
            forall|k: int| 0 <= k < i ==> #[trigger] pixels@[k] == (covered@[k], clear_pixel()),
        decreases covered@.len() - i,
    {
        pixels.push((covered[i], PixelBytes { r: 0, g: 0, b: 0, a: 0 }));
        i = i + 1;
    }
    assert(pixels@ =~= clear_pixels(covered@));
    put_pixels(env, context, &pixels);
}

/// The byte at an address holds a colour or the alpha of a pixel of the bitmap.
pub open spec fn is_component(data: CGBitmapContextData, coords: (i32, i32), at: int) -> bool {
    let (r, g, b, a) = offsets_of(data.color_space, data.alpha_info);
    data.place(coords.0 as int, coords.1 as int) matches Some(p) && {
        let i = at - data.data - p;
        i == r || i == g || i == b || a == Some(i)
    }
}

proof fn lemma_clear_pixel(data: CGBitmapContextData, mem: Mem, bytes: Seq<u8>, coords: (i32, i32))
    requires
        data.wf(mem),
        data.accessible(coords),
        bytes.len() == mem.bytes@.len(),
    ensures
        with_pixel(data, bytes, coords, clear_pixel()).len() == bytes.len(),
        forall|at: int|
            0 <= at < bytes.len() ==> #[trigger] with_pixel(data, bytes, coords, clear_pixel())[at]
                == if is_component(data, coords, at) {
                0
            } else {
                bytes[at]
            },
{
    if let Some(p) = data.place(coords.0 as int, coords.1 as int) {
        data.lemma_row(coords.0 as int, coords.1 as int);
    }
}

proof fn lemma_cleared(
    data: CGBitmapContextData,
    mem: Mem,
    bytes: Seq<u8>,
    covered: Seq<(i32, i32)>,
    n: int,
)
    requires
        data.wf(mem),
        bytes.len() == mem.bytes@.len(),
        forall|i: int| 0 <= i < covered.len() ==> data.accessible(#[trigger] covered[i]),
        0 <= n <= covered.len(),
    ensures
        ({
            let after = with_pixels(data, bytes, clear_pixels(covered), n);
            &&& after.len() == bytes.len()
            &&& forall|at: int|
                0 <= at < bytes.len() ==> #[trigger] after[at] == if exists|i: int|
                    0 <= i < n && is_component(data, #[trigger] covered[i], at) {
                    0
                } else {
                    bytes[at]
                }
        }),
    decreases n,
{
    if n > 0 {
        lemma_cleared(data, mem, bytes, covered, n - 1);
        let before = with_pixels(data, bytes, clear_pixels(covered), n - 1);
        let coords = covered[n - 1];
        lemma_clear_pixel(data, mem, before, coords);
        let after = with_pixels(data, bytes, clear_pixels(covered), n);
        assert(after == with_pixel(data, before, coords, clear_pixel()));
        assert forall|at: int| 0 <= at < bytes.len() implies #[trigger] after[at] == if exists|
            i: int,
        |
            0 <= i < n && is_component(data, #[trigger] covered[i], at) {
            0
        } else {
            bytes[at]
        } by {
            if exists|i: int| 0 <= i < n - 1 && is_component(data, #[trigger] covered[i], at) {
                assert(before[at] == 0);
            } else if is_component(data, coords, at) {
                assert(is_component(data, covered[n - 1], at));
            } else {
                assert(before[at] == bytes[at]);
            }
        }
    }
}

/// Clearing a rectangle makes all colours and alphas of the covered pixels zero,
/// whatever they were, and changes no other byte; doing it twice is the same as doing it
/// once.
pub proof fn law_clear_rect(data: CGBitmapContextData, mem: Mem, covered: Seq<(i32, i32)>)
    requires
        data.wf(mem),
        forall|i: int| 0 <= i < covered.len() ==> data.accessible(#[trigger] covered[i]),
    ensures
        ({
            let after = cleared(data, mem.bytes@, covered);
            &&& after.len() == mem.bytes@.len()
            &&& forall|at: int|
                0 <= at < after.len() ==> #[trigger] after[at] == if exists|i: int|
                    0 <= i < covered.len() && is_component(data, #[trigger] covered[i], at) {
                    0
                } else {
                    mem.bytes@[at]
                }
            &&& cleared(data, after, covered) == after
        }),
{
    let n = covered.len() as int;
    let after = cleared(data, mem.bytes@, covered);
    lemma_cleared(data, mem, mem.bytes@, covered, n);
    lemma_cleared(data, mem, after, covered, n);
    assert(cleared(data, after, covered) =~= after);
}

/// Where rows do not overlap, a pixel of the bitmap that a cleared rectangle covers is
/// read as clear, and opaque if it has no alpha; any other pixel is as before.
pub proof fn law_clear_rect_pixels(
    data: CGBitmapContextData,
    mem: Mem,
    covered: Seq<(i32, i32)>,
    coords: (i32, i32),
)
    requires
        data.wf(mem),
        data.has_full_rows(),
        data.place(coords.0 as int, coords.1 as int) is Some,
    ensures
        ({
            let after = cleared(data, mem.bytes@, covered);
            let addr = data.data + data.place(coords.0 as int, coords.1 as int)->0;
            pixel_at(data, after, addr) == if covered.contains(coords) {
                PixelBytes {
                    r: 0,
                    g: 0,
                    b: 0,
                    a: if offsets_of(data.color_space, data.alpha_info).3 is Some {
                        0
                    } else {
                        255
                    },
                }
            } else {
                pixel_at(data, mem.bytes@, addr)
            }
        }),
{
    let after = cleared(data, mem.bytes@, covered);
    let (x, y) = (coords.0 as int, coords.1 as int);
    let addr = data.data + data.place(x, y)->0;
    let (r, g, b, a) = offsets_of(data.color_space, data.alpha_info);
    data.lemma_place(mem, x, y);
    assert forall|i: int| 0 <= i < covered.len() implies data.accessible(
        #[trigger] covered[i],
    ) by {
        if data.place(covered[i].0 as int, covered[i].1 as int) is Some {
            data.lemma_place(mem, covered[i].0 as int, covered[i].1 as int);
        }
    }
    law_clear_rect(data, mem, covered);
    assert forall|at: int, i: int|
        addr <= at < addr + data.pixel_size() && 0 <= i < covered.len()
            && #[trigger] is_component(data, covered[i], at) implies covered[i] == coords by {
        let (other_x, other_y) = (covered[i].0 as int, covered[i].1 as int);
        if covered[i] != coords {
            data.lemma_places_apart(mem, x, y, other_x, other_y);
        }
    }
    if covered.contains(coords) {
        let i = choose|i: int| 0 <= i < covered.len() && covered[i] == coords;
        assert(is_component(data, covered[i], addr + r));
        assert(is_component(data, covered[i], addr + g));
        assert(is_component(data, covered[i], addr + b));
        if let Some(o) = a {
            assert(is_component(data, covered[i], addr + o));
        }
    } else {
        assert(after[addr + r] == mem.bytes@[addr + r]);
        assert(after[addr + g] == mem.bytes@[addr + g]);
        assert(after[addr + b] == mem.bytes@[addr + b]);
        if let Some(o) = a {
            assert(after[addr + o] == mem.bytes@[addr + o]);
        }
    }
}

/// A pixel that an image covers: where it is, which texel lies there, and the
/// texel's colour combined with the pixel that was there and encoded.
#[derive(Clone, Copy, Debug)]
pub struct Sample {
    pub coords: (i32, i32),
    pub texel: (i32, i32),
    pub blended: PixelBytes,
}

/// An image with four bytes for each pixel.
pub struct Texture {
    pub pixels: Vec<u8>,
    pub width: u32,
    pub height: u32,
}

impl Texture {
    pub open spec fn wf(&self) -> bool {
        self.pixels@.len() == self.width * self.height * 4
    }
}

/// The pixel that an image gives for a sample: nothing outside of the image, and for
/// an opaque texel its colour as it is encoded again.
pub open spec fn sample_pixel(image: Texture, roundtrip: Seq<u8>, sample: Sample) -> Option<
    PixelBytes,
> {
    let (x, y) = sample.texel;
    if !(0 <= x < image.width && 0 <= y < image.height) {
        None
    } else {
        let at = y * image.width * 4 + x * 4;
        if image.pixels@[at + 3] == 255 {
            Some(
                PixelBytes {
                    r: roundtrip[image.pixels@[at] as int],
                    g: roundtrip[image.pixels@[at + 1] as int],
                    b: roundtrip[image.pixels@[at + 2] as int],
                    a: 255,
                },
            )
        } else {
            Some(sample.blended)
        }
    }
}

/// The pixels that an image gives for the first `n` samples.
pub open spec fn sampled(
    image: Texture,
    roundtrip: Seq<u8>,
    samples: Seq<Sample>,
    n: int,
) -> Seq<((i32, i32), PixelBytes)>
    decreases n,
{
    if n <= 0 {
        Seq::empty()
    } else {
        let before = sampled(image, roundtrip, samples, n - 1);
        match sample_pixel(image, roundtrip, samples[n - 1]) {
            Some(pixel) => before.push((samples[n - 1].coords, pixel)),
            None => before,
        }
    }
}

/// Draws an image: `samples` are the pixels that it covers.
pub fn CGContextDrawImage(
    env: &mut Environment,
    context: Id,
    image: &Texture,
    roundtrip: &Vec<u8>,
    samples: &Vec<Sample>,
)
    requires
        can_draw(*old(env), context),
        image.wf(),
        roundtrip@.len() == 256,
        forall|i: int|
            0 <= i < samples@.len() ==> cg_context::context_at(
                old(env).objc.objects@,
                context,
            ).bitmap.accessible((#[trigger] samples@[i]).coords),
    ensures
        can_draw(*final(env), context),
        ({
            let pixels = sampled(*image, roundtrip@, samples@, samples@.len() as int);
            pixels_changed(
                *old(env),
                *final(env),
                with_pixels(
                    cg_context::context_at(old(env).objc.objects@, context).bitmap,
                    old(env).mem.bytes@,
                    pixels,
                    pixels.len() as int,
                ),
            )
        }),
{
    let mut pixels: Vec<((i32, i32), PixelBytes)> = Vec::new();
    let ghost bitmap = cg_context::context_at(env.objc.objects@, context).bitmap;
    let mut i: usize = 0;
    while i < samples.len()
        invariant
            i <= samples@.len(),
            image.wf(),
            roundtrip@.len() == 256,
            pixels@ == sampled(*image, roundtrip@, samples@, i as int),
            forall|k: int|
                0 <= k < samples@.len() ==> bitmap.accessible((#[trigger] samples@[k]).coords),
            forall|k: int| 0 <= k < pixels@.len() ==> bitmap.accessible((#[trigger] pixels@[k]).0),
        decreases samples@.len() - i,
    {
        let sample: Sample = samples[i];
        let (x, y): (i32, i32) = sample.texel;
        assert(image.pixels.len() <= usize::MAX);
        if let Some(at) = texel_place(image.width, image.height, x, y) {
            proof {
                assert(y * image.width * 4 + x * 4 + 4 <= image.width * image.height * 4)
                    by (nonlinear_arith)
                    requires
                        0 <= x,
                        x + 1 <= image.width,
                        0 <= y,
                        y + 1 <= image.height,
                ;
            }
            let pixel: PixelBytes = if image.pixels[at + 3] == 255 {
                PixelBytes {
                    r: roundtrip[image.pixels[at] as usize],
                    g: roundtrip[image.pixels[at + 1] as usize],
                    b: roundtrip[image.pixels[at + 2] as usize],
                    a: 255,
                }
            } else {
                sample.blended
            };
            pixels.push((sample.coords, pixel));
        }
        i = i + 1;
    }
    put_pixels(env, context, &pixels);
}

/// The pixels of a rectangle of the bitmap, row by row.
pub open spec fn raster(x_start: int, x_end: int, y_start: int, n: int) -> Seq<(u32, u32)>
    decreases n,
{
    if n <= 0 || x_end <= x_start {
        Seq::empty()
    } else {
        raster(x_start, x_end, y_start, n - 1) + Seq::new(
            (x_end - x_start) as nat,
            |k: int| ((x_start + k) as u32, (y_start + n - 1) as u32),
        )
    }
}

/// The pixels of a rectangle of the bitmap, row by row.
pub fn raster_coords(x_start: u32, x_end: u32, y_start: u32, y_end: u32) -> (coords: Vec<
    (u32, u32),
>)
    ensures
        coords@ == raster(x_start as int, x_end as int, y_start as int, y_end - y_start),
{
    let mut coords: Vec<(u32, u32)> = Vec::new();
    if x_end <= x_start {
        return coords;
    }
    let mut y: u32 = y_start;
    while y < y_end
        invariant
            x_start < x_end,
            y_start <= y,
            y <= y_end || y == y_start,
            coords@ == raster(x_start as int, x_end as int, y_start as int, y - y_start),
        decreases y_end - y,
    {
        let ghost before = coords@;
        let mut x: u32 = x_start;
        while x < x_end
            invariant
                x_start <= x <= x_end,
                coords@ == before + Seq::new((x - x_start) as nat, |k: int| ((x_start + k) as u32, y)),
            decreases x_end - x,
        {
            coords.push((x, y));
            x = x + 1;
            assert(coords@ =~= before + Seq::new(
                (x - x_start) as nat,
                |k: int| ((x_start + k) as u32, y),
            ));
        }
        y = y + 1;
        assert(coords@ =~= raster(x_start as int, x_end as int, y_start as int, y - y_start));
    }
    coords
}

/// A pixel has the components of its color space, and one more where alpha, or space for
/// it, stands before or behind them; with alpha alone it has one.
pub proof fn law_components(alpha_info: u32)
    ensures
        components_of(ColorSpace::GenericRGB, 0) == Some(3u32),
        components_of(ColorSpace::GenericGray, 0) == Some(1u32),
        1 <= alpha_info <= 6 ==> components_of(ColorSpace::GenericRGB, alpha_info) == Some(4u32)
            && components_of(ColorSpace::GenericGray, alpha_info) == Some(2u32),
        components_of(ColorSpace::GenericRGB, 7) == Some(1u32) && components_of(
            ColorSpace::GenericGray,
            7,
        ) == Some(1u32),
        alpha_info > 7 ==> components_of(ColorSpace::GenericRGB, alpha_info) is None
            && components_of(ColorSpace::GenericGray, alpha_info) is None,
{
}

/// The format of a bitmap is known where it says nothing but its alpha and, if anything,
/// that the highest byte of 32 bits comes first.
pub proof fn law_known_formats(space: ColorSpace, info: u32)
    ensures
        info < 32 ==> component_count(space, info) == components_of(space, info),
        0x4000 <= info < 0x4020 ==> component_count(space, info) == components_of(
            space,
            (info - 0x4000) as u32,
        ),
        32 <= info < 0x4000 || info >= 0x4020 ==> component_count(space, info) is None,
{
    assert((info < 32 ==> info & 0x7000 == 0 && info & 0x1f == info && (info & 0x1f) | (info
        & 0x7000) == info) && (0x4000 <= info < 0x4020 ==> info & 0x7000 == 0x4000 && info & 0x1f
        == info - 0x4000 && (info & 0x1f) | (info & 0x7000) == info) && (32 <= info < 0x4000
        || info >= 0x4020 ==> (info & 0x7000 != 0 && info & 0x7000 != 0x4000) || (info & 0x1f) | (
    info & 0x7000) != info)) by (bit_vector);
}

/// Where the components of a pixel stand: red, green and blue in this order and one gray
/// for all three, with the alpha before or behind them, or with unused space there.
pub proof fn law_offsets(alpha_info: u32)
    ensures
        ({
            let rgb = offsets_of(ColorSpace::GenericRGB, alpha_info);
            let gray = offsets_of(ColorSpace::GenericGray, alpha_info);
            &&& alpha_info == 0 || alpha_info == 5 ==> rgb == (0int, 1int, 2int, None::<int>)
                && gray == (0int, 0int, 0int, None::<int>)
            &&& alpha_info == 1 || alpha_info == 3 ==> rgb == (0int, 1int, 2int, Some(3int))
                && gray == (0int, 0int, 0int, Some(1int))
            &&& alpha_info == 2 || alpha_info == 4 ==> rgb == (1int, 2int, 3int, Some(0int))
                && gray == (1int, 1int, 1int, Some(0int))
            &&& alpha_info == 6 ==> rgb == (1int, 2int, 3int, None::<int>) && gray == (
                1int,
                1int,
                1int,
                None::<int>,
            )
            &&& alpha_info == 7 ==> rgb.3 == Some(0int) && gray.3 == Some(0int)
        }),
{
}

/// Rows stand from the top down while coordinates count from the bottom up, and the pixels
/// of a row follow each other.
pub proof fn law_places(data: CGBitmapContextData, x: int, y: int)
    ensures
        data.width > 0 && data.height > 0 ==> data.place(0, data.height - 1) == Some(0int),
        0 <= x && x + 1 < data.width && 0 <= y < data.height ==> data.place(x + 1, y)->0
            == data.place(x, y)->0 + data.pixel_size(),
        0 <= x < data.width && 0 <= y && y + 1 < data.height ==> data.place(x, y)->0 == data.place(
            x,
            y + 1,
        )->0 + data.bytes_per_row,
        0 <= x < data.width && 0 <= y < data.height <==> data.place(x, y) is Some,
{
    let size = data.pixel_size();
    let row = data.bytes_per_row as int;
    assert((x + 1) * size == x * size + size) by (nonlinear_arith);
    assert(0 * size == 0 && 0 * row == 0) by (nonlinear_arith);
    let below = data.height - 1 - (y + 1);
    assert((below + 1) * row == below * row + row) by (nonlinear_arith);
}

/// Pixels are put one after the other, a later one over an earlier one.
pub proof fn law_pixels_in_order(
    data: CGBitmapContextData,
    bytes: Seq<u8>,
    pixels: Seq<((i32, i32), PixelBytes)>,
    pixel: ((i32, i32), PixelBytes),
)
    ensures
        with_pixels(data, bytes, pixels.push(pixel), pixels.len() as int + 1) == with_pixel(
            data,
            with_pixels(data, bytes, pixels, pixels.len() as int),
            pixel.0,
            pixel.1,
        ),
        with_pixels(data, bytes, Seq::empty(), 0) == bytes,
{
    lemma_pixels_prefix(data, bytes, pixels, pixel, pixels.len() as int);
}

proof fn lemma_pixels_prefix(
    data: CGBitmapContextData,
    bytes: Seq<u8>,
    pixels: Seq<((i32, i32), PixelBytes)>,
    pixel: ((i32, i32), PixelBytes),
    n: int,
)
    requires
        n <= pixels.len(),
    ensures
        with_pixels(data, bytes, pixels.push(pixel), n) == with_pixels(data, bytes, pixels, n),
    decreases n,
{
    if n > 0 {
        lemma_pixels_prefix(data, bytes, pixels, pixel, n - 1);
    }
}

/// Rows are as long as they are said to be, or just hold their pixels if nothing is said.
/// Images are taken with four bytes for each pixel, colors first, and nothing between rows.
pub proof fn law_rows(width: u32, components: u32, stride: u32, bitmap: CGBitmapContextData)
    ensures
        row_size(width, components, 0) == width * components,
        stride > 0 ==> row_size(width, components, stride) == stride,
        is_image_format(bitmap) ==> bitmap.bytes_per_row == 4 * bitmap.width && (bitmap.alpha_info
            == 1 || bitmap.alpha_info == 5) && bitmap.bits_per_component == 8
            && bitmap.color_space is GenericRGB,
        bitmap.bytes_per_row == 4 * bitmap.width && bitmap.alpha_info == 1
            && bitmap.bits_per_component == 8 && bitmap.color_space == ColorSpace::GenericRGB
            ==> is_image_format(bitmap),
{
}

/// A pixel of an image whose alpha is full is drawn as it is, through the table of its
/// colors; one with less is blended, and nothing is drawn from beyond the image.
pub proof fn law_sample(image: Texture, table: Seq<u8>, sample: Sample, at: int)
    requires
        at == 4 * (sample.texel.1 * image.width + sample.texel.0),
    ensures
        sample.texel.0 < 0 || sample.texel.0 >= image.width || sample.texel.1 < 0 || sample.texel.1
            >= image.height ==> sample_pixel(image, table, sample) is None,
        0 <= sample.texel.0 < image.width && 0 <= sample.texel.1 < image.height ==> {
            let p = image.pixels@;
            &&& p[at + 3] != 255 ==> sample_pixel(image, table, sample) == Some(sample.blended)
            &&& p[at + 3] == 255 ==> sample_pixel(image, table, sample) == Some(
                PixelBytes {
                    r: table[p[at] as int],
                    g: table[p[at + 1] as int],
                    b: table[p[at + 2] as int],
                    a: 255,
                },
            )
        },
{
    let (x, y) = sample.texel;
    assert(y * image.width * 4 + x * 4 == 4 * (y * image.width + x)) by (nonlinear_arith);
}

/// A raster goes through the columns of each row, and row by row.
pub proof fn law_raster(x_start: int, x_end: int, y_start: int, n: int, x: int, y: int)
    requires
        0 <= x_start <= x < x_end <= u32::MAX,
        0 <= y_start <= y < y_start + n,
        y_start + n <= u32::MAX,
    ensures
        raster(x_start, x_end, y_start, n).len() == (x_end - x_start) * n,
        0 <= (x_end - x_start) * (y - y_start) + (x - x_start) < (x_end - x_start) * n,
        raster(x_start, x_end, y_start, n)[(x_end - x_start) * (y - y_start) + (x - x_start)] == (
            x as u32,
            y as u32,
        ),
    decreases n,
{
    let w = x_end - x_start;
    let before = raster(x_start, x_end, y_start, n - 1);
    lemma_raster_len(x_start, x_end, y_start, n - 1);
    lemma_raster_len(x_start, x_end, y_start, n);
    let at = w * (y - y_start) + (x - x_start);
    if y < y_start + n - 1 {
        law_raster(x_start, x_end, y_start, n - 1, x, y);
        assert(w * (n - 1) <= w * n) by (nonlinear_arith)
            requires
                w > 0,
        ;
        assert(raster(x_start, x_end, y_start, n)[at] == before[at]);
    } else {
        assert(y - y_start == n - 1);
        assert(w * n == w * (n - 1) + w) by (nonlinear_arith);
        assert(w * (n - 1) >= 0) by (nonlinear_arith)
            requires
                w > 0,
                n >= 1,
        ;
        assert(at == before.len() + (x - x_start));
    }
}

proof fn lemma_raster_len(x_start: int, x_end: int, y_start: int, n: int)
    requires
        x_start < x_end,
        n >= 0,
    ensures
        raster(x_start, x_end, y_start, n).len() == (x_end - x_start) * n,
    decreases n,
{
    let w = x_end - x_start;
    if n > 0 {
        lemma_raster_len(x_start, x_end, y_start, n - 1);
        assert(w * n == w * (n - 1) + w) by (nonlinear_arith);
    } else {
        assert(w * 0 == 0) by (nonlinear_arith);
    }
}

/// Colors are blended where pixels hold their alpha: by how they hold it, and with alpha
/// alone by that. Without alpha, or where nothing is to be blended, they replace the pixel.
pub proof fn law_blend(space: ColorSpace, alpha_info: u32)
    ensures
        blend_of(alpha_info, false) is Replace,
        blend_of(alpha_info, true) is Straight <==> alpha_info == 3 || alpha_info == 4,
        blend_of(alpha_info, true) is Premultiplied <==> alpha_info == 1 || alpha_info == 2,
        blend_of(alpha_info, true) is AlphaOnly <==> alpha_info == 7,
        alpha_info <= 7 ==> (blend_of(alpha_info, true) is Replace <==> offsets_of(
            space,
            alpha_info,
        ).3 is None),
{
}

/// What samples give is put one after the other, and nothing for those that give none.
pub proof fn law_sampled(image: Texture, table: Seq<u8>, samples: Seq<Sample>, n: int)
    requires
        0 <= n < samples.len(),
    ensures
        sampled(image, table, samples, 0).len() == 0,
        ({
            let before = sampled(image, table, samples, n);
            let after = sampled(image, table, samples, n + 1);
            match sample_pixel(image, table, samples[n]) {
                Some(pixel) => after == before.push((samples[n].coords, pixel)),
                None => after == before,
            }
        }),
{
}

} // verus!
