//! Pictures that are stamped into a world.
use std::io::Cursor;

use image::{DynamicImage, ImageBuffer, ImageDecoder, ImageError, ImageFormat, ImageReader, Luma};
use vstd::prelude::*;

verus! {

/// Why a picture could not be read.
#[verifier::external_type_specification]
#[verifier::external_body]
pub struct ExImageError(ImageError);

/// The largest width or height of a picture that is stamped.
pub const MAX_DIM: u32 = 256;

/// How many pixels with sixteen-bit channels can be averaged: their sum, and
/// half their number for rounding, fits into thirty-two bits.
pub const MAX_DEEP_BLOCK: u64 = 65_536;

/// A small picture: how bright and how opaque each pixel is, row by row.
pub struct Picture {
    pub width: u32,
    pub height: u32,
    /// Two bytes for each pixel.
    pub pixels: Vec<u8>,
}

impl Picture {
    pub open spec fn wf(self) -> bool {
        &&& 1 <= self.width <= MAX_DIM
        &&& 1 <= self.height <= MAX_DIM
        &&& self.pixels@.len() == self.width * self.height * 2
    }

    pub open spec fn luma(self, px: int, py: int) -> u8 {
        self.pixels@[(py * self.width + px) * 2]
    }

    pub open spec fn alpha(self, px: int, py: int) -> u8 {
        self.pixels@[(py * self.width + px) * 2 + 1]
    }

    /// The pixel counts: it is opaque, and dark, or bright where `invert`
    /// says so.
    pub open spec fn is_inked(self, invert: bool, px: int, py: int) -> bool {
        &&& 0 <= px < self.width
        &&& 0 <= py < self.height
        &&& self.alpha(px, py) >= 128
        &&& (self.luma(px, py) < 128) != invert
    }

    /// Naive luminance threshold: dark opaque pixels count (or bright ones
    /// with `invert`); transparent pixels never do.
    pub fn inked(&self, invert: bool, px: u32, py: u32) -> (r: bool)
        requires
            self.wf(),
            px < self.width,
            py < self.height,
        ensures
            r == self.is_inked(invert, px as int, py as int),
    {
        proof {
            lemma_pixel(px as int, py as int, self.width as int, self.height as int);
        }
        let at: usize = (py as usize * self.width as usize + px as usize) * 2;
        let (luma, alpha) = (self.pixels[at], self.pixels[at + 1]);
        alpha >= 128 && ((luma < 128) != invert)
    }

    /// There is room for the picture around the place.
    pub open spec fn fits_at(self, x: int, y: int) -> bool {
        &&& i64::MIN <= x - self.width / 2 && x - self.width / 2 + self.width - 1 <= i64::MAX
        &&& i64::MIN <= y - self.height / 2 && y - self.height / 2 + self.height - 1 <= i64::MAX
    }

    /// Where the picture's first pixel goes when the picture is centered.
    pub fn origin(&self, center_x: i64, center_y: i64) -> (r: (i64, i64))
        requires
            self.wf(),
            self.fits_at(center_x as int, center_y as int),
        ensures
            r.0 == center_x - self.width / 2,
            r.1 == center_y - self.height / 2,
    {
        (center_x - (self.width / 2) as i64, center_y - (self.height / 2) as i64)
    }
}

/// There is room for a picture of any size around the place.
pub open spec fn fits_around(x: int, y: int) -> bool {
    &&& i64::MIN + 128 <= x <= i64::MAX - 127
    &&& i64::MIN + 128 <= y <= i64::MAX - 127
}

proof fn lemma_pixel(px: int, py: int, width: int, height: int)
    requires
        0 <= px < width <= 256,
        0 <= py < height <= 256,
    ensures
        0 <= py * width + px,
        (py * width + px) * 2 + 1 < width * height * 2,
        py * width + px < 65536,
{
    assert(0 <= py * width && py * width + px < width * height) by (nonlinear_arith)
        requires
            0 <= px < width,
            0 <= py < height,
    ;
    assert(width * height <= 65536) by (nonlinear_arith)
        requires
            0 <= width <= 256,
            0 <= height <= 256,
    ;
}

/// Why a picture was not imported.
#[derive(Debug)]
pub enum PictureError {
    /// The file is no picture that can be read; the text says why.
    Unreadable(String),
}

impl PictureError {
    pub fn message(&self) -> (r: String)
        ensures
            match self {
                PictureError::Unreadable(reason) => r@ == reason@,
            },
    {
        match self {
            PictureError::Unreadable(reason) => reason.clone(),
        }
    }
}

/// What the headers of a picture file say, where it can be read: width,
/// height, bytes per pixel and channels per pixel.
pub uninterp spec fn header_of(bytes: Seq<u8>, path: Seq<char>) -> Option<(u32, u32, u8, u8)>;

/// Reads the headers of a picture file with `image::ImageReader::into_decoder`
/// in the format that `image::ImageFormat::from_path` finds in the path's
/// extension. What comes out depends on the bytes and the path alone. That no
/// decoder panics on a malformed file is taken for granted, not shown.
#[verifier::external_body]
fn read_header(bytes: &[u8], path: &str) -> (r: Result<(u32, u32, u8, u8), ImageError>)
    ensures
        match r {
            Ok(header) => header_of(bytes@, path@) == Some(header),
            Err(_) => header_of(bytes@, path@) is None,
        },
{
    let format = ImageFormat::from_path(path)?;
    let decoder = ImageReader::with_format(Cursor::new(bytes), format).into_decoder()?;
    let (width, height) = decoder.dimensions();
    let color = decoder.color_type();
    Ok((width, height, color.bytes_per_pixel(), color.channel_count()))
}

/// The channels of the picture have sixteen bits each.
pub open spec fn is_deep(header: (u32, u32, u8, u8)) -> bool {
    header.2 == 2 * header.3
}

/// The least number of pixels that the shorter side of a picture is shrunk to
/// where its longer side is shrunk to `MAX_DIM`. The exact number is rounded;
/// halves may go either way.
pub open spec fn least_short_side(longer: int, shorter: int) -> int {
    let rounded = (2 * MAX_DIM * shorter + longer - 1) / (2 * longer);
    if rounded < 1 {
        1
    } else {
        rounded
    }
}

/// The most pixels of a side that become one where `side` pixels are shrunk to
/// `out` or more. The ends of the blocks are rounded.
pub open spec fn longest_block(side: int, out: int) -> int {
    let most = side / out + side / 0x20_0000 + 2;
    if most < side {
        most
    } else {
        side
    }
}

/// The most pixels of the longer side that become one. The ends of the blocks
/// are exact where each block has the same whole size and the numbers have at
/// most twenty-four bits.
pub open spec fn longest_main_block(longer: int) -> int {
    if longer % (MAX_DIM as int) == 0 && longer < 0x100_0000 {
        longer / (MAX_DIM as int)
    } else {
        longest_block(longer, MAX_DIM as int)
    }
}

/// The most pixels that are averaged into one of the shrunk picture.
pub open spec fn largest_block(width: int, height: int) -> int {
    let (longer, shorter) = if width < height {
        (height, width)
    } else {
        (width, height)
    };
    if shorter == 0 {
        0
    } else {
        longest_main_block(longer) * longest_block(shorter, least_short_side(longer, shorter))
    }
}

/// The pixels of each block can be summed up in thirty-two bits, whatever their
/// colors.
pub open spec fn has_small_blocks(header: (u32, u32, u8, u8)) -> bool {
    is_deep(header) ==> largest_block(header.0 as int, header.1 as int) <= MAX_DEEP_BLOCK
}

fn block_length(side: u32, out: u32) -> (r: u64)
    requires
        0 < out,
    ensures
        r == longest_block(side as int, out as int),
        r <= u32::MAX,
{
    assert(0 <= side as int / out as int <= side) by (nonlinear_arith)
        requires
            0 < out,
    ;
    let most: u64 = (side / out) as u64 + (side / 0x20_0000) as u64 + 2;
    if most < side as u64 {
        most
    } else {
        side as u64
    }
}

/// Whether the pixels of each block can be summed up in thirty-two bits.
pub fn small_blocks(header: (u32, u32, u8, u8)) -> (r: bool)
    ensures
        r == has_small_blocks(header),
{
    let (width, height, pixel_bytes, channels) = header;
    if pixel_bytes as u32 != 2 * channels as u32 {
        return true;
    }
    let (longer, shorter) = if width < height {
        (height, width)
    } else {
        (width, height)
    };
    if shorter == 0 {
        return true;
    }
    let rounded: u64 = (512 * shorter as u64 + longer as u64 - 1) / (2 * longer as u64);
    assert(rounded <= 256) by (nonlinear_arith)
        requires
            rounded as int == (512 * shorter + longer - 1) / (2 * longer as int),
            0 < shorter <= longer,
    ;
    let out: u32 = if rounded < 1 {
        1
    } else {
        rounded as u32
    };
    let a: u64 = if longer % MAX_DIM == 0 && longer < 0x100_0000 {
        (longer / MAX_DIM) as u64
    } else {
        block_length(longer, MAX_DIM)
    };
    let b: u64 = block_length(shorter, out);
    assert(a * b <= 0xffff_ffff * 0xffff_ffff) by (nonlinear_arith)
        requires
            0 <= a <= 0xffff_ffff,
            0 <= b <= 0xffff_ffff,
    ;
    a * b <= MAX_DEEP_BLOCK
}

/// The width and height that a picture is shrunk to by
/// `image::DynamicImage::thumbnail` to fit into a square with sides of `max`.
pub uninterp spec fn shrunk_size(width: u32, height: u32, max: u32) -> (u32, u32);

/// `n` is the integer nearest to the quotient, where halves may go either way,
/// and at least 1.
pub open spec fn is_rounded(n: int, dividend: int, divisor: int) -> bool {
    &&& 1 <= n
    &&& 2 * dividend - 2 * (n * divisor) <= divisor
    &&& 1 < n ==> 2 * (n * divisor) - 2 * dividend <= divisor
}

/// A picture with these sides fits into a square with sides of `max` when it is
/// shrunk to `size`: the longer side becomes `max`, and the shorter one keeps
/// its proportion.
pub open spec fn is_fitted(width: u32, height: u32, max: u32, size: (u32, u32)) -> bool {
    &&& 0 < height <= width ==> size.0 == max && is_rounded(
        size.1 as int,
        max * height,
        width as int,
    )
    &&& 0 < width <= height ==> size.1 == max && is_rounded(
        size.0 as int,
        max * width,
        height as int,
    )
}

/// The pixels may be what a picture file is decoded and shrunk to. Which of
/// them come out depends on the implementation that a decoder chooses by what
/// the processor offers.
pub uninterp spec fn may_decode_to(
    bytes: Seq<u8>,
    path: Seq<char>,
    max: u32,
    pixels: Seq<u8>,
) -> bool;

/// Decodes a picture file with `image::load_from_memory_with_format`, in the
/// format that its path's extension names, scales it to fit into a square
/// with sides of `max` by `DynamicImage::thumbnail`, and takes its brightness
/// and opacity by `DynamicImage::to_luma_alpha8`. The size depends on that of
/// the picture and on `max` alone: the longer side becomes `max`, also where
/// the picture is smaller, and the shorter side keeps its proportion. Each
/// pixel takes two bytes. Which pixels come out is left unsaid: the decoders
/// choose among several implementations by what the processor offers. That no
/// decoder panics on a malformed file is taken for granted, not shown.
#[verifier::external_body]
fn decode_small(bytes: &[u8], path: &str, max: u32) -> (r: Result<Picture, ImageError>)
    requires
        header_of(bytes@, path@) matches Some(header) && has_small_blocks(header),
        max == MAX_DIM,
    ensures
        r matches Ok(picture) ==> {
            &&& 1 <= picture.width <= max
            &&& 1 <= picture.height <= max
            &&& picture.pixels@.len() == picture.width * picture.height * 2
            &&& header_of(bytes@, path@) matches Some(header) ==> {
                let size = (picture.width, picture.height);
                size == shrunk_size(header.0, header.1, max) && is_fitted(
                    header.0,
                    header.1,
                    max,
                    size,
                )
            }
            &&& may_decode_to(bytes@, path@, max, picture.pixels@)
        },
{
    let format = ImageFormat::from_path(path)?;
    let picture = image::load_from_memory_with_format(bytes, format)?;
    let small = picture.thumbnail(max, max).to_luma_alpha8();
    let (width, height) = small.dimensions();
    Ok(Picture { width, height, pixels: small.into_raw() })
}

/// What the samples of a pixel stand for.
#[derive(Clone, Copy, PartialEq, Eq, Debug, Structural)]
pub enum DeepColor {
    Luma,
    LumaAlpha,
    Rgb,
    Rgba,
}

impl DeepColor {
    pub open spec fn spec_channels(self) -> usize {
        match self {
            DeepColor::Luma => 1,
            DeepColor::LumaAlpha => 2,
            DeepColor::Rgb => 3,
            DeepColor::Rgba => 4,
        }
    }

    /// How many samples a pixel has.
    #[verifier::when_used_as_spec(spec_channels)]
    pub fn channels(self) -> (r: usize)
        ensures
            r == self.channels(),
    {
        match self {
            DeepColor::Luma => 1,
            DeepColor::LumaAlpha => 2,
            DeepColor::Rgb => 3,
            DeepColor::Rgba => 4,
        }
    }
}

/// A decoded picture with sixteen-bit channels, row by row.
pub struct DeepPicture {
    pub width: u32,
    pub height: u32,
    pub color: DeepColor,
    pub samples: Vec<u16>,
}

/// How many samples a decoded picture has at most.
pub const MAX_SAMPLES: u32 = 0x1000_0000;

impl DeepPicture {
    pub open spec fn wf(self) -> bool {
        &&& self.samples@.len() == (self.width * self.height) * self.color.channels()
        &&& self.samples@.len() <= MAX_SAMPLES
    }
}

/// The samples may be what a picture file with sixteen-bit channels is decoded
/// to. Which of them come out depends on the implementation that a decoder
/// chooses by what the processor offers.
pub uninterp spec fn may_decode_deep(bytes: Seq<u8>, path: Seq<char>, samples: Seq<u16>) -> bool;

/// Decodes a picture file with `image::load_from_memory_with_format`, in the
/// format that its path's extension names, and takes its samples by
/// `ImageBuffer::into_raw`. The size and the channels are those of the
/// headers, and the decoders allocate no more than 512 MiB. Which samples come
/// out is left unsaid. That no decoder panics on a malformed file is taken for
/// granted, not shown.
#[verifier::external_body]
fn decode_deep(bytes: &[u8], path: &str) -> (r: Result<DeepPicture, ImageError>)
    requires
        header_of(bytes@, path@) matches Some(header) && is_deep(header),
    ensures
        r matches Ok(picture) ==> {
            &&& picture.wf()
            &&& header_of(bytes@, path@) matches Some(header) ==> {
                &&& picture.width == header.0
                &&& picture.height == header.1
                &&& picture.color.channels() == header.3
            }
            &&& may_decode_deep(bytes@, path@, picture.samples@)
        },
{
    let format = ImageFormat::from_path(path)?;
    let picture = image::load_from_memory_with_format(bytes, format)?;
    let (width, height) = (picture.width(), picture.height());
    let (color, samples) = match picture {
        DynamicImage::ImageLuma16(p) => (DeepColor::Luma, p.into_raw()),
        DynamicImage::ImageLumaA16(p) => (DeepColor::LumaAlpha, p.into_raw()),
        DynamicImage::ImageRgb16(p) => (DeepColor::Rgb, p.into_raw()),
        other => (DeepColor::Rgba, other.into_rgba16().into_raw()),
    };
    Ok(DeepPicture { width, height, color, samples })
}

/// Finds the size that `image::DynamicImage::thumbnail` shrinks a picture with
/// these sides to, by shrinking a blank one. The longer side becomes `max`, and
/// the shorter side keeps its proportion.
#[verifier::external_body]
fn thumbnail_size(width: u32, height: u32, max: u32) -> (r: (u32, u32))
    requires
        width * height <= MAX_SAMPLES,
        max == MAX_DIM,
    ensures
        1 <= r.0 <= max,
        1 <= r.1 <= max,
        r == shrunk_size(width, height, max),
        is_fitted(width, height, max, r),
{
    let small = DynamicImage::new_luma8(width, height).thumbnail(max, max);
    (small.width(), small.height())
}

/// The averages of a plane's blocks, row by row, as `image::imageops::thumbnail`
/// takes them to shrink the plane to the given size.
pub uninterp spec fn averaged(
    plane: Seq<u32>,
    width: u32,
    height: u32,
    small_width: u32,
    small_height: u32,
) -> Seq<u32>;

/// A side is shrunk to half or less, or to one pixel.
pub open spec fn is_halved(side: u32, small: u32) -> bool {
    1 <= small <= MAX_DIM && (small == 1 || 2 * small <= side)
}

/// Shrinks a plane with `image::imageops::thumbnail`, which sums up samples of
/// thirty-two bits in sixty-four. There is one average for each pixel of the
/// small plane. Where a side is neither halved nor shrunk to one pixel, a block
/// can be without a pixel, and the call may panic.
#[verifier::external_body]
fn shrink_plane(plane: Vec<u32>, width: u32, height: u32, size: (u32, u32)) -> (r: Vec<u32>)
    requires
        plane@.len() == width * height,
        0 < plane@.len() <= MAX_SAMPLES,
        is_halved(width, size.0),
        is_halved(height, size.1),
    ensures
        r@ == averaged(plane@, width, height, size.0, size.1),
        r@.len() == size.0 * size.1,
{
    let plane: ImageBuffer<Luma<u32>, Vec<u32>> =
        ImageBuffer::from_raw(width, height, plane).unwrap();
    image::imageops::thumbnail(&plane, size.0, size.1).into_raw()
}

/// The pixels may be the brightness and opacity of the samples. Brightness is
/// rounded as the processor multiplies and adds.
pub uninterp spec fn may_turn_gray(channels: usize, samples: Seq<u16>, pixels: Seq<u8>) -> bool;

/// Takes the brightness and opacity of a picture with sixteen-bit channels by
/// `image::DynamicImage::to_luma_alpha8`. Each pixel takes two bytes. Which
/// bytes come out is left unsaid.
#[verifier::external_body]
fn gray_of(color: DeepColor, samples: Vec<u16>, width: u32, height: u32) -> (r: Vec<u8>)
    requires
        width <= MAX_DIM,
        height <= MAX_DIM,
        samples@.len() == (width * height) * color.channels(),
    ensures
        r@.len() == width * height * 2,
        may_turn_gray(color.channels(), samples@, r@),
{
    let picture = match color {
        DeepColor::Luma => ImageBuffer::from_raw(width, height, samples).map(DynamicImage::ImageLuma16),
        DeepColor::LumaAlpha => ImageBuffer::from_raw(width, height, samples).map(DynamicImage::ImageLumaA16),
        DeepColor::Rgb => ImageBuffer::from_raw(width, height, samples).map(DynamicImage::ImageRgb16),
        DeepColor::Rgba => ImageBuffer::from_raw(width, height, samples).map(DynamicImage::ImageRgba16),
    };
    picture.unwrap().to_luma_alpha8().into_raw()
}

/// One channel of a picture.
pub open spec fn plane_of(samples: Seq<u16>, channels: int, channel: int) -> Seq<u32> {
    Seq::new(
        (samples.len() as int / channels) as nat,
        |i: int| samples[i * channels + channel] as u32,
    )
}

/// The value in sixteen bits; the largest one stands for those that are too
/// large.
pub open spec fn narrowed(value: u32) -> u16 {
    if value <= u16::MAX {
        value as u16
    } else {
        u16::MAX
    }
}

/// The samples of a shrunk picture: each channel is shrunk on its own.
pub open spec fn shrunk_samples(
    samples: Seq<u16>,
    channels: int,
    width: u32,
    height: u32,
    size: (u32, u32),
) -> Seq<u16> {
    Seq::new(
        ((size.0 * size.1) * channels) as nat,
        |i: int|
            narrowed(
                averaged(
                    plane_of(samples, channels, i % channels),
                    width,
                    height,
                    size.0,
                    size.1,
                )[i / channels],
            ),
    )
}

impl DeepPicture {
    /// One channel of the picture, with room for sums.
    fn plane(&self, channel: usize) -> (r: Vec<u32>)
        requires
            self.wf(),
            channel < self.color.channels(),
        ensures
            r@ == plane_of(self.samples@, self.color.channels() as int, channel as int),
            r@.len() == self.width * self.height,
    {
        let channels = self.color.channels();
        let ghost pixels = self.width * self.height;
        let mut plane: Vec<u32> = Vec::new();
        let mut at: usize = channel;
        proof {
            assert(0 <= pixels) by (nonlinear_arith)
                requires
                    pixels == self.width * self.height,
            ;
            lemma_interleaved(pixels, channels as int, 0, 0);
        }
        while at < self.samples.len()
            invariant
                channels == self.color.channels(),
                1 <= channels <= 4,
                channel < channels,
                self.wf(),
                self.samples@.len() == pixels * channels,
                plane@.len() <= pixels,
                at == plane@.len() * channels + channel,
                forall|i: int|
                    0 <= i < plane@.len() ==> #[trigger] plane@[i] == self.samples@[i * channels
                        + channel],
            decreases self.samples@.len() + channels - at,
        {
            assert(plane@.len() < pixels) by (nonlinear_arith)
                requires
                    plane@.len() * channels + channel < pixels * channels,
                    1 <= channels,
                    0 <= channel,
            ;
            assert((plane@.len() + 1) * channels == plane@.len() * channels + channels)
                by (nonlinear_arith);
            plane.push(self.samples[at] as u32);
            at = at + channels;
        }
        assert(plane@.len() == pixels) by (nonlinear_arith)
            requires
                plane@.len() * channels + channel >= pixels * channels,
                plane@.len() <= pixels,
                channel < channels,
        ;
        assert(plane@ =~= plane_of(self.samples@, channels as int, channel as int));
        plane
    }

    /// The samples of the picture shrunk to the given size.
    fn shrink(&self, size: (u32, u32)) -> (r: Vec<u16>)
        requires
            self.wf(),
            0 < self.width,
            0 < self.height,
            is_halved(self.width, size.0),
            is_halved(self.height, size.1),
        ensures
            r@ == shrunk_samples(
                self.samples@,
                self.color.channels() as int,
                self.width,
                self.height,
                size,
            ),
    {
        let channels = self.color.channels();
        let ghost of = |c: int|
            averaged(
                plane_of(self.samples@, channels as int, c),
                self.width,
                self.height,
                size.0,
                size.1,
            );
        let ghost small_pixels = size.0 * size.1;
        proof {
            let pixels = self.width * self.height;
            assert(0 < pixels && pixels <= pixels * channels) by (nonlinear_arith)
                requires
                    pixels == self.width * self.height,
                    0 < self.width,
                    0 < self.height,
                    1 <= channels,
            ;
            assert(0 < small_pixels <= 65536) by (nonlinear_arith)
                requires
                    small_pixels == size.0 * size.1,
                    1 <= size.0 <= 256,
                    1 <= size.1 <= 256,
            ;
        }
        let mut planes: Vec<Vec<u32>> = Vec::new();
        while planes.len() < channels
            invariant
                self.wf(),
                channels == self.color.channels(),
                0 < self.width * self.height <= MAX_SAMPLES,
                is_halved(self.width, size.0),
                is_halved(self.height, size.1),
                small_pixels == size.0 * size.1,
                planes@.len() <= channels,
                of == (|c: int|
                    averaged(
                        plane_of(self.samples@, channels as int, c),
                        self.width,
                        self.height,
                        size.0,
                        size.1,
                    )),
                forall|c: int|
                    0 <= c < planes@.len() ==> (#[trigger] planes@[c])@ == of(c) && planes@[c]@.len()
                        == small_pixels,
            decreases channels - planes@.len(),
        {
            let plane = self.plane(planes.len());
            planes.push(shrink_plane(plane, self.width, self.height, size));
        }
        let mut out: Vec<u16> = Vec::new();
        let count: usize = size.0 as usize * size.1 as usize;
        let mut p: usize = 0;
        while p < count
            invariant
                1 <= channels <= 4,
                count == small_pixels,
                planes@.len() == channels,
                forall|c: int|
                    0 <= c < planes@.len() ==> (#[trigger] planes@[c])@ == of(c) && planes@[c]@.len()
                        == small_pixels,
                p <= count,
                out@.len() == p * channels,
                forall|i: int|
                    0 <= i < out@.len() ==> #[trigger] out@[i] == narrowed(
                        of(i % channels as int)[i / channels as int],
                    ),
            decreases count - p,
        {
            let mut c: usize = 0;
            while c < channels
                invariant
                    1 <= channels <= 4,
                    count == small_pixels,
                    planes@.len() == channels,
                    forall|c: int|
                        0 <= c < planes@.len() ==> (#[trigger] planes@[c])@ == of(c)
                            && planes@[c]@.len() == small_pixels,
                    p < count,
                    c <= channels,
                    out@.len() == p * channels + c,
                    forall|i: int|
                        0 <= i < out@.len() ==> #[trigger] out@[i] == narrowed(
                            of(i % channels as int)[i / channels as int],
                        ),
                decreases channels - c,
            {
                proof {
                    lemma_interleaved(count as int, channels as int, p as int, c as int);
                }
                let value: u32 = planes[c][p];
                let sample: u16 = if value <= u16::MAX as u32 {
                    value as u16
                } else {
                    u16::MAX
                };
                out.push(sample);
                c = c + 1;
            }
            assert((p + 1) * channels == p * channels + channels) by (nonlinear_arith);
            p = p + 1;
        }
        out
    }
}

/// The sample of the channel `c` of the pixel `p` can be found again.
proof fn lemma_interleaved(pixels: int, channels: int, p: int, c: int)
    requires
        0 <= p,
        0 <= c < channels,
        0 <= pixels,
    ensures
        (p * channels + c) % channels == c,
        (p * channels + c) / channels == p,
        (pixels * channels) / channels == pixels,
{
    vstd::arithmetic::div_mod::lemma_fundamental_div_mod_converse(
        p * channels + c,
        channels,
        p,
        c,
    );
    vstd::arithmetic::div_mod::lemma_div_by_multiple(pixels, channels);
}

/// Pictures with large blocks are shrunk to half or less.
proof fn lemma_large_blocks(header: (u32, u32, u8, u8), size: (u32, u32))
    requires
        !has_small_blocks(header),
        1 <= size.0 <= MAX_DIM,
        1 <= size.1 <= MAX_DIM,
        is_fitted(header.0, header.1, MAX_DIM, size),
    ensures
        0 < header.0,
        0 < header.1,
        is_halved(header.0, size.0),
        is_halved(header.1, size.1),
{
    let (longer, shorter, small) = if header.0 < header.1 {
        (header.1 as int, header.0 as int, size.0 as int)
    } else {
        (header.0 as int, header.1 as int, size.1 as int)
    };
    let out = least_short_side(longer, shorter);
    let (a, b) = (longest_main_block(longer), longest_block(shorter, out));
    assert(0 < shorter <= longer);
    assert(1024 <= longer) by {
        if longer < 1024 {
            assert(0 <= a <= 5);
            assert(b <= shorter) by {
                assert(shorter / out <= shorter) by (nonlinear_arith)
                    requires
                        0 < shorter,
                        1 <= out,
                ;
            }
            assert(0 <= b) by {
                assert(0 <= shorter / out) by (nonlinear_arith)
                    requires
                        0 < shorter,
                        1 <= out,
                ;
            }
            assert(a * b <= 5 * 1024) by (nonlinear_arith)
                requires
                    0 <= a <= 5,
                    0 <= b <= 1024,
            ;
        }
    }
    assert(is_rounded(small, 256 * shorter, longer));
    if small > 1 {
        assert(2 * small <= shorter) by (nonlinear_arith)
            requires
                2 <= small,
                1024 <= longer,
                0 < shorter,
                2 * (small * longer) - 2 * (256 * shorter) <= longer,
        ;
    }
}

/// Puts an `image::ImageError` into words by its `Display`, through
/// `ToString`. Nothing is claimed of the words.
#[verifier::external_body]
fn reason_of(error: &ImageError) -> (r: String) {
    error.to_string()
}

/// The picture is what the file is decoded and shrunk to: it has the size that
/// the headers ask for, and pixels that may come out.
pub open spec fn is_import_of(picture: Picture, bytes: Seq<u8>, path: Seq<char>) -> bool {
    &&& picture.wf()
    &&& header_of(bytes, path) matches Some(header) && {
        let size = (picture.width, picture.height);
        &&& size == shrunk_size(header.0, header.1, MAX_DIM)
        &&& is_fitted(header.0, header.1, MAX_DIM, size)
        &&& if has_small_blocks(header) {
            may_decode_to(bytes, path, MAX_DIM, picture.pixels@)
        } else {
            exists|samples: Seq<u16>| #[trigger]
                may_decode_deep(bytes, path, samples) && may_turn_gray(
                    header.3 as usize,
                    shrunk_samples(samples, header.3 as int, header.0, header.1, size),
                    picture.pixels@,
                )
        }
    }
}

/// Shrink a decoded picture, whose blocks are too large to be summed up in
/// thirty-two bits, to a size that can be stamped.
fn shrink_deep(picture: &DeepPicture, Ghost(header): Ghost<(u32, u32, u8, u8)>) -> (r: Picture)
    requires
        picture.wf(),
        !has_small_blocks(header),
        (picture.width, picture.height) == (header.0, header.1),
    ensures
        r.wf(),
        ({
            let size = (r.width, r.height);
            &&& size == shrunk_size(picture.width, picture.height, MAX_DIM)
            &&& is_fitted(picture.width, picture.height, MAX_DIM, size)
            &&& may_turn_gray(
                picture.color.channels(),
                shrunk_samples(
                    picture.samples@,
                    picture.color.channels() as int,
                    picture.width,
                    picture.height,
                    size,
                ),
                r.pixels@,
            )
        }),
{
    proof {
        let (pixels, channels) = (picture.width * picture.height, picture.color.channels() as int);
        assert(pixels <= pixels * channels) by (nonlinear_arith)
            requires
                pixels == picture.width * picture.height,
                1 <= channels,
        ;
    }
    let (width, height) = thumbnail_size(picture.width, picture.height, MAX_DIM);
    proof {
        lemma_large_blocks(header, (width, height));
    }
    let samples = picture.shrink((width, height));
    let pixels = gray_of(picture.color, samples, width, height);
    Picture { width, height, pixels }
}

/// Read a picture file and shrink it to a size that can be stamped. The
/// format is the one that the path's extension names.
pub fn import_picture(bytes: &[u8], path: &str) -> (r: Result<Picture, PictureError>)
    ensures
        r matches Ok(picture) ==> is_import_of(picture, bytes@, path@),
{
    let header = match read_header(bytes, path) {
        Ok(header) => header,
        Err(error) => {
            return Err(PictureError::Unreadable(reason_of(&error)));
        },
    };
    let decoded = if small_blocks(header) {
        decode_small(bytes, path, MAX_DIM)
    } else {
        match decode_deep(bytes, path) {
            Ok(picture) => {
                assert(may_decode_deep(bytes@, path@, picture.samples@));
                Ok(shrink_deep(&picture, Ghost(header)))
            },
            Err(error) => Err(error),
        }
    };
    match decoded {
        Ok(picture) => Ok(picture),
        Err(error) => Err(PictureError::Unreadable(reason_of(&error))),
    }
}

/// A pixel counts if it is at least half opaque and darker than the middle, or,
/// inverted, not darker: of a pixel that is opaque enough, exactly one of the
/// two holds, and a transparent one never counts. Pixels go row by row, two
/// bytes each, the brightness first.
pub proof fn law_ink(picture: Picture, px: int, py: int)
    ensures
        ({
            let at = (py * picture.width + px) * 2;
            let (luma, alpha) = (picture.pixels@[at], picture.pixels@[at + 1]);
            let inside = 0 <= px < picture.width && 0 <= py < picture.height;
            &&& picture.is_inked(false, px, py) <==> inside && alpha >= 128 && luma < 128
            &&& picture.is_inked(true, px, py) <==> inside && alpha >= 128 && luma >= 128
        }),
{
}

/// A picture that fits around a place covers only cells that can be addressed,
/// and there is room for any picture where there is room for the largest.
pub proof fn law_pictures_fit(picture: Picture, x: int, y: int, px: int, py: int)
    requires
        1 <= picture.width <= 256,
        1 <= picture.height <= 256,
        0 <= px < picture.width,
        0 <= py < picture.height,
    ensures
        picture.fits_at(x, y) ==> {
            &&& i64::MIN <= x - picture.width / 2 + px <= i64::MAX
            &&& i64::MIN <= y - picture.height / 2 + py <= i64::MAX
        },
        i64::MIN + 128 <= x <= i64::MAX - 127 && i64::MIN + 128 <= y <= i64::MAX - 127
            ==> fits_around(x, y) && picture.fits_at(x, y),
        picture.width == 256 && picture.height == 256 ==> (fits_around(x, y) <==> picture.fits_at(
            x,
            y,
        )),
{
}

/// An imported picture keeps its proportion: its longer side is 256 pixels long,
/// and its shorter one as near to the proportion as whole pixels allow, but no
/// shorter than one. It has two bytes for each pixel.
pub proof fn law_imports_keep_their_proportion(picture: Picture, bytes: Seq<u8>, path: Seq<char>)
    requires
        is_import_of(picture, bytes, path),
    ensures
        header_of(bytes, path) is Some,
        picture.pixels@.len() == picture.width * picture.height * 2,
        ({
            let (w, h) = ((header_of(bytes, path)->0).0 as int, (header_of(bytes, path)->0).1 as int);
            &&& 0 < h <= w ==> picture.width == 256 && {
                let n = picture.height as int;
                &&& 1 <= n <= 256
                &&& 2 * (256 * h - n * w) <= w
                &&& n > 1 ==> 2 * (n * w - 256 * h) <= w
            }
            &&& 0 < w <= h ==> picture.height == 256 && {
                let n = picture.width as int;
                &&& 1 <= n <= 256
                &&& 2 * (256 * w - n * h) <= h
                &&& n > 1 ==> 2 * (n * h - 256 * w) <= h
            }
        }),
{
}

/// What is imported is what the decoder gives for the file itself: the bytes and
/// the path as they are.
pub proof fn law_imports_come_from_the_file(picture: Picture, bytes: Seq<u8>, path: Seq<char>)
    requires
        is_import_of(picture, bytes, path),
    ensures
        ({
            let header = header_of(bytes, path)->0;
            &&& (picture.width, picture.height) == shrunk_size(header.0, header.1, 256)
            &&& header.2 != 2 * header.3 ==> may_decode_to(bytes, path, 256, picture.pixels@)
            &&& may_decode_to(bytes, path, 256, picture.pixels@) || exists|samples: Seq<u16>|
                may_decode_deep(bytes, path, samples) && may_turn_gray(
                    header.3 as usize,
                    #[trigger] shrunk_samples(
                        samples,
                        header.3 as int,
                        header.0,
                        header.1,
                        (picture.width, picture.height),
                    ),
                    picture.pixels@,
                )
        }),
{
    let header = header_of(bytes, path)->0;
    let size = (picture.width, picture.height);
    if !has_small_blocks(header) {
        let samples = choose|samples: Seq<u16>| #[trigger]
            may_decode_deep(bytes, path, samples) && may_turn_gray(
                header.3 as usize,
                shrunk_samples(samples, header.3 as int, header.0, header.1, size),
                picture.pixels@,
            );
        let small = shrunk_samples(samples, header.3 as int, header.0, header.1, size);
        assert(may_turn_gray(header.3 as usize, small, picture.pixels@));
    }
}

/// A shrunk picture has, for each of its pixels and each channel, the average of
/// that channel over the pixel's block; the channels do not mix.
pub proof fn law_channels_are_shrunk_apart(
    samples: Seq<u16>,
    channels: int,
    width: u32,
    height: u32,
    size: (u32, u32),
    pixel: int,
    channel: int,
    plane: Seq<u32>,
)
    requires
        1 <= channels <= 4,
        0 <= channel < channels,
        0 <= pixel < size.0 * size.1,
        samples.len() == plane.len() * channels,
        forall|i: int|
            0 <= i < plane.len() ==> #[trigger] plane[i] == samples[i * channels + channel],
    ensures
        ({
            let small = shrunk_samples(samples, channels, width, height, size);
            let average = averaged(plane, width, height, size.0, size.1)[pixel];
            &&& small.len() == (size.0 * size.1) * channels
            &&& average <= 65535 ==> small[pixel * channels + channel] == average
            &&& average > 65535 ==> small[pixel * channels + channel] == 65535
        }),
{
    lemma_interleaved(plane.len() as int, channels, pixel, channel);
    assert(0 <= pixel * channels + channel < (size.0 * size.1) * channels) by (nonlinear_arith)
        requires
            0 <= pixel < size.0 * size.1,
            0 <= channel < channels,
    ;
    assert(plane_of(samples, channels, channel) =~= plane);
}

} // verus!
