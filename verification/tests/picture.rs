use std::io::Cursor;

use automata::picture::{import_picture, small_blocks, Picture, PictureError};
use image::{DynamicImage, GrayAlphaImage, ImageBuffer, ImageFormat, Luma, LumaA, Rgb, Rgba};

fn png(image: &DynamicImage) -> Vec<u8> {
    let mut bytes = Cursor::new(Vec::new());
    image.write_to(&mut bytes, ImageFormat::Png).unwrap();
    bytes.into_inner()
}

/// A picture of the given size, with brightness and opacity by position.
fn gray(width: u32, height: u32, pixel: impl Fn(u32, u32) -> [u8; 2]) -> DynamicImage {
    let image: GrayAlphaImage = ImageBuffer::from_fn(width, height, |x, y| LumaA(pixel(x, y)));
    DynamicImage::ImageLumaA8(image)
}

#[test]
fn pictures_of_the_full_size_keep_their_pixels() {
    let bytes = png(&gray(256, 256, |x, y| [x as u8, y as u8]));
    let picture = import_picture(&bytes, "drop/picture.PNG").unwrap();
    assert_eq!((picture.width, picture.height), (256, 256));
    assert_eq!(picture.pixels.len(), 256 * 256 * 2);
    for (x, y) in [(0, 200), (127, 128), (127, 127), (128, 255), (255, 255)] {
        assert_eq!(picture.inked(false, x, y), y >= 128 && x < 128);
        assert_eq!(picture.inked(true, x, y), y >= 128 && x >= 128);
    }
}

#[test]
fn pictures_are_scaled_to_fit() {
    let wide = import_picture(&png(&gray(1024, 512, |_, _| [0, 255])), "wide.png").unwrap();
    assert_eq!((wide.width, wide.height), (256, 128));
    assert!(wide.inked(false, 255, 127));
    let tall = import_picture(&png(&gray(1, 1000, |_, _| [0, 255])), "tall.png").unwrap();
    assert_eq!((tall.width, tall.height), (1, 256));
    let odd = import_picture(&png(&gray(1000, 333, |_, _| [0, 255])), "odd.png").unwrap();
    assert_eq!((odd.width, odd.height), (256, 85));
    let tiny = import_picture(&png(&gray(1, 1, |_, _| [0, 255])), "tiny.png").unwrap();
    assert_eq!((tiny.width, tiny.height), (256, 256));
}

#[test]
fn files_that_are_no_pictures_are_refused() {
    let bytes = png(&gray(4, 4, |_, _| [0, 255]));
    for (bytes, path) in [
        (bytes.as_slice(), "picture.txt"),
        (bytes.as_slice(), "picture"),
        (b"not a picture".as_slice(), "picture.png"),
        (bytes.as_slice(), "picture.gif"),
        (&bytes[..bytes.len() / 2], "picture.png"),
    ] {
        match import_picture(bytes, path) {
            Err(PictureError::Unreadable(reason)) => {
                assert!(!reason.is_empty());
                assert_eq!(PictureError::Unreadable(reason.clone()).message(), reason);
            }
            Ok(_) => panic!("{path} was not refused"),
        }
    }
}

/// A picture of the given size with one sixteen-bit channel.
fn deep(width: u32, height: u32, pixel: impl Fn(u32, u32) -> u16) -> Vec<u8> {
    let image: ImageBuffer<Luma<u16>, Vec<u16>> =
        ImageBuffer::from_fn(width, height, |x, y| Luma([pixel(x, y)]));
    png(&DynamicImage::ImageLuma16(image))
}

#[test]
fn deep_pictures_with_long_sides_are_shrunk() {
    let long = import_picture(&deep(60_000, 1, |_, _| u16::MAX), "deep.png").unwrap();
    assert_eq!((long.width, long.height), (256, 1));
    // One row of blocks with 65536 white pixels each, whose sums just fit.
    let full = import_picture(&deep(65_536, 256, |_, _| u16::MAX), "deep.png").unwrap();
    assert_eq!((full.width, full.height), (256, 1));
    assert_eq!(full.pixels, vec![255; 512]);
}

#[test]
fn deep_pictures_with_large_blocks_are_averaged() {
    // The sums of the white blocks take more than thirty-two bits.
    let picture = import_picture(&deep(76_800, 300, |x, _| {
        if x < 300 {
            u16::MAX
        } else if x < 600 {
            (x % 2) as u16 * 60_000
        } else {
            12_345
        }
    }), "deep.png").unwrap();
    assert_eq!((picture.width, picture.height), (256, 1));
    assert_eq!(picture.pixels[..6], [255, 255, 117, 255, 48, 255]);
    assert_eq!(picture.pixels[510..], [48, 255]);
}

#[test]
fn deep_colors_with_large_blocks_are_shrunk_alike() {
    // The sums are small, so that the blocks can be averaged either way.
    let image: ImageBuffer<Rgba<u16>, Vec<u16>> = ImageBuffer::from_fn(65_600, 260, |x, y| {
        let n = x * 7 + y * 13;
        Rgba([n as u16 % 9_000, (n / 3) as u16 % 7_000, (x % 5_000) as u16, (y * 90) as u16])
    });
    let image = DynamicImage::ImageRgba16(image);
    assert!(!small_blocks((65_600, 260, 8, 4)));
    let mut bytes = Cursor::new(Vec::new());
    image.write_to(&mut bytes, ImageFormat::Farbfeld).unwrap();
    let picture = import_picture(bytes.get_ref(), "colors.ff").unwrap();
    let expected = image.thumbnail(256, 256).to_luma_alpha8();
    assert_eq!((picture.width, picture.height), expected.dimensions());
    assert_eq!(picture.pixels, expected.into_raw());
}

#[test]
fn deep_colors_keep_their_channels() {
    let rgb: ImageBuffer<Rgb<u16>, Vec<u16>> =
        ImageBuffer::from_pixel(257, 65_540, Rgb([0, u16::MAX, 0]));
    let green = import_picture(&png(&DynamicImage::ImageRgb16(rgb)), "green.png").unwrap();
    assert_eq!((green.width, green.height), (1, 256));
    // Green makes up most of what is bright.
    assert!(green.pixels[0] > 170 && green.pixels[0] < 190 && green.pixels[1] == 255);
    let faint: ImageBuffer<LumaA<u16>, Vec<u16>> =
        ImageBuffer::from_pixel(65_540, 257, LumaA([65_535, 25_700]));
    let faint = import_picture(&png(&DynamicImage::ImageLumaA16(faint)), "faint.png").unwrap();
    assert_eq!(faint.pixels[..4], [255, 100, 255, 100]);
}

#[test]
fn large_blocks_are_told_by_the_headers() {
    for (width, height) in [(60_000, 4_000), (52_001, 1), (1, 52_001), (65_536, 256), (0, 0)] {
        assert!(small_blocks((width, height, 2, 1)), "{width} by {height}");
    }
    for (width, height) in [(60_000, 300), (300, 60_000), (65_536, 257), (100_000, 100_000)] {
        assert!(!small_blocks((width, height, 2, 1)), "{width} by {height}");
        assert!(!small_blocks((width, height, 8, 4)));
        // Channels of eight or thirty-two bits are summed up with room to spare.
        assert!(small_blocks((width, height, 3, 3)) && small_blocks((width, height, 16, 4)));
    }
}

#[test]
fn pictures_are_centered() {
    let picture = |width, height| Picture {
        width,
        height,
        pixels: vec![0; (width * height * 2) as usize],
    };
    assert_eq!(picture(256, 1).origin(10, -10), (-118, -10));
    assert_eq!(picture(3, 5).origin(0, 0), (-1, -2));
}
