use image::{DynamicImage, GrayImage, ImageFormat, RgbImage, RgbaImage};
use std::io::Cursor;
use tower_cache::decode::{decode_image, DecodeError};

fn png_bytes(img: DynamicImage) -> Vec<u8> {
    let mut bytes: Vec<u8> = Vec::new();
    img.write_to(&mut Cursor::new(&mut bytes), ImageFormat::Png)
        .expect("in-memory PNG encoding");
    bytes
}

#[test]
fn rgba_png_is_premultiplied() {
    let raw = vec![200, 100, 50, 128, 10, 20, 30, 255];
    let img = RgbaImage::from_raw(2, 1, raw).unwrap();
    let bytes = png_bytes(DynamicImage::ImageRgba8(img));
    let path = "/tmp/a.png".to_string();
    let entry = decode_image(&path, Some(&bytes)).expect("decode must succeed");
    assert_eq!(entry.key, path);
    assert_eq!(entry.metadata.width, 2);
    assert_eq!(entry.metadata.height, 1);
    assert_eq!(entry.metadata.source_path, path);
    assert_eq!(entry.bitmap.width, 2);
    assert_eq!(entry.bitmap.height, 1);
    assert_eq!(entry.bitmap.pixels, vec![100, 50, 25, 128, 10, 20, 30, 255]);
}

#[test]
fn rgb_png_gets_opaque_alpha() {
    let raw = vec![10, 20, 30, 40, 50, 60];
    let img = RgbImage::from_raw(1, 2, raw).unwrap();
    let bytes = png_bytes(DynamicImage::ImageRgb8(img));
    let path = "/tmp/b.png".to_string();
    let entry = decode_image(&path, Some(&bytes)).expect("decode must succeed");
    assert_eq!(entry.bitmap.width, 1);
    assert_eq!(entry.bitmap.height, 2);
    assert_eq!(entry.bitmap.pixels, vec![10, 20, 30, 255, 40, 50, 60, 255]);
}

#[test]
fn gray_png_is_replicated_into_rgba() {
    let raw = vec![7, 130];
    let img = GrayImage::from_raw(2, 1, raw).unwrap();
    let bytes = png_bytes(DynamicImage::ImageLuma8(img));
    let path = "/tmp/c.png".to_string();
    let entry = decode_image(&path, Some(&bytes)).expect("decode must succeed");
    assert_eq!(entry.bitmap.pixels, vec![7, 7, 7, 255, 130, 130, 130, 255]);
}

#[test]
fn unsupported_extension_is_refused_before_reading() {
    let path = "/tmp/notes.txt".to_string();
    assert!(matches!(
        decode_image(&path, None),
        Err(DecodeError::UnsupportedFormat)
    ));
    // even with perfectly good image bytes in hand
    let img = RgbaImage::from_raw(1, 1, vec![1, 2, 3, 4]).unwrap();
    let bytes = png_bytes(DynamicImage::ImageRgba8(img));
    assert!(matches!(
        decode_image(&path, Some(&bytes)),
        Err(DecodeError::UnsupportedFormat)
    ));
}

#[test]
fn unreadable_file_is_reported() {
    let path = "/tmp/missing.png".to_string();
    assert!(matches!(
        decode_image(&path, None),
        Err(DecodeError::UnreadableFile)
    ));
}

#[test]
fn unparsable_bytes_are_an_unsupported_format() {
    let path = "/tmp/d.png".to_string();
    let garbage = vec![0u8; 64];
    assert!(matches!(
        decode_image(&path, Some(&garbage)),
        Err(DecodeError::UnsupportedFormat)
    ));
}
