use std::io::Write;

use rexplorer::rgba_img::{scaledDimensions, ImageSequence, RgbImg};

fn encodePng(width: u32, height: u32, shade: u8) -> Vec<u8> {
    let mut img = image::RgbaImage::new(width, height);
    for p in img.pixels_mut() {
        *p = image::Rgba([shade, shade, shade, 255]);
    }
    let mut bytes: Vec<u8> = Vec::new();
    image::DynamicImage::ImageRgba8(img)
        .write_to(&mut std::io::Cursor::new(&mut bytes), image::ImageFormat::Png)
        .unwrap();
    bytes
}

#[test]
fn decode_yields_the_encoded_pixels() {
    let bytes = encodePng(2, 2, 77);
    let img = RgbImg::decodeThumbnail(&bytes).unwrap();
    assert_eq!(img.width(), 2);
    assert_eq!(img.height(), 2);
    assert!(!img.isDefault());
    assert_eq!(img.pixelBytes().len(), 16);
    assert_eq!(img.pixelBytes()[0], 77);
    // the decoder really decodes: raw pixels differ from the PNG stream
    assert_ne!(img.pixelBytes(), &bytes);
}

#[test]
fn decode_rejects_garbage() {
    let bytes = vec![1, 2, 3, 4, 5];
    assert!(RgbImg::decodeThumbnail(&bytes).is_err());
}

#[test]
fn oversized_images_are_downsampled() {
    let bytes = encodePng(300, 100, 10);
    let img = RgbImg::decodeSizeLimited(&bytes, Some(256)).unwrap();
    assert_eq!(img.width(), 256);
    assert_eq!(img.height(), 85);
    assert_eq!(img.pixelBytes().len(), 4 * 256 * 85);
    let unbounded = RgbImg::decodeSizeLimited(&bytes, None).unwrap();
    assert_eq!(unbounded.width(), 300);
    assert_eq!(unbounded.height(), 100);
}

#[test]
fn scaled_dimensions_formula() {
    assert_eq!(scaledDimensions(300, 100, 256), (256, 85));
    assert_eq!(scaledDimensions(100, 300, 256), (85, 256));
    assert_eq!(scaledDimensions(10000, 1, 256), (256, 1));
    assert_eq!(scaledDimensions(512, 512, 256), (256, 256));
}

fn zipWith(entries: &[(&str, Vec<u8>)]) -> Vec<u8> {
    let mut cursor = std::io::Cursor::new(Vec::new());
    let mut writer = zip::ZipWriter::new(&mut cursor);
    let options: zip::write::SimpleFileOptions = Default::default();
    for (name, data) in entries {
        writer.start_file(*name, options).unwrap();
        writer.write_all(data).unwrap();
    }
    writer.finish().unwrap();
    cursor.into_inner()
}

#[test]
fn image_sequence_loads_frames_in_order() {
    let archive = zipWith(&[
        ("frame-2.png", encodePng(1, 1, 22)),
        ("frame-1.png", encodePng(1, 1, 11)),
    ]);
    let seq = ImageSequence::read(&archive, "frame-", "png", 1, 33_000).unwrap();
    assert_eq!(seq.frameCount(), 2);
    assert_eq!(seq.timePerFrame(), 33_000);
    assert_eq!(seq.getFrame(0).pixelBytes()[0], 11);
    assert_eq!(seq.getFrame(33_000).pixelBytes()[0], 22);
    assert_eq!(seq.getFrame(66_000).pixelBytes()[0], 11);
    assert_eq!(seq.getFrame(32_999).pixelBytes()[0], 11);
}

#[test]
fn image_sequence_reports_a_missing_frame() {
    let archive = zipWith(&[("frame-2.png", encodePng(1, 1, 22))]);
    let err = match ImageSequence::read(&archive, "frame-", "png", 1, 33_000) {
        Err(e) => e,
        Ok(_) => panic!("expected an error"),
    };
    assert!(err.contains("missing frame 0"), "{err}");
}

#[test]
fn image_sequence_rejects_misnamed_entries() {
    let archive = zipWith(&[("readme.txt", vec![104, 105])]);
    let err = match ImageSequence::read(&archive, "frame-", "png", 1, 33_000) {
        Err(e) => e,
        Ok(_) => panic!("expected an error"),
    };
    assert!(err.contains("readme.txt"), "{err}");
}

#[test]
fn image_sequence_rejects_low_frame_numbers() {
    let archive = zipWith(&[("frame-0.png", encodePng(1, 1, 5))]);
    let err = match ImageSequence::read(&archive, "frame-", "png", 1, 33_000) {
        Err(e) => e,
        Ok(_) => panic!("expected an error"),
    };
    assert!(err.contains("frame number"), "{err}");
}

#[test]
fn image_sequence_rejects_an_empty_archive() {
    let archive = zipWith(&[]);
    let err = match ImageSequence::read(&archive, "frame-", "png", 1, 33_000) {
        Err(e) => e,
        Ok(_) => panic!("expected an error"),
    };
    assert!(err.contains("empty"), "{err}");
}

#[test]
fn mark_default_tags_a_placeholder() {
    let img = RgbImg::new(vec![5, 5, 5, 255], 1, 1, false);
    assert!(!img.isDefault());
    let tagged = img.markDefault();
    assert!(tagged.isDefault());
    assert_eq!(tagged.pixelBytes(), &vec![5, 5, 5, 255]);
}
