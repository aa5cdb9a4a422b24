use og_image_writer::buffer::{PixelBuffer, Rgba8};
use og_image_writer::corner::{composite, Corner};
use og_image_writer::coverage::Stroke;
use og_image_writer::error::OpenError;
use og_image_writer::img::{open_and_resize_with_data, resize, scale_decoded, ImageInputFormat, Size};

fn counted(width: u32, height: u32) -> Vec<u8> {
    (0..4 * width * height).map(|n| (n % 256) as u8).collect()
}

fn encoded(width: u32, height: u32, pixel: [u8; 4], format: image::ImageOutputFormat) -> Vec<u8> {
    let picture = image::DynamicImage::ImageRgba8(image::RgbaImage::from_pixel(width, height, image::Rgba(pixel)));
    let mut bytes = std::io::Cursor::new(Vec::new());
    picture.write_to(&mut bytes, format).unwrap();
    bytes.into_inner()
}

#[test]
fn a_buffer_lays_pixels_over_samples_row_by_row() {
    let img = PixelBuffer::from_raw(3, 2, counted(3, 2)).unwrap();
    assert_eq!(img.dimensions(), (3, 2));
    assert_eq!(img.width(), 3);
    assert_eq!(img.height(), 2);
    assert_eq!(img.get_pixel(0, 0), Some(Rgba8 { red: 0, green: 1, blue: 2, alpha: 3 }));
    assert_eq!(img.get_pixel(2, 0), Some(Rgba8 { red: 8, green: 9, blue: 10, alpha: 11 }));
    assert_eq!(img.get_pixel(0, 1), Some(Rgba8 { red: 12, green: 13, blue: 14, alpha: 15 }));
    assert_eq!(img.get_pixel(2, 1), Some(Rgba8 { red: 20, green: 21, blue: 22, alpha: 23 }));
    assert_eq!(img.get_pixel(3, 0), None);
    assert_eq!(img.get_pixel(0, 2), None);
    assert_eq!(img.into_raw(), counted(3, 2));
}

#[test]
fn too_few_samples_make_no_buffer() {
    assert!(PixelBuffer::from_raw(3, 2, vec![0; 23]).is_none());
    assert!(PixelBuffer::from_raw(3, 2, vec![0; 24]).is_some());
    assert!(PixelBuffer::from_raw(3, 2, vec![0; 25]).is_some());
    assert!(PixelBuffer::from_raw(0, 0, vec![]).is_some());
    assert!(PixelBuffer::from_raw(u32::MAX, u32::MAX, vec![0; 8]).is_none());
}

#[test]
fn putting_a_pixel_changes_that_pixel_only() {
    let mut img = PixelBuffer::from_raw(3, 2, counted(3, 2)).unwrap();
    let pixel = Rgba8 { red: 200, green: 201, blue: 202, alpha: 203 };
    assert!(img.put_pixel(1, 1, pixel));
    assert!(!img.put_pixel(3, 1, pixel));
    assert!(!img.put_pixel(1, 2, pixel));
    assert_eq!(img.get_pixel(1, 1), Some(pixel));
    assert_eq!(img.dimensions(), (3, 2));
    let mut want = counted(3, 2);
    want[16..20].copy_from_slice(&[200, 201, 202, 203]);
    assert_eq!(img.into_raw(), want);
}

#[test]
fn strokes_are_laid_in_their_order() {
    let mut img = PixelBuffer::from_raw(4, 4, vec![255; 64]).unwrap();
    let strokes = vec![
        Stroke::Blend { x: 0, y: 0, coverage: 129 },
        Stroke::Blend { x: 0, y: 0, coverage: 129 },
        Stroke::ClearBeyond { lane: 1, from: 2 },
        Stroke::ClearCorner { from: 2 },
        Stroke::Blend { x: 2, y: 2, coverage: 200 },
    ];
    composite(&mut img, Corner::BottomRight, 3, &strokes);
    // the box of side 3 in the bottom right corner starts at (1, 1)
    let alphas: Vec<u8> = img.into_raw().chunks(4).map(|p| p[3]).collect();
    assert_eq!(
        alphas,
        vec![
            255, 255, 255, 255, //
            255, 64, 255, 255, //
            255, 255, 255, 0, //
            255, 255, 0, 0,
        ]
    );
}

#[test]
fn a_thumbnail_fits_the_box_and_keeps_the_proportions() {
    let mut samples = Vec::new();
    for _ in 0..8 * 4 {
        samples.extend_from_slice(&[10, 20, 30, 40]);
    }
    let img = PixelBuffer::from_raw(8, 4, samples).unwrap();
    let info = resize(img, 4, 4);
    assert_eq!(info.1, Size { height: 2, width: 4 });
    assert_eq!(info.0.dimensions(), (4, 2));
    for y in 0..2 {
        for x in 0..4 {
            assert_eq!(info.0.get_pixel(x, y), Some(Rgba8 { red: 10, green: 20, blue: 30, alpha: 40 }));
        }
    }
}

#[test]
fn a_png_is_decoded_and_scaled() {
    let bytes = encoded(6, 4, [1, 2, 3, 255], image::ImageOutputFormat::Png);
    let info = open_and_resize_with_data(&bytes, 3, 3, ImageInputFormat::Png).unwrap();
    assert_eq!(info.1, Size { height: 2, width: 3 });
    assert_eq!(info.0.dimensions(), (3, 2));
    assert_eq!(info.0.get_pixel(2, 1), Some(Rgba8 { red: 1, green: 2, blue: 3, alpha: 255 }));
}

#[test]
fn a_jpeg_is_decoded_and_scaled() {
    let bytes = encoded(16, 16, [255, 255, 255, 255], image::ImageOutputFormat::Jpeg(100));
    let info = open_and_resize_with_data(&bytes, 8, 4, ImageInputFormat::Jpeg).unwrap();
    assert_eq!(info.1, Size { height: 4, width: 4 });
    assert_eq!(info.0.dimensions(), (4, 4));
    assert_eq!(info.0.get_pixel(0, 0).unwrap().alpha, 255);
}

#[test]
fn bytes_of_another_encoding_are_refused() {
    let png = encoded(2, 2, [9, 9, 9, 255], image::ImageOutputFormat::Png);
    assert!(matches!(
        open_and_resize_with_data(&png, 2, 2, ImageInputFormat::Jpeg),
        Err(OpenError::Decode(_))
    ));
    assert!(matches!(
        open_and_resize_with_data(b"no image at all", 2, 2, ImageInputFormat::Png),
        Err(OpenError::Decode(_))
    ));
    assert!(PixelBuffer::decode(&png, image::ImageFormat::Png).is_ok());
}

#[test]
fn the_decoder_speaks_before_the_bounds_are_looked_at() {
    assert!(matches!(
        open_and_resize_with_data(b"no image at all", u32::MAX, u32::MAX, ImageInputFormat::Png),
        Err(OpenError::Decode(_))
    ));
    let png = encoded(2, 2, [9, 9, 9, 255], image::ImageOutputFormat::Png);
    assert!(matches!(
        open_and_resize_with_data(&png, u32::MAX, u32::MAX, ImageInputFormat::Png),
        Err(OpenError::TooLarge)
    ));
}

#[test]
fn what_the_decoder_gave_is_scaled_or_handed_on() {
    let mut samples = Vec::new();
    for _ in 0..8 * 4 {
        samples.extend_from_slice(&[10, 20, 30, 40]);
    }
    let img = PixelBuffer::from_raw(8, 4, samples).unwrap();
    let info = scale_decoded(Ok(img), 4, 4).unwrap();
    assert_eq!(info.1, Size { height: 2, width: 4 });
    assert_eq!(info.0.dimensions(), (4, 2));
    assert_eq!(info.0.get_pixel(3, 1), Some(Rgba8 { red: 10, green: 20, blue: 30, alpha: 40 }));

    let failed = PixelBuffer::decode(b"no image at all", image::ImageFormat::Png);
    let said = format!("{:?}", failed.as_ref().err().unwrap());
    match scale_decoded(failed, 4, 4) {
        Err(OpenError::Decode(error)) => assert_eq!(format!("{:?}", error), said),
        _ => panic!("the decoder's error was not handed on"),
    }
}

#[test]
fn a_decoded_image_is_a_whole_grid() {
    let bytes = encoded(5, 3, [4, 5, 6, 7], image::ImageOutputFormat::Png);
    let img = PixelBuffer::decode(&bytes, image::ImageFormat::Png).unwrap();
    assert_eq!(img.dimensions(), (5, 3));
    for y in 0..3 {
        for x in 0..5 {
            assert_eq!(img.get_pixel(x, y), Some(Rgba8 { red: 4, green: 5, blue: 6, alpha: 7 }));
        }
    }
    assert_eq!(img.get_pixel(5, 0), None);
    assert_eq!(img.into_raw().len(), 60);
}

#[test]
fn a_block_too_large_to_add_up_is_refused() {
    let img = PixelBuffer::from_raw(4105, 4105, vec![255u8; 4 * 4105 * 4105]).unwrap();
    assert!(!img.can_thumbnail(1, 1));
    assert!(!img.can_thumbnail(1, 4000));
    assert!(img.can_thumbnail(2, 2));
    assert!(matches!(scale_decoded(Ok(img), 1, 1), Err(OpenError::TooLarge)));
}

#[test]
fn a_large_image_is_scaled_to_a_small_one() {
    let img = PixelBuffer::from_raw(4105, 4105, vec![255u8; 4 * 4105 * 4105]).unwrap();
    let info = scale_decoded(Ok(img), 2, 2).unwrap();
    assert_eq!(info.1, Size { height: 2, width: 2 });
    for y in 0..2 {
        for x in 0..2 {
            assert_eq!(info.0.get_pixel(x, y), Some(Rgba8 { red: 255, green: 255, blue: 255, alpha: 255 }));
        }
    }
}

#[test]
fn the_largest_block_that_adds_up_is_averaged() {
    let img = PixelBuffer::from_raw(4096, 4095, vec![255u8; 4 * 4096 * 4095]).unwrap();
    assert!(img.can_thumbnail(1, 1));
    let info = scale_decoded(Ok(img), 1, 1).unwrap();
    assert_eq!(info.1, Size { height: 1, width: 1 });
    assert_eq!(info.0.get_pixel(0, 0), Some(Rgba8 { red: 255, green: 255, blue: 255, alpha: 255 }));
}

#[test]
fn a_large_image_is_scaled_where_its_blocks_are_small() {
    let img = PixelBuffer::from_raw(4200, 4200, vec![255u8; 4 * 4200 * 4200]).unwrap();
    assert!(img.can_thumbnail(64, 64));
    let info = scale_decoded(Ok(img), 64, 64).unwrap();
    assert_eq!(info.1, Size { height: 64, width: 64 });
    assert_eq!(info.0.get_pixel(63, 63), Some(Rgba8 { red: 255, green: 255, blue: 255, alpha: 255 }));
}

#[test]
fn bounds_that_cannot_be_allocated_are_refused() {
    let img = PixelBuffer::from_raw(2, 2, vec![1u8; 16]).unwrap();
    assert!(!img.can_thumbnail(u32::MAX, u32::MAX));
    assert!(img.can_thumbnail(0, 0));
    assert!(img.can_thumbnail(5, 0));
    let empty = PixelBuffer::from_raw(0, 7, vec![]).unwrap();
    assert!(empty.can_thumbnail(3, 3));
    assert!(!empty.can_thumbnail(u32::MAX, u32::MAX));
}

#[test]
fn a_thumbnail_has_a_pixel_even_for_empty_bounds_or_an_empty_image() {
    let img = PixelBuffer::from_raw(6, 3, vec![9u8; 72]).unwrap();
    let info = resize(img, 0, 0);
    assert_eq!(info.1, Size { height: 1, width: 1 });
    let empty = PixelBuffer::from_raw(0, 0, vec![]).unwrap();
    let info = resize(empty, 4, 2);
    assert_eq!(info.0.dimensions(), (info.1.width, info.1.height));
    assert!(1 <= info.1.width && info.1.width <= 4);
    assert!(1 <= info.1.height && info.1.height <= 2);
    let up = PixelBuffer::from_raw(2, 1, vec![9u8; 8]).unwrap();
    let info = resize(up, 10, 10);
    assert_eq!(info.1, Size { height: 5, width: 10 });
    assert_eq!(info.0.get_pixel(9, 4), Some(Rgba8 { red: 9, green: 9, blue: 9, alpha: 9 }));
}
