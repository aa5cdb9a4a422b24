use og_image_writer::buffer::{PixelBuffer, Rgba8};
use og_image_writer::corner::{border_top_right_radius, Corner};
use og_image_writer::error::RoundError;
use og_image_writer::rounding::{round, BorderRadius};

fn opaque_white(width: u32, height: u32) -> PixelBuffer {
    let samples = vec![255u8; 4 * (width as usize) * (height as usize)];
    PixelBuffer::from_raw(width, height, samples).unwrap()
}

fn alpha_at(img: &PixelBuffer, x: u32, y: u32) -> u8 {
    img.get_pixel(x, y).unwrap().alpha
}

/// The opacities of the top left corner of an opaque image rounded with a
/// radius of 20, row by row.
fn corner_of_twenty() -> Vec<Vec<u8>> {
    let mut rows: Vec<Vec<u8>> = vec![
        vec![0, 0, 0, 0, 0, 0, 0, 0, 0, 0, 0, 0, 0, 2, 59, 123, 176, 214, 240, 255],
        vec![0, 0, 0, 0, 0, 0, 0, 0, 0, 0, 0, 32, 140, 232],
        vec![0, 0, 0, 0, 0, 0, 0, 0, 0, 24, 157, 251],
        vec![0, 0, 0, 0, 0, 0, 0, 0, 98, 241],
        vec![0, 0, 0, 0, 0, 0, 8, 164],
        vec![0, 0, 0, 0, 0, 8, 195],
        vec![0, 0, 0, 0, 8, 195],
        vec![0, 0, 0, 0, 164],
        vec![0, 0, 0, 98],
        vec![0, 0, 24, 241],
        vec![0, 0, 157],
        vec![0, 32, 251],
        vec![0, 140],
        vec![2, 232],
        vec![59],
        vec![123],
        vec![176],
        vec![214],
        vec![240],
        vec![255],
    ];
    for row in rows.iter_mut() {
        while row.len() < 20 {
            row.push(255);
        }
    }
    rows
}

#[test]
fn rounds_all_four_corners_of_a_square() {
    let mut img = opaque_white(100, 100);
    assert_eq!(round(&mut img, &BorderRadius(20, 20, 20, 20)), Ok(()));
    assert_eq!(img.dimensions(), (100, 100));
    let expected = corner_of_twenty();
    for y in 0..20u32 {
        for x in 0..20u32 {
            let want = expected[y as usize][x as usize];
            assert_eq!(alpha_at(&img, x, y), want, "top left {x} {y}");
            assert_eq!(alpha_at(&img, 99 - x, y), want, "top right {x} {y}");
            assert_eq!(alpha_at(&img, 99 - x, 99 - y), want, "bottom right {x} {y}");
            assert_eq!(alpha_at(&img, x, 99 - y), want, "bottom left {x} {y}");
        }
    }
    for y in 0..100u32 {
        for x in 0..100u32 {
            let pixel = img.get_pixel(x, y).unwrap();
            assert_eq!((pixel.red, pixel.green, pixel.blue), (255, 255, 255));
            if (20..80).contains(&x) || (20..80).contains(&y) {
                assert_eq!(pixel.alpha, 255, "cross {x} {y}");
            }
        }
    }
}

#[test]
fn a_rounded_corner_has_a_disc_a_ring_and_a_void() {
    let mut img = opaque_white(100, 100);
    assert_eq!(round(&mut img, &BorderRadius(20, 20, 20, 20)), Ok(()));
    let mut transparent = 0;
    let mut partial = 0;
    let mut opaque = 0;
    for y in 0..20u32 {
        for x in 0..20u32 {
            match alpha_at(&img, x, y) {
                0 => transparent += 1,
                255 => opaque += 1,
                _ => partial += 1,
            }
        }
    }
    assert_eq!((transparent, partial, opaque), (69, 35, 296));
    // The corner itself is void, the centre of the circle is solid.
    assert_eq!(alpha_at(&img, 0, 0), 0);
    assert_eq!(alpha_at(&img, 19, 19), 255);
    // Along a row the opacity never falls towards the inside.
    for y in 0..20u32 {
        for x in 1..20u32 {
            assert!(alpha_at(&img, x - 1, y) <= alpha_at(&img, x, y));
        }
    }
}

#[test]
fn radii_that_overclaim_the_top_edge_are_refused() {
    let samples: Vec<u8> = (0..40000u32).map(|n| (n % 251) as u8).collect();
    let mut img = PixelBuffer::from_raw(100, 100, samples.clone()).unwrap();
    assert_eq!(round(&mut img, &BorderRadius(60, 60, 0, 0)), Err(RoundError::InvalidRadius));
    assert_eq!(img.into_raw(), samples);
}

#[test]
fn each_edge_is_checked_on_its_own() {
    let refused = Err(RoundError::InvalidRadius);
    // top, bottom, left, right
    assert_eq!(round(&mut opaque_white(10, 30), &BorderRadius(6, 5, 0, 0)), refused);
    assert_eq!(round(&mut opaque_white(10, 30), &BorderRadius(0, 0, 5, 6)), refused);
    assert_eq!(round(&mut opaque_white(30, 10), &BorderRadius(6, 0, 0, 5)), refused);
    assert_eq!(round(&mut opaque_white(30, 10), &BorderRadius(0, 6, 5, 0)), refused);
    // sums that meet the edge exactly are fine
    assert_eq!(round(&mut opaque_white(10, 10), &BorderRadius(5, 5, 5, 5)), Ok(()));
    assert_eq!(round(&mut opaque_white(10, 10), &BorderRadius(10, 0, 0, 0)), Ok(()));
    // sums that overflow 32 bits are still sums
    assert_eq!(round(&mut opaque_white(4, 4), &BorderRadius(u32::MAX, 1, 0, 0)), refused);
    assert!(BorderRadius(5, 5, 5, 5).check(10, 10));
    assert!(!BorderRadius(5, 6, 0, 0).check(10, 10));
}

#[test]
fn zero_radii_change_nothing() {
    let samples: Vec<u8> = (0..4 * 7 * 5u32).map(|n| (n * 37 % 256) as u8).collect();
    let mut img = PixelBuffer::from_raw(7, 5, samples.clone()).unwrap();
    assert_eq!(round(&mut img, &BorderRadius(0, 0, 0, 0)), Ok(()));
    assert_eq!(img.into_raw(), samples);
}

#[test]
fn a_corner_of_radius_zero_stays_as_it_is() {
    let mut img = opaque_white(40, 40);
    assert_eq!(round(&mut img, &BorderRadius(0, 10, 0, 10)), Ok(()));
    for y in 0..10u32 {
        for x in 0..10u32 {
            assert_eq!(alpha_at(&img, x, y), 255, "top left {x} {y}");
            assert_eq!(alpha_at(&img, 39 - x, 39 - y), 255, "bottom right {x} {y}");
        }
    }
    assert_eq!(alpha_at(&img, 39, 0), 0);
    assert_eq!(alpha_at(&img, 0, 39), 0);

    let mut alone = opaque_white(8, 8);
    assert_eq!(border_top_right_radius(&mut alone, 0, Corner::BottomLeft), Ok(()));
    assert_eq!(alone.into_raw(), vec![255u8; 256]);
}

#[test]
fn a_radius_of_one_touches_one_pixel() {
    let corners = [
        (BorderRadius(1, 0, 0, 0), (0u32, 0u32)),
        (BorderRadius(0, 1, 0, 0), (5, 0)),
        (BorderRadius(0, 0, 1, 0), (5, 3)),
        (BorderRadius(0, 0, 0, 1), (0, 3)),
    ];
    for (radius, touched) in corners {
        let mut img = opaque_white(6, 4);
        assert_eq!(round(&mut img, &radius), Ok(()));
        for y in 0..4u32 {
            for x in 0..6u32 {
                let want = if (x, y) == touched { 181 } else { 255 };
                assert_eq!(alpha_at(&img, x, y), want, "{x} {y}");
            }
        }
    }
}

#[test]
fn each_corner_is_reflected_into_its_place() {
    // Radius 2 yields 235 on the two edges of the box and 70 in its corner.
    let mut img = opaque_white(7, 5);
    assert_eq!(border_top_right_radius(&mut img, 2, Corner::TopRight), Ok(()));
    assert_eq!(alpha_at(&img, 5, 0), 235);
    assert_eq!(alpha_at(&img, 6, 1), 235);
    assert_eq!(alpha_at(&img, 6, 0), 70);
    assert_eq!(alpha_at(&img, 5, 1), 255);

    let mut img = opaque_white(7, 5);
    assert_eq!(border_top_right_radius(&mut img, 2, Corner::TopLeft), Ok(()));
    assert_eq!(alpha_at(&img, 1, 0), 235);
    assert_eq!(alpha_at(&img, 0, 1), 235);
    assert_eq!(alpha_at(&img, 0, 0), 70);
    assert_eq!(alpha_at(&img, 1, 1), 255);

    let mut img = opaque_white(7, 5);
    assert_eq!(border_top_right_radius(&mut img, 2, Corner::BottomRight), Ok(()));
    assert_eq!(alpha_at(&img, 5, 4), 235);
    assert_eq!(alpha_at(&img, 6, 3), 235);
    assert_eq!(alpha_at(&img, 6, 4), 70);
    assert_eq!(alpha_at(&img, 5, 3), 255);

    let mut img = opaque_white(7, 5);
    assert_eq!(border_top_right_radius(&mut img, 2, Corner::BottomLeft), Ok(()));
    assert_eq!(alpha_at(&img, 1, 4), 235);
    assert_eq!(alpha_at(&img, 0, 3), 235);
    assert_eq!(alpha_at(&img, 0, 4), 70);
    assert_eq!(alpha_at(&img, 1, 3), 255);
}

#[test]
fn a_single_corner_larger_than_the_buffer_is_refused() {
    let mut img = opaque_white(7, 5);
    assert_eq!(border_top_right_radius(&mut img, 6, Corner::TopLeft), Err(RoundError::InvalidRadius));
    assert_eq!(border_top_right_radius(&mut img, 8, Corner::TopLeft), Err(RoundError::InvalidRadius));
    assert_eq!(border_top_right_radius(&mut img, 5, Corner::TopLeft), Ok(()));
}

#[test]
fn an_arc_that_cannot_be_walked_leaves_the_buffer_alone() {
    let mut img = opaque_white(40, 40);
    assert_eq!(round(&mut img, &BorderRadius(5, 5, 17, 5)), Err(RoundError::CoverageOutOfRange));
    assert_eq!(img.into_raw(), vec![255u8; 6400]);
    let mut img = opaque_white(40, 40);
    assert_eq!(
        border_top_right_radius(&mut img, 17, Corner::TopRight),
        Err(RoundError::CoverageOutOfRange)
    );
    assert_eq!(img.into_raw(), vec![255u8; 6400]);
}

#[test]
fn rounding_scales_the_opacity_that_is_there() {
    let mut samples = Vec::new();
    for _ in 0..16 {
        samples.extend_from_slice(&[10, 20, 30, 100]);
    }
    let mut img = PixelBuffer::from_raw(4, 4, samples).unwrap();
    assert_eq!(round(&mut img, &BorderRadius(2, 0, 0, 0)), Ok(()));
    // (235 * 100 + 127) / 255 and (70 * 100 + 127) / 255
    assert_eq!(img.get_pixel(1, 0), Some(Rgba8 { red: 10, green: 20, blue: 30, alpha: 92 }));
    assert_eq!(img.get_pixel(0, 1), Some(Rgba8 { red: 10, green: 20, blue: 30, alpha: 92 }));
    assert_eq!(img.get_pixel(0, 0), Some(Rgba8 { red: 10, green: 20, blue: 30, alpha: 27 }));
    assert_eq!(img.get_pixel(1, 1), Some(Rgba8 { red: 10, green: 20, blue: 30, alpha: 100 }));
    assert_eq!(img.get_pixel(3, 3), Some(Rgba8 { red: 10, green: 20, blue: 30, alpha: 100 }));
}

#[test]
fn pixels_beyond_the_arc_lose_their_opacity_and_keep_their_colour() {
    let mut samples = Vec::new();
    for n in 0..64u32 {
        samples.extend_from_slice(&[n as u8, 200, 7, 255 - n as u8]);
    }
    let mut img = PixelBuffer::from_raw(8, 8, samples).unwrap();
    assert_eq!(round(&mut img, &BorderRadius(8, 0, 0, 0)), Ok(()));
    assert_eq!(img.get_pixel(0, 0), Some(Rgba8 { red: 0, green: 200, blue: 7, alpha: 0 }));
    assert_eq!(img.get_pixel(1, 0), Some(Rgba8 { red: 1, green: 200, blue: 7, alpha: 0 }));
    assert_eq!(img.get_pixel(0, 1), Some(Rgba8 { red: 8, green: 200, blue: 7, alpha: 0 }));
    assert_eq!(img.get_pixel(7, 7), Some(Rgba8 { red: 63, green: 200, blue: 7, alpha: 192 }));
    let mut transparent = 0;
    for y in 0..8u32 {
        for x in 0..8u32 {
            if img.get_pixel(x, y).unwrap().alpha == 0 {
                transparent += 1;
            }
        }
    }
    assert_eq!(transparent, 8);
}

#[test]
fn the_ring_of_partial_opacity_is_thin() {
    let mut img = opaque_white(100, 100);
    assert_eq!(round(&mut img, &BorderRadius(20, 20, 20, 20)), Ok(()));
    let mut partial = [0u32; 4];
    for y in 0..100u32 {
        for x in 0..100u32 {
            let alpha = alpha_at(&img, x, y);
            if 0 < alpha && alpha < 255 {
                let dx = x.min(99 - x) as i64;
                let dy = y.min(99 - y) as i64;
                assert!(dx < 20 && dy < 20, "{x} {y}");
                assert!((20 - dx) * (20 - dx) + (20 - dy) * (20 - dy) > 361, "{x} {y}");
                assert!((19 - dx) * (19 - dx) + (19 - dy) * (19 - dy) < 441, "{x} {y}");
                let corner = (if x < 50 { 0 } else { 1 }) + (if y < 50 { 0 } else { 2 });
                partial[corner] += 1;
            }
        }
    }
    assert_eq!(partial, [35, 35, 35, 35]);
}

#[test]
fn what_a_corner_pass_changes_lies_near_the_circle() {
    for r in [1u32, 2, 7, 16, 19, 33, 64] {
        let mut img = opaque_white(64, 64);
        assert_eq!(border_top_right_radius(&mut img, r, Corner::BottomRight), Ok(()));
        let r = r as i64;
        for y in 0..64u32 {
            for x in 0..64u32 {
                let alpha = alpha_at(&img, x, y);
                if alpha != 255 {
                    let i = x as i64 - (64 - r);
                    let j = y as i64 - (64 - r);
                    assert!(0 <= i && i < r && 0 <= j && j < r, "{r}: {x} {y}");
                    assert!((r - 1) * (r - 1) < (i + 1) * (i + 1) + (j + 1) * (j + 1), "{r}: {x} {y}");
                    if alpha != 0 {
                        assert!(i * i + j * j < (r + 1) * (r + 1), "{r}: {x} {y}");
                    }
                }
            }
        }
    }
}
