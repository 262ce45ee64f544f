use inkdrop::color::Density;
use inkdrop::point::Point;
use inkdrop::raster::{Raster, MAX_SIDE};
use inkdrop::sampler::{
    accepts, count_points, draw_at, draw_on, place_draw, sample_points, Draw, Gamma,
};

fn share(num: u8, den: u8) -> Density {
    Density { num, den }
}

fn gamma(num: u8, den: u8) -> Gamma {
    Gamma { num, den }
}

fn plain(width: u32, height: u32, rgb: [u8; 3]) -> Raster {
    let mut pixels = Vec::new();
    for _ in 0..width * height {
        pixels.extend_from_slice(&rgb);
    }
    Raster::new(width, height, pixels).unwrap()
}

fn empty_channels() -> Vec<Vec<Point>> {
    vec![vec![], vec![], vec![], vec![]]
}

#[test]
fn a_raster_holds_its_pixels_row_after_row() {
    let raster = Raster::new(2, 3, (0..18).collect()).unwrap();
    assert_eq!(raster.get_pixel(0, 0), (0, 1, 2));
    assert_eq!(raster.get_pixel(1, 0), (3, 4, 5));
    assert_eq!(raster.get_pixel(0, 1), (6, 7, 8));
    assert_eq!(raster.get_pixel(1, 2), (15, 16, 17));
}

#[test]
fn a_raster_needs_three_primaries_for_each_pixel() {
    assert!(Raster::new(2, 3, vec![0; 18]).is_some());
    assert!(Raster::new(2, 3, vec![0; 17]).is_none());
    assert!(Raster::new(2, 3, vec![0; 19]).is_none());
    assert!(Raster::new(0, 3, vec![]).is_none());
    assert!(Raster::new(3, 0, vec![]).is_none());
    assert!(Raster::new(MAX_SIDE, 1, vec![0; 3 * MAX_SIDE as usize]).is_some());
    assert!(Raster::new(MAX_SIDE + 1, 1, vec![0; 3 * (MAX_SIDE as usize + 1)]).is_none());
    assert!(Raster::new(1, MAX_SIDE + 1, vec![0; 3 * (MAX_SIDE as usize + 1)]).is_none());
}

#[test]
fn a_raster_is_taken_from_a_decoded_image() {
    let buffer = image::RgbImage::from_raw(2, 2, vec![1, 2, 3, 4, 5, 6, 7, 8, 9, 10, 11, 12]);
    let img = image::DynamicImage::ImageRgb8(buffer.unwrap());
    let raster = Raster::from_image(&img).unwrap();
    assert_eq!(raster.width, 2);
    assert_eq!(raster.height, 2);
    assert_eq!(raster.pixels, vec![1, 2, 3, 4, 5, 6, 7, 8, 9, 10, 11, 12]);
    assert_eq!(raster.get_pixel(1, 1), (10, 11, 12));
}

#[test]
fn a_grey_image_gives_three_equal_primaries() {
    let buffer = image::GrayImage::from_raw(3, 1, vec![0, 128, 255]).unwrap();
    let raster = Raster::from_image(&image::DynamicImage::ImageLuma8(buffer)).unwrap();
    assert_eq!((raster.width, raster.height), (3, 1));
    assert_eq!(raster.pixels, vec![0, 0, 0, 128, 128, 128, 255, 255, 255]);
}

#[test]
fn an_empty_image_is_no_raster() {
    let img = image::DynamicImage::new_rgb8(0, 0);
    assert!(Raster::from_image(&img).is_none());
    let img = image::DynamicImage::new_rgb8(5, 0);
    assert!(Raster::from_image(&img).is_none());
}

#[test]
fn a_threshold_passes_at_the_share_of_paper_and_above() {
    // 32768 / 65536 is one half
    assert!(accepts(32768, share(1, 2), gamma(1, 1)));
    assert!(!accepts(32767, share(1, 2), gamma(1, 1)));
    assert!(accepts(65535, share(1, 2), gamma(1, 1)));
    // no threshold reaches one, every threshold reaches nought
    assert!(!accepts(65535, share(255, 255), gamma(1, 1)));
    assert!(accepts(0, share(0, 255), gamma(1, 1)));
    assert!(!accepts(0, share(1, 255), gamma(1, 1)));
    // 100 / 255 lies between 25700 / 65536 and 25701 / 65536
    assert!(!accepts(25700, share(100, 255), gamma(1, 1)));
    assert!(accepts(25701, share(100, 255), gamma(1, 1)));
}

#[test]
fn gamma_raises_the_share_of_paper() {
    // one half squared is a quarter
    assert!(accepts(16384, share(1, 2), gamma(2, 1)));
    assert!(!accepts(16383, share(1, 2), gamma(2, 1)));
    // the root of a quarter is a half
    assert!(accepts(32768, share(1, 4), gamma(1, 2)));
    assert!(!accepts(32767, share(1, 4), gamma(1, 2)));
    // a quarter to the power of three halves is an eighth
    assert!(accepts(8192, share(1, 4), gamma(3, 2)));
    assert!(!accepts(8191, share(1, 4), gamma(3, 2)));
    // the largest exponents: (1/2)^8 = 256 / 65536, (1/16)^(1/4) = 1/2
    assert!(accepts(256, share(127, 254), gamma(8, 1)));
    assert!(!accepts(255, share(127, 254), gamma(8, 1)));
    assert!(accepts(32768, share(1, 16), gamma(1, 4)));
    assert!(!accepts(32767, share(1, 16), gamma(1, 4)));
    assert!(!accepts(65535, share(255, 255), gamma(8, 4)));
    assert!(accepts(65535, share(254, 255), gamma(8, 4)));
}

#[test]
fn gamma_is_checked() {
    assert!(Gamma::one().is_valid());
    assert_eq!(Gamma::one(), gamma(1, 1));
    assert!(gamma(8, 4).is_valid());
    assert!(!gamma(0, 1).is_valid());
    assert!(!gamma(1, 0).is_valid());
    assert!(!gamma(9, 1).is_valid());
    assert!(!gamma(1, 5).is_valid());
}

#[test]
fn with_one_ink_a_draw_goes_to_the_one_channel() {
    // the paper left by black is 100 / 255
    let raster = plain(2, 2, [100, 50, 0]);
    let at = Point::new(150_000, 199_999);
    let mut channels = vec![vec![]];
    place_draw(&mut channels, &raster, Draw { at, threshold: 25701 }, Gamma::one(), false, 9);
    assert_eq!(channels, vec![vec![at]]);
    place_draw(&mut channels, &raster, Draw { at, threshold: 25700 }, Gamma::one(), false, 9);
    assert_eq!(channels, vec![vec![at]]);
    assert_eq!(count_points(&channels), 1);
}

#[test]
fn with_four_inks_a_draw_goes_to_every_channel_that_takes_it() {
    // paper left: cyan 100/200, magenta 200/200, yellow 50/200, black 200/255
    let raster = plain(1, 1, [100, 200, 50]);
    let at = Point::new(7, 99_999);
    let mut channels = empty_channels();
    place_draw(&mut channels, &raster, Draw { at, threshold: 16384 }, Gamma::one(), true, 9);
    assert_eq!(channels, vec![vec![], vec![], vec![at], vec![]]);
    place_draw(&mut channels, &raster, Draw { at, threshold: 32768 }, Gamma::one(), true, 9);
    assert_eq!(channels, vec![vec![at], vec![], vec![at, at], vec![]]);
    place_draw(&mut channels, &raster, Draw { at, threshold: 65535 }, Gamma::one(), true, 9);
    assert_eq!(channels, vec![vec![at, at], vec![], vec![at, at, at], vec![at]]);
    place_draw(&mut channels, &raster, Draw { at, threshold: 16383 }, Gamma::one(), true, 9);
    assert_eq!(count_points(&channels), 6);
}

#[test]
fn a_draw_is_taken_until_the_channels_hold_enough() {
    // every channel but magenta would take the draw
    let raster = plain(1, 1, [100, 200, 50]);
    let at = Point::new(7, 99_999);
    let draw = Draw { at, threshold: 65535 };
    let mut channels = empty_channels();
    place_draw(&mut channels, &raster, draw, Gamma::one(), true, 2);
    assert_eq!(channels, vec![vec![at], vec![], vec![at], vec![]]);
    place_draw(&mut channels, &raster, draw, Gamma::one(), true, 2);
    assert_eq!(channels, vec![vec![at], vec![], vec![at], vec![]]);
    place_draw(&mut channels, &raster, draw, Gamma::one(), true, 4);
    assert_eq!(channels, vec![vec![at, at], vec![], vec![at, at], vec![]]);
    place_draw(&mut channels, &raster, draw, Gamma::one(), true, 5);
    assert_eq!(channels, vec![vec![at, at, at], vec![], vec![at, at], vec![]]);
    let mut none = empty_channels();
    place_draw(&mut none, &raster, draw, Gamma::one(), true, 0);
    assert_eq!(none, empty_channels());
}

#[test]
fn a_draw_reads_the_pixel_it_falls_on() {
    // a white pixel on the left, a black one on the right
    let raster = Raster::new(2, 1, vec![255, 255, 255, 0, 0, 0]).unwrap();
    let mut channels = vec![vec![]];
    let left = Point::new(99_999, 0);
    let right = Point::new(100_000, 0);
    place_draw(&mut channels, &raster, Draw { at: left, threshold: 65535 }, Gamma::one(), false, 9);
    assert_eq!(count_points(&channels), 0);
    place_draw(&mut channels, &raster, Draw { at: right, threshold: 0 }, Gamma::one(), false, 9);
    assert_eq!(channels, vec![vec![right]]);
}

#[test]
fn three_numbers_make_a_draw() {
    assert_eq!(
        draw_at(150_000, 7, 65_535),
        Draw { at: Point::new(150_000, 7), threshold: 65_535 }
    );
    assert_eq!(draw_at(0, 0, 0), Draw { at: Point::new(0, 0), threshold: 0 });
    assert_eq!(
        draw_at(2_147_483_647, 2_147_399_999, 1),
        Draw { at: Point::new(i32::MAX, 2_147_399_999), threshold: 1 }
    );
}

#[test]
fn draws_fall_on_the_raster() {
    let raster = plain(3, 2, [9, 9, 9]);
    let mut seen_x = [false; 3];
    let mut high = false;
    for _ in 0..2000 {
        let draw = draw_on(&raster);
        assert!(0 <= draw.at.x && draw.at.x < 300_000);
        assert!(0 <= draw.at.y && draw.at.y < 200_000);
        seen_x[(draw.at.x / 100_000) as usize] = true;
        high = high || draw.threshold >= 32768;
    }
    assert_eq!(seen_x, [true; 3]);
    assert!(high);
}

#[test]
fn a_black_picture_takes_every_draw() {
    let raster = plain(4, 3, [0, 0, 0]);
    let channels = sample_points(&raster, 50, Gamma::one(), false, u64::MAX);
    assert_eq!(channels.len(), 1);
    assert_eq!(channels[0].len(), 50);
    for p in &channels[0] {
        assert!(0 <= p.x && p.x < 400_000 && 0 <= p.y && p.y < 300_000);
    }
    assert!(channels[0].iter().any(|p| *p != channels[0][0]));
}

#[test]
fn a_white_picture_takes_no_draw() {
    let raster = plain(4, 3, [255, 255, 255]);
    assert_eq!(sample_points(&raster, 50, Gamma::one(), false, 1000), vec![vec![]]);
    assert_eq!(sample_points(&raster, 50, Gamma::one(), true, 1000), empty_channels());
}

#[test]
fn sampling_stops_when_the_channels_hold_enough() {
    let raster = plain(2, 2, [90, 160, 30]);
    for n in [0usize, 1, 2, 7, 40] {
        let one = sample_points(&raster, n, gamma(1, 2), false, u64::MAX);
        assert_eq!(one.len(), 1);
        assert_eq!(one[0].len(), n);
        let four = sample_points(&raster, n, gamma(3, 2), true, u64::MAX);
        assert_eq!(four.len(), 4);
        let total: usize = four.iter().map(|c| c.len()).sum();
        assert_eq!(total, n);
        // magenta leaves all the paper
        assert_eq!(four[1].len(), 0);
    }
}

#[test]
fn sampling_with_four_inks_gives_no_point_too_many() {
    // cyan, magenta and yellow take every draw that black takes
    let raster = plain(3, 3, [0, 0, 0]);
    let dark = plain(3, 3, [10, 10, 10]);
    for n in [1usize, 2, 3, 5, 50] {
        let four = sample_points(&raster, n, Gamma::one(), true, u64::MAX);
        assert_eq!(four.iter().map(|c| c.len()).sum::<usize>(), n);
        let four = sample_points(&dark, n, Gamma::one(), true, u64::MAX);
        assert_eq!(four.iter().map(|c| c.len()).sum::<usize>(), n);
    }
}

#[test]
fn sampling_stops_when_the_draws_are_used_up() {
    let raster = plain(2, 2, [0, 0, 0]);
    assert_eq!(sample_points(&raster, 50, Gamma::one(), false, 0), vec![vec![]]);
    assert_eq!(sample_points(&raster, 50, Gamma::one(), true, 0), empty_channels());
    assert_eq!(sample_points(&raster, 50, Gamma::one(), false, 7)[0].len(), 7);
    // with four inks a black pixel is taken by black alone
    let four = sample_points(&raster, 50, Gamma::one(), true, 7);
    assert_eq!(four[3].len(), 7);
    assert_eq!(four[0].len() + four[1].len() + four[2].len(), 0);
}
