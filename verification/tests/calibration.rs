use inkdrop::gcode::{
    bounding_box, is_within_reach, Bounds, Calibration, CalibrationError, MAX_SPAN,
};
use inkdrop::point::Point;

/// The lattice coordinate nearest to a length.
fn units(v: f64) -> i32 {
    (v * 100_000.0).round() as i32
}

fn at(x: f64, y: f64) -> Point {
    Point::new(units(x), units(y))
}

#[test]
fn conversion_of_coordinates_works() {
    let calib = Calibration {
        base_width: units(80.1),
        base_height: units(57.3),
        drawing_width: units(50.),
        drawing_height: units(50.),
    };

    // at the origin both cords have one length: sqrt(40.05^2 + 57.3^2)
    let home = calib.apply(&Point::origin());
    assert_eq!(home.x, home.y);
    assert_eq!(home, at(69.90917, 69.90917));

    // with the motors 50 above the origin the cords measure sqrt(40.05^2 + 50^2)
    let lower = Calibration { base_height: units(50.), ..calib };
    assert_eq!(lower.apply(&Point::origin()), at(64.06248902, 64.06248902));
}

#[test]
fn translation_works() {
    let calib = Calibration {
        base_width: units(10.),
        base_height: units(20.),
        drawing_width: units(50.),
        drawing_height: units(100.),
    };

    let channels = vec![vec![at(-1., 15.), at(4., -5.)]];

    let result = calib.translate_origin(&channels).unwrap();
    assert_eq!(result, vec![vec![at(-12.5, 50.), at(12.5, -50.)]]);

    assert_eq!(result, calib.translate_origin(&result).unwrap());
}

#[test]
fn translation_keeps_the_proportions_when_the_width_limits() {
    let calib = Calibration {
        base_width: units(10.),
        base_height: units(20.),
        drawing_width: units(30.),
        drawing_height: units(100.),
    };
    // a box of 6 by 4 around (5, 3): the scale is 30 / 6
    let channels = vec![vec![at(2., 1.), at(8., 5.)], vec![at(5., 3.), at(6.5, 2.)]];
    let result = calib.translate_origin(&channels).unwrap();
    assert_eq!(
        result,
        vec![vec![at(-15., -10.), at(15., 10.)], vec![at(0., 0.), at(7.5, -5.)]]
    );
    assert_eq!(calib.translate_origin(&result).unwrap(), result);
}

#[test]
fn translation_rounds_halves_up() {
    let calib =
        Calibration { base_width: 10, base_height: 10, drawing_width: 3, drawing_height: 3 };
    // a box of two units is scaled by 3 / 2: -1.5, 0 and 1.5 become -1, 0 and 2
    let channels = vec![vec![Point::new(0, 0), Point::new(1, 1), Point::new(2, 2)]];
    let result = calib.translate_origin(&channels).unwrap();
    assert_eq!(result, vec![vec![Point::new(-1, -1), Point::new(0, 0), Point::new(2, 2)]]);
    assert_eq!(calib.translate_origin(&result).unwrap(), result);
}

#[test]
fn translation_of_no_points_is_an_error() {
    let calib = Calibration {
        base_width: units(10.),
        base_height: units(20.),
        drawing_width: units(50.),
        drawing_height: units(100.),
    };
    assert_eq!(calib.translate_origin(&vec![]), Err(CalibrationError::NoPoints));
    assert_eq!(calib.translate_origin(&vec![vec![], vec![]]), Err(CalibrationError::NoPoints));
}

#[test]
fn translation_of_a_box_without_extent_is_an_error() {
    let calib = Calibration {
        base_width: units(10.),
        base_height: units(20.),
        drawing_width: units(50.),
        drawing_height: units(100.),
    };
    let one = vec![vec![at(1., 1.)]];
    assert_eq!(calib.translate_origin(&one), Err(CalibrationError::ZeroExtent));
    let upright = vec![vec![at(1., 1.)], vec![at(1., 7.)]];
    assert_eq!(calib.translate_origin(&upright), Err(CalibrationError::ZeroExtent));
    let level = vec![vec![at(1., 7.), at(3., 7.)]];
    assert_eq!(calib.translate_origin(&level), Err(CalibrationError::ZeroExtent));
}

#[test]
fn a_drawing_that_the_lattice_would_flatten_is_refused() {
    let calib = Calibration {
        base_width: units(10.),
        base_height: units(20.),
        drawing_width: units(50.),
        drawing_height: units(50.),
    };
    // ten thousand wide and one lattice unit high: scaled to a width of 50
    // it would be a two-hundredth of a lattice unit high
    let thin = vec![vec![Point::new(0, 0), Point::new(1_000_000_000, 1)]];
    assert_eq!(calib.translate_origin(&thin), Err(CalibrationError::ZeroExtent));
    let upright = vec![vec![Point::new(0, 0), Point::new(1, 1_000_000_000)]];
    assert_eq!(calib.translate_origin(&upright), Err(CalibrationError::ZeroExtent));
    // one lattice unit of height is left at a height of 200 lattice units
    let flat = vec![vec![Point::new(0, 0), Point::new(1_000_000_000, 200)]];
    let result = calib.translate_origin(&flat).unwrap();
    assert_eq!(result, vec![vec![Point::new(-2_500_000, 0), Point::new(2_500_000, 1)]]);
    assert_eq!(calib.translate_origin(&result).unwrap(), result);
}

#[test]
fn every_translated_drawing_comes_back_unchanged() {
    let calib = Calibration { base_width: 10, base_height: 10, drawing_width: 7, drawing_height: 5 };
    let mut seed: u32 = 4711;
    for _ in 0..300 {
        let mut channel = Vec::new();
        for _ in 0..5 {
            seed = seed.wrapping_mul(1_664_525).wrapping_add(1_013_904_223);
            let x = (seed >> 12) as i32 % 40 - 20;
            seed = seed.wrapping_mul(1_664_525).wrapping_add(1_013_904_223);
            let y = (seed >> 12) as i32 % 9 - 4;
            channel.push(Point::new(x, y));
        }
        if let Ok(result) = calib.translate_origin(&vec![channel]) {
            assert_eq!(calib.translate_origin(&result), Ok(result));
        }
    }
}

#[test]
fn bounding_box_spans_all_channels() {
    let channels = vec![vec![at(2., 1.), at(8., 5.)], vec![], vec![at(5., -3.), at(-6.5, 2.)]];
    assert_eq!(
        bounding_box(&channels),
        Some(Bounds { min_x: units(-6.5), max_x: units(8.), min_y: units(-3.), max_y: units(5.) })
    );
    assert_eq!(bounding_box(&vec![vec![]]), None);
}

#[test]
fn cords_are_measured_from_the_shafts() {
    let calib = Calibration {
        base_width: units(10.),
        base_height: units(20.),
        drawing_width: units(50.),
        drawing_height: units(100.),
    };
    // the pen at (12.5, -50) of the drawing plane hangs 17.5 right of the left
    // shaft, 7.5 right of the right shaft, and 30 above both
    let cords = calib.apply(&at(12.5, -50.));
    assert_eq!(cords, Point::new(3_473_111, 3_092_329));
    // at the origin both cords measure sqrt(5^2 + 20^2)
    assert_eq!(calib.apply(&Point::origin()), Point::new(2_061_553, 2_061_553));
}

#[test]
fn cords_are_equal_on_the_axis_of_any_machine() {
    let machines = [
        Calibration { base_width: 8_010_000, base_height: 5_730_000, drawing_width: 1, drawing_height: 1 },
        Calibration { base_width: i32::MAX, base_height: i32::MAX, drawing_width: 0, drawing_height: 0 },
        Calibration { base_width: i32::MIN, base_height: -7, drawing_width: -1, drawing_height: 9 },
        Calibration { base_width: 0, base_height: 0, drawing_width: 0, drawing_height: 0 },
    ];
    for calib in machines {
        for y in [0, 1, -1, 5_000_000, i32::MAX, i32::MIN] {
            let (a, b) = calib.cords(&Point::new(0, y));
            assert_eq!(a, b);
        }
    }
    let calib = machines[0];
    assert_eq!(calib.cords(&Point::origin()), (6_990_917, 6_990_917));
    // 2^31 units left of both shafts and 2^32 - 2 below them
    let far = Calibration { base_width: 0, base_height: i32::MAX, drawing_width: 1, drawing_height: 1 };
    assert_eq!(far.cords(&Point::new(i32::MIN, i32::MAX)), (4_801_919_416, 4_801_919_416));
    assert_eq!(far.cords(&Point::new(3, 4 - i32::MAX)), (5, 5));
}

#[test]
fn channels_are_transformed_relative_to_home() {
    let calib = Calibration {
        base_width: units(10.),
        base_height: units(20.),
        drawing_width: units(50.),
        drawing_height: units(100.),
    };
    let channels = vec![vec![Point::origin(), at(12.5, -50.)], vec![]];
    let moved = calib.transform_coordinates(&channels);
    assert_eq!(
        moved,
        vec![
            vec![
                Point::new(0, 0),
                Point::new(3_473_111 - 2_061_553, 3_092_329 - 2_061_553)
            ],
            vec![]
        ]
    );
    assert_eq!(calib.transform_single_channel(&channels[0]), moved[0]);
}

#[test]
fn calibrations_are_checked() {
    let good = Calibration {
        base_width: 1,
        base_height: MAX_SPAN,
        drawing_width: 17,
        drawing_height: 4,
    };
    assert!(good.is_valid());
    assert!(!Calibration { base_width: 0, ..good }.is_valid());
    assert!(!Calibration { base_height: MAX_SPAN + 1, ..good }.is_valid());
    assert!(!Calibration { drawing_width: -3, ..good }.is_valid());
    assert!(!Calibration { drawing_height: 0, ..good }.is_valid());
    assert!(is_within_reach(&Point::new(MAX_SPAN, -MAX_SPAN)));
    assert!(!is_within_reach(&Point::new(MAX_SPAN + 1, 0)));
    assert!(!is_within_reach(&Point::new(0, -MAX_SPAN - 1)));
}
