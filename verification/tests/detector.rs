use crazydog::binary64::model::Binary64;
use crazydog::camera::{process_camera, Image, FIELD_OF_VIEW, MIN_RED_PIXELS};
use crazydog::fusion::{
    DetectionState, CAMERA_WEIGHT, LIDAR_WEIGHT, MAX_JUMP, MAX_SPEED, MIN_INTERVAL, SMOOTHING,
};
use crazydog::lidar::{
    best_cluster, person_points, process_lidar, sector_index, Bounds, Point, PointCloud, PointField, BAND_BOTTOM,
    BAND_TOP, GROUND, MAX_HEIGHT, MAX_RANGE, MAX_WIDTH, MIN_HEIGHT, MIN_RANGE, MIN_WIDTH, PI, SECTOR_WIDTH,
};

fn double(x: f64) -> Binary64 {
    Binary64::from_bits(x.to_bits())
}

fn native(x: Binary64) -> f64 {
    f64::from_bits(x.bits)
}

fn atan2(y: Binary64, x: Binary64) -> Binary64 {
    double(native(y).atan2(native(x)))
}

fn fields(offsets: &[(&str, u32)]) -> Vec<PointField> {
    offsets.iter().map(|(name, offset)| PointField { name: name.to_string(), offset: *offset }).collect()
}

/// A cloud with the usual layout.
fn cloud(points: &[(f32, f32, f32)]) -> PointCloud {
    let mut data = Vec::new();
    for (x, y, z) in points {
        data.extend(x.to_le_bytes());
        data.extend(y.to_le_bytes());
        data.extend(z.to_le_bytes());
        data.extend([0u8; 4]);
    }
    PointCloud { fields: fields(&[("x", 0), ("y", 4), ("z", 8)]), point_step: 16, data }
}

fn detect(msg: &PointCloud) -> (usize, usize, Option<(f64, f64)>) {
    assert!(msg.is_readable());
    let (total, filtered, found) = process_lidar(msg, atan2);
    (total, filtered, found.map(|(distance, bearing)| (native(distance), native(bearing))))
}

fn expected_lidar(points: &[(f32, f32, f32)]) -> (usize, Option<(f64, f64)>) {
    let mut kept = Vec::new();
    for &(x, y, z) in points {
        let (x, y, z) = (x as f64, y as f64, z as f64);
        if x.is_nan() || y.is_nan() || z.is_nan() {
            continue;
        }
        let dist = (x * x + y * y).sqrt();
        if dist > 20.0 || dist < 0.8 || x < 0.0 || z < 0.15 || z < 0.3 || z > 2.0 {
            continue;
        }
        kept.push((x, y, z));
    }
    let width = 10.0_f64.to_radians();
    let index = |bearing: f64| ((bearing + std::f64::consts::PI) / width) as usize;
    let mut sectors: Vec<(f64, f64, Vec<(f64, f64, f64)>)> = Vec::new();
    for &(x, y, z) in &kept {
        let bearing = y.atan2(x);
        let dist = (x * x + y * y).sqrt();
        if let Some(s) = sectors.iter_mut().find(|s| index(s.1) == index(bearing)) {
            s.0 += dist;
            s.2.push((x, y, z));
        } else {
            sectors.push((dist, bearing, vec![(x, y, z)]));
        }
    }
    let extent = |values: Vec<f64>| {
        let high = values.iter().cloned().fold(f64::NEG_INFINITY, f64::max);
        let low = values.iter().cloned().fold(f64::INFINITY, f64::min);
        high - low
    };
    let sized = |members: &Vec<(f64, f64, f64)>| {
        let across = extent(members.iter().map(|p| p.0).collect()).max(extent(members.iter().map(|p| p.1).collect()));
        let tall = extent(members.iter().map(|p| p.2).collect());
        across >= 0.3 && across <= 0.8 && tall >= 0.5 && tall <= 2.0
    };
    let found = match sectors.iter().filter(|s| sized(&s.2)).max_by_key(|s| s.2.len()) {
        Some(best) if best.2.len() >= 3 => Some((best.0 / best.2.len() as f64, best.1)),
        _ => None,
    };
    (kept.len(), found)
}

#[test]
fn detector_parameters_are_the_documented_decimals() {
    for (bits, value) in [
        (MAX_RANGE, 20.0),
        (MIN_RANGE, 0.8),
        (GROUND, 0.15),
        (BAND_BOTTOM, 0.3),
        (BAND_TOP, 2.0),
        (MIN_WIDTH, 0.3),
        (MAX_WIDTH, 0.8),
        (MIN_HEIGHT, 0.5),
        (MAX_HEIGHT, 2.0),
        (PI, std::f64::consts::PI),
        (SECTOR_WIDTH, 10.0_f64.to_radians()),
        (FIELD_OF_VIEW, 1.5),
        (MIN_INTERVAL, 0.05),
        (MAX_SPEED, 5.0),
        (LIDAR_WEIGHT, 0.3),
        (CAMERA_WEIGHT, 0.7),
        (MAX_JUMP, 1.05),
        (SMOOTHING, 0.1),
    ] {
        assert_eq!(bits, value.to_bits());
    }
    assert_eq!(MIN_RED_PIXELS, 20);
}

#[test]
fn person_ahead_is_detected() {
    let msg = cloud(&[(4.0, 0.0, 0.5), (4.1, 0.2, 1.0), (4.2, 0.4, 1.5)]);
    let (total, filtered, found) = detect(&msg);
    assert_eq!((total, filtered), (3, 3));
    let (distance, bearing) = found.unwrap();
    assert!((distance - 4.11).abs() < 0.01);
    assert_eq!(bearing, 0.0);
}

#[test]
fn two_points_are_no_person() {
    assert_eq!(detect(&cloud(&[(4.0, 0.0, 0.5), (4.0, 0.4, 1.5), (4.0, 4.0, 0.5)])), (3, 3, None));
}

#[test]
fn ground_points_are_no_person() {
    assert_eq!(detect(&cloud(&[(4.0, 0.125, -0.42), (4.0, 0.25, -0.42), (4.0, 0.5, -0.42)])), (3, 0, None));
}

#[test]
fn three_equal_points_are_no_person() {
    assert_eq!(detect(&cloud(&[(4.0, 0.25, 0.5); 3])), (3, 3, None));
}

#[test]
fn only_person_sized_clusters_are_reported() {
    // extents forward, to the left and up
    for (deep, wide, tall, person) in [
        (0.0f32, 0.4f32, 1.0f32, true),
        (0.4, 0.0, 1.0, true),
        (0.4, 0.4, 1.6, true),
        (0.0, 0.29, 1.0, false),
        (0.0, 0.31, 1.0, true),
        (0.79, 0.4, 1.0, true),
        (0.81, 0.4, 1.0, false),
        (0.0, 0.4, 0.49, false),
        (0.0, 0.4, 0.51, true),
    ] {
        let points = [(5.0, 0.1, 0.35), (5.0 + deep, 0.1 + wide, 0.35), (5.0, 0.1, 0.35 + tall)];
        assert_eq!(detect(&cloud(&points)).2.is_some(), person);
        assert_eq!(expected_lidar(&points).1.is_some(), person);
    }
}

#[test]
fn wall_does_not_hide_a_person() {
    // more points, but too wide for a person
    let mut points: Vec<(f32, f32, f32)> = (0..10).map(|i| (15.0, 10.5 + i as f32 * 0.15, 0.4 + i as f32 * 0.1)).collect();
    points.extend([(4.0, 0.0, 0.5), (4.0, 0.2, 1.0), (4.0, 0.4, 1.5)]);
    let (_, filtered, found) = detect(&cloud(&points));
    assert_eq!(filtered, 13);
    assert_eq!(found.unwrap().1, 0.0);
}

#[test]
fn bounds_are_measured_like_a_person() {
    let at = |x: f64, y: f64, z: f64| Point { x: double(x), y: double(y), z: double(z) };
    let bounds = |x: f64, y: f64, z: f64| Bounds { low: at(0.0, 0.0, 0.0), high: at(x, y, z) };
    assert!(bounds(0.3, 0.1, 0.5).is_sized_like_a_person());
    assert!(bounds(0.1, 0.8, 2.0).is_sized_like_a_person());
    assert!(!bounds(0.1, 0.81, 2.0).is_sized_like_a_person());
    assert!(!bounds(0.1, 0.8, 2.01).is_sized_like_a_person());
    assert!(!bounds(0.1, 0.8, f64::NAN).is_sized_like_a_person());
    assert!(!bounds(f64::NAN, f64::NAN, 1.0).is_sized_like_a_person());
}

#[test]
fn empty_clouds_hold_nothing() {
    assert_eq!(detect(&cloud(&[])), (0, 0, None));
    let mut msg = cloud(&[(2.0, 0.0, 0.0)]);
    msg.point_step = 0;
    assert_eq!(detect(&msg), (0, 0, None));
}

#[test]
fn points_are_filtered_one_by_one() {
    let good = (1.0f32, 0.0f32, 0.5f32);
    for (point, kept) in [
        (good, true),
        ((20.0, 0.0, 0.5), true),
        ((20.1, 0.0, 0.5), false),
        ((0.81, 0.0, 0.5), true),
        ((0.5, 0.5, 0.5), false),
        ((0.0, 1.0, 0.5), true),
        ((-0.0, 1.0, 0.5), true),
        ((-0.1, 1.0, 0.5), false),
        ((1.0, 0.0, -0.42), false),
        ((1.0, 0.0, 0.14), false),
        ((1.0, 0.0, 0.2), false),
        ((1.0, 0.0, 0.3), true),
        ((1.0, 0.0, 2.0), true),
        ((1.0, 0.0, 2.01), false),
        ((f32::NAN, 0.0, 0.5), false),
        ((1.0, f32::NAN, 0.5), false),
        ((1.0, 0.0, f32::NAN), false),
        ((f32::INFINITY, 0.0, 0.5), false),
        ((1.0, 0.0, f32::INFINITY), false),
    ] {
        let (total, filtered, _) = detect(&cloud(&[point]));
        assert_eq!((total, filtered), (1, kept as usize));
        assert_eq!(expected_lidar(&[point]).0, kept as usize);
    }
}

#[test]
fn fields_say_where_the_coordinates_lie() {
    // z, y, x after four bytes of something else; the last field of a name counts
    let mut data = Vec::new();
    for i in 0..3 {
        data.extend([9u8; 4]);
        for v in [0.5f32 + i as f32 * 0.5, 1.0 + i as f32 * 0.2, 5.0] {
            data.extend(v.to_le_bytes());
        }
    }
    let msg = PointCloud {
        fields: fields(&[("x", 0), ("intensity", 0), ("z", 4), ("y", 8), ("x", 12)]),
        point_step: 16,
        data,
    };
    let points = person_points(&msg);
    assert_eq!(points.len(), 3);
    assert_eq!((native(points[0].x), native(points[0].y), native(points[0].z)), (5.0, 1.0, 0.5));
    assert!(detect(&msg).2.is_some());
}

#[test]
fn points_without_a_height_end_the_cloud() {
    // what is left behind the last whole point does not count
    let mut msg = cloud(&[(2.0, 0.0, 0.5), (2.0, 0.0, 0.5)]);
    msg.data.truncate(31);
    let (total, filtered, _) = detect(&msg);
    assert_eq!((total, filtered), (1, 1));
    // a height that lies behind the next point
    let mut msg = cloud(&[(2.0, 0.0, 0.5), (2.0, 0.0, 0.5), (2.0, 0.0, 0.5)]);
    msg.fields = fields(&[("z", 24)]);
    let (total, filtered, _) = detect(&msg);
    assert_eq!((total, filtered), (3, 2));
}

#[test]
fn clouds_with_coordinates_beyond_their_data_are_told_apart() {
    let mut msg = cloud(&[(2.0, 0.0, 0.0)]);
    msg.fields = fields(&[("x", 100)]);
    assert!(!msg.is_readable());
    msg.fields = fields(&[("y", 13)]);
    assert!(!msg.is_readable());
    msg.fields = fields(&[("y", 12)]);
    assert!(msg.is_readable());
    // no point at all is reached
    msg.fields = fields(&[("x", 100), ("z", 100)]);
    assert!(msg.is_readable());
    assert_eq!(detect(&msg), (1, 0, None));
}

#[test]
fn densest_sector_wins_and_of_equals_the_last() {
    let left = |k: i32| (4.0 + k as f32 * 0.2, 4.0 + k as f32 * 0.2, 0.4 + k as f32 * 0.3);
    let right = |k: i32| (5.0 + k as f32 * 0.2, -5.0 - k as f32 * 0.2, 0.4 + k as f32 * 0.3);
    let quarter = std::f64::consts::FRAC_PI_4;
    let (_, _, found) = detect(&cloud(&[left(0), right(0), left(1), right(1), left(2), right(2)]));
    assert_eq!(found.unwrap().1, -quarter);
    let (_, _, found) = detect(&cloud(&[right(0), left(0), left(1), right(1), left(2), right(2)]));
    assert_eq!(found.unwrap().1, quarter);
    let (_, _, found) = detect(&cloud(&[left(0), right(0), left(1), right(1), left(2), right(2), left(3)]));
    assert_eq!(found.unwrap().1, quarter);
}

#[test]
fn scattered_clouds_give_what_the_formula_gives() {
    let mut state = 7u64;
    let mut next = || {
        state = state.wrapping_mul(6364136223846793005).wrapping_add(1442695040888963407);
        ((state >> 40) as f32) / ((1u64 << 24) as f32)
    };
    let mut detections = 0;
    for round in 0..600 {
        let n = round % 40;
        // a crowd around one place, and others anywhere
        let (cx, cy) = (next() * 8.0 + 1.0, next() * 8.0 - 4.0);
        let points: Vec<(f32, f32, f32)> = (0..n)
            .map(|i| {
                if i % 3 == 0 {
                    (next() * 12.0 - 1.0, next() * 16.0 - 8.0, next() * 3.0 - 0.8)
                } else {
                    (cx + next() * 0.6, cy + next() * 0.6, next() * 2.0 + 0.1)
                }
            })
            .collect();
        let (total, filtered, found) = detect(&cloud(&points));
        let (kept, expected) = expected_lidar(&points);
        assert_eq!(total, n);
        assert_eq!(filtered, kept);
        assert_eq!(found, expected);
        if let Some((distance, _)) = found {
            detections += 1;
            assert!(distance >= 0.7999999 && distance <= 20.0);
        }
    }
    assert!(detections > 100);
}

#[test]
fn clusters_are_found_among_given_bearings() {
    let point = |x: f64, z: f64| Point { x: double(x), y: double(0.0), z: double(z) };
    let points = vec![point(5.0, 0.5), point(2.0, 1.0), point(5.25, 1.0), point(5.5, 1.5)];
    let bearings = vec![double(0.01), double(1.0), double(0.02), double(0.03)];
    let (distance, bearing) = best_cluster(&points, &bearings).unwrap();
    assert_eq!(native(distance), (5.0 + 5.25 + 5.5) / 3.0);
    assert_eq!(native(bearing), 0.01);
    assert!(best_cluster(&Vec::new(), &Vec::new()).is_none());
    assert_eq!(native(points[2].range()), 5.25);
    assert!(points[2].is_of_interest());
}

#[test]
fn sectors_are_ten_degrees_wide() {
    let width = 10.0_f64.to_radians();
    for k in -180..=180 {
        let bearing = (k as f64 + 0.5).to_radians();
        let expected = ((bearing + std::f64::consts::PI) / width) as usize;
        assert_eq!(sector_index(double(bearing)), expected as u64);
    }
    assert_eq!(sector_index(double(f64::NAN)), 0);
    assert_eq!(sector_index(double(-100.0)), 0);
    assert_eq!(sector_index(double(f64::INFINITY)), u64::MAX);
}

/// An image in which the given pixels are red.
fn image(width: u32, height: u32, encoding: &str, red: &[(u32, u32)]) -> Image {
    let channels = if encoding == "rgba8" || encoding == "bgra8" { 4 } else { 3 };
    let mut data = vec![120u8; (width * height * channels) as usize];
    for (row, col) in red {
        let at = ((row * width + col) * channels) as usize;
        let (r, b) = if encoding.starts_with("bgr") { (at + 2, at) } else { (at, at + 2) };
        data[r] = 242;
        data[at + 1] = 51;
        data[b] = 25;
    }
    Image { height, width, encoding: encoding.to_string(), step: width * channels, data }
}

fn look(msg: &Image) -> Option<(f64, f64)> {
    process_camera(msg).map(|(bearing, ratio)| (native(bearing), native(ratio)))
}

#[test]
fn red_is_found_in_every_encoding() {
    let red: Vec<(u32, u32)> = (0..24).map(|i| (i / 6, 10 + i % 6)).collect();
    let count = 24.0f64;
    let sum: f64 = red.iter().map(|(_, col)| *col as f64).sum();
    let bearing = -(sum / count - 40.0 / 2.0) / 40.0 * 1.5;
    for encoding in ["rgb8", "bgr8", "rgba8", "bgra8", "bgr16", "unknown"] {
        let msg = image(40, 30, encoding, &red);
        assert_eq!(look(&msg), Some((bearing, count / 1200.0)));
    }
    assert!(bearing > 0.0);
}

#[test]
fn few_red_pixels_are_no_detection() {
    let red: Vec<(u32, u32)> = (0..20).map(|i| (i, i)).collect();
    assert!(look(&image(40, 30, "rgb8", &red)).is_some());
    assert_eq!(look(&image(40, 30, "rgb8", &red[..19])), None);
    assert_eq!(look(&image(40, 30, "rgb8", &[])), None);
}

#[test]
fn empty_images_hold_nothing() {
    let mut msg = image(40, 30, "rgb8", &[]);
    msg.data.clear();
    assert_eq!(look(&msg), None);
    assert_eq!(look(&image(0, 30, "rgb8", &[])), None);
    assert_eq!(look(&image(30, 0, "rgb8", &[])), None);
}

#[test]
fn red_has_thresholds() {
    for (pixel, red) in [
        ([151, 99, 99], true),
        ([150, 99, 99], false),
        ([151, 100, 99], false),
        ([151, 99, 100], false),
        ([255, 0, 0], true),
    ] {
        let data: Vec<u8> = (0..20).flat_map(|_| pixel).collect();
        let msg = Image { height: 1, width: 20, encoding: "rgb8".to_string(), step: 60, data };
        assert_eq!(look(&msg).is_some(), red);
        if red {
            assert_eq!(look(&msg), Some((-(9.5 - 10.0) / 20.0 * 1.5, 1.0)));
        }
    }
}

#[test]
fn pixels_beyond_the_data_do_not_count() {
    let red: Vec<(u32, u32)> = (0..4).flat_map(|row| (0..10).map(move |col| (row, col))).collect();
    let mut msg = image(10, 4, "rgb8", &red);
    msg.data.truncate(3 * 25 + 2);
    let sum: f64 = (0..25u32).map(|i| (i % 10) as f64).sum();
    assert_eq!(look(&msg), Some((-(sum / 25.0 - 5.0) / 10.0 * 1.5, 25.0 / 40.0)));
}

#[test]
fn rows_start_where_the_step_says() {
    let mut msg = image(10, 4, "rgb8", &[]);
    msg.step = 0;
    for col in 0..10 {
        msg.data[col * 3] = 200;
        msg.data[col * 3 + 1] = 0;
        msg.data[col * 3 + 2] = 0;
    }
    // every row reads the first one
    assert_eq!(look(&msg), Some((-(4.5 - 5.0) / 10.0 * 1.5, 1.0)));
}

#[test]
fn red_edges_are_half_the_view_away() {
    let left: Vec<(u32, u32)> = (0..30).map(|row| (row, 0)).collect();
    let right: Vec<(u32, u32)> = (0..30).map(|row| (row, 39)).collect();
    assert_eq!(look(&image(40, 30, "rgb8", &left)).unwrap().0, 0.75);
    let bearing = look(&image(40, 30, "rgb8", &right)).unwrap().0;
    assert!(bearing < -0.7 && bearing > -0.75);
}

#[test]
fn mirrored_image_mirrors_the_bearing() {
    let mut state = 11u64;
    for (width, height) in [(7u32, 9u32), (40, 30), (64, 48), (641, 5)] {
        let mut red = Vec::new();
        for row in 0..height {
            for col in 0..width {
                state = state.wrapping_mul(6364136223846793005).wrapping_add(1442695040888963407);
                if state >> 60 < 6 {
                    red.push((row, col));
                }
            }
        }
        let reversed: Vec<(u32, u32)> = red.iter().map(|(row, col)| (*row, width - 1 - col)).collect();
        for encoding in ["rgb8", "bgra8"] {
            let (b1, q1) = look(&image(width, height, encoding, &red)).unwrap();
            let (b2, q2) = look(&image(width, height, encoding, &reversed)).unwrap();
            assert_eq!(q1, q2);
            assert!((b1 + b2 - 1.5 / width as f64).abs() < f64::powi(2.0, -49));
        }
    }
}

#[test]
fn mean_distance_is_not_below_the_nearest_range() {
    // many points at the nearest range of interest: the mean may lose one part in 2^53 for each
    let near = 0.8f32 + 0.0000001;
    let points: Vec<(f32, f32, f32)> = (0..999)
        .map(|i| (near, 0.0, 0.4 + (i % 2) as f32 * 0.6))
        .chain([(near + 0.35, 0.0, 0.5)])
        .collect();
    let (_, filtered, found) = detect(&cloud(&points));
    assert_eq!(filtered, 1000);
    let (distance, _) = found.unwrap();
    assert!(distance >= 0.8 * (1.0 - 1000.0 * f64::powi(2.0, -53)));
}

#[test]
fn empty_clouds_are_readable() {
    assert!(cloud(&[]).is_readable());
    let mut msg = cloud(&[(2.0, 0.0, 0.5)]);
    msg.fields = fields(&[("x", 100)]);
    msg.point_step = 0;
    assert!(msg.is_readable());
    assert_eq!(detect(&msg), (0, 0, None));
}

fn lidar_sees(s: &mut DetectionState, distance: f64, bearing: f64) {
    s.observe_lidar(100, 10, Some((double(distance), double(bearing))));
}

#[test]
fn observations_are_kept_and_counted() {
    let mut s = DetectionState::default();
    s.observe_lidar(100, 10, Some((double(2.0), double(0.5))));
    assert!(s.lidar_detected);
    assert_eq!((native(s.lidar_distance), native(s.lidar_bearing)), (2.0, 0.5));
    s.observe_lidar(90, 0, None);
    assert!(!s.lidar_detected);
    assert_eq!((s.lidar_total_points, s.lidar_filtered_points, s.lidar_msg_count), (90, 0, 2));
    assert_eq!((native(s.lidar_distance), native(s.lidar_bearing)), (2.0, 0.5));
    s.observe_camera(Some((double(-0.25), double(0.02))), 40, 30);
    assert!(s.camera_detected);
    assert_eq!((native(s.camera_bearing), native(s.camera_red_ratio)), (-0.25, 0.02));
    assert_eq!(s.camera_red_count, (0.02f64 * (40.0 * 30.0)) as u64);
    s.observe_camera(None, 40, 30);
    assert!(!s.camera_detected);
    assert_eq!((s.camera_red_count, s.camera_msg_count), (0, 2));
    assert_eq!(native(s.camera_bearing), -0.25);
}

#[test]
fn nothing_is_measured_without_a_detection() {
    let mut s = DetectionState::default();
    let out = s.fuse(0);
    assert!(!out.detected);
    assert_eq!(out.measured, None);
    assert_eq!(s.prev_time, None);
}

#[test]
fn first_measurement_is_taken_as_it_is() {
    let mut s = DetectionState::default();
    lidar_sees(&mut s, 4.0, 0.5);
    let out = s.fuse(77);
    assert!(out.detected);
    let measured = out.measured.unwrap();
    assert_eq!((native(measured.x), native(measured.y), native(measured.z)), (4.0, 0.5, 0.0));
    assert_eq!(s.prev_time, Some(77));
    assert_eq!(native(s.prev_distance), 4.0);
}

#[test]
fn fusion_follows_its_formulas() {
    let mut s = DetectionState::default();
    let (mut prev, mut distance, mut bearing, mut speed) = (None::<(u64, f64)>, 0.0f64, 0.0f64, 0.0f64);
    let mut state = 3u64;
    let mut now = 0u64;
    for round in 0..2000 {
        state = state.wrapping_mul(6364136223846793005).wrapping_add(1442695040888963407);
        let r = state >> 33;
        now += 40_000_000 + (r % 100) * 1_000_000;
        let lidar = r % 4 != 0;
        let camera = r % 3 == 0;
        let d = 1.0 + (r % 1000) as f64 / 100.0;
        let lb = ((r / 7) % 600) as f64 / 200.0 - 1.5;
        let cb = ((r / 13) % 300) as f64 / 200.0 - 0.75;
        s.observe_lidar(10, 5, if lidar { Some((double(d), double(lb))) } else { None });
        s.observe_camera(if camera { Some((double(cb), double(0.1))) } else { None }, 40, 30);
        let (ld, lb, cb) = (native(s.lidar_distance), native(s.lidar_bearing), native(s.camera_bearing));
        let out = s.fuse(now);

        let mut raw_speed = 0.0;
        if let Some((t, before)) = prev {
            let dt = std::time::Duration::from_nanos(now - t).as_secs_f64();
            if dt > 0.05 && lidar {
                raw_speed = ((ld - before) / dt).clamp(-5.0, 5.0);
            }
        }
        if lidar {
            prev = Some((now, ld));
        }
        let raw = if lidar && camera {
            0.3 * lb + 0.7 * cb
        } else if camera {
            cb
        } else if lidar {
            lb
        } else {
            bearing
        };
        let used = if bearing != 0.0 && (raw - bearing).abs() > 1.05 { bearing } else { raw };
        if distance == 0.0 {
            distance = ld;
            bearing = used;
            speed = 0.0;
        } else {
            distance = 0.1 * ld + (1.0 - 0.1) * distance;
            bearing = 0.1 * used + (1.0 - 0.1) * bearing;
            speed = 0.1 * raw_speed + (1.0 - 0.1) * speed;
        }
        assert_eq!(native(s.smoothed_distance), distance, "round {}", round);
        assert_eq!(native(s.smoothed_bearing), bearing);
        assert_eq!(native(s.smoothed_velocity), speed);
        assert_eq!(out.detected, lidar || camera);
        assert_eq!(out.measured.is_some(), lidar || camera);
        assert!(speed.abs() <= 5.0);
    }
}

#[test]
fn velocity_needs_time_to_pass() {
    for (gap, speed) in [(50_000_000u64, 0.0), (50_000_001, 0.1 * 5.0), (1_000_000_000, 0.1 * 1.0)] {
        let mut s = DetectionState::default();
        lidar_sees(&mut s, 4.0, 0.0);
        s.fuse(0);
        lidar_sees(&mut s, 5.0, 0.0);
        s.fuse(gap);
        assert_eq!(native(s.smoothed_velocity), speed);
    }
}

#[test]
fn bearing_jumps_are_held_back() {
    let mut s = DetectionState::default();
    lidar_sees(&mut s, 4.0, 0.2);
    s.fuse(0);
    lidar_sees(&mut s, 4.0, 1.3);
    s.fuse(100_000_000);
    assert_eq!(native(s.smoothed_bearing), 0.1 * 0.2 + (1.0 - 0.1) * 0.2);
    let before = native(s.smoothed_bearing);
    lidar_sees(&mut s, 4.0, 1.2);
    s.fuse(200_000_000);
    assert_eq!(native(s.smoothed_bearing), 0.1 * 1.2 + (1.0 - 0.1) * before);
}

#[test]
fn other_points_only_count() {
    let person: Vec<(f32, f32, f32)> = (0..6).map(|i| (4.0, 0.08 * i as f32, 0.4 + 0.2 * i as f32)).collect();
    for points in [person, vec![(2.0, 0.0, 0.5)], vec![]] {
        let (total, filtered, found) = detect(&cloud(&points));
        for other in [
            (f32::NAN, 0.0, 0.5),
            (4.0, f32::NAN, 0.5),
            (4.0, 0.0, f32::NAN),
            (-4.0, 0.0, 0.5),
            (0.3, 0.3, 0.5),
            (19.0, 8.0, 0.5),
            (4.0, 0.0, 0.1),
            (4.0, 0.0, 2.5),
        ] {
            let longer: Vec<(f32, f32, f32)> = points.iter().copied().chain([other]).collect();
            assert_eq!(detect(&cloud(&longer)), (total + 1, filtered, found));
        }
    }
    assert!(detect(&cloud(&(0..6).map(|i| (4.0, 0.08 * i as f32, 0.4 + 0.2 * i as f32)).collect::<Vec<_>>())).2.is_some());
}

#[test]
fn few_red_pixels_of_a_large_image_are_within_view() {
    // the data ends behind the red at the left edge
    let mut msg = image(1, 1, "rgb8", &[]);
    msg.data = [200u8, 10, 10].repeat(25);
    msg.width = 100_000;
    let (bearing, share) = look(&msg).unwrap();
    assert!(bearing <= 0.75 && bearing > 0.749);
    assert_eq!(share, 25.0 / 100_000.0);
}
