//! Tests of the snapshot-homing library: projection, partition building,
//! collision, matching and the end-to-end homing query.

use snapshot_homing::angle;
use snapshot_homing::angle::{EIGHTH_TURN, HALF_TURN, QUARTER_TURN, TURN};
use snapshot_homing::bee::Bee;
use snapshot_homing::field::VectorField;
use snapshot_homing::homing;
use snapshot_homing::homing::HomingError;
use snapshot_homing::image::{merge_all, Image};
use snapshot_homing::obstacle::{Circle, Obstacle};
use snapshot_homing::segment::{Color, Segment};
use snapshot_homing::trig;
use snapshot_homing::trig::SCALE;
use snapshot_homing::vec2::Vec2;
use snapshot_homing::world::{Grid, World};

const PI: f64 = std::f64::consts::PI;

/// Radians to circle units.
fn units(rad: f64) -> f64 {
    rad / (2.0 * PI) * TURN as f64
}

/// World units to fixed-point coordinates.
fn fx(v: f64) -> i64 {
    (v * SCALE as f64).round() as i64
}

fn circle(x: f64, y: f64, radius: f64) -> Circle {
    Circle { center: Vec2::new(fx(x), fx(y)), radius: fx(radius) }
}

fn three_circle_world() -> World {
    let obstacles = vec![
        Obstacle::Circle(circle(3.5, 2.0, 0.5)),
        Obstacle::Circle(circle(3.5, -2.0, 0.5)),
        Obstacle::Circle(circle(0.0, -4.0, 0.5)),
    ];
    let grid = Grid { x_start: -7, x_end: 8, y_start: -7, y_end: 8 };
    World { obstacles, grid }
}

#[test]
fn segment_map_test() {
    let c = circle(-1.0, 1.0, 0.5);

    let segment = c.map(Vec2::new(0, 0)).unwrap();

    println!("{:?}", segment);

    let expected = units((PI / 4.0) * 3.0);
    assert!((segment.bisector as f64 - expected).abs() < units(0.01));
}

#[test]
fn image_new_test() {
    let world = three_circle_world();

    let image = Image::new(Vec2::new(0, 0), &world.obstacles);

    println!("{:?}", image);

    let mut sum: u64 = 0;
    for segment in image.segments {
        sum += segment.width;
    }

    println!("total size: {}", sum);

    assert!((sum as f64 - TURN as f64).abs() < units(0.01));
}

#[test]
fn segment_collide_test() {
    let s1 = Segment { bisector: EIGHTH_TURN, width: QUARTER_TURN, color: Color::Occluded };
    let s2 = Segment { bisector: 5 * EIGHTH_TURN, width: QUARTER_TURN, color: Color::Occluded };
    let s3 = Segment { bisector: 7 * EIGHTH_TURN, width: QUARTER_TURN, color: Color::Occluded };

    assert!(!s1.collides(s2));
    assert!(s1.collides(s3));
}

/// This test will always pass if the homing query does not crash.
#[test]
fn help() {
    let world = three_circle_world();

    let mut bee = Bee::new(&world, Vec2::new(0, 0));

    bee.position = Vec2::new(fx(5.0), fx(-5.0));

    let out = bee.home(&world);
    println!("{:?}", out);
}

#[test]
fn i_dont_know_what_im_doing() {
    let s1 = Segment { bisector: units(0.5) as u64, width: units(1.0) as u64, color: Color::Occluded };
    let s2 = Segment { bisector: units(0.3) as u64, width: units(1.0) as u64, color: Color::Occluded };

    let test = s1.dist(s2);

    // the signed distance from 0.5 rad to 0.3 rad is -0.2 rad: going from s1
    // to s2 means turning clockwise
    assert!(test < 0)
}

#[test]
fn projection_width_matches_tangent_cone() {
    let c = circle(-1.0, 1.0, 0.5);
    let segment = c.map(Vec2::new(0, 0)).unwrap();
    let expected = units(2.0 * (0.5f64 / (2.0f64).sqrt()).asin());
    assert!((segment.width as f64 - expected).abs() < units(0.01));
}

#[test]
fn projection_inside_and_on_rim_is_none() {
    let c = circle(1.0, 0.0, 0.5);
    // strictly inside
    assert!(c.map(Vec2::new(fx(1.1), 0)).is_none());
    // exactly on the rim counts as inside
    assert!(c.map(Vec2::new(fx(0.5), 0)).is_none());
    // just outside
    assert!(c.map(Vec2::new(fx(0.4), 0)).is_some());
}

#[test]
fn partition_is_exact_for_three_obstacles() {
    let world = three_circle_world();
    let image = Image::new(Vec2::new(0, 0), &world.obstacles);
    let mut sum: u64 = 0;
    let mut occluded: usize = 0;
    for segment in &image.segments {
        sum += segment.width;
        if segment.color == Color::Occluded {
            occluded += 1;
        }
    }
    // the integer partition tiles the circle exactly, not just within
    // tolerance, and the three separated obstacles all appear
    assert_eq!(sum, TURN);
    assert_eq!(occluded, 3);
}

#[test]
fn empty_obstacle_set_gives_full_background() {
    let image = Image::new(Vec2::new(0, 0), &Vec::<Obstacle>::new());
    assert_eq!(image.segments.len(), 1);
    assert_eq!(image.segments[0].width, TURN);
    assert_eq!(image.segments[0].color, Color::Background);
}

#[test]
fn merge_is_idempotent_on_separated_segments() {
    let a = Segment { bisector: EIGHTH_TURN, width: QUARTER_TURN, color: Color::Occluded };
    let b = Segment { bisector: 5 * EIGHTH_TURN, width: QUARTER_TURN, color: Color::Occluded };
    let merged = merge_all(vec![a, b]);
    let again = merge_all(merged.clone());
    assert_eq!(merged, vec![a, b]);
    assert_eq!(again, merged);
}

#[test]
fn merge_unions_overlapping_segments() {
    // arcs 500..1500 and 1300..2300 overlap; their union is 500..2300
    let a = Segment { bisector: 1000, width: 1000, color: Color::Occluded };
    let b = Segment { bisector: 1800, width: 1000, color: Color::Occluded };
    let merged = merge_all(vec![a, b]);
    assert_eq!(merged.len(), 1);
    assert_eq!(merged[0].width, 1800);
    assert_eq!(merged[0].bisector, 1400);
    assert_eq!(merged[0].color, Color::Occluded);
}

#[test]
fn merge_joins_tangentially_touching_segments() {
    // arcs 0..1000 and 1000..2000 touch at 1000; the non-strict collision
    // threshold merges them
    let a = Segment { bisector: 500, width: 1000, color: Color::Occluded };
    let b = Segment { bisector: 1500, width: 1000, color: Color::Occluded };
    let merged = merge_all(vec![a, b]);
    assert_eq!(merged.len(), 1);
    assert_eq!(merged[0].width, 2000);
    assert_eq!(merged[0].bisector, 1000);
}

#[test]
fn homing_at_home_returns_zero_sentinel() {
    let world = three_circle_world();
    let bee = Bee::new(&world, Vec2::new(0, 0));

    // the retina image rebuilt at the same position equals the snapshot
    let retina = Image::new(Vec2::new(0, 0), &world.obstacles);
    assert_eq!(retina, bee.snapshot);

    // and the homing query reports "no correction needed"
    let out = bee.home(&world).unwrap();
    assert_eq!(out, Vec2::new(0, 0));
}

#[test]
fn end_to_end_homing_is_unit_length() {
    let world = three_circle_world();
    let mut bee = Bee::new(&world, Vec2::new(0, 0));
    bee.position = Vec2::new(fx(5.0), fx(-5.0));

    let out = bee.home(&world).unwrap();
    let len = out.len();
    assert!(out.x != 0 || out.y != 0);
    assert!((len - SCALE).abs() <= 16);
}

#[test]
fn homing_without_matching_color_fails() {
    let snapshot = Image {
        segments: vec![Segment { bisector: HALF_TURN, width: TURN, color: Color::Occluded }],
    };
    let retina = Image {
        segments: vec![Segment { bisector: HALF_TURN, width: TURN, color: Color::Background }],
    };
    let out = homing::compute_homing_vector(&snapshot, &retina, 3);
    assert_eq!(out, Err(HomingError::NoMatchingSegment));
}

#[test]
fn matching_prefers_nearest_then_first() {
    let target = Segment { bisector: 0, width: 1000, color: Color::Occluded };
    let retina = Image {
        segments: vec![
            Segment { bisector: 4000, width: 1000, color: Color::Occluded },
            Segment { bisector: TURN - 3000, width: 1000, color: Color::Occluded },
            Segment { bisector: 3000, width: 1000, color: Color::Occluded },
            Segment { bisector: TURN - 3000, width: 1000, color: Color::Occluded },
        ],
    };
    // nearest distance is 3000, reached first at index 1
    assert_eq!(homing::find_match(&target, &retina), Some(1));
}

#[test]
fn circular_distance_values() {
    // a quarter turn counter-clockwise
    assert_eq!(angle::dist(0, QUARTER_TURN), QUARTER_TURN as i64);
    // a quarter turn clockwise
    assert_eq!(angle::dist(QUARTER_TURN, 0), -(QUARTER_TURN as i64));
    // the antipodal reading is +half a turn from either side
    assert_eq!(angle::dist(0, HALF_TURN), HALF_TURN as i64);
    assert_eq!(angle::dist(HALF_TURN, 0), HALF_TURN as i64);
    // wraparound across the zero seam
    assert_eq!(angle::dist(TURN - 1000, 1000), 2000);
}

#[test]
fn fixed_point_trig_exact_values() {
    assert_eq!(trig::sin_fp(0), 0);
    assert_eq!(trig::sin_fp(QUARTER_TURN), SCALE);
    assert_eq!(trig::sin_fp(HALF_TURN), 0);
    assert_eq!(trig::cos_fp(0), SCALE);
    assert_eq!(trig::cos_fp(HALF_TURN), -SCALE);
    assert_eq!(trig::atan2_fp(0, 1), 0);
    assert_eq!(trig::atan2_fp(1, 1), EIGHTH_TURN);
    assert_eq!(trig::atan2_fp(1, 0), QUARTER_TURN);
    assert_eq!(trig::atan2_fp(1, -1), 3 * EIGHTH_TURN);
    assert_eq!(trig::atan2_fp(-1, -1), 5 * EIGHTH_TURN);
    assert_eq!(trig::atan2_fp(-1, 1), 7 * EIGHTH_TURN);
}

#[test]
fn vector_length_and_normalization() {
    let v = Vec2::new(3, 4);
    assert_eq!(v.len(), 5);

    let w = Vec2::new(3 * SCALE, 4 * SCALE);
    let n = w.normalized();
    assert_eq!(n.x, 3 * SCALE / 5);
    assert_eq!(n.y, 4 * SCALE / 5);

    // the zero vector normalizes to the documented zero sentinel
    assert_eq!(Vec2::new(0, 0).normalized(), Vec2::new(0, 0));
}

#[test]
fn vector_field_covers_grid() {
    let world = three_circle_world();
    let bee = Bee::new(&world, Vec2::new(0, 0));
    let field = VectorField::generate(bee, &world);

    assert_eq!(field.vectors.len(), 15);
    for row in &field.vectors {
        assert_eq!(row.len(), 15);
    }

    // the home cell holds the zero sentinel: no correction needed there
    let (r, c) = field.index(0, 0);
    assert_eq!((r, c), (7, 7));
    assert_eq!(field.vectors[r][c], Vec2::new(0, 0));

    // an off-home cell holds a unit-length steering vector
    let (r2, c2) = field.index(5, -5);
    let v = field.vectors[r2][c2];
    assert!((v.len() - SCALE).abs() <= 16);
}

#[test]
fn image_is_sorted_and_alternating() {
    let world = three_circle_world();
    let image = Image::new(Vec2::new(0, 0), &world.obstacles);
    let n = image.segments.len();
    assert_eq!(n % 2, 0);
    for k in 0..n - 1 {
        assert!(image.segments[k].bisector <= image.segments[k + 1].bisector);
        assert!(image.segments[k].color != image.segments[k + 1].color);
    }
    assert!(image.segments[0].color != image.segments[n - 1].color);
}

#[test]
fn merge_joins_touching_odd_width_segments() {
    // arcs 0..3 and 3..6 touch; with odd widths the floored bisector
    // distance is exactly at the doubled threshold, so they merge
    let a = Segment { bisector: 1, width: 3, color: Color::Occluded };
    let b = Segment { bisector: 4, width: 3, color: Color::Occluded };
    let merged = merge_all(vec![a, b]);
    assert_eq!(merged.len(), 1);
    assert_eq!(merged[0].width, 6);
    assert_eq!(merged[0].bisector, 3);

    // arcs 0..3 and 3..5 of mixed parity also touch and also merge
    let c = Segment { bisector: 4, width: 2, color: Color::Occluded };
    let merged2 = merge_all(vec![a, c]);
    assert_eq!(merged2.len(), 1);
    assert_eq!(merged2[0].width, 5);
    assert_eq!(merged2[0].bisector, 2);
}

#[test]
fn normalization_handles_short_vectors() {
    // a vector far below the fixed-point unit still normalizes to unit
    // length: (1,1) maps to (SCALE/sqrt(2), SCALE/sqrt(2))
    let v = Vec2::new(1, 1).normalized();
    assert_eq!(v, Vec2::new(46341, 46341));
    assert!((v.len() - SCALE).abs() <= 3);

    let w = Vec2::new(0, -7).normalized();
    assert_eq!(w, Vec2::new(0, -SCALE));

    let u = Vec2::new(-3, 4).normalized();
    assert!((u.len() - SCALE).abs() <= 3);
    assert!(u.x < 0 && u.y > 0);
}

#[test]
fn merge_keeps_untouched_segments() {
    // two overlapping arcs merge while the far-away third stays unchanged
    let a = Segment { bisector: 1000, width: 1000, color: Color::Occluded };
    let b = Segment { bisector: 1800, width: 1000, color: Color::Occluded };
    let c = Segment { bisector: HALF_TURN, width: 1000, color: Color::Occluded };
    let merged = merge_all(vec![a, b, c]);
    assert_eq!(merged.len(), 2);
    assert!(merged.contains(&c));
}
