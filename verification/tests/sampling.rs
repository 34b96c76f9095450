use curvemap::curve::{FP_ONE, build_cyclic_curve};
use curvemap::editor::CurveMap;
use curvemap::geom::Point;
use curvemap::timeline::TimelinePosition;

fn pt(x: i64, y: i64) -> Point {
    Point { x, y }
}

#[test]
fn build_requires_two_points() {
    assert!(build_cyclic_curve(&vec![pt(0, 0)]).is_err());
    let c = build_cyclic_curve(&vec![pt(0, 0), pt(60, 0)]).unwrap();
    assert_eq!(c.segment_count(), 2);
    assert_eq!(c.domain_start(), 0);
    assert_eq!(c.domain_end(), 2 * FP_ONE);
}

#[test]
fn sample_at_piece_start_blends_three_points() {
    // at a piece boundary the curve sits at (p0 + 4 p1 + p2) / 6,
    // rounded to the nearest integer: (400 / 6, 400 / 6) -> (67, 67)
    let m = CurveMap::default();
    assert_eq!(m.curve().sample(0), Some(pt(67, 67)));
}

#[test]
fn sample_outside_domain_is_none() {
    let m = CurveMap::default();
    let end = m.curve().domain_end();
    assert_eq!(end, 4 * FP_ONE);
    assert!(m.curve().sample(end).is_none());
    assert!(m.curve().sample(end - 1).is_some());
}

#[test]
fn sample_is_cyclic_across_pieces() {
    // a square is symmetric: the four piece-start samples are the four
    // blended corners
    let m = CurveMap::default();
    let a = m.curve().sample(0).unwrap();
    let b = m.curve().sample(FP_ONE).unwrap();
    let c = m.curve().sample(2 * FP_ONE).unwrap();
    let d = m.curve().sample(3 * FP_ONE).unwrap();
    assert_eq!(a, pt(67, 67));
    assert_eq!(b, pt(67, -67));
    assert_eq!(c, pt(-67, -67));
    assert_eq!(d, pt(-67, 67));
}

#[test]
fn tick_advances_at_half_rate_and_wraps() {
    let mut pos = TimelinePosition::default();
    assert_eq!(pos.t, 0);
    assert_eq!(pos.speed, FP_ONE as u32);
    let end = 4 * FP_ONE;
    // one second at unit speed advances half a piece
    pos.tick(FP_ONE as u32, end);
    assert_eq!(pos.t, FP_ONE / 2);
    // seven more seconds wrap around the four-piece domain
    for _ in 0..7 {
        pos.tick(FP_ONE as u32, end);
    }
    assert_eq!(pos.t, 0);
}

#[test]
fn tick_keeps_speed_and_stays_in_domain() {
    let mut pos = TimelinePosition { t: 3 * FP_ONE, speed: 3 * FP_ONE as u32 };
    let end = 4 * FP_ONE;
    pos.tick(FP_ONE as u32, end);
    assert_eq!(pos.speed, 3 * FP_ONE as u32);
    // 3 + 1.5 wraps to 0.5 pieces
    assert_eq!(pos.t, FP_ONE / 2);
    assert!(pos.t < end);
}
