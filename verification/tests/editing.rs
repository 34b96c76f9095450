use curvemap::editor::{CurveHandle, CurveMap, Rect};
use curvemap::geom::Point;

fn pt(x: i64, y: i64) -> Point {
    Point { x, y }
}

fn square() -> CurveMap {
    CurveMap::default()
}

#[test]
fn default_map_is_square() {
    let m = square();
    assert_eq!(
        m.control_points().as_slice(),
        &[pt(-100, 100), pt(100, 100), pt(100, -100), pt(-100, -100)]
    );
    assert_eq!(m.tuesdays.len(), 0);
    assert_eq!(m.background, b"bg.png".to_vec());
    assert_eq!(m.size, pt(8192, 8192));
}

#[test]
fn add_point_inserts_after_nearest_segment() {
    // the scenario: (0,150) is nearest to the top edge 0 -> 1
    let mut m = square();
    let i = m.add_point(pt(0, 150)).unwrap();
    assert_eq!(i, 1);
    assert_eq!(m.control_points().len(), 5);
    assert_eq!(m.control_points()[1], pt(0, 150));
    // all other points keep their relative order
    assert_eq!(
        m.control_points().as_slice(),
        &[pt(-100, 100), pt(0, 150), pt(100, 100), pt(100, -100), pt(-100, -100)]
    );
    let (ci, d) = m.closest_control_point(pt(0, 150)).unwrap();
    assert_eq!(ci, 1);
    assert_eq!(d, 0);
}

#[test]
fn closest_control_point_at_distance_fifty() {
    let mut m = square();
    m.add_point(pt(0, 150)).unwrap();
    // from (0,200) the new point at (0,150) is 50 away: squared 2500
    let (ci, d) = m.closest_control_point(pt(0, 200)).unwrap();
    assert_eq!(ci, 1);
    assert_eq!(d, 50 * 50);
}

#[test]
fn remove_then_read_back() {
    // removing a corner and re-adding the same position restores the
    // polygon exactly, point for point
    let mut m = square();
    let removed = m.remove_point(1).unwrap();
    assert_eq!(removed, pt(100, 100));
    assert_eq!(m.control_points().len(), 3);
    let i = m.add_point(pt(100, 100)).unwrap();
    assert_eq!(i, 1);
    assert_eq!(
        m.control_points().as_slice(),
        &[pt(-100, 100), pt(100, 100), pt(100, -100), pt(-100, -100)]
    );
}

#[test]
fn remove_point_below_two_fails_and_keeps_state() {
    let mut m = CurveMap::new(vec![pt(0, 0), pt(50, 0)]).unwrap();
    let before = m.control_points().clone();
    let e = m.remove_point(0).unwrap_err();
    assert_eq!(e.count, 2);
    assert_eq!(m.control_points().as_slice(), before.as_slice());
}

#[test]
fn rotate_round_trip_restores_order() {
    let mut m = square();
    let before = m.control_points().clone();
    for n in [-9isize, -3, -1, 0, 1, 2, 4, 7, 13] {
        m.rotate_points(n);
        m.rotate_points(-n);
        assert_eq!(m.control_points().as_slice(), before.as_slice(), "n = {n}");
    }
}

#[test]
fn rotate_moves_index_zero() {
    let mut m = square();
    m.rotate_points(1);
    assert_eq!(
        m.control_points().as_slice(),
        &[pt(-100, -100), pt(-100, 100), pt(100, 100), pt(100, -100)]
    );
    m.rotate_points(-1);
    m.rotate_points(-1);
    assert_eq!(
        m.control_points().as_slice(),
        &[pt(100, 100), pt(100, -100), pt(-100, -100), pt(-100, 100)]
    );
}

#[test]
fn translate_shifts_points_and_markers() {
    let mut m = square();
    m.tuesdays.push(pt(10, 20));
    m.sync().unwrap();
    m.translate(pt(5, -7));
    assert_eq!(
        m.control_points().as_slice(),
        &[pt(-95, 93), pt(105, 93), pt(105, -107), pt(-95, -107)]
    );
    assert_eq!(m.tuesdays.as_slice(), &[pt(15, 13)]);
}

#[test]
fn move_point_overwrites_one_position() {
    let mut m = square();
    m.move_point(2, pt(120, -80));
    assert_eq!(m.control_points()[2], pt(120, -80));
    assert_eq!(m.control_points()[0], pt(-100, 100));
}

#[test]
fn bounding_rect_covers_points_and_markers() {
    let mut m = square();
    m.tuesdays.push(pt(250, 30));
    let r = m.bounding_rect();
    assert_eq!(r, Rect { min: pt(-100, -100), max: pt(250, 100) });
    assert_eq!(r.size(), pt(350, 200));
    assert_eq!(r.center(), pt(75, 0));
}

#[test]
fn find_center_is_combined_mean() {
    let mut m = square();
    // four corners average to the origin; one marker drags the mean
    m.tuesdays.push(pt(100, 50));
    let c = m.find_center();
    assert_eq!(c, pt(20, 10));
}

#[test]
fn recenter_moves_bounding_center_to_origin() {
    let mut m = square();
    m.translate(pt(40, 60));
    m.recenter();
    let r = m.bounding_rect();
    assert_eq!(r.center(), pt(0, 0));
    assert_eq!(
        m.control_points().as_slice(),
        &[pt(-100, 100), pt(100, 100), pt(100, -100), pt(-100, -100)]
    );
}

#[test]
fn scale_to_gives_exact_bounding_size() {
    let mut m = square();
    m.scale_curve_to(pt(300, 400));
    let size = m.bounding_rect().size();
    assert_eq!(size, pt(300, 400));
}

#[test]
fn scale_to_odd_sizes_is_still_exact() {
    let mut m = square();
    m.tuesdays.push(pt(30, -10));
    m.sync().unwrap();
    m.scale_curve_to(pt(333, 77));
    let size = m.bounding_rect().size();
    assert_eq!(size, pt(333, 77));
}

#[test]
fn closest_segment_prefers_first_on_tie() {
    // the query point at the centre is equidistant from all four edges
    let m = square();
    assert_eq!(m.closest_segment(pt(0, 0)), Some(0));
}

#[test]
fn closest_segment_picks_nearest_edge() {
    let m = square();
    assert_eq!(m.closest_segment(pt(0, 150)), Some(0));
    assert_eq!(m.closest_segment(pt(150, 0)), Some(1));
    assert_eq!(m.closest_segment(pt(0, -150)), Some(2));
    assert_eq!(m.closest_segment(pt(-150, 0)), Some(3));
}

#[test]
fn closest_handle_prefers_marker_on_tie() {
    let mut m = square();
    // marker exactly on a control point: equal distance, marker wins
    m.tuesdays.push(pt(100, 100));
    let (h, d) = m.closest_handle(pt(100, 100));
    assert_eq!(h, CurveHandle::Tuesday(0));
    assert_eq!(d, 0);
}

#[test]
fn closest_tuesday_finds_nearest_marker() {
    let mut m = square();
    assert_eq!(m.closest_tuesday(pt(0, 0)), None);
    m.tuesdays.push(pt(10, 0));
    m.tuesdays.push(pt(0, 5));
    let (i, d) = m.closest_tuesday(pt(0, 0)).unwrap();
    assert_eq!(i, 1);
    assert_eq!(d, 25);
}

#[test]
fn interactable_handle_respects_radius() {
    let m = square();
    // nearest control point to (90,90) is (100,100), squared distance 200
    assert_eq!(m.interactable_handle(pt(90, 90), 15), CurveHandle::CtrlPt(1));
    assert_eq!(m.interactable_handle(pt(90, 90), 14), CurveHandle::NoTarget);
    // a distance exactly at the radius is still interactable
    assert_eq!(m.interactable_handle(pt(90, 100), 10), CurveHandle::CtrlPt(1));
}

#[test]
fn new_rejects_fewer_than_two_points() {
    assert!(CurveMap::new(vec![pt(0, 0)]).is_err());
    assert!(CurveMap::new(vec![]).is_err());
    assert!(CurveMap::new(vec![pt(0, 0), pt(1, 1)]).is_ok());
}
