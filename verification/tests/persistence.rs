use curvemap::codec::{LoadMapError, load_map, save_map};
use curvemap::editor::CurveMap;
use curvemap::geom::Point;

fn pt(x: i64, y: i64) -> Point {
    Point { x, y }
}

#[test]
fn compact_bytes_are_exact() {
    let m = CurveMap::default();
    let bytes = save_map(&m, false);
    assert_eq!(
        String::from_utf8(bytes).unwrap(),
        "(points:[(-100,100),(100,100),(100,-100),(-100,-100)],\
         tuesdays:[],background:\"bg.png\",size:(8192,8192))"
    );
}

#[test]
fn pretty_bytes_are_exact() {
    let m = CurveMap::default();
    let bytes = save_map(&m, true);
    assert_eq!(
        String::from_utf8(bytes).unwrap(),
        "(\n  points: [(-100, 100), (100, 100), (100, -100), (-100, -100)],\
         \n  tuesdays: [],\n  background: \"bg.png\",\n  size: (8192, 8192)\n)"
    );
}

#[test]
fn save_load_round_trip_compact() {
    let mut m = CurveMap::default();
    m.tuesdays.push(pt(42, -17));
    m.add_point(pt(0, 150)).unwrap();
    m.size = pt(1024, 768);
    let bytes = save_map(&m, false);
    let back = load_map(&bytes).unwrap();
    assert_eq!(back.control_points().as_slice(), m.control_points().as_slice());
    assert_eq!(back.tuesdays.as_slice(), m.tuesdays.as_slice());
    assert_eq!(back.background, m.background);
    assert_eq!(back.size, m.size);
    assert_eq!(back.curve().domain_start(), 0);
    assert_eq!(back.curve().domain_end(), m.curve().domain_end());
}

#[test]
fn save_load_round_trip_pretty() {
    let mut m = CurveMap::default();
    m.tuesdays.push(pt(-3, 9));
    let bytes = save_map(&m, true);
    let back = load_map(&bytes).unwrap();
    assert_eq!(back.control_points().as_slice(), m.control_points().as_slice());
    assert_eq!(back.tuesdays.as_slice(), m.tuesdays.as_slice());
    assert_eq!(back.background, m.background);
    assert_eq!(back.size, m.size);
    assert_eq!(back.curve().domain_start(), 0);
}

#[test]
fn load_accepts_extra_whitespace() {
    let text = " ( points : [ ( -1 , 2 ) , ( 3 , 4 ) ] , tuesdays : [ ] ,\n\
                background : \"a/b.png\" , size : ( 10 , 20 ) ) \n";
    let m = load_map(&text.as_bytes().to_vec()).unwrap();
    assert_eq!(m.control_points().as_slice(), &[pt(-1, 2), pt(3, 4)]);
    assert_eq!(m.tuesdays.len(), 0);
    assert_eq!(m.background, b"a/b.png".to_vec());
    assert_eq!(m.size, pt(10, 20));
}

#[test]
fn load_rejects_malformed_text() {
    let cases: &[&str] = &[
        "",
        "(points:[(0,0),(1,1)],tuesdays:[],background:\"x\",size:(1,1)",
        "(points:[(0 0),(1,1)],tuesdays:[],background:\"x\",size:(1,1))",
        "(points:(0,0),tuesdays:[],background:\"x\",size:(1,1))",
        "(coords:[(0,0),(1,1)],tuesdays:[],background:\"x\",size:(1,1))",
        "(points:[(0,0),(1,1)],tuesdays:[],background:x,size:(1,1))",
        "(points:[(0,0),(1,1)],tuesdays:[],background:\"x\",size:(1,1)) trailing",
        "(points:[(0,0),(1,-)],tuesdays:[],background:\"x\",size:(1,1))",
    ];
    for text in cases {
        let r = load_map(&text.as_bytes().to_vec());
        assert_eq!(r.unwrap_err(), LoadMapError::MalformedEncoding, "{text:?}");
    }
}

#[test]
fn load_rejects_out_of_range_values() {
    // a coordinate beyond the representable range
    let text = "(points:[(0,0),(9999999,1)],tuesdays:[],background:\"x\",size:(1,1))";
    let r = load_map(&text.as_bytes().to_vec());
    assert_eq!(r.unwrap_err(), LoadMapError::SchemaTypeMismatch);
}

#[test]
fn load_rejects_too_few_points() {
    let one = "(points:[(0,0)],tuesdays:[],background:\"x\",size:(1,1))";
    let none = "(points:[],tuesdays:[],background:\"x\",size:(1,1))";
    for text in [one, none] {
        let r = load_map(&text.as_bytes().to_vec());
        assert_eq!(r.unwrap_err(), LoadMapError::GeometricallyInvalid, "{text:?}");
    }
}

#[test]
fn loaded_curve_is_rebuilt_from_points() {
    let text = "(points:[(-100,100),(100,100),(100,-100),(-100,-100)],\
                tuesdays:[],background:\"bg.png\",size:(8192,8192))";
    let m = load_map(&text.as_bytes().to_vec()).unwrap();
    let d = CurveMap::default();
    assert_eq!(m.curve().sample(0), d.curve().sample(0));
    assert_eq!(m.curve().domain_end(), d.curve().domain_end());
}
