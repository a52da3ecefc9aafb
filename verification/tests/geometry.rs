use kurbo::Shape;
use piet_scene::bbox::ShortBbox;
use piet_scene::geom::{Circle, Line, Point, Rect};

fn next(state: &mut u64) -> u32 {
    *state = state.wrapping_mul(6364136223846793005).wrapping_add(1442695040888963407);
    (*state >> 32) as u32
}

/// A multiple of 1/256 between -2000 and 68000: sums of two such numbers
/// are exact in double precision.
fn coordinate(state: &mut u64) -> f32 {
    ((next(state) % (70_000 * 256)) as f32) / 256.0 - 2000.0
}

fn quantize(rect: kurbo::Rect) -> ShortBbox {
    ShortBbox {
        x0: rect.x0.floor().max(0.0).min(65535.0) as u16,
        y0: rect.y0.floor().max(0.0).min(65535.0) as u16,
        x1: rect.x1.ceil().max(0.0).min(65535.0) as u16,
        y1: rect.y1.ceil().max(0.0).min(65535.0) as u16,
    }
}

fn pt(x: f32, y: f32) -> Point {
    Point { x: x.to_bits(), y: y.to_bits() }
}

fn same_number(bits: u32, x: f64) -> bool {
    let y = f32::from_bits(bits) as f64;
    (y.is_nan() && x.is_nan()) || y == x
}

#[test]
fn circle_boxes_agree_with_kurbo() {
    let mut state = 11u64;
    for _ in 0..50_000 {
        let (x, y) = (coordinate(&mut state), coordinate(&mut state));
        let r = coordinate(&mut state) / 64.0;
        let theirs = kurbo::Circle::new((x as f64, y as f64), r as f64).bounding_box();
        let ours = ShortBbox::from_circle(&Circle { center: pt(x, y), radius: r.to_bits() });
        assert_eq!(ours, quantize(theirs), "circle at {} {} of radius {}", x, y, r);
    }
}

#[test]
fn stroke_boxes_agree_with_kurbo_inflated_by_half_the_width() {
    let mut state = 12u64;
    for _ in 0..50_000 {
        let (x0, y0) = (coordinate(&mut state), coordinate(&mut state));
        let (x1, y1) = (coordinate(&mut state), coordinate(&mut state));
        let w = coordinate(&mut state) / 64.0;
        let half = w as f64 / 2.0;
        let theirs = kurbo::Line::new((x0 as f64, y0 as f64), (x1 as f64, y1 as f64))
            .bounding_box()
            .inflate(half, half);
        let ours = ShortBbox::from_stroke(&Line { p0: pt(x0, y0), p1: pt(x1, y1) }, w.to_bits());
        assert_eq!(ours, quantize(theirs), "line {} {} {} {} of width {}", x0, y0, x1, y1, w);
    }
}

#[test]
fn the_stroke_of_a_level_segment_of_width_two_grows_by_one() {
    let theirs = kurbo::Line::new((0.0, 0.0), (10.0, 0.0)).bounding_box().inflate(1.0, 1.0);
    assert_eq!(theirs, kurbo::Rect::new(-1.0, -1.0, 11.0, 1.0));
    let ours = ShortBbox::from_stroke(&Line { p0: pt(0.0, 0.0), p1: pt(10.0, 0.0) }, 2.0f32.to_bits());
    assert_eq!(ours, quantize(theirs));
    assert_eq!(ours, ShortBbox { x0: 0, y0: 0, x1: 11, y1: 1 });
    let shifted =
        ShortBbox::from_stroke(&Line { p0: pt(100.0, 100.0), p1: pt(110.0, 100.0) }, 2.0f32.to_bits());
    assert_eq!(shifted, ShortBbox { x0: 99, y0: 99, x1: 111, y1: 101 });
}

#[test]
fn rectangles_of_points_agree_with_kurbo() {
    let mut state = 13u64;
    for round in 0..20_000 {
        let n = 1 + (next(&mut state) % 6) as usize;
        let mut points = Vec::new();
        for _ in 0..n {
            let x = coordinate(&mut state) + 3000.0;
            let y = if round % 7 == 0 && next(&mut state) % 3 == 0 {
                f32::NAN
            } else {
                coordinate(&mut state) + 3000.0
            };
            points.push((x, y));
        }
        let mut theirs: Option<kurbo::Rect> = None;
        for &(x, y) in &points {
            let p = kurbo::Point::new(x as f64, y as f64);
            theirs = match theirs {
                None => Some(kurbo::Rect::from_points(p, p)),
                Some(old) => Some(old.union_pt(p)),
            };
        }
        let theirs = theirs.unwrap();
        let ours_points: Vec<Point> = points.iter().map(|&(x, y)| pt(x, y)).collect();
        let ours = Rect::bounding(&ours_points);
        assert!(same_number(ours.x0, theirs.x0), "x0 of {:?}", points);
        assert!(same_number(ours.y0, theirs.y0), "y0 of {:?}", points);
        assert!(same_number(ours.x1, theirs.x1), "x1 of {:?}", points);
        assert!(same_number(ours.y1, theirs.y1), "y1 of {:?}", points);
        assert_eq!(ShortBbox::from_points(&ours_points), quantize(theirs), "{:?}", points);
        assert_eq!(ShortBbox::from_rect(ours), quantize(theirs), "{:?}", points);
    }
}

#[test]
fn rectangles_of_two_points_agree_with_kurbo() {
    let mut state = 14u64;
    for _ in 0..20_000 {
        let (x0, y0) = (coordinate(&mut state), coordinate(&mut state));
        let (x1, y1) = (coordinate(&mut state), coordinate(&mut state));
        let theirs = kurbo::Rect::from_points((x0 as f64, y0 as f64), (x1 as f64, y1 as f64));
        let ours = Rect::from_points(pt(x0, y0), pt(x1, y1));
        assert!(same_number(ours.x0, theirs.x0));
        assert!(same_number(ours.y0, theirs.y0));
        assert!(same_number(ours.x1, theirs.x1));
        assert!(same_number(ours.y1, theirs.y1));
    }
}
