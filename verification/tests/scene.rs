use piet_scene::bbox::{read_bbox, ShortBbox};
use piet_scene::encoder::Encoder;
use piet_scene::flat::{subpaths_of, PathEvent};
use piet_scene::geom::{read_point, Point};
use piet_scene::item::{read_item, Item};
use piet_scene::scene::{
    can_encode_path, can_encode_path_stroke, can_make_test_scene, count_fill_items,
    count_stroke_items, encode_path, encode_path_stroke, make_test_scene, scene_budget,
    stroke_polyline, Stroke, StyledPath,
};

fn p(x: f32, y: f32) -> Point {
    Point { x: x.to_bits(), y: y.to_bits() }
}

fn sample_path() -> Vec<Vec<Point>> {
    vec![
        vec![p(0.0, 0.0), p(10.0, 0.0), p(10.0, 10.0), p(0.0, 0.0)],
        vec![p(5.0, 5.0)],
        vec![],
        vec![p(20.0, 30.0), p(40.0, 50.0)],
    ]
}

#[test]
fn fill_items_are_counted_by_subpath() {
    assert_eq!(count_fill_items(&sample_path()), 4);
    assert_eq!(count_fill_items(&Vec::new()), 0);
}

#[test]
fn stroke_items_are_counted_by_segment() {
    assert_eq!(count_stroke_items(&sample_path()), 3 + 0 + 0 + 1);
    assert_eq!(count_stroke_items(&Vec::new()), 0);
    assert_eq!(count_stroke_items(&vec![vec![], vec![p(1.0, 1.0)]]), 0);
}

#[test]
fn filling_a_path_adds_one_polygon_for_each_subpath() {
    let path = vec![
        vec![p(0.0, 0.0), p(10.0, 0.0), p(10.0, 10.0)],
        vec![p(5.5, 5.5)],
        vec![p(20.0, 30.0), p(40.0, 50.0)],
    ];
    let n = count_fill_items(&path);
    let mut buf = vec![0u8; 8 + 3 * 40 + 6 * 8];
    {
        let mut enc = Encoder::new(&mut buf);
        enc.begin_group(n);
        assert!(can_encode_path(&enc, &path, 0x11));
        encode_path(&mut enc, &path, 0x1122_3344);
        assert!(enc.can_end_group());
        enc.end_group();
        assert_eq!(enc.free_space, 8 + 3 * 40 + 6 * 8);
    }
    let items = 8 + 3 * 8;
    let points = 8 + 3 * 40;
    assert_eq!(
        read_item(&buf, items),
        Some(Item::Fill { flags: 0, rgba: 0x1122_3344, n_points: 3, points_ix: points as u32 })
    );
    assert_eq!(
        read_item(&buf, items + 32),
        Some(Item::Fill { flags: 0, rgba: 0x1122_3344, n_points: 1, points_ix: points as u32 + 24 })
    );
    assert_eq!(
        read_item(&buf, items + 64),
        Some(Item::Fill { flags: 0, rgba: 0x1122_3344, n_points: 2, points_ix: points as u32 + 32 })
    );
    assert_eq!(read_bbox(&buf, 8), Some(ShortBbox { x0: 0, y0: 0, x1: 10, y1: 10 }));
    assert_eq!(read_bbox(&buf, 16), Some(ShortBbox { x0: 5, y0: 5, x1: 6, y1: 6 }));
    assert_eq!(read_bbox(&buf, 24), Some(ShortBbox { x0: 20, y0: 30, x1: 40, y1: 50 }));
    assert_eq!(read_point(&buf, points + 24), Some(p(5.5, 5.5)));
    assert_eq!(read_point(&buf, points + 40), Some(p(40.0, 50.0)));
}

#[test]
fn filling_is_refused_where_it_would_fail() {
    let path = vec![vec![p(0.0, 0.0), p(10.0, 0.0)], vec![p(5.5, 5.5)]];
    let mut buf = vec![0u8; 8 + 2 * 40 + 3 * 8];
    let mut enc = Encoder::new(&mut buf);
    assert!(!can_encode_path(&enc, &path, 0));
    assert!(can_encode_path(&enc, &Vec::new(), 0));
    enc.begin_group(2);
    assert!(can_encode_path(&enc, &path, 0));
    assert!(!can_encode_path(&enc, &sample_path(), 0));
    assert!(!can_encode_path(&enc, &vec![vec![p(1.0, 1.0)], vec![]], 0));
    assert!(!can_encode_path(&enc, &vec![vec![p(1.0, 1.0); 4]], 0));
    assert!(can_encode_path(&enc, &vec![vec![p(1.0, 1.0); 3]], 0));
    assert!(!can_encode_path(&enc, &vec![vec![p(1.0, 1.0)]; 3], 0));
}

#[test]
fn stroking_a_path_adds_one_line_for_each_segment() {
    let path = sample_path();
    let n = count_stroke_items(&path);
    let mut buf = vec![0u8; 8 + 4 * 40];
    {
        let mut enc = Encoder::new(&mut buf);
        enc.begin_group(n);
        assert!(can_encode_path_stroke(&enc, &path, 2.0f32.to_bits(), 7));
        encode_path_stroke(&mut enc, &path, 2.0f32.to_bits(), 0xaabb_ccdd);
        assert!(enc.can_end_group());
        enc.end_group();
        assert_eq!(enc.free_space, 8 + 4 * 40);
    }
    let items = 8 + 4 * 8;
    let expect = [
        (p(0.0, 0.0), p(10.0, 0.0), ShortBbox { x0: 0, y0: 0, x1: 11, y1: 1 }),
        (p(10.0, 0.0), p(10.0, 10.0), ShortBbox { x0: 9, y0: 0, x1: 11, y1: 11 }),
        (p(10.0, 10.0), p(0.0, 0.0), ShortBbox { x0: 0, y0: 0, x1: 11, y1: 11 }),
        (p(20.0, 30.0), p(40.0, 50.0), ShortBbox { x0: 19, y0: 29, x1: 41, y1: 51 }),
    ];
    for (k, (start, end, bbox)) in expect.iter().enumerate() {
        assert_eq!(
            read_item(&buf, items + 32 * k),
            Some(Item::StrokeLine {
                flags: 0,
                rgba: 0xaabb_ccdd,
                width: 2.0f32.to_bits(),
                start: *start,
                end: *end,
            })
        );
        assert_eq!(read_bbox(&buf, 8 + 8 * k), Some(*bbox));
    }
}

#[test]
fn stroking_is_refused_without_free_slots() {
    let path = sample_path();
    let mut buf = vec![0u8; 8 + 4 * 40];
    let mut enc = Encoder::new(&mut buf);
    assert!(!can_encode_path_stroke(&enc, &path, 0, 0));
    assert!(can_encode_path_stroke(&enc, &vec![vec![p(1.0, 1.0)]], 0, 0));
    enc.begin_group(3);
    assert!(!can_encode_path_stroke(&enc, &path, 0, 0));
    assert!(can_encode_path_stroke(&enc, &path[..1].to_vec(), 0, 0));
}

#[test]
fn a_polyline_of_one_point_has_no_line() {
    let mut buf = vec![0u8; 8 + 40];
    let mut enc = Encoder::new(&mut buf);
    enc.begin_group(1);
    stroke_polyline(&mut enc, &[p(1.0, 1.0)], 0, 0);
    stroke_polyline(&mut enc, &[], 0, 0);
    assert_eq!(enc.group_ix, 0);
    stroke_polyline(&mut enc, &[p(1.0, 1.0), p(2.0, 2.0)], 0, 0);
    assert_eq!(enc.group_ix, 1);
    enc.end_group();
}

#[test]
fn counting_and_encoding_agree() {
    let path = sample_path();
    let filled: Vec<Vec<Point>> = path.iter().filter(|s| !s.is_empty()).cloned().collect();
    let n = count_fill_items(&filled) + count_stroke_items(&path);
    let mut buf = vec![0u8; 1024];
    let mut enc = Encoder::new(&mut buf);
    enc.begin_group(n);
    encode_path(&mut enc, &filled, 1);
    encode_path_stroke(&mut enc, &path, 2.0f32.to_bits(), 2);
    assert_eq!(enc.group_ix, n);
    assert!(enc.can_end_group());
    enc.end_group();
}

fn sample_scene() -> Vec<StyledPath> {
    vec![
        StyledPath {
            subpaths: vec![vec![p(0.0, 0.0), p(10.0, 0.0), p(10.0, 10.0)], vec![p(5.5, 5.5)]],
            fill: Some(0x1020_30ff),
            stroke: None,
        },
        StyledPath {
            subpaths: vec![vec![p(1.0, 1.0), p(2.0, 2.0), p(3.0, 1.0)], vec![]],
            fill: None,
            stroke: Some(Stroke { width: 4.0f32.to_bits(), rgba: 0xff }),
        },
        StyledPath { subpaths: vec![vec![p(9.0, 9.0)]], fill: None, stroke: None },
        StyledPath {
            subpaths: vec![vec![p(7.0, 7.0), p(8.0, 8.0)]],
            fill: Some(0xaaaa_aaff),
            stroke: Some(Stroke { width: 1.0f32.to_bits(), rgba: 0xbbbb_bbff }),
        },
    ]
}

#[test]
fn a_scene_needs_its_items_and_the_points_of_its_polygons() {
    let budget = scene_budget(&sample_scene());
    assert_eq!(budget.items, 2 + 2 + 0 + 2);
    assert_eq!(budget.points, 4 + 2);
    assert!(budget.fillable);
    let empty = scene_budget(&Vec::new());
    assert_eq!((empty.items, empty.points, empty.fillable), (0, 0, true));
    let bad = vec![StyledPath { subpaths: vec![vec![]], fill: Some(1), stroke: None }];
    assert!(!scene_budget(&bad).fillable);
    let fine = vec![StyledPath { subpaths: vec![vec![]], fill: None, stroke: None }];
    assert!(scene_budget(&fine).fillable);
}

#[test]
fn a_scene_is_one_full_group() {
    let scene = sample_scene();
    let size = 8 + 6 * 40 + 6 * 8;
    let mut buf = vec![0u8; size];
    {
        let mut enc = Encoder::new(&mut buf);
        assert!(can_make_test_scene(&enc, &scene));
        make_test_scene(&mut enc, &scene);
        assert!(!enc.group_open);
        assert_eq!(enc.group_ix, 6);
        assert_eq!(enc.group_count, 6);
        assert_eq!(enc.free_space, size);
    }
    let items = 8 + 6 * 8;
    let points = (8 + 6 * 40) as u32;
    assert_eq!(&buf[0..8], &[6, 0, 0, 0, 56, 0, 0, 0]);
    let expected = [
        Item::Fill { flags: 0, rgba: 0x1020_30ff, n_points: 3, points_ix: points },
        Item::Fill { flags: 0, rgba: 0x1020_30ff, n_points: 1, points_ix: points + 24 },
        Item::StrokeLine {
            flags: 0,
            rgba: 0xff,
            width: 4.0f32.to_bits(),
            start: p(1.0, 1.0),
            end: p(2.0, 2.0),
        },
        Item::StrokeLine {
            flags: 0,
            rgba: 0xff,
            width: 4.0f32.to_bits(),
            start: p(2.0, 2.0),
            end: p(3.0, 1.0),
        },
        Item::Fill { flags: 0, rgba: 0xaaaa_aaff, n_points: 2, points_ix: points + 32 },
        Item::StrokeLine {
            flags: 0,
            rgba: 0xbbbb_bbff,
            width: 1.0f32.to_bits(),
            start: p(7.0, 7.0),
            end: p(8.0, 8.0),
        },
    ];
    for (k, item) in expected.iter().enumerate() {
        assert_eq!(read_item(&buf, items + 32 * k), Some(*item), "item {}", k);
    }
    assert_eq!(read_bbox(&buf, 8 + 8 * 2), Some(ShortBbox { x0: 0, y0: 0, x1: 4, y1: 4 }));
    assert_eq!(read_bbox(&buf, 8 + 8 * 4), Some(ShortBbox { x0: 7, y0: 7, x1: 8, y1: 8 }));
    assert_eq!(read_point(&buf, points as usize + 40), Some(p(8.0, 8.0)));
}

#[test]
fn an_empty_scene_is_an_empty_group() {
    let mut buf = vec![9u8; 8];
    {
        let mut enc = Encoder::new(&mut buf);
        assert!(can_make_test_scene(&enc, &Vec::new()));
        make_test_scene(&mut enc, &Vec::new());
        assert_eq!(enc.free_space, 8);
    }
    assert_eq!(buf, vec![0, 0, 0, 0, 8, 0, 0, 0]);
}

#[test]
fn a_scene_is_refused_where_it_would_fail() {
    let scene = sample_scene();
    let size = 8 + 6 * 40 + 6 * 8;
    let mut small = vec![0u8; size - 1];
    assert!(!can_make_test_scene(&Encoder::new(&mut small), &scene));
    let mut tiny = vec![0u8; 7];
    assert!(!can_make_test_scene(&Encoder::new(&mut tiny), &Vec::new()));
    let mut buf = vec![0u8; size + 100];
    let mut enc = Encoder::new(&mut buf);
    assert!(can_make_test_scene(&enc, &scene));
    let bad = vec![StyledPath { subpaths: vec![vec![]], fill: Some(1), stroke: None }];
    assert!(!can_make_test_scene(&enc, &bad));
    enc.allocate(101);
    assert!(!can_make_test_scene(&enc, &scene));
    let strokes_only = vec![StyledPath {
        subpaths: vec![vec![p(1.0, 1.0), p(2.0, 2.0)]],
        fill: None,
        stroke: Some(Stroke { width: 0, rgba: 0 }),
    }];
    assert!(can_make_test_scene(&enc, &strokes_only));
    enc.begin_group(0);
    assert!(!can_make_test_scene(&enc, &strokes_only));
}

#[test]
fn events_are_assembled_into_subpaths() {
    let events = vec![
        PathEvent::MoveTo(p(0.0, 0.0)),
        PathEvent::LineTo(p(10.0, 0.0)),
        PathEvent::LineTo(p(10.0, 10.0)),
        PathEvent::Close,
        PathEvent::MoveTo(p(5.0, 5.0)),
        PathEvent::MoveTo(p(6.0, 6.0)),
        PathEvent::LineTo(p(7.0, 7.0)),
        PathEvent::LineTo(p(6.0, 6.0)),
        PathEvent::Close,
        PathEvent::Close,
        PathEvent::LineTo(p(8.0, 8.0)),
    ];
    assert_eq!(
        subpaths_of(&events),
        vec![
            vec![p(0.0, 0.0), p(10.0, 0.0), p(10.0, 10.0), p(0.0, 0.0)],
            vec![p(5.0, 5.0)],
            vec![p(6.0, 6.0), p(7.0, 7.0), p(6.0, 6.0), p(8.0, 8.0)],
        ]
    );
}

#[test]
fn events_without_a_move_still_make_a_subpath() {
    assert_eq!(subpaths_of(&Vec::new()), Vec::<Vec<Point>>::new());
    assert_eq!(subpaths_of(&vec![PathEvent::Close]), Vec::<Vec<Point>>::new());
    assert_eq!(
        subpaths_of(&vec![PathEvent::Close, PathEvent::LineTo(p(1.0, 2.0)), PathEvent::LineTo(p(3.0, 4.0))]),
        vec![vec![p(1.0, 2.0), p(3.0, 4.0)]]
    );
    assert_eq!(subpaths_of(&vec![PathEvent::MoveTo(p(1.0, 2.0)), PathEvent::Close]), vec![vec![p(1.0, 2.0)]]);
}
