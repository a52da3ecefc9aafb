use piet_scene::bbox::{read_bbox, ShortBbox};
use piet_scene::encoder::Encoder;
use piet_scene::geom::{read_point, Circle, Line, Point, Rect};
use piet_scene::item::{read_item, Item};
use piet_scene::wire::{read_be32, read_le16, read_le32};

fn pt(x: f32, y: f32) -> Point {
    Point { x: x.to_bits(), y: y.to_bits() }
}

fn circle(x: f32, y: f32, r: f32) -> Circle {
    Circle { center: pt(x, y), radius: r.to_bits() }
}

fn line(x0: f32, y0: f32, x1: f32, y1: f32) -> Line {
    Line { p0: pt(x0, y0), p1: pt(x1, y1) }
}

fn bbox(x0: u16, y0: u16, x1: u16, y1: u16) -> ShortBbox {
    ShortBbox { x0, y0, x1, y1 }
}

#[test]
fn new_encoder_starts_at_zero_with_no_group() {
    let mut buf = vec![0xaau8; 16];
    let enc = Encoder::new(&mut buf);
    assert_eq!(enc.free_space, 0);
    assert_eq!((enc.group_count, enc.group_ix, enc.group_start), (0, 0, 0));
    assert!(!enc.group_open);
    assert!(!enc.can_add_item());
    assert!(!enc.can_end_group());
    assert!(enc.buf.iter().all(|b| *b == 0xaa));
}

#[test]
fn allocate_returns_the_cursor_and_advances_it() {
    let mut buf = vec![0u8; 4];
    let mut enc = Encoder::new(&mut buf);
    assert_eq!(enc.allocate(10), 0);
    assert_eq!(enc.allocate(0), 10);
    assert_eq!(enc.allocate(7), 10);
    assert_eq!(enc.free_space, 17);
    assert!(buf.iter().all(|b| *b == 0));
}

#[test]
fn write_struct_copies_bytes_in_place() {
    let mut buf = vec![0u8; 8];
    {
        let mut enc = Encoder::new(&mut buf);
        enc.write_struct(3, &[1, 2, 3]);
        enc.write_struct(8, &[]);
        assert_eq!(enc.free_space, 0);
    }
    assert_eq!(buf, vec![0, 0, 0, 1, 2, 3, 0, 0]);
}

#[test]
fn begin_group_reserves_header_boxes_and_items() {
    let mut buf = vec![0u8; 256];
    {
        let mut enc = Encoder::new(&mut buf);
        assert!(enc.can_begin_group(3));
        enc.begin_group(3);
        assert_eq!(enc.free_space, 8 + 3 * 8 + 3 * 32);
        assert_eq!(enc.group_start, 0);
        assert_eq!(enc.group_count, 3);
        assert_eq!(enc.group_ix, 0);
        assert!(enc.group_open);
    }
    assert_eq!(&buf[0..8], &[3, 0, 0, 0, 32, 0, 0, 0]);
    assert!(buf[8..].iter().all(|b| *b == 0));
}

#[test]
fn begin_group_is_refused_without_room() {
    let mut buf = vec![0u8; 87];
    let mut enc = Encoder::new(&mut buf);
    assert!(enc.can_begin_group(0));
    assert!(enc.can_begin_group(1));
    assert!(!enc.can_begin_group(2));
    assert!(!enc.can_begin_group(usize::MAX));
    enc.begin_group(1);
    assert!(!enc.can_begin_group(0));
}

#[test]
fn a_group_takes_exactly_as_many_items_as_declared() {
    for n in 0..5usize {
        let mut buf = vec![0u8; 512];
        let mut enc = Encoder::new(&mut buf);
        enc.begin_group(n);
        for k in 0..n {
            assert!(enc.can_add_item());
            assert!(!enc.can_end_group());
            assert_eq!(enc.group_ix, k);
            enc.circle(&circle(1.0, 1.0, 1.0));
        }
        assert!(!enc.can_add_item());
        assert!(enc.can_end_group());
        enc.end_group();
        assert!(!enc.group_open);
        assert!(!enc.can_end_group());
        assert!(!enc.can_add_item());
    }
}

#[test]
fn a_second_group_starts_counting_from_zero() {
    let mut buf = vec![0u8; 512];
    {
        let mut enc = Encoder::new(&mut buf);
        enc.begin_group(2);
        enc.circle(&circle(1.0, 1.0, 1.0));
        enc.circle(&circle(2.0, 2.0, 1.0));
        enc.end_group();
        assert!(enc.can_begin_group(1));
        enc.begin_group(1);
        assert_eq!(enc.group_start, 88);
        assert_eq!(enc.group_ix, 0);
        assert!(enc.can_add_item());
        enc.circle(&circle(3.0, 3.0, 1.0));
        assert!(enc.can_end_group());
        enc.end_group();
        assert_eq!(enc.free_space, 88 + 48);
    }
    assert_eq!(read_le32(&buf, 88), 1);
    assert_eq!(read_le32(&buf, 92), 88 + 16);
    assert_eq!(read_bbox(&buf, 96), Some(bbox(2, 2, 4, 4)));
    assert_eq!(read_item(&buf, 104), Some(Item::Circle));
}

#[test]
fn circle_writes_tag_and_bounding_box() {
    let mut buf = vec![0u8; 48];
    {
        let mut enc = Encoder::new(&mut buf);
        enc.begin_group(1);
        enc.circle(&circle(10.5, 20.25, 2.0));
        enc.end_group();
    }
    assert_eq!(&buf[0..8], &[1, 0, 0, 0, 16, 0, 0, 0]);
    assert_eq!(&buf[8..16], &[8, 0, 18, 0, 13, 0, 23, 0]);
    assert_eq!(&buf[16..20], &[1, 0, 0, 0]);
    assert!(buf[20..].iter().all(|b| *b == 0));
}

#[test]
fn circle_with_negative_radius_uses_its_magnitude() {
    assert_eq!(ShortBbox::from_circle(&circle(10.5, 20.25, -2.0)), bbox(8, 18, 13, 23));
    assert_eq!(ShortBbox::from_circle(&circle(1024.0, 768.0, 8.0)), bbox(1016, 760, 1032, 776));
    assert_eq!(ShortBbox::from_circle(&circle(3.0, 65530.0, 8.0)), bbox(0, 65522, 11, 65535));
    assert_eq!(ShortBbox::from_circle(&circle(f32::NAN, 5.0, 1.0)), bbox(0, 4, 0, 6));
}

#[test]
fn stroke_line_writes_the_whole_record() {
    let mut buf = vec![0x55u8; 48];
    {
        let mut enc = Encoder::new(&mut buf);
        enc.begin_group(1);
        enc.stroke_line(line(0.0, 0.0, 10.0, 0.0), 2.0f32.to_bits(), 0x0000_80e0);
        enc.end_group();
    }
    let expected: Vec<u8> = vec![
        1, 0, 0, 0, 16, 0, 0, 0, // header
        0, 0, 0, 0, 11, 0, 1, 0, // bounding box
        2, 0, 0, 0, // tag
        0, 0, 0, 0, // flags
        0x00, 0x00, 0x80, 0xe0, // color
        0x00, 0x00, 0x00, 0x40, // width
        0, 0, 0, 0, 0, 0, 0, 0, // start
        0x00, 0x00, 0x20, 0x41, 0, 0, 0, 0, // end
    ];
    assert_eq!(buf, expected);
}

#[test]
fn stroke_box_grows_by_half_the_width() {
    assert_eq!(ShortBbox::from_stroke(&line(0.0, 0.0, 10.0, 0.0), 2.0f32.to_bits()), bbox(0, 0, 11, 1));
    assert_eq!(ShortBbox::from_stroke(&line(5.0, 5.0, 15.0, 5.0), 2.0f32.to_bits()), bbox(4, 4, 16, 6));
    assert_eq!(ShortBbox::from_stroke(&line(15.0, 7.0, 5.0, 3.0), 2.0f32.to_bits()), bbox(4, 2, 16, 8));
    assert_eq!(ShortBbox::from_stroke(&line(5.0, 5.0, 15.0, 5.0), 3.0f32.to_bits()), bbox(3, 3, 17, 7));
    assert_eq!(ShortBbox::from_stroke(&line(5.0, 5.0, 15.0, 5.0), 0.0f32.to_bits()), bbox(5, 5, 15, 5));
    assert_eq!(ShortBbox::from_stroke(&line(5.5, 5.5, 15.5, 5.5), 1.0f32.to_bits()), bbox(5, 5, 16, 6));
    assert_eq!(
        ShortBbox::from_stroke(&line(5.0, 5.0, 15.0, 5.0), f32::from_bits(1).to_bits()),
        bbox(4, 4, 16, 6)
    );
}

#[test]
fn rect_quantization_floors_the_minimum_and_ceils_the_maximum() {
    let rect = Rect {
        x0: 1.5f32.to_bits(),
        y0: (-3.0f32).to_bits(),
        x1: 65534.5f32.to_bits(),
        y1: 70000.0f32.to_bits(),
    };
    assert_eq!(ShortBbox::from_rect(rect), bbox(1, 0, 65535, 65535));
    let rect = Rect {
        x0: 0.0f32.to_bits(),
        y0: 65535.0f32.to_bits(),
        x1: 0.0f32.to_bits(),
        y1: 65535.0f32.to_bits(),
    };
    assert_eq!(ShortBbox::from_rect(rect), bbox(0, 65535, 0, 65535));
    let rect = Rect {
        x0: 2.999_999_8f32.to_bits(),
        y0: 3.0f32.to_bits(),
        x1: 3.000_000_2f32.to_bits(),
        y1: 3.0f32.to_bits(),
    };
    assert_eq!(ShortBbox::from_rect(rect), bbox(2, 3, 4, 3));
}

#[test]
fn rect_of_points() {
    let r = Rect::from_points(pt(3.0, -1.0), pt(-2.0, 4.0));
    assert_eq!(r, Rect {
        x0: (-2.0f32).to_bits(),
        y0: (-1.0f32).to_bits(),
        x1: 3.0f32.to_bits(),
        y1: 4.0f32.to_bits(),
    });
    let r = r.union_pt(pt(10.0, 0.0));
    assert_eq!(r.x1, 10.0f32.to_bits());
    assert_eq!(r.y0, (-1.0f32).to_bits());
    let r = r.union_pt(pt(f32::NAN, -7.0));
    assert_eq!(r.x0, (-2.0f32).to_bits());
    assert_eq!(r.x1, 10.0f32.to_bits());
    assert_eq!(r.y0, (-7.0f32).to_bits());
    let all = Rect::bounding(&[pt(1.0, 2.0), pt(0.5, 9.0), pt(4.0, -1.0)]);
    assert_eq!(all, Rect {
        x0: 0.5f32.to_bits(),
        y0: (-1.0f32).to_bits(),
        x1: 4.0f32.to_bits(),
        y1: 9.0f32.to_bits(),
    });
}

#[test]
fn fill_writes_points_behind_the_group() {
    let mut buf = vec![0u8; 72];
    {
        let mut enc = Encoder::new(&mut buf);
        enc.begin_group(1);
        assert!(enc.can_fill(3));
        assert!(!enc.can_fill(4));
        enc.fill(&[pt(10.0, 10.0), pt(15.0, 800.0), pt(300.0, 500.0)], 0x80e0);
        assert_eq!(enc.free_space, 72);
        enc.end_group();
    }
    assert_eq!(&buf[0..8], &[1, 0, 0, 0, 16, 0, 0, 0]);
    assert_eq!(&buf[8..16], &[10, 0, 10, 0, 0x2c, 0x01, 0x20, 0x03]);
    assert_eq!(&buf[16..36], &[
        3, 0, 0, 0, // tag
        0, 0, 0, 0, // flags
        0x00, 0x00, 0x80, 0xe0, // color
        3, 0, 0, 0, // point count
        48, 0, 0, 0, // point array
    ]);
    assert!(buf[36..48].iter().all(|b| *b == 0));
    let mut points = Vec::new();
    for v in [10.0f32, 10.0, 15.0, 800.0, 300.0, 500.0] {
        points.extend_from_slice(&v.to_le_bytes());
    }
    assert_eq!(&buf[48..72], &points[..]);
}

#[test]
fn fill_with_no_points_is_refused_and_changes_nothing() {
    let mut buf = vec![7u8; 128];
    let snapshot;
    {
        let mut enc = Encoder::new(&mut buf);
        enc.begin_group(2);
        enc.circle(&circle(4.0, 4.0, 1.0));
        assert!(!enc.can_fill(0));
        assert!(enc.can_fill(1));
        assert_eq!(enc.group_ix, 1);
        assert_eq!(enc.free_space, 88);
        snapshot = enc.buf.to_vec();
        assert!(enc.can_add_item());
        enc.fill(&[pt(1.0, 1.0)], 0xff);
        enc.end_group();
    }
    assert_eq!(&snapshot[0..8], &buf[0..8]);
    assert_eq!(read_item(&buf, 24), Some(Item::Circle));
    assert_eq!(
        read_item(&buf, 56),
        Some(Item::Fill { flags: 0, rgba: 0xff, n_points: 1, points_ix: 88 })
    );
}

#[test]
fn fill_is_refused_outside_a_group_or_in_a_full_one() {
    let mut buf = vec![0u8; 128];
    let mut enc = Encoder::new(&mut buf);
    assert!(!enc.can_fill(1));
    enc.begin_group(1);
    assert!(enc.can_fill(1));
    enc.circle(&circle(4.0, 4.0, 1.0));
    assert!(!enc.can_fill(1));
}

#[test]
fn a_group_of_mixed_items_reads_back() {
    let polygon = [pt(1.5, 2.5), pt(-3.0, 70000.0), pt(8.25, 0.125), pt(f32::MIN_POSITIVE, 1.0e-20)];
    let mut buf = vec![0u8; 1024];
    let start;
    {
        let mut enc = Encoder::new(&mut buf);
        enc.allocate(12);
        start = enc.free_space;
        enc.begin_group(4);
        enc.circle(&circle(100.0, 200.0, 50.0));
        enc.stroke_line(line(1.25, 2.5, 300.75, 400.0), 3.5f32.to_bits(), 0x1234_5678);
        enc.fill(&polygon, 0xdead_beef);
        enc.stroke_line(line(9.0, 8.0, 7.0, 6.0), 0.5f32.to_bits(), 0xff00_00ff);
        enc.end_group();
        assert_eq!(enc.free_space, start + 8 + 4 * 40 + 4 * 8);
    }
    assert_eq!(read_le32(&buf, start), 4);
    let items_ix = read_le32(&buf, start + 4) as usize;
    assert_eq!(items_ix, start + 8 + 4 * 8);
    assert_eq!(read_item(&buf, items_ix), Some(Item::Circle));
    assert_eq!(read_bbox(&buf, start + 8), Some(bbox(50, 150, 150, 250)));
    assert_eq!(
        read_item(&buf, items_ix + 32),
        Some(Item::StrokeLine {
            flags: 0,
            rgba: 0x1234_5678,
            width: 3.5f32.to_bits(),
            start: pt(1.25, 2.5),
            end: pt(300.75, 400.0),
        })
    );
    assert_eq!(read_bbox(&buf, start + 16), Some(bbox(0, 0, 303, 402)));
    let points_ix = start + 8 + 4 * 40;
    assert_eq!(
        read_item(&buf, items_ix + 64),
        Some(Item::Fill { flags: 0, rgba: 0xdead_beef, n_points: 4, points_ix: points_ix as u32 })
    );
    assert_eq!(read_bbox(&buf, start + 24), Some(bbox(0, 0, 9, 65535)));
    for (k, p) in polygon.iter().enumerate() {
        assert_eq!(read_point(&buf, points_ix + 8 * k), Some(*p));
    }
    assert_eq!(
        read_item(&buf, items_ix + 96),
        Some(Item::StrokeLine {
            flags: 0,
            rgba: 0xff00_00ff,
            width: 0.5f32.to_bits(),
            start: pt(9.0, 8.0),
            end: pt(7.0, 6.0),
        })
    );
    assert_eq!(read_bbox(&buf, start + 32), Some(bbox(6, 5, 10, 9)));
    assert_eq!(read_be32(&buf, items_ix + 32 + 8), 0x1234_5678);
    assert_eq!(f32::from_bits(read_le32(&buf, items_ix + 32 + 12)), 3.5);
    assert_eq!(read_le16(&buf, start + 8 + 4), 150);
    assert!(buf[0..12].iter().all(|b| *b == 0));
}

#[test]
fn items_serialise_field_by_field() {
    assert_eq!(Item::Circle.to_bytes(), vec![1, 0, 0, 0]);
    let fill = Item::Fill { flags: 0x0102_0304, rgba: 0x0a0b_0c0d, n_points: 258, points_ix: 0x1_0000 };
    assert_eq!(fill.to_bytes(), vec![
        3, 0, 0, 0, 4, 3, 2, 1, 0x0a, 0x0b, 0x0c, 0x0d, 2, 1, 0, 0, 0, 0, 1, 0,
    ]);
    let stroke = Item::StrokeLine {
        flags: 0,
        rgba: 0xff,
        width: 1.0f32.to_bits(),
        start: pt(1.0, 2.0),
        end: pt(3.0, 4.0),
    };
    let bytes = stroke.to_bytes();
    assert_eq!(bytes.len(), 32);
    assert_eq!(&bytes[8..12], &[0, 0, 0, 0xff]);
    assert_eq!(&bytes[12..16], &1.0f32.to_le_bytes());
    assert_eq!(&bytes[28..32], &4.0f32.to_le_bytes());
    assert_eq!(bbox(1, 0x0203, 0xffff, 4).to_bytes(), vec![1, 0, 3, 2, 0xff, 0xff, 4, 0]);
    assert_eq!(pt(1.0, -2.0).to_bytes(), vec![0, 0, 0x80, 0x3f, 0, 0, 0, 0xc0]);
}

#[test]
fn decoders_refuse_what_lies_outside_the_buffer_or_has_no_known_tag() {
    let mut buf = vec![0u8; 40];
    buf[0] = 1;
    buf[8] = 9;
    assert_eq!(read_item(&buf, 0), Some(Item::Circle));
    assert_eq!(read_item(&buf, 8), None);
    assert_eq!(read_item(&buf, 9), None);
    assert_eq!(read_item(&buf, usize::MAX), None);
    assert_eq!(read_item(&buf[..31], 0), None);
    assert_eq!(read_bbox(&buf, 32), Some(bbox(0, 0, 0, 0)));
    assert_eq!(read_bbox(&buf, 33), None);
    assert_eq!(read_point(&buf, 32), Some(Point { x: 0, y: 0 }));
    assert_eq!(read_point(&buf, 33), None);
    assert_eq!(read_point(&buf[..7], 0), None);
}

#[test]
fn the_counters_of_a_group_stay_when_it_is_closed() {
    let mut buf = vec![0u8; 256];
    let mut enc = Encoder::new(&mut buf);
    enc.allocate(16);
    assert_eq!((enc.group_count, enc.group_ix, enc.group_start), (0, 0, 0));
    enc.begin_group(2);
    enc.circle(&circle(1.0, 1.0, 1.0));
    enc.circle(&circle(2.0, 2.0, 1.0));
    enc.end_group();
    assert_eq!((enc.group_count, enc.group_ix, enc.group_start), (2, 2, 16));
    enc.allocate(8);
    enc.write_struct(0, &[1, 2, 3]);
    assert_eq!((enc.group_count, enc.group_ix, enc.group_start), (2, 2, 16));
    assert_eq!(enc.free_space, 16 + 88 + 8);
    assert!(!enc.group_open);
}
