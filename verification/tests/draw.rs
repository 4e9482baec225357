use quicksilver::graphics::batch::{fan_indices, TextureBatch, TriangleRef};
use quicksilver::graphics::draw_order::PayloadKey;
use quicksilver::graphics::draw_queue::{
    buffers_need_resize, fill_polygon_elements, flush_plan, indices_in_bounds, insert_if_changed,
    join_change_lists, push_elements, quad_elements, stroke_path_elements,
    stroke_polygon_elements, Element, FlushAction, GeometryMode,
};
use std::cmp::Ordering;

fn triangle(e: &Element) -> [u32; 3] {
    match e {
        Element::Triangle(t) => *t,
        _ => panic!("not a triangle"),
    }
}

fn line(e: &Element) -> [u32; 2] {
    match e {
        Element::Line(l) => *l,
        _ => panic!("not a line"),
    }
}

#[test]
fn fill_polygon_is_a_fan() {
    let es = fill_polygon_elements(5);
    let ts: Vec<[u32; 3]> = es.iter().map(triangle).collect();
    assert_eq!(ts, vec![[0, 1, 2], [0, 2, 3], [0, 3, 4]]);
    assert_eq!(fill_polygon_elements(3).len(), 1);
}

#[test]
fn stroke_path_joins_neighbours() {
    let ls: Vec<[u32; 2]> = stroke_path_elements(4).iter().map(line).collect();
    assert_eq!(ls, vec![[0, 1], [1, 2], [2, 3]]);
    assert!(stroke_path_elements(1).is_empty());
}

#[test]
fn stroke_polygon_closes_the_outline() {
    let ls: Vec<[u32; 2]> = stroke_polygon_elements(4).iter().map(line).collect();
    assert_eq!(ls, vec![[0, 1], [1, 2], [2, 3], [3, 0]]);
}

#[test]
fn quad_is_two_triangles() {
    let ts: Vec<[u32; 3]> = quad_elements().iter().map(triangle).collect();
    assert_eq!(ts, vec![[0, 1, 2], [2, 3, 0]]);
}

#[test]
fn push_elements_offsets_and_records_modes() {
    let mut index_data: Vec<u32> = vec![9];
    let mut modes: Vec<(usize, GeometryMode)> = vec![(0, GeometryMode::Triangles)];
    let elements = vec![
        Element::Triangle([0, 1, 2]),
        Element::Line([2, 3]),
        Element::Line([3, 0]),
        Element::Point(1),
    ];
    push_elements(&mut index_data, &mut modes, &elements, 10);
    assert_eq!(index_data, vec![9, 10, 11, 12, 12, 13, 13, 10, 11]);
    assert_eq!(modes, vec![(0, GeometryMode::Triangles), (4, GeometryMode::Lines), (8, GeometryMode::Points)]);
}

#[test]
fn insert_if_changed_skips_repeats() {
    let mut buffer: Vec<(usize, u32)> = Vec::new();
    insert_if_changed(&mut buffer, (0, &7), |a, b| a == b);
    insert_if_changed(&mut buffer, (3, &7), |a, b| a == b);
    insert_if_changed(&mut buffer, (6, &8), |a, b| a == b);
    insert_if_changed(&mut buffer, (9, &7), |a, b| a == b);
    assert_eq!(buffer, vec![(0, 7), (6, 8), (9, 7)]);
}

#[test]
fn join_change_lists_merges_by_index() {
    let u = vec![(0usize, 'a'), (4, 'b'), (4, 'c')];
    let v = vec![(2usize, 1u8), (4, 2), (7, 3)];
    let joined = join_change_lists(u, v);
    assert_eq!(
        joined,
        vec![
            (0, (Some('a'), None)),
            (2, (None, Some(1))),
            (4, (Some('b'), None)),
            (4, (Some('c'), None)),
            (4, (None, Some(2))),
            (7, (None, Some(3))),
        ]
    );
}

#[test]
fn join_with_empty_list() {
    let u: Vec<(usize, u8)> = Vec::new();
    let v = vec![(1usize, 5u8)];
    assert_eq!(join_change_lists(u, v), vec![(1, (None, Some(5)))]);
}

#[test]
fn flush_plan_draws_between_changes() {
    let indices = vec![0usize, 3, 3, 9];
    let modes = vec![None, Some(GeometryMode::Lines), None, Some(GeometryMode::Points)];
    let plan = flush_plan(&indices, &modes, 12);
    assert_eq!(
        plan,
        vec![
            FlushAction::Apply(0),
            FlushAction::Draw { start: 0, end: 3, mode: GeometryMode::Triangles },
            FlushAction::Apply(1),
            FlushAction::Apply(2),
            FlushAction::Draw { start: 3, end: 9, mode: GeometryMode::Lines },
            FlushAction::Apply(3),
            FlushAction::Draw { start: 9, end: 12, mode: GeometryMode::Points },
        ]
    );
}

#[test]
fn flush_plan_without_changes() {
    let plan = flush_plan(&Vec::new(), &Vec::new(), 6);
    assert_eq!(plan, vec![FlushAction::Draw { start: 0, end: 6, mode: GeometryMode::Triangles }]);
    assert!(flush_plan(&Vec::new(), &Vec::new(), 0).is_empty());
}

#[test]
fn index_bounds_before_flush() {
    assert!(indices_in_bounds(&vec![0, 1, 2], 24));
    assert!(!indices_in_bounds(&vec![0, 1, 3], 24));
    assert!(indices_in_bounds(&Vec::new(), 0));
    assert!(!indices_in_bounds(&vec![0], 7));
}

#[test]
fn buffer_resize_decision() {
    assert!(!buffers_need_resize(10, 41, 5, 21));
    assert!(buffers_need_resize(10, 40, 5, 21));
    assert!(buffers_need_resize(10, 41, 5, 20));
}

#[test]
fn payload_order() {
    let a = PayloadKey::Image(3);
    let b = PayloadKey::Image(5);
    assert_eq!(a.partial_cmp(&b), Some(Ordering::Less));
    assert_eq!(b.partial_cmp(&a), Some(Ordering::Greater));
    assert_eq!(a.partial_cmp(&PayloadKey::Rectangle), Some(Ordering::Greater));
    assert_eq!(PayloadKey::Circle.partial_cmp(&a), Some(Ordering::Less));
    assert_eq!(PayloadKey::Circle.partial_cmp(&PayloadKey::Rectangle), Some(Ordering::Equal));
    assert!(a == PayloadKey::Image(3));
    assert!(a != b);
    assert!(PayloadKey::Circle != PayloadKey::Rectangle);
    assert!(a < b);
}

#[test]
fn fan_of_a_pentagon() {
    assert_eq!(fan_indices(4, 5), vec![4, 5, 6, 4, 6, 7, 4, 7, 8]);
    assert!(fan_indices(0, 2).is_empty());
}

#[test]
fn batch_switches_texture_and_flushes() {
    let mut batch = TextureBatch::new(1);
    assert!(batch.add(7, 0, &vec![0, 1, 2]).is_none());
    assert!(batch.add(7, 3, &vec![0, 1, 2]).is_none());
    let flushed = batch.add(8, 6, &vec![0, 1, 2]).expect("switching texture flushes");
    assert_eq!(flushed.texture, 7);
    assert_eq!(flushed.indices, vec![0, 1, 2, 3, 4, 5]);
    assert_eq!(batch.texture, 8);
    let last = batch.flush().expect("indices are waiting");
    assert_eq!((last.texture, last.indices), (8, vec![6, 7, 8]));
    assert_eq!(batch.texture, 1);
    assert!(batch.flush().is_none());
}

#[test]
fn batch_from_blank_texture_does_not_flush() {
    let mut batch = TextureBatch::new(1);
    assert!(batch.add(1, 0, &vec![0, 1, 2]).is_none());
    assert!(batch.switch_texture(5).is_none());
    assert_eq!(batch.indices, vec![0, 1, 2]);
    assert_eq!(batch.texture, 5);
}

#[test]
fn draw_triangles_hands_out_every_index() {
    let mut batch = TextureBatch::new(0);
    let triangles = vec![
        TriangleRef { image: Some(2), indices: [0, 1, 2] },
        TriangleRef { image: None, indices: [3, 4, 5] },
        TriangleRef { image: Some(2), indices: [6, 7, 8] },
        TriangleRef { image: Some(3), indices: [9, 10, 11] },
    ];
    let batches = batch.draw_triangles(&triangles);
    let view: Vec<(u32, Vec<u32>)> = batches.into_iter().map(|b| (b.texture, b.indices)).collect();
    assert_eq!(view, vec![(2, vec![0, 1, 2, 3, 4, 5, 6, 7, 8]), (3, vec![9, 10, 11])]);
    assert_eq!(batch.texture, 0);
    assert!(batch.indices.is_empty());
}
