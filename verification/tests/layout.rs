use simulate::geom::Rect;
use simulate::layout::{ConfigError, Flex, FlexItem, Layout};

fn weighted<T>(weight: u64, item: Layout<T>) -> FlexItem<T> {
    FlexItem { weight, item }
}

fn bounds(w: u64, h: u64) -> Rect {
    Rect { x: 0, y: 0, w, h }
}

#[test]
fn row_splits_width_exactly() {
    let row = Flex::row(vec![
        weighted(1, Layout::Leaf(1u64)),
        weighted(1, Layout::Leaf(2u64)),
        weighted(2, Layout::Leaf(3u64)),
    ])
    .expect("valid row");

    let entries = row.try_visit(bounds(400, 100)).expect("well formed");
    let rects: Vec<Rect> = entries.iter().map(|(_, r)| *r).collect();
    assert_eq!(rects[0], Rect { x: 0, y: 0, w: 100, h: 100 });
    assert_eq!(rects[1], Rect { x: 100, y: 0, w: 100, h: 100 });
    assert_eq!(rects[2], Rect { x: 200, y: 0, w: 200, h: 100 });
    let total: u64 = rects.iter().map(|r| r.w).sum();
    assert_eq!(total, 400);
}

#[test]
fn row_absorbs_remainder_in_last_child() {
    let row = Flex::row(vec![
        weighted(1, Layout::Leaf('a')),
        weighted(1, Layout::Leaf('b')),
        weighted(1, Layout::Leaf('c')),
    ])
    .expect("valid row");

    let entries = row.try_visit(bounds(100, 10)).expect("well formed");
    let rects: Vec<Rect> = entries.iter().map(|(_, r)| *r).collect();
    assert_eq!(rects[0].w, 33);
    assert_eq!(rects[1].w, 33);
    assert_eq!(rects[2].w, 34);
    assert_eq!(rects[0].x, 0);
    assert_eq!(rects[1].x, 33);
    assert_eq!(rects[2].x, 66);
}

#[test]
fn column_splits_height() {
    let col = Flex::column(vec![
        weighted(3, Layout::Leaf("top")),
        weighted(1, Layout::Leaf("bottom")),
    ])
    .expect("valid column");

    let entries = col.try_visit(bounds(50, 200)).expect("well formed");
    assert_eq!(entries[0].1, Rect { x: 0, y: 0, w: 50, h: 150 });
    assert_eq!(entries[1].1, Rect { x: 0, y: 150, w: 50, h: 50 });
}

#[test]
fn layers_hand_every_child_the_full_rectangle() {
    let overlay = Layout::Layers(vec![Layout::Leaf(1u32), Layout::Leaf(2u32)]);
    let r = Rect { x: 7, y: 9, w: 300, h: 120 };
    let entries = overlay.try_visit(r).expect("well formed");
    assert_eq!(entries.len(), 2);
    assert_eq!(*entries[0].0, 1);
    assert_eq!(entries[0].1, r);
    assert_eq!(*entries[1].0, 2);
    assert_eq!(entries[1].1, r);
}

#[test]
fn empty_flex_is_rejected() {
    let items: Vec<FlexItem<u8>> = Vec::new();
    match Flex::row(items) {
        Err(ConfigError::EmptyFlex) => {}
        other => panic!("expected EmptyFlex, got {:?}", other.map(|_| ())),
    }
}

#[test]
fn zero_total_weight_is_rejected() {
    let result = Flex::column(vec![weighted(0, Layout::Leaf(1u8)), weighted(0, Layout::Leaf(2u8))]);
    match result {
        Err(ConfigError::ZeroTotalWeight) => {}
        other => panic!("expected ZeroTotalWeight, got {:?}", other.map(|_| ())),
    }
}

#[test]
fn nested_error_surfaces_in_traversal() {
    let bad_inner = Flex { items: Vec::new(), kind: simulate::layout::FlexKind::Row };
    let tree = Layout::Layers(vec![Layout::Leaf(1u8), Layout::Flex(bad_inner)]);
    match tree.try_visit(bounds(10, 10)) {
        Err(ConfigError::EmptyFlex) => {}
        _ => panic!("expected the nested empty flex to be reported"),
    }
}

#[test]
fn get_finds_first_match_in_pre_order() {
    let row = Flex::row(vec![
        weighted(1, Layout::Leaf(7u64)),
        weighted(1, Layout::Leaf(7u64)),
    ])
    .expect("valid row");

    let found = row.get(&7, bounds(400, 50));
    assert_eq!(found, Some(Rect { x: 0, y: 0, w: 200, h: 50 }));
}

#[test]
fn get_on_absent_tag_returns_none() {
    let row = Flex::row(vec![weighted(1, Layout::Leaf(1u64))]).expect("valid row");
    assert_eq!(row.get(&99, bounds(100, 100)), None);
}

#[test]
fn layout_maps_tags_to_rectangles_last_wins() {
    let tree = Layout::Layers(vec![
        Flex::row(vec![
            weighted(1, Layout::Leaf(1u32)),
            weighted(1, Layout::Leaf(2u32)),
        ])
        .expect("valid row"),
        Layout::Leaf(2u32),
    ]);
    let b = bounds(100, 40);
    let map = tree.layout(b);
    assert_eq!(map.len(), 2);
    assert_eq!(map[&1], Rect { x: 0, y: 0, w: 50, h: 40 });
    // the tag recurs: the last-visited occurrence (the overlay leaf) wins
    assert_eq!(map[&2], b);
}

#[test]
fn zero_weight_child_gets_zero_width() {
    let row = Flex::row(vec![
        weighted(0, Layout::Leaf('z')),
        weighted(1, Layout::Leaf('w')),
    ])
    .expect("total weight is positive");
    let entries = row.try_visit(bounds(80, 10)).expect("well formed");
    assert_eq!(entries[0].1.w, 0);
    assert_eq!(entries[1].1.w, 80);
}
