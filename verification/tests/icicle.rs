use simulate::folded::fold_spans;
use simulate::geom::Rect;
use simulate::icicle::{draw_span_header, render, CharCellMeasure, IcicleConfig, PlanEntry};
use simulate::span::Span;

fn leaf(name: &str, duration: u64) -> Span {
    Span { name: name.to_string(), duration, children: Vec::new() }
}

fn node(name: &str, duration: u64, children: Vec<Span>) -> Span {
    Span { name: name.to_string(), duration, children }
}

fn config() -> IcicleConfig {
    IcicleConfig::new(10, 1, 5, vec![0xff0000, 0x00ff00, 0x0000ff])
}

fn narrow_measure() -> CharCellMeasure {
    CharCellMeasure { char_width: 1 }
}

fn labels(plan: &[PlanEntry]) -> Vec<Option<String>> {
    plan.iter().map(|e| e.label.clone()).collect()
}

#[test]
fn missing_time_is_rendered_as_its_own_band() {
    let folded = fold_spans(&vec![node("root", 100, vec![leaf("child", 60)])]);
    let plan = render(&folded, Rect { x: 0, y: 0, w: 1000, h: 100 }, &config(), &narrow_measure());

    assert_eq!(plan.len(), 3);

    // the root header spans the full width
    assert_eq!(plan[0].label, Some("root".to_string()));
    assert_eq!(plan[0].depth, 0);
    assert_eq!(plan[0].rect, Rect { x: 0, y: 0, w: 1000, h: 10 });

    // the child region covers 60% of the remaining width
    assert_eq!(plan[1].label, Some("child".to_string()));
    assert_eq!(plan[1].depth, 1);
    assert_eq!(plan[1].rect, Rect { x: 0, y: 10, w: 600, h: 10 });

    // and the other 40% is an explicit Missing band at the same depth
    assert_eq!(plan[2].label, Some("Missing".to_string()));
    assert_eq!(plan[2].depth, 1);
    assert_eq!(plan[2].rect, Rect { x: 600, y: 10, w: 400, h: 10 });
}

#[test]
fn children_covering_their_parent_leave_no_missing_band() {
    let folded =
        fold_spans(&vec![node("root", 100, vec![leaf("left", 60), leaf("right", 40)])]);
    let plan = render(&folded, Rect { x: 0, y: 0, w: 1000, h: 100 }, &config(), &narrow_measure());

    assert_eq!(plan.len(), 3);
    assert_eq!(plan[0].label, Some("root".to_string()));
    assert_eq!(plan[1].label, Some("left".to_string()));
    assert_eq!(plan[1].rect, Rect { x: 0, y: 10, w: 600, h: 10 });
    assert_eq!(plan[2].label, Some("right".to_string()));
    assert_eq!(plan[2].rect, Rect { x: 600, y: 10, w: 400, h: 10 });
    assert!(!labels(&plan).contains(&Some("Missing".to_string())));
}

#[test]
fn leaf_without_children_gets_only_its_header() {
    let folded = fold_spans(&vec![leaf("only", 42)]);
    let plan = render(&folded, Rect { x: 0, y: 0, w: 500, h: 50 }, &config(), &narrow_measure());
    assert_eq!(plan.len(), 1);
    assert_eq!(plan[0].label, Some("only".to_string()));
    assert_eq!(plan[0].rect, Rect { x: 0, y: 0, w: 500, h: 10 });
}

#[test]
fn zero_total_duration_yields_one_placeholder_band() {
    let folded = fold_spans(&vec![leaf("idle", 0), leaf("wait", 0)]);
    let plan = render(&folded, Rect { x: 5, y: 7, w: 300, h: 50 }, &config(), &narrow_measure());
    assert_eq!(plan.len(), 1);
    assert_eq!(plan[0].label, None);
    assert_eq!(plan[0].rect, Rect { x: 5, y: 7, w: 300, h: 10 });
}

#[test]
fn bands_narrower_than_the_minimum_are_skipped() {
    let cfg = IcicleConfig::new(10, 50, 5, vec![1, 2, 3]);
    let folded = fold_spans(&vec![leaf("big", 99), leaf("tiny", 1)]);
    let plan = render(&folded, Rect { x: 0, y: 0, w: 1000, h: 50 }, &cfg, &narrow_measure());
    // the 1% band is only 10 units wide, under the 50-unit minimum
    assert_eq!(plan.len(), 1);
    assert_eq!(plan[0].label, Some("big".to_string()));
    assert_eq!(plan[0].rect, Rect { x: 0, y: 0, w: 990, h: 10 });
}

#[test]
fn widths_tile_exactly_across_a_level() {
    let folded = fold_spans(&vec![leaf("a", 1), leaf("b", 1), leaf("c", 1)]);
    let plan = render(&folded, Rect { x: 0, y: 0, w: 100, h: 50 }, &config(), &narrow_measure());
    assert_eq!(plan.len(), 3);
    assert_eq!(plan[0].rect.w + plan[1].rect.w + plan[2].rect.w, 100);
    assert_eq!(plan[0].rect.x, 0);
    assert_eq!(plan[1].rect.x, plan[0].rect.x + plan[0].rect.w);
    assert_eq!(plan[2].rect.x, plan[1].rect.x + plan[1].rect.w);
}

#[test]
fn colors_cycle_through_the_palette_by_depth() {
    let folded = fold_spans(&vec![node(
        "d0",
        100,
        vec![node("d1", 100, vec![node("d2", 100, vec![leaf("d3", 100)])])],
    )]);
    let plan = render(&folded, Rect { x: 0, y: 0, w: 100, h: 100 }, &config(), &narrow_measure());
    assert_eq!(plan.len(), 4);
    assert_eq!(plan[0].color, 0xff0000);
    assert_eq!(plan[1].color, 0x00ff00);
    assert_eq!(plan[2].color, 0x0000ff);
    assert_eq!(plan[3].color, 0xff0000);
}

#[test]
fn labels_are_truncated_from_the_end_until_they_fit() {
    let measure = CharCellMeasure { char_width: 10 };
    let cfg = config();
    let mut out: Vec<PlanEntry> = Vec::new();
    draw_span_header(&measure, "abcdef", 0, 0, 35, 0, &cfg, &mut out);
    assert_eq!(out.len(), 1);
    assert_eq!(out[0].label, Some("abc".to_string()));
}

#[test]
fn a_label_truncated_to_nothing_is_omitted() {
    let measure = CharCellMeasure { char_width: 100 };
    let cfg = config();
    let mut out: Vec<PlanEntry> = Vec::new();
    draw_span_header(&measure, "abc", 0, 0, 5, 0, &cfg, &mut out);
    assert_eq!(out[0].label, None);

    let mut out2: Vec<PlanEntry> = Vec::new();
    draw_span_header(&narrow_measure(), "", 0, 0, 50, 0, &cfg, &mut out2);
    assert_eq!(out2[0].label, None);
}

#[test]
fn nested_levels_stack_downward_by_layer_height() {
    let folded = fold_spans(&vec![node("top", 10, vec![node("mid", 10, vec![leaf("deep", 10)])])]);
    let plan = render(&folded, Rect { x: 0, y: 20, w: 100, h: 100 }, &config(), &narrow_measure());
    assert_eq!(plan.len(), 3);
    assert_eq!(plan[0].rect.y, 20);
    assert_eq!(plan[1].rect.y, 30);
    assert_eq!(plan[2].rect.y, 40);
}
