use simulate::folded::{fold_spans, FoldedSpans};
use simulate::span::{Perf, SampleWindow, Span};

fn leaf(name: &str, duration: u64) -> Span {
    Span { name: name.to_string(), duration, children: Vec::new() }
}

fn node(name: &str, duration: u64, children: Vec<Span>) -> Span {
    Span { name: name.to_string(), duration, children }
}

fn entry_stats(folded: &FoldedSpans, name: &str) -> (u64, u64, u64) {
    for e in folded.spans() {
        if e.name() == name {
            return (e.duration(), e.num_folded(), e.average_duration());
        }
    }
    panic!("no entry named {}", name);
}

#[test]
fn averaging_same_name_three_times() {
    let spans = vec![leaf("work", 10), leaf("work", 20), leaf("work", 30)];
    let folded = fold_spans(&spans);
    assert_eq!(folded.len(), 1);
    let (duration, count, average) = entry_stats(&folded, "work");
    assert_eq!(count, 3);
    assert_eq!(duration, 60);
    assert_eq!(average, 20);
}

#[test]
fn empty_window_folds_to_empty_tree() {
    let window = SampleWindow::new(4);
    let folded = window.fold();
    assert_eq!(folded.len(), 0);
    assert_eq!(folded.duration(), 0);
}

#[test]
fn duration_is_order_independent() {
    let a = || vec![leaf("alpha", 7), leaf("beta", 11)];
    let b = || vec![leaf("gamma", 5)];

    let mut ab = SampleWindow::new(8);
    ab.push(Perf::new(a()));
    ab.push(Perf::new(b()));

    let mut ba = SampleWindow::new(8);
    ba.push(Perf::new(b()));
    ba.push(Perf::new(a()));

    assert_eq!(ab.fold().duration(), ba.fold().duration());
    assert_eq!(ab.fold().duration(), 23);
}

#[test]
fn per_name_records_are_order_independent() {
    let a = || vec![leaf("shared", 10), leaf("only_a", 1)];
    let b = || vec![leaf("shared", 30)];

    let mut ab = SampleWindow::new(8);
    ab.push(Perf::new(a()));
    ab.push(Perf::new(b()));

    let mut ba = SampleWindow::new(8);
    ba.push(Perf::new(b()));
    ba.push(Perf::new(a()));

    for name in ["shared", "only_a"] {
        let fwd = entry_stats(&ab.fold(), name);
        let rev = entry_stats(&ba.fold(), name);
        assert_eq!(fwd, rev);
    }
    assert_eq!(entry_stats(&ab.fold(), "shared"), (40, 2, 20));
}

#[test]
fn fold_merges_nested_children() {
    let sample1 = vec![node("outer", 100, vec![leaf("inner", 40)])];
    let sample2 = vec![node("outer", 60, vec![leaf("inner", 20), leaf("other", 5)])];
    let mut window = SampleWindow::new(4);
    window.push(Perf::new(sample1));
    window.push(Perf::new(sample2));
    let folded = window.fold();

    assert_eq!(folded.len(), 1);
    let (duration, count, average) = entry_stats(&folded, "outer");
    assert_eq!(duration, 160);
    assert_eq!(count, 2);
    assert_eq!(average, 80);

    let outer = &folded.spans()[0];
    let children = outer.children();
    assert_eq!(children.len(), 2);
    let (inner_d, inner_c, _) = entry_stats(children, "inner");
    assert_eq!(inner_d, 60);
    assert_eq!(inner_c, 2);
    let (other_d, other_c, _) = entry_stats(children, "other");
    assert_eq!(other_d, 5);
    assert_eq!(other_c, 1);
}

#[test]
fn first_seen_order_is_kept() {
    let spans = vec![leaf("b", 1), leaf("a", 2), leaf("b", 3), leaf("c", 4)];
    let folded = fold_spans(&spans);
    let names: Vec<String> = folded.spans().iter().map(|e| e.name().clone()).collect();
    assert_eq!(names, vec!["b".to_string(), "a".to_string(), "c".to_string()]);
}

#[test]
fn window_evicts_oldest_sample() {
    let mut window = SampleWindow::new(2);
    window.push(Perf::new(vec![leaf("one", 1)]));
    window.push(Perf::new(vec![leaf("two", 2)]));
    window.push(Perf::new(vec![leaf("three", 4)]));
    assert_eq!(window.len(), 2);
    assert_eq!(window.capacity(), 2);
    let folded = window.fold();
    assert_eq!(folded.duration(), 6);
    let names: Vec<String> = folded.spans().iter().map(|e| e.name().clone()).collect();
    assert_eq!(names, vec!["two".to_string(), "three".to_string()]);
}

#[test]
fn end_to_end_five_sample_window() {
    let mut window = SampleWindow::new(8);
    for sample in 0..5 {
        let mut spans = vec![leaf("Update", 10)];
        if sample != 2 {
            spans.push(leaf("Draw", 5));
        }
        window.push(Perf::new(spans));
    }
    let folded = window.fold();

    let (_, update_count, update_avg) = entry_stats(&folded, "Update");
    assert_eq!(update_count, 5);
    assert_eq!(update_avg, 10);

    let (_, draw_count, draw_avg) = entry_stats(&folded, "Draw");
    assert_eq!(draw_count, 4);
    assert_eq!(draw_avg, 5);

    assert_eq!(folded.duration(), 70);
}

#[test]
fn get_walks_a_path_of_names() {
    let spans = vec![node("outer", 100, vec![node("mid", 50, vec![leaf("deep", 10)])])];
    let folded = fold_spans(&spans);

    let path = vec!["outer".to_string(), "mid".to_string()];
    let level = folded.get(&path).expect("path should resolve");
    assert_eq!(level.len(), 1);
    assert_eq!(level.spans()[0].name(), "deep");

    let empty: Vec<String> = Vec::new();
    assert!(folded.get(&empty).is_some());

    let missing = vec!["outer".to_string(), "nope".to_string()];
    assert!(folded.get(&missing).is_none());
}

#[test]
fn get_perf_sums_matching_spans() {
    let spans = vec![
        node("frame", 30, vec![leaf("draw", 10)]),
        node("frame", 40, vec![leaf("draw", 15)]),
        leaf("idle", 3),
    ];
    let perf = Perf::new(spans);

    let frame = vec!["frame".to_string()];
    assert_eq!(perf.get_perf(&frame), Some(70));

    let draw = vec!["frame".to_string(), "draw".to_string()];
    assert_eq!(perf.get_perf(&draw), Some(25));

    let absent = vec!["nope".to_string()];
    assert_eq!(perf.get_perf(&absent), None);
}

#[test]
fn perf_folded_folds_its_own_forest() {
    let perf = Perf::new(vec![leaf("tick", 4), leaf("tick", 6)]);
    let folded = perf.folded();
    let (duration, count, average) = entry_stats(&folded, "tick");
    assert_eq!(duration, 10);
    assert_eq!(count, 2);
    assert_eq!(average, 5);
}
