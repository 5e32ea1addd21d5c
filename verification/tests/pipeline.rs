use std::collections::HashMap;

use beam_rs::{
    DirectRunner, PCollection, Timestamp, Transforms, Watermark, Window, WindowAssigner,
    WindowingStrategy,
};

fn ts(seconds: f64) -> Timestamp {
    Timestamp::from_bits(seconds.to_bits())
}

fn at(timestamp: Timestamp) -> f64 {
    f64::from_bits(timestamp.to_bits())
}

#[test]
fn pcollection_from_timestamped() {
    let pc = PCollection::from_timestamped(vec![("a", ts(1.0)), ("b", ts(2.0))]);
    assert_eq!(pc.len(), 2);
    assert!(!pc.is_empty());
    assert_eq!(pc.elements[0].value, "a");
    assert_eq!(at(pc.elements[0].timestamp), 1.0);
}

#[test]
fn pcollection_empty() {
    let pc: PCollection<i32> = PCollection::from_timestamped(vec![]);
    assert!(pc.is_empty());
    assert_eq!(pc.len(), 0);
}

#[test]
fn map_preserves_timestamps() {
    let pc = PCollection::from_timestamped(vec![(1, ts(5.0)), (2, ts(10.0))]);
    let result = Transforms::map(&pc, |x| x * 10);
    assert_eq!(result.elements[0].value, 10);
    assert_eq!(at(result.elements[0].timestamp), 5.0);
    assert_eq!(result.elements[1].value, 20);
}

#[test]
fn flat_map_expands_elements() {
    let pc = PCollection::from_timestamped(vec![("hello world", ts(1.0))]);
    let result = Transforms::flat_map(&pc, |s| {
        s.split_whitespace().map(|w| w.to_string()).collect()
    });
    assert_eq!(result.len(), 2);
    assert_eq!(result.elements[0].value, "hello");
    assert_eq!(result.elements[1].value, "world");
    assert_eq!(at(result.elements[0].timestamp), 1.0);
    assert_eq!(at(result.elements[1].timestamp), 1.0);
}

#[test]
fn filter_removes_elements() {
    let pc = PCollection::from_timestamped(vec![
        (1, ts(0.0)), (2, ts(1.0)), (3, ts(2.0)), (4, ts(3.0)),
    ]);
    let result = Transforms::filter(&pc, |x| x % 2 == 0);
    assert_eq!(result.len(), 2);
    assert_eq!(result.elements[0].value, 2);
    assert_eq!(result.elements[1].value, 4);
}

#[test]
fn group_by_key_groups_correctly() {
    let pc = PCollection::from_timestamped(vec![
        (("a".to_string(), 1), ts(0.0)),
        (("b".to_string(), 2), ts(1.0)),
        (("a".to_string(), 3), ts(2.0)),
    ]);
    let groups = Transforms::group_by_key(&pc);
    assert_eq!(groups.len(), 2);
    assert_eq!(groups.get(&"a".to_string()).unwrap().len(), 2);
    assert_eq!(groups.get(&"b".to_string()).unwrap().len(), 1);
}

#[test]
fn combine_per_key_sums() {
    let pc = PCollection::from_timestamped(vec![
        (("x".to_string(), 10i64), ts(0.0)),
        (("y".to_string(), 20i64), ts(1.0)),
        (("x".to_string(), 30i64), ts(2.0)),
    ]);
    let result = Transforms::combine_per_key(&pc, |vals: &[i64]| vals.iter().sum::<i64>());
    let mut items: Vec<_> = result.elements.iter()
        .map(|e| (e.value.0.clone(), e.value.1))
        .collect();
    items.sort_by(|a, b| a.0.cmp(&b.0));
    assert_eq!(items, vec![("x".into(), 40), ("y".into(), 20)]);
}

#[test]
fn fixed_window_assigns_correctly() {
    let pc = PCollection::from_timestamped(vec![
        (1, ts(0.0)), (2, ts(5.0)), (3, ts(10.0)), (4, ts(15.0)), (5, ts(25.0)),
    ]);
    let windows = WindowAssigner::assign(&pc, &WindowingStrategy::Fixed { size_secs: 10 });
    assert_eq!(windows.len(), 3);
    assert_eq!(windows[0].0, Window { start: 0, end: 10 });
    assert_eq!(windows[0].1.len(), 2);
    assert_eq!(windows[1].0, Window { start: 10, end: 20 });
    assert_eq!(windows[1].1.len(), 2);
    assert_eq!(windows[2].0, Window { start: 20, end: 30 });
    assert_eq!(windows[2].1.len(), 1);
}

#[test]
fn fixed_window_negative_timestamps() {
    let pc = PCollection::from_timestamped(vec![(1, ts(-3.0)), (2, ts(-15.0))]);
    let windows = WindowAssigner::assign(&pc, &WindowingStrategy::Fixed { size_secs: 10 });
    assert_eq!(windows[0].0, Window { start: -20, end: -10 });
    assert_eq!(windows[1].0, Window { start: -10, end: 0 });
}

#[test]
fn fixed_window_empty_input() {
    let pc: PCollection<i32> = PCollection::from_timestamped(vec![]);
    let windows = WindowAssigner::assign(&pc, &WindowingStrategy::Fixed { size_secs: 10 });
    assert!(windows.is_empty());
}

#[test]
fn sliding_window_overlap() {
    let pc = PCollection::from_timestamped(vec![(1, ts(7.0))]);
    let windows = WindowAssigner::assign(
        &pc,
        &WindowingStrategy::Sliding { size_secs: 10, slide_secs: 5 },
    );
    let window_ranges: Vec<(i64, i64)> = windows.iter().map(|(w, _)| (w.start, w.end)).collect();
    assert!(window_ranges.contains(&(0, 10)));
    assert!(window_ranges.contains(&(5, 15)));
}

#[test]
fn session_window_splits_on_gap() {
    let pc = PCollection::from_timestamped(vec![
        (1, ts(1.0)), (2, ts(2.0)), (3, ts(3.0)), (4, ts(20.0)),
    ]);
    let sessions = WindowAssigner::assign(&pc, &WindowingStrategy::Session { gap_secs: 5 });
    assert_eq!(sessions.len(), 2);
    assert_eq!(sessions[0].1.len(), 3);
    assert_eq!(sessions[1].1.len(), 1);
}

#[test]
fn session_window_single_element() {
    let pc = PCollection::from_timestamped(vec![(42, ts(100.0))]);
    let sessions = WindowAssigner::assign(&pc, &WindowingStrategy::Session { gap_secs: 5 });
    assert_eq!(sessions.len(), 1);
    assert_eq!(sessions[0].0, Window { start: 100, end: 105 });
}

#[test]
fn watermark_monotonic_advance() {
    let mut wm = Watermark::new();
    assert_eq!(at(wm.current()), 0.0);
    wm.advance(ts(5.0));
    assert_eq!(at(wm.current()), 5.0);
    wm.advance(ts(3.0));
    assert_eq!(at(wm.current()), 5.0);
    wm.advance(ts(10.0));
    assert_eq!(at(wm.current()), 10.0);
}

#[test]
fn watermark_window_completion() {
    let mut wm = Watermark::new();
    let w = Window { start: 0, end: 10 };
    assert!(!wm.is_window_complete(&w));
    wm.advance(ts(9.9));
    assert!(!wm.is_window_complete(&w));
    wm.advance(ts(10.0));
    assert!(wm.is_window_complete(&w));
}

#[test]
fn runner_fixed_window_aggregation() {
    let input = PCollection::from_timestamped(vec![
        (("a".into(), 1i64), ts(1.0)),
        (("a".into(), 1i64), ts(5.0)),
        (("b".into(), 1i64), ts(3.0)),
        (("a".into(), 1i64), ts(12.0)),
    ]);
    let results = DirectRunner::run_windowed_aggregation(
        &input,
        &WindowingStrategy::Fixed { size_secs: 10 },
    );
    assert_eq!(results[0].0, Window { start: 0, end: 10 });
    let w0: HashMap<String, i64> = results[0].1.iter().cloned().collect();
    assert_eq!(w0["a"], 2);
    assert_eq!(w0["b"], 1);
    assert_eq!(results[1].0, Window { start: 10, end: 20 });
    let w1: HashMap<String, i64> = results[1].1.iter().cloned().collect();
    assert_eq!(w1["a"], 1);
}

#[test]
fn window_display_format() {
    let w = Window { start: 10, end: 20 };
    assert_eq!(w.to_string(), "[10s-20s)");
}
