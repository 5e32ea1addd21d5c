use beam_rs::{DirectRunner, PCollection, Timestamp, Transforms, Window, WindowAssigner, WindowingStrategy};

fn ts(seconds: f64) -> Timestamp {
    Timestamp::from_bits(seconds.to_bits())
}

fn at(times: &[f64]) -> PCollection<usize> {
    PCollection::from_timestamped(times.iter().enumerate().map(|(i, t)| (i, ts(*t))).collect())
}

fn assigned(times: &[f64], strategy: WindowingStrategy) -> Vec<((i64, i64), Vec<usize>)> {
    let pc = at(times);
    assert!(WindowAssigner::can_assign(&pc, &strategy));
    WindowAssigner::assign(&pc, &strategy)
        .into_iter()
        .map(|(w, elements)| ((w.start, w.end), elements.into_iter().map(|e| e.value).collect()))
        .collect()
}

fn fixed(size_secs: i64) -> WindowingStrategy {
    WindowingStrategy::Fixed { size_secs }
}

fn sliding(size_secs: i64, slide_secs: i64) -> WindowingStrategy {
    WindowingStrategy::Sliding { size_secs, slide_secs }
}

fn session(gap_secs: i64) -> WindowingStrategy {
    WindowingStrategy::Session { gap_secs }
}

#[test]
fn fixed_windows_are_ordered_and_keep_element_order() {
    let windows = assigned(&[25.0, 3.0, 21.0, 0.0, 9.99], fixed(10));
    assert_eq!(windows, vec![((0, 10), vec![1, 3, 4]), ((20, 30), vec![0, 2])]);
}

#[test]
fn fixed_windows_of_fractions_and_nan() {
    // Fractions are rounded down; a NaN counts as second 0.
    let windows = assigned(&[-0.5, -10.5, f64::NAN, 9.99], fixed(10));
    assert_eq!(
        windows,
        vec![((-20, -10), vec![1]), ((-10, 0), vec![0]), ((0, 10), vec![2, 3])]
    );
}

#[test]
fn fixed_windows_of_negative_size() {
    let windows = assigned(&[7.0, -7.0], fixed(-10));
    assert_eq!(windows, vec![((-10, -20), vec![1]), ((0, -10), vec![0])]);
}

#[test]
fn fixed_windows_partition() {
    let times: Vec<f64> = (0..60).map(|i| (i * 37 % 101) as f64 - 50.0).collect();
    let windows = assigned(&times, fixed(7));
    let mut seen = vec![0; times.len()];
    for ((start, end), elements) in &windows {
        assert_eq!(end - start, 7);
        assert_eq!(start.rem_euclid(7), 0);
        for k in elements {
            seen[*k] += 1;
            assert!((*start as f64) <= times[*k] && times[*k] < (*end as f64));
        }
    }
    assert!(seen.iter().all(|n| *n == 1));
    for pair in windows.windows(2) {
        assert!(pair[0].0.1 <= pair[1].0.0);
    }
}

#[test]
fn sliding_windows_overlap() {
    let windows = assigned(&[7.0, 12.0], sliding(10, 5));
    assert_eq!(
        windows,
        vec![((0, 10), vec![0]), ((5, 15), vec![0, 1]), ((10, 20), vec![1])]
    );
}

#[test]
fn sliding_windows_of_negative_times() {
    let windows = assigned(&[-7.0], sliding(10, 5));
    assert_eq!(windows, vec![((-15, -5), vec![0]), ((-10, 0), vec![0])]);
}

#[test]
fn sliding_windows_each_element_in_two() {
    let times: Vec<f64> = (-30..30).map(|i| i as f64).collect();
    let windows = assigned(&times, sliding(10, 5));
    for k in 0..times.len() {
        assert_eq!(windows.iter().filter(|(_, elements)| elements.contains(&k)).count(), 2);
    }
}

#[test]
fn sliding_windows_with_uneven_slide() {
    // Windows end at multiples of the slide, and second 7 is in three of them.
    assert_eq!(
        assigned(&[7.0], sliding(10, 4)),
        vec![((-2, 8), vec![0]), ((2, 12), vec![0]), ((6, 16), vec![0])]
    );
    // Only two such windows hold second 0: it is in a further one.
    assert_eq!(
        assigned(&[0.0], sliding(10, 4)),
        vec![((-6, 4), vec![0]), ((-2, 8), vec![0]), ((0, 10), vec![0])]
    );
    assert_eq!(
        assigned(&[0.0, 1.0, 2.0], sliding(10, 4)),
        vec![
            ((-6, 4), vec![0, 1, 2]),
            ((-2, 8), vec![0, 1, 2]),
            ((0, 10), vec![0, 1]),
            ((2, 12), vec![2]),
        ]
    );
    assert_eq!(
        assigned(&[-0.5], sliding(10, 4)),
        vec![((-10, 0), vec![0]), ((-6, 4), vec![0]), ((-2, 8), vec![0])]
    );
}

#[test]
fn sliding_windows_shorter_than_the_slide() {
    assert_eq!(assigned(&[7.0], sliding(5, 10)), vec![((5, 10), vec![0])]);
    assert_eq!(assigned(&[2.0], sliding(5, 10)), vec![((0, 5), vec![0])]);
    let windows = assigned(&[1.0, 5.0, 8.0, 6.9, 13.0, -10.0, -7.0, 7.0], sliding(3, 10));
    assert_eq!(
        windows,
        vec![
            ((-10, -7), vec![5]),
            ((-7, -4), vec![6]),
            ((0, 3), vec![0]),
            ((3, 6), vec![1]),
            ((6, 9), vec![3]),
            ((7, 10), vec![2, 7]),
            ((13, 16), vec![4]),
        ]
    );
}

#[test]
fn sliding_windows_hold_every_element() {
    for (size, slide) in [(10, 4), (10, 5), (7, 3), (3, 10), (5, 10), (1, 1), (6, 6), (1, 9), (9, 2)] {
        for second in -25i64..25 {
            let windows = assigned(&[second as f64], sliding(size, slide));
            assert_eq!(windows.len() as i64, (size + slide - 1) / slide);
            for ((start, end), _) in &windows {
                assert!(end - start == size && *start <= second && second < *end);
            }
            // Those that end at a multiple of the slide are all there.
            for end in second + 1..=second + size {
                if end.rem_euclid(slide) == 0 {
                    assert!(windows.iter().any(|(w, _)| *w == (end - size, end)));
                }
            }
        }
    }
}

#[test]
fn sliding_windows_at_the_ends_of_the_range() {
    let last = at(&[9223372036854774784.0]);
    assert!(WindowAssigner::can_assign(&last, &sliding(1000, 1000)));
    assert!(!WindowAssigner::can_assign(&last, &sliding(2000, 1000)));
    assert!(!WindowAssigner::can_assign(&last, &sliding(2000, 4000)));
    let first = at(&[-9223372036854775808.0]);
    assert!(!WindowAssigner::can_assign(&first, &sliding(4, 2)));
    assert!(WindowAssigner::can_assign(&first, &sliding(2, 2)));
    assert!(WindowAssigner::can_assign(&first, &sliding(2, 4)));
    assert!(WindowAssigner::can_assign(&first, &sliding(2, 3)));
    assert_eq!(
        assigned(&[-9223372036854775808.0], sliding(2, 2)),
        vec![((i64::MIN, i64::MIN + 2), vec![0])]
    );
}

#[test]
fn sliding_windows_without_extent() {
    assert!(assigned(&[5.0], sliding(0, 5)).is_empty());
    assert!(assigned(&[7.0], sliding(-10, -5)).is_empty());
}

#[test]
fn sliding_by_size_is_fixed() {
    let times: Vec<f64> = (0..40).map(|i| (i * 29 % 83) as f64 - 40.0).collect();
    assert_eq!(assigned(&times, sliding(6, 6)), assigned(&times, fixed(6)));
}

#[test]
fn sessions_are_sorted_and_stable() {
    let windows = assigned(&[20.0, 3.0, 1.0, 2.0, 2.0, 24.9], session(5));
    assert_eq!(windows, vec![((1, 8), vec![2, 3, 4, 1]), ((20, 29), vec![0, 5])]);
}

#[test]
fn session_gap_boundary() {
    // A gap as long as the threshold does not exceed it.
    assert_eq!(assigned(&[0.0, 5.0], session(5)), vec![((0, 10), vec![0, 1])]);
    assert_eq!(assigned(&[0.0, 4.0], session(5)), vec![((0, 9), vec![0, 1])]);
    assert_eq!(assigned(&[0.0, 6.0], session(5)), vec![((0, 5), vec![0]), ((6, 11), vec![1])]);
}

#[test]
fn session_gaps_of_fractions() {
    assert_eq!(assigned(&[0.9, 5.1], session(5)), vec![((0, 10), vec![0, 1])]);
    assert_eq!(assigned(&[0.9, 5.95], session(5)), vec![((0, 5), vec![0]), ((5, 10), vec![1])]);
    assert_eq!(assigned(&[-0.5, 4.5], session(5)), vec![((-1, 9), vec![0, 1])]);
    assert_eq!(assigned(&[-0.5, 4.75], session(5)), vec![((-1, 4), vec![0]), ((4, 9), vec![1])]);
}

#[test]
fn sessions_without_gap() {
    assert_eq!(
        assigned(&[1.0, 2.0, 1.0], session(0)),
        vec![((1, 1), vec![0, 2]), ((2, 2), vec![1])]
    );
}

#[test]
fn larger_gaps_merge_sessions() {
    let times: Vec<f64> = (0..50).map(|i| (i * i * 7 % 997) as f64 / 4.0).collect();
    let mut finer = assigned(&times, session(1));
    for gap in 2..12 {
        let coarser = assigned(&times, session(gap));
        assert!(coarser.len() <= finer.len());
        for (_, elements) in &finer {
            let home = coarser.iter().find(|(_, all)| all.contains(&elements[0])).unwrap();
            assert!(elements.iter().all(|k| home.1.contains(k)));
        }
        finer = coarser;
    }
}

#[test]
fn fixed_windows_shift_with_times() {
    let times: Vec<f64> = (0..30).map(|i| (i * 37 % 101) as f64 - 50.0).collect();
    let before = assigned(&times, fixed(7));
    for count in [-5i64, -1, 0, 3] {
        let by = count * 7;
        let moved: Vec<f64> = times.iter().map(|t| t + by as f64).collect();
        let expected: Vec<((i64, i64), Vec<usize>)> =
            before.iter().map(|((s, e), all)| ((s + by, e + by), all.clone())).collect();
        assert_eq!(assigned(&moved, fixed(7)), expected);
    }
}

#[test]
fn order_of_elements_does_not_matter() {
    let items: Vec<(usize, f64)> = vec![
        (0, 7.0), (1, 2.5), (2, 7.0), (3, -3.25), (4, 30.0), (5, 0.0), (6, -0.0), (7, 25.0),
    ];
    let windows = |items: &Vec<(usize, f64)>, strategy: &WindowingStrategy| {
        let input =
            PCollection::from_timestamped(items.iter().map(|(v, t)| (*v, ts(*t))).collect());
        WindowAssigner::assign(&input, strategy)
            .into_iter()
            .map(|(w, elements)| {
                let mut values: Vec<usize> = elements.into_iter().map(|e| e.value).collect();
                values.sort();
                (w, values)
            })
            .collect::<Vec<(Window, Vec<usize>)>>()
    };
    for strategy in [fixed(10), sliding(10, 4), sliding(3, 7), session(5), session(0)] {
        let expected = windows(&items, &strategy);
        let mut moved = items.clone();
        for _ in 0..items.len() {
            moved.rotate_left(3);
            moved.swap(1, 4);
            assert_eq!(windows(&moved, &strategy), expected);
        }
    }
}

#[test]
fn session_of_no_elements() {
    assert!(assigned(&[], session(5)).is_empty());
}

#[test]
fn session_with_nan() {
    // A NaN sorts after all numbers and counts as second 0.
    assert_eq!(assigned(&[f64::NAN, 5.0], session(5)), vec![((5, 5), vec![1, 0])]);
    assert_eq!(assigned(&[f64::NAN, f64::NAN], session(5)), vec![((0, 5), vec![0, 1])]);
}

#[test]
fn sessions_are_apart() {
    let times: Vec<f64> = (0..50).map(|i| (i * i * 7 % 997) as f64).collect();
    let windows = assigned(&times, session(12));
    let mut seen = vec![0; times.len()];
    for ((start, end), elements) in &windows {
        for k in elements {
            seen[*k] += 1;
            assert!((*start as f64) <= times[*k] && times[*k] < (*end as f64));
        }
    }
    assert!(seen.iter().all(|n| *n == 1));
    for pair in windows.windows(2) {
        assert!(pair[0].0.1 <= pair[1].0.0);
    }
}

#[test]
fn bounds_beyond_range_cannot_be_assigned() {
    let far = at(&[f64::INFINITY]);
    let near = at(&[1.0]);
    assert!(!WindowAssigner::can_assign(&near, &fixed(0)));
    assert!(!WindowAssigner::can_assign(&near, &sliding(10, 0)));
    assert!(!WindowAssigner::can_assign(&far, &session(5)));
    assert!(WindowAssigner::can_assign(&far, &session(0)));
    assert!(!WindowAssigner::can_assign(&far, &sliding(10, 5)));
    assert!(!WindowAssigner::can_assign(&at(&[f64::NEG_INFINITY]), &fixed(10)));
    assert!(!WindowAssigner::can_assign(&far, &fixed(10)));
    assert!(!WindowAssigner::can_assign(&near, &sliding(10, -5)));
    assert!(WindowAssigner::can_assign(&near, &fixed(10)));
    assert!(WindowAssigner::can_assign(&at(&[]), &sliding(10, 5)));
    assert!(assigned(&[], fixed(0)).is_empty());
    assert!(assigned(&[], sliding(10, 0)).is_empty());
}

fn keyed(items: &[(&str, i64, f64)]) -> PCollection<(String, i64)> {
    PCollection::from_timestamped(
        items.iter().map(|(k, v, t)| ((k.to_string(), *v), ts(*t))).collect(),
    )
}

#[test]
fn runner_orders_keys_by_bytes() {
    let input = keyed(&[
        ("b", 1, 1.0), ("\u{e9}", 2, 1.0), ("a", 3, 1.0), ("", 4, 1.0), ("ab", 5, 1.0), ("B", 6, 1.0),
    ]);
    let results = DirectRunner::run_windowed_aggregation(&input, &fixed(10));
    let keys: Vec<&str> = results[0].1.iter().map(|(k, _)| k.as_str()).collect();
    assert_eq!(keys, vec!["", "B", "a", "ab", "b", "\u{e9}"]);
}

#[test]
fn runner_sliding_and_session() {
    let input = keyed(&[("a", 2, 7.0), ("b", 3, 8.0), ("a", 5, 12.0), ("a", 7, 30.0)]);
    let results = DirectRunner::run_windowed_aggregation(&input, &sliding(10, 5));
    assert_eq!(
        results,
        vec![
            (Window { start: 0, end: 10 }, vec![("a".to_string(), 2), ("b".to_string(), 3)]),
            (Window { start: 5, end: 15 }, vec![("a".to_string(), 7), ("b".to_string(), 3)]),
            (Window { start: 10, end: 20 }, vec![("a".to_string(), 5)]),
            (Window { start: 25, end: 35 }, vec![("a".to_string(), 7)]),
            (Window { start: 30, end: 40 }, vec![("a".to_string(), 7)]),
        ]
    );
    let results = DirectRunner::run_windowed_aggregation(&input, &session(5));
    assert_eq!(
        results,
        vec![
            (Window { start: 7, end: 17 }, vec![("a".to_string(), 7), ("b".to_string(), 3)]),
            (Window { start: 30, end: 35 }, vec![("a".to_string(), 7)]),
        ]
    );
}

#[test]
fn runner_conserves_sums() {
    let input = keyed(&[("a", 2, 7.0), ("b", -3, 8.0), ("a", 5, -12.0), ("a", 7, 30.0)]);
    for strategy in [fixed(10), session(5)] {
        let results = DirectRunner::run_windowed_aggregation(&input, &strategy);
        let total: i64 = results.iter().flat_map(|(_, sums)| sums.iter())
            .filter(|(k, _)| k == "a").map(|(_, v)| *v).sum();
        assert_eq!(total, 14);
    }
}

#[test]
fn order_of_elements_does_not_matter_to_sums() {
    let mut items = vec![
        ("a", 2, 7.0), ("b", -3, 8.0), ("a", 5, -12.0), ("a", 7, 30.0), ("c", 1, 7.0), ("b", 4, 7.0),
    ];
    for strategy in [fixed(10), sliding(10, 4), session(5)] {
        let expected = DirectRunner::run_windowed_aggregation(&keyed(&items), &strategy);
        for _ in 0..items.len() {
            items.rotate_left(1);
            items.swap(0, 3);
            let results = DirectRunner::run_windowed_aggregation(&keyed(&items), &strategy);
            assert_eq!(results, expected);
        }
    }
}

#[test]
fn runner_counts_values_once_per_sliding_window() {
    let input = keyed(&[("a", 2, 7.0), ("b", -3, 8.0), ("a", 5, -12.0), ("a", 7, 30.0)]);
    for (size, slide) in [(10, 5), (10, 4), (3, 10)] {
        let results = DirectRunner::run_windowed_aggregation(&input, &sliding(size, slide));
        let total: i64 = results.iter().flat_map(|(_, sums)| sums.iter())
            .filter(|(k, _)| k == "a").map(|(_, v)| *v).sum();
        assert_eq!(total, 14 * ((size + slide - 1) / slide));
    }
}

#[test]
fn runner_emits_the_assigned_windows() {
    let input = keyed(&[("a", 2, 7.0), ("b", -3, 8.0), ("a", 5, -12.0), ("a", 7, 30.0)]);
    for strategy in [fixed(10), sliding(10, 3), session(5)] {
        let assigned: Vec<Window> =
            WindowAssigner::assign(&input, &strategy).into_iter().map(|(w, _)| w).collect();
        let emitted: Vec<Window> = DirectRunner::run_windowed_aggregation(&input, &strategy)
            .into_iter().map(|(w, _)| w).collect();
        assert_eq!(assigned, emitted);
    }
}

#[test]
fn sums_beyond_range_cannot_be_aggregated() {
    let input = keyed(&[("a", i64::MAX, 1.0), ("b", 1, 1.0), ("a", 1, 2.0), ("a", -1, 3.0)]);
    assert!(!DirectRunner::can_aggregate(&input, &fixed(10)));
    assert!(DirectRunner::can_aggregate(&input, &fixed(2)));
    let results = DirectRunner::run_windowed_aggregation(&input, &fixed(2));
    assert_eq!(results[0].1, vec![("a".to_string(), i64::MAX), ("b".to_string(), 1)]);
    assert!(!DirectRunner::can_aggregate(&input, &fixed(0)));
}

#[test]
fn groups_keep_order_and_times() {
    let input = keyed(&[("b", 1, 5.0), ("a", 2, 6.0), ("b", 3, 4.0)]);
    let groups = Transforms::group_by_key(&input);
    let keys: Vec<&str> = groups.entries.iter().map(|(k, _)| k.as_str()).collect();
    assert_eq!(keys, vec!["b", "a"]);
    let b = groups.get(&"b".to_string()).unwrap();
    assert_eq!(b.iter().map(|e| e.value).collect::<Vec<i64>>(), vec![1, 3]);
    assert_eq!(b[1].timestamp.to_bits(), 4.0f64.to_bits());
    assert!(groups.get(&"c".to_string()).is_none());
}

#[test]
fn groups_of_a_join_are_joined() {
    let first = [("b", 1, 5.0), ("a", 2, 6.0), ("b", 3, 4.0)];
    let second = [("c", 4, 1.0), ("b", 5, 2.0)];
    let joined: Vec<(&str, i64, f64)> = first.iter().chain(second.iter()).cloned().collect();
    let values = |items: &[(&str, i64, f64)], key: &str| -> Vec<(i64, u64)> {
        match Transforms::group_by_key(&keyed(items)).get(&key.to_string()) {
            Some(group) => group.iter().map(|e| (e.value, e.timestamp.to_bits())).collect(),
            None => vec![],
        }
    };
    assert_eq!(Transforms::group_by_key(&keyed(&joined)).len(), 3);
    for key in ["a", "b", "c", "d"] {
        let mut expected = values(&first, key);
        expected.extend(values(&second, key));
        assert_eq!(values(&joined, key), expected);
    }
    assert_eq!(
        values(&joined, "b"),
        vec![(1, 5.0f64.to_bits()), (3, 4.0f64.to_bits()), (5, 2.0f64.to_bits())]
    );
}

#[test]
fn combiners_see_the_groups() {
    let input = keyed(&[("b", 1, 5.0), ("a", 2, 6.0), ("b", 3, 4.0)]);
    let groups = Transforms::group_by_key(&input);
    let combined = Transforms::combine_per_key(&input, |values: &[i64]| values.to_vec());
    assert_eq!(combined.len(), groups.len());
    for (result, (key, group)) in combined.elements.iter().zip(groups.entries.iter()) {
        let values: Vec<i64> = group.iter().map(|e| e.value).collect();
        assert_eq!(result.value, (key.clone(), values));
    }
}

#[test]
fn flat_map_to_one_value_is_map() {
    let input = keyed(&[("a", 2, 5.0), ("b", 0, 6.0), ("c", 1, 7.0)]);
    let flat = Transforms::flat_map(&input, |(k, n)| vec![(n + 1, k.clone())]);
    let mapped = Transforms::map(&input, |(k, n)| (n + 1, k.clone()));
    assert_eq!(flat.len(), 3);
    for (a, b) in flat.elements.iter().zip(mapped.elements.iter()) {
        assert_eq!(a.value, b.value);
        assert_eq!(a.timestamp.to_bits(), b.timestamp.to_bits());
    }
}

#[test]
fn flat_map_to_the_value_or_nothing_is_filter() {
    let input = keyed(&[("a", 2, 5.0), ("b", 0, 6.0), ("c", 1, 7.0), ("d", 4, 8.0)]);
    let flat = Transforms::flat_map(&input, |item| {
        if item.1 > 1 { vec![item.clone()] } else { vec![] }
    });
    let filtered = Transforms::filter(&input, |item| item.1 > 1);
    assert_eq!(flat.len(), 2);
    assert_eq!(filtered.len(), 2);
    for (a, b) in flat.elements.iter().zip(filtered.elements.iter()) {
        assert_eq!(a.value, b.value);
        assert_eq!(a.timestamp.to_bits(), b.timestamp.to_bits());
    }
}

#[test]
fn filtering_twice_is_filtering_once() {
    let input = keyed(&[("a", 2, 5.0), ("b", 0, 6.0), ("c", 1, 7.0), ("d", 4, 8.0)]);
    let once = Transforms::filter(&input, |item| item.1 > 0);
    let twice = Transforms::filter(&once, |item| item.1 > 0);
    assert_eq!(once.len(), 3);
    assert_eq!(twice.len(), 3);
    for (a, b) in once.elements.iter().zip(twice.elements.iter()) {
        assert_eq!(a.value, b.value);
        assert_eq!(a.timestamp.to_bits(), b.timestamp.to_bits());
    }
}

#[test]
fn combined_values_have_the_earliest_time() {
    let input = keyed(&[
        ("x", 1, 5.0), ("y", 2, f64::NAN), ("x", 3, f64::NAN), ("x", 4, 2.5), ("x", 5, 9.0),
    ]);
    let result = Transforms::combine_per_key(&input, |values: &[i64]| values.to_vec());
    assert_eq!(result.elements[0].value, ("x".to_string(), vec![1, 3, 4, 5]));
    assert_eq!(result.elements[0].timestamp.to_bits(), 2.5f64.to_bits());
    assert_eq!(result.elements[1].value, ("y".to_string(), vec![2]));
    assert_eq!(result.elements[1].timestamp.to_bits(), f64::INFINITY.to_bits());
}

#[test]
fn flat_map_inherits_times_in_order() {
    let input = keyed(&[("a", 2, 5.0), ("b", 0, 6.0), ("c", 1, 7.0)]);
    let result = Transforms::flat_map(&input, |(k, n)| {
        (0..*n).map(|i| format!("{}{}", k, i)).collect()
    });
    let items: Vec<(&str, f64)> = result.elements.iter()
        .map(|e| (e.value.as_str(), f64::from_bits(e.timestamp.to_bits()))).collect();
    assert_eq!(items, vec![("a0", 5.0), ("a1", 5.0), ("c0", 7.0)]);
}

#[test]
fn clones_keep_values_and_times() {
    let input = keyed(&[("a", 2, 5.0), ("b", 0, 6.0)]);
    let copy = input.clone();
    assert_eq!(copy.len(), 2);
    assert_eq!(copy.elements[1].value, ("b".to_string(), 0));
    assert_eq!(copy.elements[1].timestamp.to_bits(), 6.0f64.to_bits());
}
