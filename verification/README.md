# beam_rs

A small engine for the core of the Apache Beam programming model, written and
verified in Verus. It has no dependencies beyond the standard library and vstd.

| Concept | Type | Module |
|---|---|---|
| Event time | `Timestamp` | `timestamp` |
| Collection of timestamped elements | `PCollection` | `collection` |
| Map, flat map, filter, group by key, combine per key | `Transforms` | `transforms`, `groups` |
| Fixed, sliding and session windows | `WindowAssigner` | `window`, `plan`, `order`, `assigner` |
| Progress of event time | `Watermark` | `watermark` |
| Windowed aggregation | `DirectRunner` | `runner`, `totals` |

## Event times

A `Timestamp` holds the bits of an IEEE 754 double. Its value is modelled
exactly, as a whole number of units of `2^-1074`, so that the contracts speak of
fractions, infinities and NaNs as they are. `Timestamp::from_bits` takes what
`f64::to_bits` gives. Windows work on whole seconds, rounded down; the gaps of
sessions and the progress of the watermark are compared exactly.

A NaN counts as second 0 and never moves a watermark.

## Plans

What a strategy does with a collection is stated as a *plan*: the windows in
order, each with the positions of its elements (`plan::is_plan`). There is only
one plan for a strategy and given event times (`laws::plans`). Assignment clones
the elements that a plan lists, and aggregation sums their values by key.

The bounds of windows and the sums by key have to lie within `i64`.
`WindowAssigner::can_assign` and `DirectRunner::can_aggregate` say whether they
do.

## Laws

`laws` holds what is true of the library as a whole: that fixed windows tile the
time line and move with the times, that every element is in exactly one fixed
window and one session, in how many sliding windows it is, that sessions are
apart and merge as the gap grows, that sums are conserved, that the order of a
collection does not matter to its windows and sums, that joining collections
joins their groups, and that watermarks do not go back.

## Layout

- `src/`: the library
- `tests/`: its tests
- `app/`: a demo that runs five pipelines
