//! The trace of a search, made ready for a chart.

use vstd::prelude::*;

verus! {

/// `low` and `high` are the least and the greatest of the values.
pub open spec fn spans(values: Seq<i32>, low: i32, high: i32) -> bool {
    &&& values.contains(low)
    &&& values.contains(high)
    &&& forall|i: int| 0 <= i < values.len() ==> low <= #[trigger] values[i] <= high
}

/// The range that an axis must cover to show the values: the least and the
/// greatest of them. There is none if there are no values.
pub fn axis_range(values: &Vec<i32>) -> (range: Option<(i32, i32)>)
    ensures
        (match range {
            Some((low, high)) => spans(values@, low, high),
            None => values@.len() == 0,
        }),
{
    if values.len() == 0 {
        return None;
    }
    let mut low = values[0];
    let mut high = values[0];
    let mut i: usize = 1;
    assert(values@.take(1)[0] == low);
    while i < values.len()
        invariant
            1 <= i <= values@.len(),
            spans(values@.take(i as int), low, high),
        decreases values@.len() - i,
    {
        let ghost seen = values@.take(i as int);
        let ghost more = values@.take(i + 1);
        let value = values[i];
        proof {
            assert(more[i as int] == value);
            let at_low = choose|k: int| 0 <= k < seen.len() && seen[k] == low;
            let at_high = choose|k: int| 0 <= k < seen.len() && seen[k] == high;
            assert(more[at_low] == low && more[at_high] == high);
            assert forall|k: int| 0 <= k < i implies low <= #[trigger] more[k] <= high by {
                assert(seen[k] == more[k]);
            }
        }
        if value < low {
            low = value;
        }
        if value > high {
            high = value;
        }
        i += 1;
    }
    assert(values@.take(i as int) =~= values@);
    Some((low, high))
}

/// The trace as points for a chart: each number of `x` with the energy at
/// the same place of `y`, in their order. If one of the two is longer than
/// the other, what it holds beyond the other's end is left out.
pub fn trace_points(x: &Vec<i32>, y: &Vec<i32>) -> (points: Vec<(i32, i32)>)
    ensures
        points@.len() == (if x@.len() <= y@.len() {
            x@.len()
        } else {
            y@.len()
        }),
        forall|i: int| 0 <= i < points@.len() ==> #[trigger] points@[i] == (x@[i], y@[i]),
{
    let mut points: Vec<(i32, i32)> = Vec::new();
    let mut i: usize = 0;
    while i < x.len() && i < y.len()
        invariant
            i <= x@.len(),
            i <= y@.len(),
            points@.len() == i,
            forall|k: int| 0 <= k < i ==> #[trigger] points@[k] == (x@[k], y@[k]),
        decreases x@.len() - i,
    {
        points.push((x[i], y[i]));
        i += 1;
    }
    points
}

} // verus!
