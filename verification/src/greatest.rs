//! The greatest of a sequence of scalar values.

use crate::double::Double;
use crate::scalar::{Scalar, ScalarValue};
use crate::single::Single;
use crate::text::{string_precedes, text_precedes};
use vstd::prelude::*;

verus! {

/// The larger of two values of one variant, the first when neither is
/// larger: integers and floating-point numbers by their value, `false`
/// before `true`, texts by their bytes. Where the variants differ or a
/// payload is missing there is no order, and the first is kept.
pub open spec fn larger(current: Scalar, candidate: Scalar) -> Scalar {
    match (current, candidate) {
        (Scalar::Int32(Some(a)), Scalar::Int32(Some(b))) => if a < b {
            candidate
        } else {
            current
        },
        (Scalar::Int64(Some(a)), Scalar::Int64(Some(b))) => if a < b {
            candidate
        } else {
            current
        },
        (Scalar::Float32(Some(a)), Scalar::Float32(Some(b))) => Scalar::Float32(
            Some(a.greater(b)),
        ),
        (Scalar::Float64(Some(a)), Scalar::Float64(Some(b))) => Scalar::Float64(
            Some(a.greater(b)),
        ),
        (Scalar::Boolean(Some(a)), Scalar::Boolean(Some(b))) => if !a && b {
            candidate
        } else {
            current
        },
        (Scalar::Utf8(Some(a)), Scalar::Utf8(Some(b))) => if text_precedes(a, b) {
            candidate
        } else {
            current
        },
        _ => current,
    }
}

/// The running maximum after `candidate` has been seen. Two numbers are
/// first brought to the kind that joins theirs, so the result may be of a
/// kind that neither had; every other pair is compared as it is.
pub open spec fn pick_max(current: Scalar, candidate: Scalar) -> Scalar {
    match (current.kind(), candidate.kind()) {
        (Some(a), Some(b)) => larger(
            current.promoted(a.join(b)),
            candidate.promoted(a.join(b)),
        ),
        _ => larger(current, candidate),
    }
}

/// The greatest of `values`: `Null` if there are none, else what
/// [`pick_max`] leaves when the values are seen from the first to the last.
pub open spec fn fold_max(values: Seq<Scalar>) -> Scalar
    decreases values.len(),
{
    if values.len() == 0 {
        Scalar::Null
    } else if values.len() == 1 {
        values[0]
    } else {
        pick_max(fold_max(values.drop_last()), values.last())
    }
}

/// What each of `values` holds.
pub open spec fn views(values: Seq<ScalarValue>) -> Seq<Scalar> {
    values.map_values(|v: ScalarValue| v@)
}

/// The greatest of each of `columns`.
pub open spec fn column_maxima(columns: Seq<Vec<ScalarValue>>) -> Seq<Scalar> {
    columns.map_values(|c: Vec<ScalarValue>| fold_max(views(c@)))
}

/// Returns the greater of two values, with the kinds of numbers joined as
/// [`pick_max`] says. A pair without an order gives `current_max` back:
/// that is the rule for such pairs, and no error.
pub fn compare_values(current_max: ScalarValue, new_value: ScalarValue) -> (r: ScalarValue)
    ensures
        r@ == pick_max(current_max@, new_value@),
{
    match (current_max, new_value) {
        (ScalarValue::Int32(Some(max)), ScalarValue::Int32(Some(new))) => {
            ScalarValue::Int32(Some(if max < new { new } else { max }))
        },
        (ScalarValue::Int32(Some(max)), ScalarValue::Int64(Some(new))) => {
            let max = max as i64;
            ScalarValue::Int64(Some(if max < new { new } else { max }))
        },
        (ScalarValue::Int32(Some(max)), ScalarValue::Float32(Some(new))) => {
            ScalarValue::Float32(Some(Single::from_i32(max).max(new)))
        },
        (ScalarValue::Int32(Some(max)), ScalarValue::Float64(Some(new))) => {
            ScalarValue::Float64(Some(Double::from_i32(max).max(new)))
        },
        (ScalarValue::Int64(Some(max)), ScalarValue::Int32(Some(new))) => {
            let new = new as i64;
            ScalarValue::Int64(Some(if max < new { new } else { max }))
        },
        (ScalarValue::Int64(Some(max)), ScalarValue::Int64(Some(new))) => {
            ScalarValue::Int64(Some(if max < new { new } else { max }))
        },
        (ScalarValue::Int64(Some(max)), ScalarValue::Float32(Some(new))) => {
            ScalarValue::Float64(Some(Double::from_i64(max).max(Double::from_single(new))))
        },
        (ScalarValue::Int64(Some(max)), ScalarValue::Float64(Some(new))) => {
            ScalarValue::Float64(Some(Double::from_i64(max).max(new)))
        },
        (ScalarValue::Float32(Some(max)), ScalarValue::Int32(Some(new))) => {
            ScalarValue::Float32(Some(max.max(Single::from_i32(new))))
        },
        (ScalarValue::Float32(Some(max)), ScalarValue::Int64(Some(new))) => {
            ScalarValue::Float64(Some(Double::from_single(max).max(Double::from_i64(new))))
        },
        (ScalarValue::Float32(Some(max)), ScalarValue::Float32(Some(new))) => {
            ScalarValue::Float32(Some(max.max(new)))
        },
        (ScalarValue::Float32(Some(max)), ScalarValue::Float64(Some(new))) => {
            ScalarValue::Float64(Some(Double::from_single(max).max(new)))
        },
        (ScalarValue::Float64(Some(max)), ScalarValue::Int32(Some(new))) => {
            ScalarValue::Float64(Some(max.max(Double::from_i32(new))))
        },
        (ScalarValue::Float64(Some(max)), ScalarValue::Int64(Some(new))) => {
            ScalarValue::Float64(Some(max.max(Double::from_i64(new))))
        },
        (ScalarValue::Float64(Some(max)), ScalarValue::Float32(Some(new))) => {
            ScalarValue::Float64(Some(max.max(Double::from_single(new))))
        },
        (ScalarValue::Float64(Some(max)), ScalarValue::Float64(Some(new))) => {
            ScalarValue::Float64(Some(max.max(new)))
        },
        (ScalarValue::Boolean(Some(max)), ScalarValue::Boolean(Some(new))) => {
            ScalarValue::Boolean(Some(max || new))
        },
        (ScalarValue::Utf8(Some(max)), ScalarValue::Utf8(Some(new))) => {
            if string_precedes(&max, &new) {
                ScalarValue::Utf8(Some(new))
            } else {
                ScalarValue::Utf8(Some(max))
            }
        },
        (current_max, _) => current_max,
    }
}

/// Updates the running maximum with a new value: the value itself where
/// there was none, else the greater of the two.
pub fn pick_max_value(max_value: Option<ScalarValue>, new_value: ScalarValue) -> (r: Option<
    ScalarValue,
>)
    ensures
        r is Some,
        max_value is None ==> r->0 == new_value,
        max_value is Some ==> r->0@ == pick_max(max_value->0@, new_value@),
{
    match max_value {
        Some(current_max) => Some(compare_values(current_max, new_value)),
        None => Some(new_value),
    }
}

/// Finds the greatest of `values`; `Null` where there are none.
pub fn greatest(values: Vec<ScalarValue>) -> (r: ScalarValue)
    ensures
        r@ == fold_max(views(values@)),
        values@.len() == 0 ==> r@ == Scalar::Null,
        values@.len() == 1 ==> r@ == values@[0]@,
{
    let ghost all = views(values@);
    let mut max_value: Option<ScalarValue> = None;
    for value in it: values
        invariant
            views(it.seq()) == all,
            it.index() == 0 ==> max_value is None,
            it.index() > 0 ==> max_value is Some && max_value->0@ == fold_max(
                all.take(it.index() as int),
            ),
    {
        proof {
            let seen = all.take(it.index() + 1);
            assert(seen.drop_last() == all.take(it.index() as int));
            assert(seen.last() == value@);
        }
        max_value = pick_max_value(max_value, value);
    }
    proof {
        assert(all.take(all.len() as int) == all);
    }
    match max_value {
        Some(max) => max,
        None => ScalarValue::Null,
    }
}

/// Finds the greatest of the greatest values of `columns`: each column is
/// reduced by itself, and the results are reduced in the order of the
/// columns. A column without values counts as `Null`.
pub fn greatest_in_columns(columns: Vec<Vec<ScalarValue>>) -> (r: ScalarValue)
    ensures
        r@ == fold_max(column_maxima(columns@)),
{
    let ghost all = column_maxima(columns@);
    let mut overall_max: Option<ScalarValue> = None;
    for column in it: columns
        invariant
            column_maxima(it.seq()) == all,
            it.index() == 0 ==> overall_max is None,
            it.index() > 0 ==> overall_max is Some && overall_max->0@ == fold_max(
                all.take(it.index() as int),
            ),
    {
        proof {
            let seen = all.take(it.index() + 1);
            assert(seen.drop_last() == all.take(it.index() as int));
            assert(seen.last() == fold_max(views(column@)));
        }
        let column_max = greatest(column);
        overall_max = pick_max_value(overall_max, column_max);
    }
    proof {
        assert(all.take(all.len() as int) == all);
    }
    match overall_max {
        Some(max) => max,
        None => ScalarValue::Null,
    }
}

} // verus!
