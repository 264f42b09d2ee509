use greatest::double::Double;
use greatest::greatest::{compare_values, greatest, greatest_in_columns, pick_max_value};
use greatest::scalar::ScalarValue;
use greatest::single::Single;

fn float32(x: f32) -> ScalarValue {
    ScalarValue::Float32(Some(Single::from_bits(x.to_bits())))
}

fn float64(x: f64) -> ScalarValue {
    ScalarValue::Float64(Some(Double::from_bits(x.to_bits())))
}

fn text(s: &str) -> ScalarValue {
    ScalarValue::Utf8(Some(s.to_string()))
}

#[test]
fn test_compare_int32() {
    let max = ScalarValue::Int32(Some(1));
    let new = ScalarValue::Int32(Some(2));
    let result = compare_values(max.clone(), new);
    assert_eq!(result, ScalarValue::Int32(Some(2)));

    let new = ScalarValue::Int64(Some(2));
    let result = compare_values(max.clone(), new);
    assert_eq!(result, ScalarValue::Int64(Some(2)));

    let new = float32(2.0);
    let result = compare_values(max.clone(), new);
    assert_eq!(result, float32(2.0));

    let new = float64(2.0);
    let result = compare_values(max.clone(), new);
    assert_eq!(result, float64(2.0));
}

#[test]
fn test_compare_int64() {
    let max = ScalarValue::Int64(Some(1));
    let new = ScalarValue::Int32(Some(2));
    let result = compare_values(max.clone(), new);
    assert_eq!(result, ScalarValue::Int64(Some(2)));

    let new = ScalarValue::Int64(Some(2));
    let result = compare_values(max.clone(), new);
    assert_eq!(result, ScalarValue::Int64(Some(2)));

    let new = float32(2.0);
    let result = compare_values(max.clone(), new);
    assert_eq!(result, float64(2.0));

    let new = float64(2.0);
    let result = compare_values(max.clone(), new);
    assert_eq!(result, float64(2.0));
}

#[test]
fn test_compare_flot64() {
    let max = float64(1.0);
    let new = ScalarValue::Int32(Some(2));
    let result = compare_values(max.clone(), new);
    assert_eq!(result, float64(2.0));

    let new = ScalarValue::Int64(Some(2));
    let result = compare_values(max.clone(), new);
    assert_eq!(result, float64(2.0));

    let new = float32(2.0);
    let result = compare_values(max.clone(), new);
    assert_eq!(result, float64(2.0));

    let new = float64(2.0);
    let result = compare_values(max.clone(), new);
    assert_eq!(result, float64(2.0));
}

#[test]
fn test_compare_boolean() {
    let max = ScalarValue::Boolean(Some(false));
    let new = ScalarValue::Boolean(Some(true));
    let result = compare_values(max, new);
    assert_eq!(result, ScalarValue::Boolean(Some(true)));
}

#[test]
fn test_compare_utf8() {
    let max = ScalarValue::Utf8(Some("apple".to_string()));
    let new = ScalarValue::Utf8(Some("banana".to_string()));
    let result = compare_values(max, new);
    assert_eq!(result, ScalarValue::Utf8(Some("banana".to_string())));
}

#[test]
fn test_compare_unsupported() {
    let max = ScalarValue::Int32(Some(10));
    let new = ScalarValue::Boolean(Some(true));
    let result = compare_values(max.clone(), new);
    assert_eq!(result, max);
}

#[test]
fn test_greatest_in_columns() {
    let columns: Vec<Vec<ScalarValue>> = vec![
        vec![ScalarValue::Int32(Some(1)), ScalarValue::Int64(Some(2))],
        vec![float32(3.0), float64(4.0)],
    ];

    let result = greatest_in_columns(columns);
    assert_eq!(result, float64(4.0), "Failed to get greatest value");
}

#[test]
fn greatest_of_nothing_is_null() {
    assert_eq!(greatest(Vec::new()), ScalarValue::Null);
    assert_eq!(greatest_in_columns(Vec::new()), ScalarValue::Null);
}

#[test]
fn greatest_of_one_value_is_that_value() {
    let values = vec![
        ScalarValue::Null,
        ScalarValue::Boolean(None),
        ScalarValue::Boolean(Some(false)),
        ScalarValue::Int32(None),
        ScalarValue::Int32(Some(-7)),
        ScalarValue::Int64(None),
        ScalarValue::Int64(Some(i64::MIN)),
        ScalarValue::Float32(None),
        float32(-0.0),
        float32(f32::NAN),
        ScalarValue::Float64(None),
        float64(f64::INFINITY),
        ScalarValue::Utf8(None),
        text(""),
        text("pear"),
    ];
    for value in values {
        assert_eq!(greatest(vec![value.clone()]), value);
    }
}

#[test]
fn same_kind_pairs_keep_their_kind() {
    assert_eq!(
        compare_values(ScalarValue::Int32(Some(-3)), ScalarValue::Int32(Some(-9))),
        ScalarValue::Int32(Some(-3))
    );
    assert_eq!(
        compare_values(ScalarValue::Int64(Some(i64::MIN)), ScalarValue::Int64(Some(i64::MAX))),
        ScalarValue::Int64(Some(i64::MAX))
    );
    assert_eq!(compare_values(float32(1.5), float32(-2.5)), float32(1.5));
    assert_eq!(compare_values(float32(-1.5), float32(-1.25)), float32(-1.25));
    assert_eq!(compare_values(float64(1.0e-310), float64(0.0)), float64(1.0e-310));
    assert_eq!(compare_values(float64(-1.0e300), float64(f64::NEG_INFINITY)), float64(-1.0e300));
    assert_eq!(compare_values(float64(1.0e300), float64(f64::INFINITY)), float64(f64::INFINITY));
}

#[test]
fn pick_max_is_idempotent() {
    let values = vec![
        ScalarValue::Int32(Some(5)),
        ScalarValue::Int64(Some(-5)),
        float32(2.5),
        float32(f32::NAN),
        float64(-0.0),
        ScalarValue::Boolean(Some(true)),
        text("same"),
        ScalarValue::Null,
    ];
    for value in values {
        assert_eq!(compare_values(value.clone(), value.clone()), value);
    }
}

#[test]
fn fold_of_one_kind_does_not_depend_on_order() {
    let orders: Vec<Vec<i32>> = vec![
        vec![3, 7, 1],
        vec![3, 1, 7],
        vec![7, 3, 1],
        vec![7, 1, 3],
        vec![1, 3, 7],
        vec![1, 7, 3],
    ];
    for order in orders {
        let values: Vec<ScalarValue> = order.iter().map(|x| ScalarValue::Int32(Some(*x))).collect();
        assert_eq!(greatest(values), ScalarValue::Int32(Some(7)));
    }
}

#[test]
fn pick_max_commutes_and_associates_within_a_kind() {
    let samples: Vec<f64> = vec![-2.0, -0.5, 0.0, 1.0e-320, 0.5, 3.0, f64::INFINITY, f64::NAN];
    for a in samples.iter() {
        for b in samples.iter() {
            assert_eq!(
                compare_values(float64(*a), float64(*b)),
                compare_values(float64(*b), float64(*a))
            );
            for c in samples.iter() {
                assert_eq!(
                    compare_values(compare_values(float64(*a), float64(*b)), float64(*c)),
                    compare_values(float64(*a), compare_values(float64(*b), float64(*c)))
                );
            }
        }
    }
}

#[test]
fn numbers_of_two_kinds_are_promoted() {
    assert_eq!(compare_values(ScalarValue::Int32(Some(10)), float32(3.2)), float32(10.0));
    assert_eq!(compare_values(ScalarValue::Int64(Some(5)), float32(2.0)), float64(5.0));
    assert_eq!(compare_values(float64(1.0), ScalarValue::Int32(Some(2))), float64(2.0));
    assert_eq!(compare_values(float32(3.5), ScalarValue::Int32(Some(2))), float32(3.5));
    assert_eq!(compare_values(float32(3.5), ScalarValue::Int64(Some(2))), float64(3.5));
    assert_eq!(compare_values(float32(3.2), float64(1.0)), float64(3.2f32 as f64));
    assert_eq!(
        compare_values(ScalarValue::Int32(Some(i32::MIN)), ScalarValue::Int64(Some(i64::MIN))),
        ScalarValue::Int64(Some(i32::MIN as i64))
    );
}

#[test]
fn booleans_order_false_before_true() {
    let t = ScalarValue::Boolean(Some(true));
    let f = ScalarValue::Boolean(Some(false));
    assert_eq!(compare_values(f.clone(), t.clone()), t);
    assert_eq!(compare_values(t.clone(), f.clone()), t);
    assert_eq!(compare_values(f.clone(), f.clone()), f);
}

#[test]
fn texts_order_by_their_bytes() {
    assert_eq!(compare_values(text("apple"), text("banana")), text("banana"));
    assert_eq!(compare_values(text("banana"), text("apple")), text("banana"));
    assert_eq!(compare_values(text("app"), text("apple")), text("apple"));
    assert_eq!(compare_values(text("apple"), text("app")), text("apple"));
    assert_eq!(compare_values(text(""), text("a")), text("a"));
    assert_eq!(compare_values(text("Zebra"), text("apple")), text("apple"));
    assert_eq!(compare_values(text("z"), text("\u{e9}")), text("\u{e9}"));
    assert_eq!(compare_values(text("\u{ffff}"), text("\u{10000}")), text("\u{10000}"));
    let samples = ["", "a", "ab", "b", "\u{7f}", "\u{80}", "\u{7ff}", "\u{800}", "\u{10ffff}"];
    for a in samples.iter() {
        for b in samples.iter() {
            let expected = if b > a { text(b) } else { text(a) };
            assert_eq!(compare_values(text(a), text(b)), expected);
        }
    }
}

#[test]
fn pairs_without_an_order_keep_the_first() {
    let ten = ScalarValue::Int32(Some(10));
    assert_eq!(compare_values(ten.clone(), ScalarValue::Boolean(Some(true))), ten);
    assert_eq!(compare_values(text("a"), ten.clone()), text("a"));
    assert_eq!(compare_values(ScalarValue::Boolean(Some(false)), float64(1.0)),
        ScalarValue::Boolean(Some(false)));
    assert_eq!(compare_values(ScalarValue::Null, ten.clone()), ScalarValue::Null);
    assert_eq!(compare_values(ten.clone(), ScalarValue::Null), ten);
}

#[test]
fn a_missing_payload_has_no_order() {
    let three = ScalarValue::Int32(Some(3));
    assert_eq!(compare_values(ScalarValue::Int32(None), three.clone()), ScalarValue::Int32(None));
    assert_eq!(compare_values(three.clone(), ScalarValue::Int32(None)), three);
    assert_eq!(compare_values(three.clone(), ScalarValue::Float64(None)), three);
    assert_eq!(compare_values(ScalarValue::Utf8(None), text("a")), ScalarValue::Utf8(None));
    assert_eq!(
        greatest(vec![ScalarValue::Int64(Some(1)), ScalarValue::Int64(None), ScalarValue::Int64(Some(5))]),
        ScalarValue::Int64(Some(5))
    );
}

#[test]
fn equal_numbers_keep_the_first() {
    assert_eq!(compare_values(float32(0.0), float32(-0.0)), float32(0.0));
    assert_eq!(compare_values(float32(-0.0), float32(0.0)), float32(-0.0));
    assert_eq!(compare_values(float64(-0.0), float64(0.0)), float64(-0.0));
    assert_eq!(compare_values(ScalarValue::Int32(Some(0)), float32(-0.0)), float32(0.0));
    assert_eq!(compare_values(float64(-0.0), ScalarValue::Int64(Some(0))), float64(-0.0));
}

#[test]
fn a_nan_yields_to_the_other_operand() {
    assert_eq!(compare_values(float32(f32::NAN), float32(-1.0)), float32(-1.0));
    assert_eq!(compare_values(float32(-1.0), float32(f32::NAN)), float32(-1.0));
    assert_eq!(compare_values(float64(f64::NAN), float64(f64::NEG_INFINITY)),
        float64(f64::NEG_INFINITY));
    assert_eq!(compare_values(float64(2.0), float64(f64::NAN)), float64(2.0));
    assert_eq!(compare_values(ScalarValue::Int32(Some(4)), float32(f32::NAN)), float32(4.0));
    assert_eq!(compare_values(float32(f32::NAN), ScalarValue::Int32(Some(4))), float32(4.0));
    let first = Single::from_bits(0x7fc0_0001);
    let second = Single::from_bits(0xffc0_0002);
    assert_eq!(first.max(second), second);
    assert_eq!(second.max(first), first);
}

#[test]
fn pick_max_value_starts_with_the_first_value() {
    assert_eq!(pick_max_value(None, ScalarValue::Int32(Some(1))), Some(ScalarValue::Int32(Some(1))));
    assert_eq!(pick_max_value(None, ScalarValue::Null), Some(ScalarValue::Null));
    assert_eq!(
        pick_max_value(Some(ScalarValue::Int32(Some(1))), ScalarValue::Int64(Some(0))),
        Some(ScalarValue::Int64(Some(1)))
    );
}

#[test]
fn mixed_kinds_reduce_from_left_to_right() {
    let values = vec![
        ScalarValue::Int32(Some(1)),
        ScalarValue::Int32(Some(2)),
        float32(3.2),
        ScalarValue::Int32(Some(3)),
        ScalarValue::Int64(Some(4)),
    ];
    assert_eq!(greatest(values), float64(4.0));
    let values = vec![
        ScalarValue::Int64(Some(4)),
        ScalarValue::Int32(Some(3)),
        float32(3.2),
        ScalarValue::Int32(Some(2)),
    ];
    assert_eq!(greatest(values), float64(4.0));
    let values = vec![ScalarValue::Int32(Some(1)), float32(3.2), ScalarValue::Int32(Some(3))];
    assert_eq!(greatest(values), float32(3.2));
}

#[test]
fn columns_are_reduced_one_by_one() {
    let columns = vec![
        vec![ScalarValue::Int32(Some(9)), ScalarValue::Boolean(Some(true))],
        vec![ScalarValue::Int64(Some(3))],
    ];
    assert_eq!(greatest_in_columns(columns), ScalarValue::Int64(Some(9)));
    let columns = vec![vec![ScalarValue::Int32(Some(9))], Vec::new()];
    assert_eq!(greatest_in_columns(columns), ScalarValue::Int32(Some(9)));
    let columns = vec![Vec::new(), vec![ScalarValue::Int32(Some(9))]];
    assert_eq!(greatest_in_columns(columns), ScalarValue::Null);
    let columns = vec![vec![text("b"), text("a")], vec![text("c")]];
    assert_eq!(greatest_in_columns(columns), text("c"));
}
