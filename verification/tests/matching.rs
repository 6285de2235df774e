use avenue_model::frame::{ColumnValues, Frame, FrameColumn};
use avenue_model::matching::{
    general_matches, plan_for, precompute_all_matches, precompute_table_matches,
    reject_unreadable_columns, scan_matches, MatchError, MatchPlan, NO_MATCH,
};
use avenue_model::quantity::{Quantity, INFINITY_KEY, NEG_INFINITY_KEY};
use avenue_model::rating_model::{LinkFunction, RatingModel, RatingTable};

/// A number's order key, as the data layer hands it to the library.
fn q(x: f64) -> Quantity {
    if x.is_nan() {
        Quantity::Undefined
    } else if x == f64::INFINITY {
        Quantity::Ordered(INFINITY_KEY)
    } else if x == f64::NEG_INFINITY {
        Quantity::Ordered(NEG_INFINITY_KEY)
    } else {
        let bits = x.to_bits() as i64;
        if bits < 0 {
            Quantity::Ordered(-(bits & i64::MAX))
        } else {
            Quantity::Ordered(bits)
        }
    }
}

fn floats(name: &str, values: &[f64]) -> FrameColumn {
    FrameColumn {
        name: name.to_string(),
        values: ColumnValues::Float(values.iter().map(|x| Some(q(*x))).collect()),
    }
}

fn maybe_floats(name: &str, values: &[Option<f64>]) -> FrameColumn {
    FrameColumn {
        name: name.to_string(),
        values: ColumnValues::Float(values.iter().map(|x| x.map(q)).collect()),
    }
}

fn codes(name: &str, values: &[i32]) -> FrameColumn {
    FrameColumn {
        name: name.to_string(),
        values: ColumnValues::Int32(values.iter().map(|x| Some(*x)).collect()),
    }
}

fn maybe_codes(name: &str, values: &[Option<i32>]) -> FrameColumn {
    FrameColumn { name: name.to_string(), values: ColumnValues::Int32(values.to_vec()) }
}

fn frame(columns: Vec<FrameColumn>) -> Frame {
    Frame::new(columns).unwrap()
}

fn factors(n: usize) -> FrameColumn {
    floats("Rating_Factor", &vec![0.0; n])
}

fn table(col: &str, bounds: &[f64]) -> RatingTable {
    RatingTable::new(frame(vec![floats(col, bounds), factors(bounds.len())]))
}

fn cat_table(col: &str, values: &[i32]) -> RatingTable {
    RatingTable::new(frame(vec![codes(col, values), factors(values.len())]))
}

fn cat_obs(col: &str, values: &[i32]) -> Frame {
    frame(vec![codes(col, values)])
}

/// The shortcuts must give exactly what the reference scan gives.
fn agrees_with_scan(table: &RatingTable, df: &Frame) {
    let reference = scan_matches(table, df);
    assert_eq!(precompute_table_matches(table, df), reference, "the chosen plan disagreed with the reference scan");
    assert_eq!(general_matches(table, df), reference, "the pre-resolved scan disagreed with the reference scan");
}

#[test]
fn a_feature_column_the_matcher_cannot_read_is_rejected() {
    for values in [
        ColumnValues::Int64(vec![Some(0), Some(1)]),
        ColumnValues::OtherNumeric(2),
        ColumnValues::OtherNumeric(2),
    ] {
        let t = RatingTable::new(frame(vec![
            FrameColumn { name: "g".to_string(), values },
            factors(2),
        ]));
        let err = reject_unreadable_columns(&t, 3).unwrap_err();
        assert_eq!(err, MatchError::UnreadableColumn { table: 3, column: "g".to_string() });
    }
}

#[test]
fn the_readable_dtypes_and_the_factor_column_are_accepted() {
    let t = RatingTable::new(frame(vec![
        floats("band", &[1.0, 2.0]),
        codes("code", &[1, 2]),
        factors(2),
    ]));
    assert!(reject_unreadable_columns(&t, 0).is_ok());
}

#[test]
fn the_categorical_lookup_agrees_with_the_scan() {
    let t = cat_table("g", &[7, 3, 11, 3]);
    let df = cat_obs("g", &[3, 7, 11, 0, -1, 3]);
    agrees_with_scan(&t, &df);
    assert_eq!(precompute_table_matches(&t, &df), vec![1, 0, 2, NO_MATCH, NO_MATCH, 1]);
}

#[test]
fn an_exact_row_beats_an_earlier_wildcard() {
    let t = cat_table("g", &[-999, 4, 9]);
    let df = cat_obs("g", &[9, 4, 77]);
    agrees_with_scan(&t, &df);
    assert_eq!(precompute_table_matches(&t, &df), vec![2, 1, 0]);
}

#[test]
fn a_second_wildcard_row_is_never_reached() {
    let t = cat_table("g", &[5, -999, -999]);
    let df = cat_obs("g", &[5, 6]);
    agrees_with_scan(&t, &df);
    assert_eq!(precompute_table_matches(&t, &df), vec![0, 1]);
}

#[test]
fn a_null_categorical_observation_matches_nothing() {
    let t = cat_table("g", &[1, 2]);
    let df = frame(vec![maybe_codes("g", &[Some(1), None, Some(2)])]);
    agrees_with_scan(&t, &df);
    assert_eq!(precompute_table_matches(&t, &df), vec![0, NO_MATCH, 1]);
}

#[test]
fn a_null_table_value_falls_back_to_the_scan() {
    let t = RatingTable::new(frame(vec![maybe_codes("g", &[Some(1), None]), factors(2)]));
    let df = cat_obs("g", &[1, 2]);
    assert!(matches!(plan_for(&t, &df), MatchPlan::General));
    agrees_with_scan(&t, &df);
}

#[test]
fn a_float_observation_column_falls_back_to_the_scan() {
    let t = cat_table("g", &[1, 2]);
    let df = frame(vec![floats("g", &[1.0, 2.0])]);
    assert!(matches!(plan_for(&t, &df), MatchPlan::General));
    agrees_with_scan(&t, &df);
}

#[test]
fn binary_search_agrees_with_the_scan() {
    let t = table("x", &[10.0, 20.0, 30.0, f64::INFINITY]);
    let df = frame(vec![floats(
        "x",
        &[-1.0, 0.0, 9.9, 10.0, 10.1, 20.0, 25.0, 30.0, 30.1, 1e300],
    )]);
    agrees_with_scan(&t, &df);
}

#[test]
fn binary_search_agrees_on_a_table_with_no_open_top_band() {
    let t = table("x", &[10.0, 20.0]);
    let df = frame(vec![floats("x", &[5.0, 20.0, 20.001, 1e9])]);
    agrees_with_scan(&t, &df);
    assert_eq!(precompute_table_matches(&t, &df), vec![0, 1, NO_MATCH, NO_MATCH]);
}

#[test]
fn repeated_thresholds_pick_the_first_row_like_the_scan() {
    let t = table("x", &[10.0, 10.0, 20.0]);
    let df = frame(vec![floats("x", &[5.0, 10.0, 15.0])]);
    agrees_with_scan(&t, &df);
}

#[test]
fn descending_thresholds_fall_back_to_the_scan() {
    let t = table("x", &[30.0, 10.0, 20.0]);
    assert!(matches!(plan_for(&t, &frame(vec![floats("x", &[15.0])])), MatchPlan::General));
}

#[test]
fn a_nan_observation_lands_where_the_scan_puts_it() {
    let t = table("x", &[10.0, 20.0, f64::INFINITY]);
    let df = frame(vec![floats("x", &[f64::NAN, 5.0])]);
    agrees_with_scan(&t, &df);
}

#[test]
fn a_two_way_numeric_table_agrees_with_the_scan() {
    let t = RatingTable::new(frame(vec![
        floats("x", &[10.0, 10.0, f64::INFINITY, f64::INFINITY]),
        floats("y", &[5.0, f64::INFINITY, 5.0, f64::INFINITY]),
        factors(4),
    ]));
    let df = frame(vec![
        floats("x", &[1.0, 1.0, 50.0, 50.0, 10.0]),
        floats("y", &[1.0, 50.0, 1.0, 50.0, 5.0]),
    ]);
    agrees_with_scan(&t, &df);
    assert_eq!(precompute_table_matches(&t, &df), vec![0, 1, 2, 3, 0]);
}

#[test]
fn a_mixed_table_agrees_with_the_scan() {
    let t = RatingTable::new(frame(vec![
        codes("g", &[1, 1, 2, -999]),
        floats("x", &[10.0, f64::INFINITY, 10.0, f64::INFINITY]),
        factors(4),
    ]));
    let df = frame(vec![
        codes("g", &[1, 1, 2, 2, 9]),
        floats("x", &[5.0, 50.0, 5.0, 50.0, 5.0]),
    ]);
    agrees_with_scan(&t, &df);
    assert_eq!(precompute_table_matches(&t, &df), vec![0, 1, 2, 3, 3]);
}

#[test]
fn a_null_in_a_two_way_table_still_agrees_with_the_scan() {
    let t = RatingTable::new(frame(vec![
        maybe_floats("x", &[Some(10.0), Some(f64::INFINITY)]),
        maybe_floats("y", &[Some(5.0), None]),
        factors(2),
    ]));
    let df = frame(vec![floats("x", &[1.0, 1.0, 50.0]), floats("y", &[1.0, 50.0, 1.0])]);
    agrees_with_scan(&t, &df);
}

#[test]
fn a_null_observation_in_a_two_way_table_matches_nothing() {
    let t = RatingTable::new(frame(vec![
        floats("x", &[f64::INFINITY]),
        floats("y", &[f64::INFINITY]),
        factors(1),
    ]));
    let df = frame(vec![
        maybe_floats("x", &[Some(1.0), None]),
        maybe_floats("y", &[Some(1.0), Some(1.0)]),
    ]);
    agrees_with_scan(&t, &df);
    assert_eq!(precompute_table_matches(&t, &df), vec![0, NO_MATCH]);
}

#[test]
fn a_table_with_no_features_matches_row_zero() {
    let t = RatingTable::new(frame(vec![factors(1)]));
    let df = frame(vec![floats("x", &[1.0, 2.0, 3.0])]);
    agrees_with_scan(&t, &df);
    assert_eq!(precompute_table_matches(&t, &df), vec![0, 0, 0]);
}

#[test]
fn a_missing_feature_column_matches_nothing() {
    let t = table("x", &[10.0, f64::INFINITY]);
    let df = frame(vec![floats("other", &[1.0])]);
    agrees_with_scan(&t, &df);
    assert_eq!(precompute_table_matches(&t, &df), vec![NO_MATCH]);
}

#[test]
fn all_matches_cover_every_table_in_order() {
    let model = RatingModel::new(
        vec![RatingTable::new(frame(vec![factors(1)])), table("x", &[10.0, f64::INFINITY])],
        LinkFunction::Log,
    );
    let df = frame(vec![floats("x", &[5.0, 50.0])]);
    let all = precompute_all_matches(&model, &df).unwrap();
    assert_eq!(all, vec![vec![0, 0], vec![0, 1]]);
}

#[test]
fn all_matches_refuse_an_unreadable_table_by_its_index() {
    let bad = RatingTable::new(frame(vec![
        FrameColumn { name: "g".to_string(), values: ColumnValues::Int64(vec![Some(1)]) },
        factors(1),
    ]));
    let model = RatingModel::new(vec![RatingTable::new(frame(vec![factors(1)])), bad], LinkFunction::Log);
    let df = frame(vec![floats("x", &[5.0])]);
    assert_eq!(
        precompute_all_matches(&model, &df),
        Err(MatchError::UnreadableColumn { table: 1, column: "g".to_string() })
    );
}

#[test]
fn order_keys_order_as_the_numbers_do() {
    let xs = [f64::NEG_INFINITY, -1e300, -2.5, -0.0, 0.0, 1e-300, 2.5, 1e300, f64::INFINITY];
    for w in xs.windows(2) {
        match (q(w[0]), q(w[1])) {
            (Quantity::Ordered(a), Quantity::Ordered(b)) => assert!(a <= b),
            _ => panic!("a number lost its key"),
        }
    }
    assert!(q(1.0).exceeds(&q(0.5)));
    assert!(!q(f64::NAN).exceeds(&q(0.5)));
}
