use avenue_model::features::{FeatureValue, Features};
use avenue_model::frame::{ColumnValues, Frame, FrameColumn};
use avenue_model::quantity::{Quantity, INFINITY_KEY};
use avenue_model::rating_model::{
    ColumnError, Dtype, FeatureError, LinkFunction, RatingModel, RatingTable, VariateError,
};

fn q(x: f64) -> Quantity {
    if x.is_nan() {
        Quantity::Undefined
    } else if x == f64::INFINITY {
        Quantity::Ordered(INFINITY_KEY)
    } else if x == f64::NEG_INFINITY {
        Quantity::Ordered(i64::MIN)
    } else {
        let bits = x.to_bits() as i64;
        if bits < 0 {
            Quantity::Ordered(-(bits & i64::MAX))
        } else {
            Quantity::Ordered(bits)
        }
    }
}

fn age_table() -> RatingTable {
    let frame = Frame::new(vec![
        FrameColumn {
            name: "age".to_string(),
            values: ColumnValues::Float(vec![Some(q(25.0)), Some(q(60.0)), Some(q(f64::INFINITY))]),
        },
        FrameColumn {
            name: "Rating_Factor".to_string(),
            values: ColumnValues::Float(vec![Some(q(0.3)), None, Some(q(-0.1))]),
        },
    ])
    .expect("frame");
    RatingTable::new(frame)
}

fn age(x: f64) -> Features {
    let mut f = Features::new();
    f.insert("age".to_string(), FeatureValue::Numeric(q(x)));
    f
}

#[test]
fn factor_of_a_row() {
    let t = age_table();
    assert_eq!(t.get_rating_factor(0), q(0.3));
    assert_eq!(t.get_rating_factor(1), Quantity::Undefined);
    assert_eq!(t.get_rating_factor(2), q(-0.1));
}

#[test]
fn predict_reads_the_matched_row() {
    let t = age_table();
    assert_eq!(t.predict(&age(18.0)), q(0.3));
    assert_eq!(t.predict(&age(25.0)), q(0.3));
    assert_eq!(t.predict(&age(70.0)), q(-0.1));
    // Nothing to match on: undefined.
    assert_eq!(t.predict(&Features::new()), Quantity::Undefined);
}

#[test]
fn batch_skips_missing_rows_and_null_factors() {
    let t = age_table();
    let got = t.get_rating_factor_batch(&vec![Some(2), Some(1), None, Some(7), Some(0), Some(-1), Some(2)]);
    assert_eq!(got, vec![q(-0.1), q(0.3), q(-0.1)]);
}

#[test]
fn predict_batch_gives_one_factor_per_row() {
    let t = age_table();
    let df = Frame::new(vec![FrameColumn {
        name: "age".to_string(),
        values: ColumnValues::Float(vec![Some(q(30.0)), None, Some(q(80.0))]),
    }])
    .expect("frame");
    assert_eq!(t.predict_batch(&df), vec![Quantity::Undefined, Quantity::Undefined, q(-0.1)]);
}

fn intercept() -> RatingTable {
    RatingTable::new(
        Frame::new(vec![FrameColumn {
            name: "Rating_Factor".to_string(),
            values: ColumnValues::Float(vec![Some(q(0.1))]),
        }])
        .expect("frame"),
    )
}

fn region_table() -> RatingTable {
    RatingTable::new(
        Frame::new(vec![
            FrameColumn { name: "region".to_string(), values: ColumnValues::Int32(vec![Some(1), Some(-999)]) },
            FrameColumn { name: "age".to_string(), values: ColumnValues::Int32(vec![Some(3), Some(4)]) },
            FrameColumn {
                name: "Rating_Factor".to_string(),
                values: ColumnValues::Float(vec![Some(q(0.2)), Some(q(0.0))]),
            },
        ])
        .expect("frame"),
    )
}

fn offered(entries: &[(&str, bool)]) -> Vec<(String, bool)> {
    entries.iter().map(|(n, w)| (n.to_string(), *w)).collect()
}

#[test]
fn validate_features_reports_every_missing_feature() {
    let model = RatingModel::new(vec![intercept(), age_table(), region_table()], LinkFunction::Log);
    let err = model.validate_features(&offered(&[("age", true)])).unwrap_err();
    assert_eq!(
        err,
        FeatureError::Missing {
            missing: vec!["region".to_string()],
            required: vec!["age".to_string(), "region".to_string()],
        }
    );
}

#[test]
fn validate_features_keeps_the_first_dtype() {
    // "age" is a number in the first table that reads it, so a fraction is fine.
    let model = RatingModel::new(vec![intercept(), age_table(), region_table()], LinkFunction::Log);
    assert_eq!(model.validate_features(&offered(&[("age", false), ("region", true)])), Ok(()));
    let err = model.validate_features(&offered(&[("age", true), ("region", false)])).unwrap_err();
    assert_eq!(err, FeatureError::NotWhole { feature: "region".to_string() });
}

#[test]
fn validate_features_refuses_text_columns() {
    let text = RatingTable::new(
        Frame::new(vec![
            FrameColumn { name: "brand".to_string(), values: ColumnValues::Text(vec![Some("a".to_string())]) },
            FrameColumn { name: "Rating_Factor".to_string(), values: ColumnValues::Float(vec![Some(q(0.0))]) },
        ])
        .expect("frame"),
    );
    let model = RatingModel::new(vec![intercept(), text], LinkFunction::Identity);
    assert_eq!(
        model.validate_features(&offered(&[("brand", true)])),
        Err(FeatureError::Unsupported { feature: "brand".to_string(), dtype: Dtype::String })
    );
    // The intercept's table is never read.
    let only = RatingModel::new(vec![intercept()], LinkFunction::Identity);
    assert_eq!(only.validate_features(&Vec::new()), Ok(()));
}

#[test]
fn check_columns_reports_missing_then_mismatched() {
    let model = RatingModel::new(vec![intercept(), age_table(), region_table()], LinkFunction::Log);
    let only_age = Frame::new(vec![FrameColumn {
        name: "age".to_string(),
        values: ColumnValues::Int32(vec![Some(30)]),
    }])
    .expect("frame");
    assert_eq!(
        model.check_columns(&only_age),
        Err(ColumnError::Missing { columns: vec!["region".to_string()] })
    );
    // The last table to read "age" reads it as codes.
    let floats = Frame::new(vec![
        FrameColumn { name: "age".to_string(), values: ColumnValues::Float(vec![Some(q(30.0))]) },
        FrameColumn { name: "region".to_string(), values: ColumnValues::Int32(vec![Some(1)]) },
    ])
    .expect("frame");
    assert_eq!(
        model.check_columns(&floats),
        Err(ColumnError::Mismatch { column: "age".to_string(), found: Dtype::Float64, expected: Dtype::Int32 })
    );
    let codes = Frame::new(vec![
        FrameColumn { name: "region".to_string(), values: ColumnValues::Int32(vec![Some(1)]) },
        FrameColumn { name: "age".to_string(), values: ColumnValues::Int32(vec![Some(30)]) },
    ])
    .expect("frame");
    assert_eq!(model.check_columns(&codes), Ok(()));
}

#[test]
fn as_variate_is_a_straight_line() {
    let t = age_table().as_variate(vec![q(1.0), q(2.0), q(3.0)]).expect("variate");
    assert_eq!(t.variate_degree(), Some(1));
    assert_eq!(t.variate_values(), Some(&vec![q(1.0), q(2.0), q(3.0)]));
    let err = age_table().as_variate(vec![q(1.0), q(1.0), q(1.0)]).unwrap_err();
    assert_eq!(err, VariateError::NoVariation);
}
