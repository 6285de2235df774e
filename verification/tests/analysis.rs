use avenue_model::analysis::AnalysisError;
use avenue_model::frame::{ColumnValues, Frame, FrameColumn};
use avenue_model::quantity::{Quantity, INFINITY_KEY};
use avenue_model::rating_model::{Dtype, LinkFunction, RatingModel, RatingTable};

fn q(x: f64) -> Quantity {
    if x == f64::INFINITY {
        Quantity::Ordered(INFINITY_KEY)
    } else {
        // Non-negative finite values only: their bits order as the numbers do.
        Quantity::Ordered(x.to_bits() as i64)
    }
}

fn floats(name: &str, xs: &[Option<f64>]) -> FrameColumn {
    FrameColumn { name: name.to_string(), values: ColumnValues::Float(xs.iter().map(|x| x.map(q)).collect()) }
}

fn codes(name: &str, xs: &[Option<i32>]) -> FrameColumn {
    FrameColumn { name: name.to_string(), values: ColumnValues::Int32(xs.to_vec()) }
}

fn table(bounds: &[f64]) -> RatingTable {
    let factors: Vec<Option<f64>> = bounds.iter().map(|_| Some(0.5)).collect();
    let b: Vec<Option<f64>> = bounds.iter().map(|x| Some(*x)).collect();
    RatingTable::new(Frame::new(vec![floats("age", &b), floats("Rating_Factor", &factors)]).expect("frame"))
}

fn data(age: FrameColumn, target: FrameColumn, weight: FrameColumn) -> Frame {
    Frame::new(vec![age, target, weight]).expect("frame")
}

fn good() -> Frame {
    data(
        floats("age", &[Some(20.0), Some(40.0), Some(90.0), Some(25.0)]),
        floats("claims", &[Some(1.0), Some(0.0), Some(2.0), Some(0.0)]),
        floats("exposure", &[Some(1.0), Some(0.5), Some(1.0), Some(1.0)]),
    )
}

fn s(x: &str) -> String {
    x.to_string()
}

#[test]
fn each_observation_gets_its_row() {
    let t = table(&[25.0, 60.0, f64::INFINITY]);
    assert_eq!(t.analysis_rows(&good(), &s("claims"), &Some(s("exposure"))), Ok(vec![0, 1, 2, 0]));
    assert_eq!(t.analysis_rows(&good(), &s("claims"), &None), Ok(vec![0, 1, 2, 0]));
}

#[test]
fn missing_feature_columns_are_all_reported() {
    let t = table(&[25.0, f64::INFINITY]);
    let df = Frame::new(vec![floats("claims", &[Some(1.0)])]).expect("frame");
    assert_eq!(
        t.analysis_rows(&df, &s("claims"), &None),
        Err(AnalysisError::MissingColumns { columns: vec![s("age")] })
    );
}

#[test]
fn a_feature_column_of_another_dtype_is_refused() {
    let t = table(&[25.0, f64::INFINITY]);
    let df = data(
        codes("age", &[Some(20)]),
        floats("claims", &[Some(1.0)]),
        floats("exposure", &[Some(1.0)]),
    );
    assert_eq!(
        t.analysis_rows(&df, &s("claims"), &None),
        Err(AnalysisError::Mismatch { column: s("age"), found: Dtype::Int32, expected: Dtype::Float64 })
    );
}

#[test]
fn target_and_weight_are_checked_before_rows() {
    let t = table(&[25.0, f64::INFINITY]);
    let df = data(
        floats("age", &[None]),
        floats("claims", &[Some(1.0)]),
        codes("exposure", &[Some(1)]),
    );
    assert_eq!(
        t.analysis_rows(&df, &s("loss"), &None),
        Err(AnalysisError::MissingTarget { column: s("loss") })
    );
    assert_eq!(
        t.analysis_rows(&df, &s("claims"), &Some(s("weight"))),
        Err(AnalysisError::MissingWeight { column: s("weight") })
    );
    assert_eq!(
        t.analysis_rows(&df, &s("claims"), &Some(s("exposure"))),
        Err(AnalysisError::WeightNotFloat { found: Dtype::Int32 })
    );
}

#[test]
fn a_null_feature_stops_the_analysis_at_its_row() {
    let t = table(&[25.0, f64::INFINITY]);
    let df = data(
        floats("age", &[Some(20.0), None, Some(30.0)]),
        codes("claims", &[Some(1), Some(0), Some(1)]),
        floats("exposure", &[Some(1.0), Some(1.0), Some(1.0)]),
    );
    // The row fault comes before the target's dtype is looked at.
    assert_eq!(
        t.analysis_rows(&df, &s("claims"), &None),
        Err(AnalysisError::Unsupported { feature: s("age"), row: 1 })
    );
}

#[test]
fn an_observation_beyond_every_band_has_no_row() {
    let t = table(&[25.0, 60.0]);
    assert_eq!(t.analysis_rows(&good(), &s("claims"), &None), Err(AnalysisError::NoMatch { row: 2 }));
}

#[test]
fn the_target_must_hold_numbers() {
    let t = table(&[25.0, f64::INFINITY]);
    let df = data(
        floats("age", &[Some(20.0)]),
        codes("claims", &[Some(1)]),
        floats("exposure", &[Some(1.0)]),
    );
    assert_eq!(
        t.analysis_rows(&df, &s("claims"), &None),
        Err(AnalysisError::TargetNotFloat { found: Dtype::Int32 })
    );
}

#[test]
fn a_model_is_analysed_table_by_table() {
    let whole = table(&[f64::INFINITY]);
    let open = table(&[25.0, 60.0, f64::INFINITY]);
    let short = table(&[25.0, 60.0]);
    let model = RatingModel::new(vec![whole.clone(), open], LinkFunction::Log);
    assert_eq!(
        model.analysis_rows(&good(), &s("claims"), &Some(s("exposure"))),
        Ok(vec![vec![0, 0, 0, 0], vec![0, 1, 2, 0]])
    );
    let failing = RatingModel::new(vec![whole, short], LinkFunction::Log);
    assert_eq!(
        failing.analysis_rows(&good(), &s("claims"), &None),
        Err(AnalysisError::NoMatch { row: 2 })
    );
}

#[test]
fn analysis_rows_are_the_rows_scoring_reads() {
    let b = [Some(25.0), Some(60.0), Some(f64::INFINITY)];
    let t = RatingTable::new(
        Frame::new(vec![floats("age", &b), floats("Rating_Factor", &[Some(0.1), Some(0.2), Some(0.3)])])
            .expect("frame"),
    );
    let df = good();
    let rows = t.analysis_rows(&df, &s("claims"), &None).expect("rows");
    let scored = t.predict_batch(&df);
    for (i, r) in rows.iter().enumerate() {
        assert_eq!(scored[i], t.get_rating_factor(*r));
    }
}
