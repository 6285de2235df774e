use avenue_model::frame::{ColumnValues, Frame, FrameColumn, SelectError};
use avenue_model::quantity::Quantity;
use avenue_model::rating_model::{LinkFunction, RatingModel, RatingTable, TableSemantics};

fn col(name: &str, n: usize) -> FrameColumn {
    FrameColumn { name: name.to_string(), values: ColumnValues::Int32(vec![Some(1); n]) }
}

fn factors(n: usize) -> FrameColumn {
    FrameColumn {
        name: "Rating_Factor".to_string(),
        values: ColumnValues::Float(vec![Some(Quantity::Ordered(0)); n]),
    }
}

fn names(f: &Frame) -> Vec<String> {
    f.columns.iter().map(|c| c.name.clone()).collect()
}

fn s(x: &str) -> String {
    x.to_string()
}

#[test]
fn select_keeps_the_named_columns_in_the_order_asked() {
    let f = Frame::new(vec![col("a", 2), col("b", 2), col("c", 2)]).expect("frame");
    let g = f.select(&vec![s("c"), s("a")]).expect("selection");
    assert_eq!(names(&g), vec![s("c"), s("a")]);
    assert_eq!(g.height, 2);
}

#[test]
fn select_refuses_the_first_missing_name_then_duplicates() {
    let f = Frame::new(vec![col("a", 1), col("b", 1)]).expect("frame");
    assert_eq!(
        f.clone().select(&vec![s("a"), s("x"), s("y")]).map(|g| names(&g)),
        Err(SelectError::NotFound(s("x")))
    );
    assert_eq!(
        f.clone().select(&vec![s("a"), s("a"), s("z")]).map(|g| names(&g)),
        Err(SelectError::NotFound(s("z")))
    );
    assert_eq!(f.select(&vec![s("b"), s("a"), s("b")]).map(|g| names(&g)), Err(SelectError::Duplicate(s("b"))));
}

#[test]
fn from_dataframes_keeps_features_factor_and_row_number() {
    let t = Frame::new(vec![col("row", 1), col("x", 1), col("y", 1), factors(1)]).expect("frame");
    let m = RatingModel::from_dataframes(vec![t.clone(), t.clone()], "Poisson", Some(vec![s("y")]), Some("row"))
        .expect("model");
    assert_eq!(m.link_function, LinkFunction::Log);
    assert_eq!(m.tables.len(), 2);
    assert_eq!(names(&m.tables[1].data), vec![s("y"), s("Rating_Factor"), s("row")]);
    let whole = RatingModel::from_dataframes(vec![t.clone()], "binary", None, None).expect("model");
    assert_eq!(whole.link_function, LinkFunction::Logit);
    assert_eq!(names(&whole.tables[0].data), names(&t));
}

#[test]
fn from_dataframes_refuses_a_table_without_a_feature() {
    let good = Frame::new(vec![col("x", 1), factors(1)]).expect("frame");
    let bad = Frame::new(vec![col("z", 1), factors(1)]).expect("frame");
    let got = RatingModel::from_dataframes(vec![good, bad], "gaussian", Some(vec![s("x")]), None);
    assert_eq!(got.map(|m| m.tables.len()).err(), Some(SelectError::NotFound(s("x"))));
}

#[test]
fn slope_row_is_the_first_row_whose_value_differs() {
    let frame = Frame::new(vec![col("x", 4), factors(4)]).expect("frame");
    let mut t = RatingTable::new(frame);
    assert_eq!(t.slope_row(), None);
    let v = |xs: &[i64]| xs.iter().map(|x| Quantity::Ordered(*x)).collect::<Vec<_>>();
    t.metadata.semantics = TableSemantics::Variate { values: v(&[3, 3, 5, 7]), degree: 1 };
    assert_eq!(t.slope_row(), Some(2));
    t.metadata.semantics = TableSemantics::Variate { values: v(&[3, 3, 3, 3]), degree: 1 };
    assert_eq!(t.slope_row(), None);
    t.metadata.semantics = TableSemantics::Variate { values: v(&[3, 4, 5, 7]), degree: 2 };
    assert_eq!(t.slope_row(), None);
}
