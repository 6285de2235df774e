use avenue_model::features::{FeatureValue, Features};
use avenue_model::frame::{ColumnValues, Frame, FrameColumn};
use avenue_model::quantity::{Quantity, INFINITY_KEY, NEG_INFINITY_KEY};
use avenue_model::rating_model::RatingTable;
use avenue_model::review::ReviewError;

fn q(x: f64) -> Quantity {
    if x.is_nan() {
        Quantity::Undefined
    } else if x == f64::INFINITY {
        Quantity::Ordered(INFINITY_KEY)
    } else if x == f64::NEG_INFINITY {
        Quantity::Ordered(NEG_INFINITY_KEY)
    } else {
        let bits = x.to_bits() as i64;
        if bits < 0 {
            Quantity::Ordered(-(bits & i64::MAX))
        } else {
            Quantity::Ordered(bits)
        }
    }
}

fn key(v: Option<Quantity>) -> i64 {
    match v {
        Some(Quantity::Ordered(k)) => k,
        _ => panic!("a bound with no key"),
    }
}

fn floats(name: &str, values: &[f64]) -> FrameColumn {
    FrameColumn {
        name: name.to_string(),
        values: ColumnValues::Float(values.iter().map(|x| Some(q(*x))).collect()),
    }
}

fn maybe_floats(name: &str, values: &[Option<f64>]) -> FrameColumn {
    FrameColumn {
        name: name.to_string(),
        values: ColumnValues::Float(values.iter().map(|x| x.map(q)).collect()),
    }
}

fn codes(name: &str, values: &[i32]) -> FrameColumn {
    FrameColumn {
        name: name.to_string(),
        values: ColumnValues::Int32(values.iter().map(|x| Some(*x)).collect()),
    }
}

fn frame(columns: Vec<FrameColumn>) -> Frame {
    Frame::new(columns).unwrap()
}

fn status(data: &Frame) -> String {
    let column = data.columns.iter().find(|c| c.name == "Band_Interval_Status").unwrap();
    match &column.values {
        ColumnValues::Text(v) => v[0].clone().unwrap(),
        _ => panic!("status is text"),
    }
}

#[test]
fn displayed_grid_intervals_match_lookup_at_boundaries_and_tails() {
    let mut a = vec![];
    let mut b = vec![];
    let mut category = vec![];
    for level in [1i32, 2] {
        for x in [0., f64::INFINITY] {
            for z in [5., f64::INFINITY] {
                a.push(x);
                b.push(z);
                category.push(level);
            }
        }
    }
    let make = || {
        RatingTable::new(frame(vec![
            floats("a", &a),
            floats("b", &b),
            codes("c", &category),
            floats("Rating_Factor", &[0.0; 8]),
        ]))
    };
    let table = make();
    let review = make().review_data().unwrap();
    assert!(review.ordered);
    assert_eq!(status(&review.data), "ordered_grid");
    assert_eq!(review.intervals.len(), 2);
    assert_eq!(review.intervals[0].column, "a");
    assert_eq!(review.intervals[1].column, "b");
    for c in [1, 2] {
        for x in [-100., 0., f64::EPSILON, 100.] {
            for z in [-100., 5., 5. + 1e-12, 100.] {
                let mut input = Features::new();
                input.insert("a".to_string(), FeatureValue::Numeric(q(x)));
                input.insert("b".to_string(), FeatureValue::Numeric(q(z)));
                input.insert("c".to_string(), FeatureValue::Categorical(c));
                let matches: Vec<usize> = (0..8)
                    .filter(|&r| {
                        category[r] == c
                            && [(0usize, x), (1, z)].iter().all(|(axis, value)| {
                                let interval = &review.intervals[*axis];
                                let v = key(Some(q(*value)));
                                v > key(interval.lower[r]) && v <= key(interval.upper[r])
                            })
                    })
                    .collect();
                assert_eq!(matches, vec![table.find_row_match(&input).unwrap()]);
            }
        }
    }
}

#[test]
fn irregular_and_missing_route_tables_are_not_assigned_guessed_bounds() {
    for data in [
        frame(vec![
            floats("x", &[0., f64::INFINITY, f64::INFINITY]),
            floats("z", &[0., 0., f64::INFINITY]),
            floats("Rating_Factor", &[0.; 3]),
        ]),
        frame(vec![
            floats("x", &[0., f64::INFINITY]),
            codes("c", &[1, -999]),
            floats("Rating_Factor", &[0.; 2]),
        ]),
    ] {
        let review = RatingTable::new(data).review_data().unwrap();
        assert!(review.intervals.is_empty());
    }
    for bounds in [
        vec![Some(f64::INFINITY), Some(0.)],
        vec![Some(0.), None],
        vec![Some(0.), Some(f64::NAN)],
    ] {
        let table = RatingTable::new(frame(vec![
            maybe_floats("x", &bounds),
            floats("Rating_Factor", &[0., 0.]),
        ]));
        let review = table.review_data().unwrap();
        assert!(review.intervals.is_empty());
        assert_eq!(status(&review.data), "requires_match_review");
        let names: Vec<&str> = review.data.columns.iter().map(|c| c.name.as_str()).collect();
        assert_eq!(names, vec!["x", "Rating_Factor", "Band_Interval_Status"]);
    }
}

#[test]
fn interval_labels_cannot_replace_an_existing_predictor() {
    let table = RatingTable::new(frame(vec![
        floats("x", &[0., 0., f64::INFINITY, f64::INFINITY]),
        floats("x_Lower", &[1., f64::INFINITY, 1., f64::INFINITY]),
        floats("Rating_Factor", &[0.; 4]),
    ]));
    assert_eq!(
        table.review_data().unwrap_err(),
        ReviewError::LabelConflict { label: "x_Lower".to_string() }
    );
}

#[test]
fn a_table_without_bands_is_returned_as_it_is() {
    let table = RatingTable::new(frame(vec![codes("c", &[1, 2]), floats("Rating_Factor", &[0.; 2])]));
    let review = table.review_data().unwrap();
    assert!(!review.ordered);
    assert_eq!(review.data.columns.len(), 2);
}
