use avenue_model::encoding::Encoding;
use avenue_model::exhibit::{level_column, level_columns, row_statuses, RowStatus};
use avenue_model::frame::{ColumnValues, Frame, FrameColumn};
use avenue_model::quantity::Quantity;

fn s(x: &str) -> String {
    x.to_string()
}

fn encoding() -> Encoding {
    Encoding {
        maps: vec![
            (s("area"), vec![(s("rural"), 0), (s("urban"), 1)]),
            (s("region"), vec![(s("north"), 0), (s("south"), 1)]),
        ],
    }
}

fn codes(name: &str, xs: Vec<Option<i32>>) -> FrameColumn {
    FrameColumn { name: s(name), values: ColumnValues::Int32(xs) }
}

#[test]
fn a_code_column_gets_its_level_text() {
    let got = level_column(&encoding(), &codes("region", vec![Some(1), None, Some(7), Some(0)])).expect("labelled");
    assert_eq!(got.name, "region_Level");
    match got.values {
        ColumnValues::Text(t) => assert_eq!(t, vec![Some(s("south")), None, None, Some(s("north"))]),
        _ => panic!("level text expected"),
    }
}

#[test]
fn only_known_code_columns_are_labelled_in_column_order() {
    let frame = Frame::new(vec![
        codes("region", vec![Some(0)]),
        codes("vehicle", vec![Some(0)]),
        FrameColumn { name: s("area"), values: ColumnValues::Float(vec![Some(Quantity::Ordered(1))]) },
        codes("area2", vec![Some(1)]),
    ])
    .expect("frame");
    let got = level_columns(&encoding(), &frame);
    assert_eq!(got.iter().map(|c| c.name.clone()).collect::<Vec<_>>(), vec![s("region_Level")]);
    let both = Frame::new(vec![codes("area", vec![Some(1)]), codes("region", vec![Some(1)])]).expect("frame");
    let names: Vec<String> = level_columns(&encoding(), &both).iter().map(|c| c.name.clone()).collect();
    assert_eq!(names, vec![s("area_Level"), s("region_Level")]);
}

#[test]
fn row_status_prefers_no_data_then_aliased_then_reference() {
    let unfitted = vec![(1, 0), (0, 3)];
    let aliased = vec![(1, 0), (1, 2)];
    let zero_error = vec![false, true, true];
    let got = row_statuses(1, 5, &unfitted, &aliased, &zero_error);
    assert_eq!(
        got,
        vec![RowStatus::NoData, RowStatus::Reference, RowStatus::Aliased, RowStatus::Estimated, RowStatus::Estimated]
    );
    assert_eq!(got.iter().map(|x| x.as_str()).collect::<Vec<_>>(), vec!["no_data", "reference", "aliased", "estimated", "estimated"]);
}
