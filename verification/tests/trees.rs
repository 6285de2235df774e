use avenue_model::features::{FeatureValue, Features};
use avenue_model::frame::{ColumnValues, Frame};
use avenue_model::plan::BuildError;
use avenue_model::quantity::{Quantity, INFINITY_KEY};
use avenue_model::rating_model::RatingTable;
use avenue_model::trees::{
    analysis_tables, category_codes, process_lgbm_trees, Decision, PathInfo, SplitNodeInfo, SplitRule, TreeError,
    TreeNode,
};

fn q(x: f64) -> Quantity {
    if x.is_nan() {
        Quantity::Undefined
    } else if x == f64::INFINITY {
        Quantity::Ordered(INFINITY_KEY)
    } else if x == f64::NEG_INFINITY {
        Quantity::Ordered(i64::MIN)
    } else {
        let bits = x.to_bits() as i64;
        if bits < 0 {
            Quantity::Ordered(-(bits & i64::MAX))
        } else {
            Quantity::Ordered(bits)
        }
    }
}

fn key(x: f64) -> i64 {
    match q(x) {
        Quantity::Ordered(k) => k,
        Quantity::Undefined => panic!("not a number"),
    }
}

fn leaf(x: f64) -> Option<Box<TreeNode>> {
    Some(Box::new(TreeNode::Leaf { factor: q(x) }))
}

fn column_names(f: &Frame) -> Vec<String> {
    f.columns.iter().map(|c| c.name.clone()).collect()
}

fn floats_of(f: &Frame, name: &str) -> Vec<Option<Quantity>> {
    let c = f.columns.iter().find(|c| c.name == name).expect("column");
    match &c.values {
        ColumnValues::Float(v) => v.clone(),
        _ => panic!("not a float column"),
    }
}

fn codes_of(f: &Frame, name: &str) -> Vec<Option<i32>> {
    let c = f.columns.iter().find(|c| c.name == name).expect("column");
    match &c.values {
        ColumnValues::Int32(v) => v.clone(),
        _ => panic!("not a code column"),
    }
}

fn factors(t: &RatingTable) -> Vec<Option<Quantity>> {
    floats_of(&t.data, "Rating_Factor")
}

fn some(values: &[f64]) -> Vec<Option<Quantity>> {
    values.iter().map(|x| Some(q(*x))).collect()
}

fn split(feature: &str, decision: Decision) -> SplitNodeInfo {
    SplitNodeInfo { feature_name: feature.to_string(), decision }
}

#[test]
fn stump_gives_one_table_per_leaf_right_first() {
    let tree = TreeNode::Split {
        feature_name: "x".to_string(),
        rule: SplitRule::Threshold(key(5.0)),
        factor: Some(q(0.5)),
        left: leaf(1.0),
        right: leaf(2.0),
    };
    let tables = process_lgbm_trees(Some(q(0.5)), &vec![tree]).expect("tables");
    assert_eq!(tables.len(), 3);
    assert_eq!(column_names(&tables[0].data), vec!["Rating_Factor".to_string()]);
    assert_eq!(factors(&tables[0]), some(&[0.5]));
    // The right branch (x above 5) comes first.
    assert_eq!(column_names(&tables[1].data), vec!["x".to_string(), "Rating_Factor".to_string()]);
    assert_eq!(floats_of(&tables[1].data, "x"), some(&[5.0, f64::INFINITY]));
    assert_eq!(factors(&tables[1]), some(&[0.0, 2.0]));
    assert_eq!(factors(&tables[2]), some(&[1.0, 0.0]));
}

#[test]
fn categorical_split_keeps_the_wildcard_on_the_right() {
    let tree = TreeNode::Split {
        feature_name: "region".to_string(),
        rule: SplitRule::Categories(vec![2, 1]),
        factor: None,
        left: leaf(3.0),
        right: leaf(4.0),
    };
    let tables = process_lgbm_trees(None, &vec![tree]).expect("tables");
    assert_eq!(tables.len(), 2);
    assert_eq!(codes_of(&tables[0].data, "region"), vec![Some(-999), Some(1), Some(2)]);
    assert_eq!(factors(&tables[0]), some(&[4.0, 0.0, 0.0]));
    assert_eq!(factors(&tables[1]), some(&[0.0, 3.0, 3.0]));
}

#[test]
fn two_splits_lay_out_every_combination() {
    let path = PathInfo::new(vec![
        split("x", Decision::AtMost(key(10.0))),
        split("y", Decision::In(vec![7])),
        split("x", Decision::Above(key(2.0))),
    ]);
    let df = path.create_df().expect("layout");
    assert_eq!(column_names(&df), vec!["x".to_string(), "y".to_string(), "Rating_Factor".to_string()]);
    assert_eq!(df.height, 6);
    assert_eq!(floats_of(&df, "x"), some(&[2.0, 2.0, 10.0, 10.0, f64::INFINITY, f64::INFINITY]));
    assert_eq!(codes_of(&df, "y"), vec![Some(-999), Some(7), Some(-999), Some(7), Some(-999), Some(7)]);
    assert_eq!(factors_of_frame(&df), some(&[0.0; 6]));
    let t = path.create_rating_table(q(1.5)).expect("table");
    assert_eq!(factors(&t), some(&[0.0, 0.0, 0.0, 1.5, 0.0, 0.0]));
}

fn factors_of_frame(f: &Frame) -> Vec<Option<Quantity>> {
    floats_of(f, "Rating_Factor")
}

#[test]
fn empty_path_is_one_row() {
    let path = PathInfo::new(Vec::new());
    let t = path.create_rating_table(q(-0.25)).expect("table");
    assert_eq!(t.data.height, 1);
    assert_eq!(factors(&t), some(&[-0.25]));
}

#[test]
fn feature_split_both_ways_is_refused() {
    let path = PathInfo::new(vec![
        split("x", Decision::AtMost(key(1.0))),
        split("x", Decision::NotIn(vec![3])),
    ]);
    assert_eq!(
        path.create_df().unwrap_err(),
        TreeError::MixedSplit { feature: "x".to_string() }
    );
}

#[test]
fn feature_named_like_the_factor_column_is_refused() {
    let path = PathInfo::new(vec![split("Rating_Factor", Decision::Above(key(0.0)))]);
    assert!(matches!(path.create_df(), Err(TreeError::Table(BuildError::Frame(_)))));
}

#[test]
fn bare_tree_has_no_splits() {
    let err = process_lgbm_trees(None, &vec![TreeNode::Bare]).unwrap_err();
    assert_eq!(err, TreeError::NoSplits);
}

#[test]
fn analysis_gives_every_node_below_the_root() {
    let inner = TreeNode::Split {
        feature_name: "y".to_string(),
        rule: SplitRule::Threshold(key(0.0)),
        factor: Some(q(0.25)),
        left: leaf(-1.0),
        right: leaf(1.0),
    };
    let tree = TreeNode::Split {
        feature_name: "x".to_string(),
        rule: SplitRule::Threshold(key(5.0)),
        factor: Some(q(0.5)),
        left: Some(Box::new(inner)),
        right: leaf(2.0),
    };
    let tables = analysis_tables(Some(q(0.5)), &vec![tree]).expect("tables");
    // Mean, the right leaf, the inner node, then the inner node's right and left leaves.
    assert_eq!(tables.len(), 5);
    assert_eq!(factors(&tables[1]), some(&[0.0, 2.0]));
    assert_eq!(factors(&tables[2]), some(&[0.25, 0.0]));
    assert_eq!(column_names(&tables[3].data), vec!["x".to_string(), "y".to_string(), "Rating_Factor".to_string()]);
    // x in [5, inf], y in [0, inf]: only x <= 5 and y > 0 holds.
    assert_eq!(factors(&tables[3]), some(&[0.0, 1.0, 0.0, 0.0]));
    assert_eq!(factors(&tables[4]), some(&[-1.0, 0.0, 0.0, 0.0]));
}

#[test]
fn analysis_needs_the_root_value() {
    let tree = TreeNode::Split {
        feature_name: "x".to_string(),
        rule: SplitRule::Threshold(key(5.0)),
        factor: None,
        left: leaf(1.0),
        right: leaf(2.0),
    };
    assert_eq!(analysis_tables(None, &vec![tree]).unwrap_err(), TreeError::MissingRootValue);
    assert_eq!(analysis_tables(None, &vec![TreeNode::Leaf { factor: q(1.0) }]).unwrap_err(), TreeError::MissingRootValue);
}

fn observation(entries: &[(&str, FeatureValue)]) -> Features {
    let mut f = Features::new();
    for (name, value) in entries {
        f.insert(name.to_string(), *value);
    }
    f
}

#[test]
fn leaf_tables_reproduce_the_tree() {
    let inner = TreeNode::Split {
        feature_name: "region".to_string(),
        rule: SplitRule::Categories(vec![1, 2]),
        factor: None,
        left: leaf(3.0),
        right: leaf(4.0),
    };
    let tree = TreeNode::Split {
        feature_name: "x".to_string(),
        rule: SplitRule::Threshold(key(5.0)),
        factor: None,
        left: Some(Box::new(inner)),
        right: leaf(2.0),
    };
    let tables = process_lgbm_trees(None, &vec![tree]).expect("tables");
    assert_eq!(tables.len(), 3);
    // Each observation gets its leaf's factor from exactly one table, zero from the rest.
    let cases = [
        (observation(&[("x", FeatureValue::Numeric(q(7.0))), ("region", FeatureValue::Categorical(1))]), q(2.0)),
        (observation(&[("x", FeatureValue::Numeric(q(5.0))), ("region", FeatureValue::Categorical(2))]), q(3.0)),
        (observation(&[("x", FeatureValue::Numeric(q(-1.0))), ("region", FeatureValue::Categorical(9))]), q(4.0)),
    ];
    for (f, expected) in cases.iter() {
        let got: Vec<Quantity> = tables.iter().map(|t| t.predict(f)).collect();
        let nonzero: Vec<&Quantity> = got.iter().filter(|v| **v != q(0.0)).collect();
        assert_eq!(nonzero, vec![expected]);
    }
}

#[test]
fn analysis_tables_follow_the_route() {
    let inner = TreeNode::Split {
        feature_name: "y".to_string(),
        rule: SplitRule::Threshold(key(0.0)),
        factor: Some(q(0.25)),
        left: leaf(-1.0),
        right: leaf(1.0),
    };
    let tree = TreeNode::Split {
        feature_name: "x".to_string(),
        rule: SplitRule::Threshold(key(5.0)),
        factor: Some(q(0.5)),
        left: Some(Box::new(inner)),
        right: leaf(2.0),
    };
    let tables = analysis_tables(Some(q(0.5)), &vec![tree]).expect("tables");
    let f = observation(&[("x", FeatureValue::Numeric(q(3.0))), ("y", FeatureValue::Numeric(q(1.0)))]);
    let got: Vec<Quantity> = tables.iter().map(|t| t.predict(&f)).collect();
    assert_eq!(got, vec![q(0.5), q(0.0), q(0.25), q(1.0), q(0.0)]);
}

#[test]
fn category_lists_read_every_code_between_bars() {
    assert_eq!(category_codes("1||2||30"), vec![1, 2, 30]);
    assert_eq!(category_codes("-4||+5"), vec![-4, 5]);
    // Pieces that do not read as a 32-bit integer are left out.
    assert_eq!(category_codes("7||x||||3000000000||8"), vec![7, 8]);
    assert_eq!(category_codes("a|||9"), Vec::<i32>::new());
    assert_eq!(category_codes(""), Vec::<i32>::new());
}
