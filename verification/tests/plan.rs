use avenue_model::encoding::{
    encode_categorical, merged_encoding, remap_model_encoding, EncodeError, Encoding, UNSEEN_CODE,
};
use avenue_model::fitting::{validate_inputs, validate_matches, FitError};
use avenue_model::frame::{ColumnValues, Frame, FrameColumn};
use avenue_model::matching::NO_MATCH;
use avenue_model::plan::{
    band_edges, describe_levels, quantile_cuts, BandError, TableFill, VariateBands,
    build_banded, build_categorical, check_interaction, column_findings, exposure_findings,
    build_interaction, finish_edges, interaction_table, ordered_levels, parameters_finding, size_finding, sort_issues,
    target_findings, unmatched_finding, variate_finding, Axis, TargetRead, Base, BuildError, Breaks,
    ExposureRole, GivenRole, Issue, LevelError, Plan, PlanCheck, PlanError, ResolvedTerm, Severity,
    Term, TermData,
};
use avenue_model::quantity::{Quantity, INFINITY_KEY};
use avenue_model::rating_model::{LinkFunction, RatingModel, RatingTable, TableSemantics};

fn q(x: f64) -> Quantity {
    if x.is_nan() {
        Quantity::Undefined
    } else if x == f64::INFINITY {
        Quantity::Ordered(INFINITY_KEY)
    } else if x == f64::NEG_INFINITY {
        Quantity::Ordered(i64::MIN)
    } else {
        let bits = x.to_bits() as i64;
        if bits < 0 {
            Quantity::Ordered(-(bits & i64::MAX))
        } else {
            Quantity::Ordered(bits)
        }
    }
}

fn floats(name: &str, values: &[f64]) -> FrameColumn {
    FrameColumn {
        name: name.to_string(),
        values: ColumnValues::Float(values.iter().map(|x| Some(q(*x))).collect()),
    }
}

fn codes(name: &str, values: &[i32]) -> FrameColumn {
    FrameColumn {
        name: name.to_string(),
        values: ColumnValues::Int32(values.iter().map(|x| Some(*x)).collect()),
    }
}

fn texts(name: &str, values: &[Option<&str>]) -> FrameColumn {
    FrameColumn {
        name: name.to_string(),
        values: ColumnValues::Text(values.iter().map(|x| x.map(str::to_string)).collect()),
    }
}

fn frame(columns: Vec<FrameColumn>) -> Frame {
    Frame::new(columns).unwrap()
}

fn encoding(column: &str, levels: &[(&str, i32)]) -> Encoding {
    Encoding {
        maps: vec![(
            column.to_string(),
            levels.iter().map(|(t, c)| (t.to_string(), *c)).collect(),
        )],
    }
}

fn issue(severity: Severity, code: &str) -> Issue {
    Issue { severity, code: code.to_string(), message: String::new(), column: None }
}

// ---------------------------------------------------------------- encoding

#[test]
fn text_levels_are_coded_in_sorted_order() {
    let column = texts("region", &[Some("south"), Some("north"), None, Some("east"), Some("north")]);
    let (values, levels) = encode_categorical(&column, &"region".to_string(), None).unwrap();
    let levels = levels.unwrap();
    assert_eq!(
        levels,
        vec![("east".to_string(), 0), ("north".to_string(), 1), ("south".to_string(), 2)]
    );
    match values {
        ColumnValues::Int32(v) => assert_eq!(v, vec![Some(2), Some(1), Some(UNSEEN_CODE), Some(0), Some(1)]),
        _ => panic!("codes expected"),
    }
}

#[test]
fn a_given_encoding_keeps_its_codes_and_unseen_text_gets_the_unseen_code() {
    let e = encoding("region", &[("north", 5), ("south", 9)]);
    let column = texts("region", &[Some("south"), Some("west")]);
    let (values, levels) = encode_categorical(&column, &"region".to_string(), Some(&e)).unwrap();
    assert_eq!(levels.unwrap(), vec![("north".to_string(), 5), ("south".to_string(), 9)]);
    match values {
        ColumnValues::Int32(v) => assert_eq!(v, vec![Some(9), Some(UNSEEN_CODE)]),
        _ => panic!("codes expected"),
    }
}

#[test]
fn a_float_column_is_not_a_category() {
    let column = floats("age", &[1.0]);
    assert!(matches!(
        encode_categorical(&column, &"age".to_string(), None),
        Err(EncodeError::NotCategorical { .. })
    ));
}

#[test]
fn merging_unions_the_level_texts_and_recodes_by_position() {
    let left = encoding("region", &[("north", 0), ("south", 1)]);
    let right = encoding("region", &[("east", 0), ("south", 1)]);
    let merged = merged_encoding(&left, &right);
    assert_eq!(merged.maps.len(), 1);
    assert_eq!(
        merged.maps[0].1,
        vec![("east".to_string(), 0), ("north".to_string(), 1), ("south".to_string(), 2)]
    );
}

#[test]
fn remapping_keeps_each_code_on_its_level_text() {
    let source = encoding("region", &[("north", 0), ("south", 1)]);
    let right = encoding("region", &[("east", 0), ("south", 1)]);
    let target = merged_encoding(&source, &right);
    let table = RatingTable::new(frame(vec![
        FrameColumn {
            name: "region".to_string(),
            values: ColumnValues::Int32(vec![Some(1), Some(0), None]),
        },
        floats("Rating_Factor", &[0.0, 0.0, 0.0]),
    ]));
    let model = RatingModel::new(vec![table], LinkFunction::Log);
    let out = remap_model_encoding(model, &source, &target).unwrap();
    match &out.tables[0].data.columns[0].values {
        ColumnValues::Int32(v) => assert_eq!(v, &vec![Some(2), Some(1), None]),
        _ => panic!("codes expected"),
    }
}

#[test]
fn remapping_refuses_a_code_with_no_level() {
    let source = encoding("region", &[("north", 0)]);
    let target = merged_encoding(&source, &source);
    let table = RatingTable::new(frame(vec![codes("region", &[0, 7]), floats("Rating_Factor", &[0.0, 0.0])]));
    let model = RatingModel::new(vec![table], LinkFunction::Log);
    assert_eq!(
        remap_model_encoding(model, &source, &target).unwrap_err(),
        EncodeError::UnknownCode { column: "region".to_string(), code: 7 }
    );
}

// ---------------------------------------------------------------- plans

#[test]
fn the_named_plans_set_family_exposure_and_role() {
    let f = Plan::frequency("exposure");
    assert_eq!(f.family, "poisson");
    assert_eq!(f.exposure.as_deref(), Some("exposure"));
    assert_eq!(f.exposure_role, Some(ExposureRole::Weight));
    assert_eq!(Plan::severity("claims").family, "gamma");
    assert_eq!(Plan::pure_premium("exposure").family, "tweedie");
}

#[test]
fn poisson_defaults_to_an_offset_in_any_case() {
    assert_eq!(Plan::new("Poisson").resolved_exposure_role(), ExposureRole::Offset);
    assert_eq!(Plan::new("gamma").resolved_exposure_role(), ExposureRole::Weight);
    let mut p = Plan::new("poisson");
    p.exposure_role = Some(ExposureRole::Weight);
    assert_eq!(p.resolved_exposure_role(), ExposureRole::Weight);
}

#[test]
fn term_names_and_columns() {
    let t = Term::interaction(
        vec!["age".to_string(), "region".to_string()],
        vec![Some(Breaks::quantile(3)), None],
    );
    assert_eq!(t.name(), "age x region");
    assert_eq!(t.columns(), vec!["age".to_string(), "region".to_string()]);
    assert_eq!(Term::categorical("region").name(), "region");
    assert!(matches!(Term::categorical("region"), Term::Categorical { base: Base::MostExposed, .. }));
    let given = Term::offset("prior", frame(vec![floats("Rating_Factor", &[0.0])]));
    assert!(given.columns().is_empty());
    assert!(matches!(given, Term::Given { role: GivenRole::Offset, .. }));
}

#[test]
fn an_offset_model_is_carried_under_a_prefix() {
    let model = RatingModel::new(
        vec![
            RatingTable::new(frame(vec![floats("Rating_Factor", &[0.0])])),
            RatingTable::new(frame(vec![codes("region", &[1, 2]), floats("Rating_Factor", &[0.0, 0.0])])),
        ],
        LinkFunction::Log,
    );
    let names = vec!["intercept".to_string(), "region".to_string()];
    let plan = Plan::new("poisson").with(Term::categorical("age"));
    let carried = plan.with_offset_model(model, &names, "prior").unwrap();
    assert_eq!(carried.terms.len(), 3);
    assert_eq!(carried.terms[1].name(), "prior.intercept");
    assert_eq!(carried.terms[2].name(), "prior.region");
    assert!(matches!(carried.terms[2], Term::Given { role: GivenRole::Offset, .. }));
}

#[test]
fn an_offset_model_needs_a_name_per_table_and_a_prefix() {
    let model = RatingModel::new(vec![RatingTable::new(frame(vec![floats("Rating_Factor", &[0.0])]))], LinkFunction::Log);
    let err = Plan::new("poisson").with_offset_model(model, &vec![], "prior").unwrap_err();
    assert_eq!(err, PlanError::NameCount { names: 0, tables: 1 });
    let model = RatingModel::new(vec![RatingTable::new(frame(vec![floats("Rating_Factor", &[0.0])]))], LinkFunction::Log);
    let err = Plan::new("poisson").with_offset_model(model, &vec!["intercept".to_string()], "").unwrap_err();
    assert_eq!(err, PlanError::MissingPrefix);
}

#[test]
fn band_edges_are_sorted_distinct_finite_and_end_unbounded() {
    let cuts = vec![q(35.0), q(21.0), q(25.0), q(21.0), q(f64::NAN), q(f64::INFINITY)];
    assert_eq!(finish_edges(&cuts), vec![q(21.0), q(25.0), q(35.0), q(f64::INFINITY)]);
    assert_eq!(finish_edges(&vec![]), vec![q(f64::INFINITY)]);
}

#[test]
fn levels_put_the_base_first_and_the_rest_ascending() {
    let e = encoding("region", &[("north", 4), ("south", 7)]);
    let col = "region".to_string();
    let data = vec![7, 4, 9, UNSEEN_CODE, 4];
    assert_eq!(ordered_levels(&data, &Base::First, 0, &e, &col).unwrap(), vec![4, 7, 9]);
    assert_eq!(ordered_levels(&data, &Base::MostExposed, 9, &e, &col).unwrap(), vec![9, 4, 7]);
    let named = Base::Level { value: "south".to_string() };
    assert_eq!(ordered_levels(&data, &named, 0, &e, &col).unwrap(), vec![7, 4, 9]);
    let by_number = Base::Level { value: "9".to_string() };
    assert_eq!(ordered_levels(&data, &by_number, 0, &e, &col).unwrap(), vec![9, 4, 7]);
    let unknown = Base::Level { value: "west".to_string() };
    assert!(matches!(ordered_levels(&data, &unknown, 0, &e, &col), Err(LevelError::UnknownBase { .. })));
    let absent = Base::Level { value: "12".to_string() };
    assert!(matches!(ordered_levels(&data, &absent, 0, &e, &col), Err(LevelError::AbsentBase { .. })));
    assert!(matches!(
        ordered_levels(&vec![UNSEEN_CODE], &Base::First, 0, &e, &col),
        Err(LevelError::NoLevels { .. })
    ));
}

#[test]
fn interaction_rows_are_every_combination_last_axis_fastest() {
    let columns = vec!["age".to_string(), "region".to_string()];
    let axes = vec![Axis::Numeric(vec![q(30.0), q(f64::INFINITY)]), Axis::Categorical(vec![1, 2, 3])];
    let f = interaction_table(&columns, &axes).unwrap();
    assert_eq!(f.height, 6);
    match (&f.columns[0].values, &f.columns[1].values) {
        (ColumnValues::Float(a), ColumnValues::Int32(r)) => {
            let a: Vec<Quantity> = a.iter().map(|x| x.unwrap()).collect();
            assert_eq!(a, vec![q(30.0), q(30.0), q(30.0), q(f64::INFINITY), q(f64::INFINITY), q(f64::INFINITY)]);
            assert_eq!(r, &vec![Some(1), Some(2), Some(3), Some(1), Some(2), Some(3)]);
        }
        _ => panic!("unexpected columns"),
    }
    assert_eq!(f.columns[2].name, "Rating_Factor");
}

#[test]
fn an_interaction_needs_two_columns_matching_breaks_and_rows() {
    let one = vec!["age".to_string()];
    assert_eq!(check_interaction(&one, &vec![None]), Err(BuildError::TooFewColumns));
    let two = vec!["a".to_string(), "b".to_string()];
    assert_eq!(
        check_interaction(&two, &vec![None]),
        Err(BuildError::BreaksMismatch { columns: 2, breaks: 1 })
    );
    let axes = vec![Axis::Categorical(vec![]), Axis::Categorical(vec![1])];
    assert_eq!(interaction_table(&two, &axes).unwrap_err(), BuildError::NoRows);
}

#[test]
fn a_banded_table_has_one_row_per_band() {
    let edges = vec![q(21.0), q(f64::INFINITY)];
    let (table, info) = build_banded(&"age".to_string(), &edges).unwrap();
    assert_eq!(table.data.height, 2);
    assert_eq!(info.kind, "banded");
    assert_eq!(info.rows, 2);
    assert_eq!(info.parameters, 1);
    assert_eq!(info.base_level.as_deref(), Some("lowest band"));
}

#[test]
fn a_categorical_base_reads_as_its_level_text() {
    let e = encoding("region", &[("north", 4), ("south", 7)]);
    let (_, info) = build_categorical(&"region".to_string(), &vec![7, 4], &e).unwrap();
    assert_eq!(info.base_level.as_deref(), Some("south"));
    let (_, info) = build_categorical(&"zone".to_string(), &vec![3], &e).unwrap();
    assert_eq!(info.base_level.as_deref(), Some("3"));
}

#[test]
fn building_a_plan_puts_the_intercept_first_and_refuses_duplicates() {
    let plan = Plan::new("poisson")
        .with(Term::banded("age", Breaks::explicit(vec![q(30.0)])))
        .with(Term::categorical("region"));
    let data = vec![TermData::Bands(vec![q(30.0), q(f64::INFINITY)]), TermData::Levels(vec![2, 1])];
    let built = plan.build(data, Encoding::default(), None, None).unwrap();
    assert_eq!(built.table_names, vec!["intercept".to_string(), "age".to_string(), "region".to_string()]);
    assert_eq!(built.model.tables.len(), 3);
    assert_eq!(built.model.tables[0].data.height, 1);
    assert_eq!(built.model.link_function, LinkFunction::Log);

    let twice = Plan::new("gamma").with(Term::categorical("region")).with(Term::categorical("region"));
    let data = vec![TermData::Levels(vec![1]), TermData::Levels(vec![1])];
    assert_eq!(
        twice.build(data, Encoding::default(), None, None).unwrap_err(),
        BuildError::DuplicateTable { name: "region".to_string() }
    );
    assert_eq!(Plan::new("gamma").build(vec![], Encoding::default(), None, None).unwrap_err(), BuildError::NoTerms);
}

#[test]
fn a_variate_takes_the_midpoints_unless_values_are_given() {
    let plan = Plan::new("gamma").with(Term::variate("age", Breaks::quantile(3), 1));
    let data = vec![TermData::Variate {
        edges: vec![q(20.0), q(40.0), q(f64::INFINITY)],
        midpoints: vec![q(20.0), q(30.0), q(50.0)],
    }];
    let built = plan.build(data, Encoding::default(), None, None).unwrap();
    match &built.model.tables[1].metadata.semantics {
        TableSemantics::Variate { values, degree } => {
            assert_eq!(values, &vec![q(20.0), q(30.0), q(50.0)]);
            assert_eq!(*degree, 1);
        }
        _ => panic!("a variate expected"),
    }
}

// ---------------------------------------------------------------- checking

#[test]
fn a_missing_target_is_one_high_finding() {
    let present = vec!["age".to_string(), "region".to_string()];
    let found = target_findings(&None, &"claims".to_string(), &"poisson".to_string(), &present);
    assert_eq!(found.len(), 1);
    assert_eq!(found[0].code, "missing_target");
    assert_eq!(found[0].severity, Severity::High);
    assert_eq!(found[0].message, "Target column 'claims' is not in the data. Columns present: age, region");
}

#[test]
fn a_target_with_nulls_and_negatives_under_poisson() {
    let read = Some(TargetRead::Values(vec![Some(q(1.0)), None, Some(q(-2.0)), Some(q(f64::INFINITY))]));
    let present = vec!["claims".to_string()];
    let found = target_findings(&read, &"claims".to_string(), &"Poisson".to_string(), &present);
    let names: Vec<&str> = found.iter().map(|i| i.code.as_str()).collect();
    assert_eq!(names, vec!["target_has_nulls", "negative_target"]);
    assert_eq!(
        found[0].message,
        "Target column 'claims' has 2 null or non-finite values. Fitting rejects them; drop or impute those rows first."
    );
    let found = target_findings(&read, &"claims".to_string(), &"gaussian".to_string(), &present);
    let names: Vec<&str> = found.iter().map(|i| i.code.as_str()).collect();
    assert_eq!(names, vec!["target_has_nulls"]);
    let refused = Some(TargetRead::Refused("List(Int64)".to_string()));
    let found = target_findings(&refused, &"claims".to_string(), &"gamma".to_string(), &present);
    assert_eq!(found[0].code, "target_not_numeric");
    assert_eq!(found[0].message, "Target column 'claims' has dtype List(Int64) and cannot be read as a number.");
}

#[test]
fn non_positive_exposure_matters_more_as_an_offset() {
    let values = vec![Some(q(1.0)), Some(q(0.0)), None];
    let as_offset = exposure_findings(&values, &"exposure".to_string(), ExposureRole::Offset);
    assert_eq!(as_offset.len(), 2);
    assert_eq!(as_offset[0].code, "exposure_has_nulls");
    assert_eq!(as_offset[1].code, "non_positive_exposure");
    assert_eq!(as_offset[1].severity, Severity::High);
    let as_weight = exposure_findings(&values, &"exposure".to_string(), ExposureRole::Weight);
    assert_eq!(as_weight[1].severity, Severity::Medium);
}

#[test]
fn column_findings_in_order() {
    let col = FrameColumn {
        name: "age".to_string(),
        values: ColumnValues::Float(vec![None, Some(q(f64::NAN))]),
    };
    let found: Vec<String> = column_findings(&col, false).into_iter().map(|i| i.code).collect();
    assert_eq!(found, vec!["feature_has_nulls".to_string(), "feature_not_finite".to_string()]);
    let constant = codes("region", &[UNSEEN_CODE, UNSEEN_CODE]);
    let found: Vec<String> = column_findings(&constant, true).into_iter().map(|i| i.code).collect();
    assert_eq!(found, vec!["unencodable_levels".to_string(), "constant_feature".to_string()]);
}

#[test]
fn size_unmatched_variate_and_parameter_findings() {
    let info = ResolvedTerm {
        name: "region".to_string(),
        kind: "categorical".to_string(),
        columns: vec!["region".to_string()],
        rows: 60,
        parameters: 59,
        edges: None,
        base_level: None,
        variate_values: None,
    };
    assert_eq!(size_finding(&info).unwrap().code, "many_levels");
    assert_eq!(size_finding(&ResolvedTerm { rows: 6000, ..info.clone() }).unwrap().code, "wide_table");
    assert!(size_finding(&ResolvedTerm { rows: 10, ..info }).is_none());
    assert_eq!(unmatched_finding(&vec![0, NO_MATCH], &"age".to_string()).unwrap().code, "unmatched_observations");
    assert!(unmatched_finding(&vec![0, 1], &"age".to_string()).is_none());
    let values = vec![q(1.0), q(2.0), q(2.0)];
    assert_eq!(variate_finding(&"age".to_string(), 2, &values).unwrap().code, "variate_degree_too_high");
    assert!(variate_finding(&"age".to_string(), 1, &values).is_none());
    assert!(parameters_finding(10, 10).is_some());
    assert!(parameters_finding(9, 10).is_none());
}

#[test]
fn findings_sort_most_severe_first_keeping_order_within_a_severity() {
    let sorted = sort_issues(vec![
        issue(Severity::Low, "a"),
        issue(Severity::High, "b"),
        issue(Severity::Medium, "c"),
        issue(Severity::High, "d"),
    ]);
    let names: Vec<&str> = sorted.iter().map(|i| i.code.as_str()).collect();
    assert_eq!(names, vec!["b", "d", "c", "a"]);
    let check = PlanCheck { resolved: vec![], parameters: 0, rows: 0, issues: sorted };
    assert!(!check.is_fittable());
    assert_eq!(check.issues_at_least(Severity::Medium).len(), 3);
    assert!(PlanCheck::blocked(issue(Severity::Low, "x")).is_fittable());
}

// ---------------------------------------------------------------- fitting

#[test]
fn a_fit_refuses_its_inputs_in_order() {
    let intercept = || RatingTable::new(frame(vec![floats("Rating_Factor", &[0.0])]));
    let model = RatingModel::new(
        vec![intercept(), RatingTable::new(frame(vec![codes("g", &[1]), floats("Rating_Factor", &[0.0])]))],
        LinkFunction::Log,
    );
    let empty = frame(vec![floats("y", &[])]);
    let y = "y".to_string();
    assert_eq!(validate_inputs(&model, &empty, &y, None, None), Err(FitError::NoRows));
    let df = frame(vec![floats("y", &[1.0]), floats("w", &[1.0])]);
    assert_eq!(
        validate_inputs(&model, &df, &"z".to_string(), None, None),
        Err(FitError::MissingTarget { column: "z".to_string() })
    );
    assert_eq!(
        validate_inputs(&model, &df, &y, Some(&"v".to_string()), None),
        Err(FitError::MissingWeight { column: "v".to_string() })
    );
    assert_eq!(
        validate_inputs(&model, &df, &y, Some(&"w".to_string()), Some(&"o".to_string())),
        Err(FitError::MissingOffset { column: "o".to_string() })
    );
    assert_eq!(validate_inputs(&model, &df, &y, Some(&"w".to_string()), None), Ok(()));
    let lonely = RatingModel::new(vec![intercept()], LinkFunction::Log);
    assert_eq!(validate_inputs(&lonely, &df, &y, None, None), Err(FitError::TooFewTables));
    let wide = RatingModel::new(
        vec![
            RatingTable::new(frame(vec![floats("Rating_Factor", &[0.0, 0.0])])),
            intercept(),
        ],
        LinkFunction::Log,
    );
    assert_eq!(validate_inputs(&wide, &df, &y, None, None), Err(FitError::InterceptRows { rows: 2 }));
}

#[test]
fn a_locked_row_in_a_variate_is_refused() {
    let mut variate = RatingTable::new(frame(vec![
        floats("x", &[1.0, 2.0, f64::INFINITY]),
        floats("Rating_Factor", &[0.0, 0.0, 0.0]),
    ]))
    .as_polynomial_variate(vec![q(1.0), q(2.0), q(3.0)], 1)
    .unwrap();
    variate.set_row_offset(1, true);
    let model = RatingModel::new(
        vec![RatingTable::new(frame(vec![floats("Rating_Factor", &[0.0])])), variate],
        LinkFunction::Log,
    );
    let df = frame(vec![floats("y", &[1.0])]);
    assert_eq!(
        validate_inputs(&model, &df, &"y".to_string(), None, None),
        Err(FitError::LockedVariateRow { table: 1, row: 1 })
    );
}

#[test]
fn unmatched_observations_are_counted_with_the_first() {
    let matches = vec![vec![0, 0, 0], vec![1, NO_MATCH, 0, NO_MATCH]];
    assert_eq!(
        validate_matches(&matches, 4),
        Err(FitError::Unmatched { table: 1, unmatched: 2, rows: 4, first: 1 })
    );
    assert_eq!(validate_matches(&vec![vec![0, 1]], 2), Ok(()));
}

// ---------------------------------------------------------------- bands

#[test]
fn quantile_cuts_take_the_nearest_rank() {
    let values: Vec<Quantity> = [5.0, 1.0, 4.0, f64::NAN, 2.0, 3.0, f64::INFINITY].iter().map(|x| q(*x)).collect();
    let col = "x".to_string();
    // Five finite values; quartiles at ranks ceil(5/4) = 2, ceil(10/4) = 3, ceil(15/4) = 4.
    assert_eq!(quantile_cuts(&values, 4, &col).unwrap(), vec![q(2.0), q(3.0), q(4.0)]);
    assert_eq!(quantile_cuts(&values, 1, &col).unwrap(), vec![]);
    assert!(matches!(quantile_cuts(&values, 0, &col), Err(BandError::NeedsBands { equal_width: false, .. })));
    assert!(matches!(
        quantile_cuts(&vec![q(f64::NAN)], 3, &col),
        Err(BandError::NoFiniteValues { equal_width: false, .. })
    ));
}

#[test]
fn band_edges_for_each_kind_of_break() {
    let values: Vec<Quantity> = [1.0, 2.0, 3.0, 4.0].iter().map(|x| q(*x)).collect();
    let col = "x".to_string();
    let explicit = Breaks::explicit(vec![q(3.0), q(1.0)]);
    assert_eq!(band_edges(&values, &explicit, &col, &vec![]).unwrap(), vec![q(1.0), q(3.0), q(f64::INFINITY)]);
    let quartiles = Breaks::quantile(2);
    assert_eq!(band_edges(&values, &quartiles, &col, &vec![]).unwrap(), vec![q(2.0), q(f64::INFINITY)]);
    let width = Breaks::equal_width(2);
    assert_eq!(band_edges(&values, &width, &col, &vec![q(2.5)]).unwrap(), vec![q(2.5), q(f64::INFINITY)]);
    assert!(matches!(
        band_edges(&vec![], &width, &col, &vec![]),
        Err(BandError::NoFiniteValues { equal_width: true, .. })
    ));
    assert!(matches!(
        band_edges(&values, &Breaks::equal_width(0), &col, &vec![]),
        Err(BandError::NeedsBands { equal_width: true, .. })
    ));
}

#[test]
fn a_variate_whose_bands_cannot_be_cut_is_blocked() {
    let plan = Plan::new("gamma")
        .with(Term::variate("age", Breaks::quantile(3), 2))
        .with(Term::categorical("region"))
        .with(Term::variate("value", Breaks::quantile(3), 1));
    let found = plan.variate_findings(&vec![
        VariateBands::Failed("no finite values".to_string()),
        VariateBands::Cut(vec![q(1.0), q(2.0), q(3.0)]),
    ]);
    assert_eq!(found.len(), 1);
    assert_eq!(found[0].code, "bands_cannot_be_cut");
    let found = plan.variate_findings(&vec![
        VariateBands::Cut(vec![q(1.0), q(2.0)]),
        VariateBands::Cut(vec![q(1.0), q(2.0), q(3.0)]),
    ]);
    assert_eq!(found.len(), 1);
    assert_eq!(found[0].code, "variate_degree_too_high");
}

#[test]
fn data_findings_gather_sort_and_count() {
    let plan = Plan::new("poisson").with(Term::categorical("region"));
    let data = vec![TermData::Levels(vec![1, 2])];
    let built = plan.clone().build(data, Encoding::default(), None, None).unwrap();
    let df = frame(vec![codes("region", &[1, 1])]);
    let matches = vec![vec![0, 0], vec![0, NO_MATCH]];
    let fills = vec![
        TableFill { empty: 0, rows: 1, thin: 0 },
        TableFill { empty: 1, rows: 2, thin: 0 },
    ];
    let check = plan.data_findings(
        &df,
        &"claims".to_string(),
        &None,
        &vec!["region".to_string()],
        built,
        Some(&matches),
        &fills,
        vec![],
        vec![],
    );
    let found: Vec<&str> = check.issues.iter().map(|i| i.code.as_str()).collect();
    assert_eq!(
        found,
        vec![
            "missing_target",
            "unmatched_observations",
            "more_parameters_than_rows",
            "constant_feature",
            "empty_levels"
        ]
    );
    assert_eq!(check.parameters, 2);
    assert_eq!(check.rows, 3);
    assert!(!check.is_fittable());
}

#[test]
fn unlabelled_base_level_reads_as_its_code() {
    let (_, info) = build_categorical(&"zone".to_string(), &vec![-3, 4], &Encoding::default()).expect("table");
    assert_eq!(info.base_level, Some("-3".to_string()));
}

#[test]
fn an_interaction_table_lists_numeric_columns_before_categorical_ones() {
    let columns = vec!["region".to_string(), "age".to_string()];
    let breaks = vec![None, Some(Breaks::Explicit { edges: vec![q(30.0)] })];
    let axes = vec![Axis::Categorical(vec![1, 2]), Axis::Numeric(vec![q(30.0), q(f64::INFINITY)])];
    let (t, info) = build_interaction(&columns, &breaks, &axes, "region x age".to_string()).unwrap();
    let names: Vec<String> = t.data.columns.iter().map(|c| c.name.clone()).collect();
    assert_eq!(names, vec!["age".to_string(), "region".to_string(), "Rating_Factor".to_string()]);
    assert_eq!(info.rows, 4);
    // Rows still run over the axes in their stated order, the last fastest.
    match (&t.data.columns[0].values, &t.data.columns[1].values) {
        (ColumnValues::Float(a), ColumnValues::Int32(r)) => {
            let a: Vec<Quantity> = a.iter().map(|x| x.unwrap()).collect();
            assert_eq!(a, vec![q(30.0), q(f64::INFINITY), q(30.0), q(f64::INFINITY)]);
            assert_eq!(r, &vec![Some(1), Some(1), Some(2), Some(2)]);
        }
        _ => panic!("unexpected columns"),
    }
}

#[test]
fn a_base_level_given_as_a_number_reads_like_an_i32() {
    let e = encoding("region", &[("north", 4)]);
    let col = "region".to_string();
    let data = vec![-3, 4, 9, 2147483647, -2147483648];
    let base = |v: &str| Base::Level { value: v.to_string() };
    assert_eq!(ordered_levels(&data, &base("+9"), 0, &e, &col).unwrap()[0], 9);
    assert_eq!(ordered_levels(&data, &base("-3"), 0, &e, &col).unwrap()[0], -3);
    assert_eq!(ordered_levels(&data, &base("009"), 0, &e, &col).unwrap()[0], 9);
    assert_eq!(ordered_levels(&data, &base("2147483647"), 0, &e, &col).unwrap()[0], 2147483647);
    // The smallest code parses, but it is the code of an unseen level, never a real one.
    assert!(matches!(
        ordered_levels(&data, &base("-2147483648"), 0, &e, &col),
        Err(LevelError::AbsentBase { .. })
    ));
    for bad in ["", "+", "-", " 9", "9 ", "9a", "2147483648", "-2147483649", "99999999999999999999", "1e3"] {
        assert!(
            matches!(ordered_levels(&data, &base(bad), 0, &e, &col), Err(LevelError::UnknownBase { .. })),
            "{:?} should not read as a level",
            bad
        );
    }
}

#[test]
fn levels_are_described_by_text_then_code_at_most_twenty() {
    let e = encoding("region", &[("north", 4), ("south", 7)]);
    let col = "region".to_string();
    assert_eq!(describe_levels(&vec![-2, 4, 7, 9], &e, &col), "-2, north, south, 9");
    assert_eq!(describe_levels(&vec![], &e, &col), "");
    let many: Vec<i32> = (0..25).collect();
    let listed: Vec<String> = (0..20).map(|c| if c == 4 { "north".to_string() } else if c == 7 { "south".to_string() } else { c.to_string() }).collect();
    assert_eq!(describe_levels(&many, &e, &col), listed.join(", "));
    let data = vec![7, 4, 9];
    match ordered_levels(&data, &Base::Level { value: "west".to_string() }, 0, &e, &col) {
        Err(LevelError::UnknownBase { present, .. }) => assert_eq!(present, "north, south, 9"),
        other => panic!("unexpected {:?}", other),
    }
}

#[test]
fn findings_are_worded_with_their_counts_and_names() {
    let p = parameters_finding(5, 3).expect("finding");
    assert_eq!(p.message, "The plan spends 5 parameters on 3 rows of data. The fit is not identified.");
    let u = unmatched_finding(&vec![NO_MATCH, 0, NO_MATCH], &"region".to_string()).expect("finding");
    assert_eq!(
        u.message,
        "2 rows do not match any row of table 'region'. Fitting rejects them rather than dropping a term silently."
    );
    let v = variate_finding(&"age".to_string(), 12, &vec![q(1.0), q(2.0), q(2.0)]).expect("finding");
    assert_eq!(
        v.message,
        "Variate 'age' is degree 12 over 2 distinct band values. A degree at or above the number of distinct \
         values is not identified \u{2014} at 1 the curve already passes through every band. Use degree 1 or \
         lower, or cut more bands."
    );
    let t = target_findings(&None, &"claims".to_string(), &"poisson".to_string(), &vec![]);
    assert_eq!(t[0].message, "Target column 'claims' is not in the data. Columns present: ");
}
