use qams_core::{Criterion, CriterionOption, CriterionOptionScore, Review};

#[test]
fn test_review_max_and_total_points() {
    let criterion = Criterion::new(
        "Criterion 1",
        vec![
            CriterionOption::new("YES", CriterionOptionScore::Points(3)),
            CriterionOption::new("MOSTLY", CriterionOptionScore::Points(2)),
            CriterionOption::new("PARTLY", CriterionOptionScore::Points(1)),
            CriterionOption::new("NO", CriterionOptionScore::Points(0)),
        ],
    );
    let mut review = Review::new(vec![criterion]);

    review.criteria_mut()[0].set_selection_index(2);

    assert_eq!(review.max_points(), 3);
    assert_eq!(review.total_points(), 1);
}

#[test]
fn test_percent_score_string_one_third() {
    let criterion = Criterion::new(
        "Criterion 1",
        vec![
            CriterionOption::new("YES", CriterionOptionScore::Points(3)),
            CriterionOption::new("MOSTLY", CriterionOptionScore::Points(2)),
            CriterionOption::new("PARTLY", CriterionOptionScore::Points(1)),
            CriterionOption::new("NO", CriterionOptionScore::Points(0)),
        ],
    );
    let mut review = Review::new(vec![criterion]);
    review.criteria_mut()[0].set_selection_index(2);

    assert_eq!(review.percent_score_string(), "33.33%");
}

#[test]
fn test_parse_fatal_any_case() {
    assert!(matches!(
        CriterionOptionScore::from_str("fatal"),
        Some(CriterionOptionScore::Fatal)
    ));
    assert!(matches!(
        CriterionOptionScore::from_str("FATAL"),
        Some(CriterionOptionScore::Fatal)
    ));
    assert!(matches!(
        CriterionOptionScore::from_str("Fatal"),
        Some(CriterionOptionScore::Fatal)
    ));
}

#[test]
fn test_parse_non_values() {
    assert!(CriterionOptionScore::from_str("3.5").is_none());
    assert!(CriterionOptionScore::from_str("abc").is_none());
    assert!(CriterionOptionScore::from_str("").is_none());
    assert!(CriterionOptionScore::from_str(" 3").is_none());
    assert!(CriterionOptionScore::from_str("+").is_none());
    assert!(CriterionOptionScore::from_str("-").is_none());
    assert!(CriterionOptionScore::from_str("2147483648").is_none());
    assert!(CriterionOptionScore::from_str("-2147483649").is_none());
}

#[test]
fn test_parse_numbers() {
    assert_eq!(
        CriterionOptionScore::from_str("3"),
        Some(CriterionOptionScore::Points(3))
    );
    assert_eq!(
        CriterionOptionScore::from_str("-2"),
        Some(CriterionOptionScore::Points(-2))
    );
    assert_eq!(
        CriterionOptionScore::from_str("+7"),
        Some(CriterionOptionScore::Points(7))
    );
    assert_eq!(
        CriterionOptionScore::from_str("00012"),
        Some(CriterionOptionScore::Points(12))
    );
    assert_eq!(
        CriterionOptionScore::from_str("2147483647"),
        Some(CriterionOptionScore::Points(2147483647))
    );
    assert_eq!(
        CriterionOptionScore::from_str("-2147483648"),
        Some(CriterionOptionScore::Points(-2147483648))
    );
}

#[test]
fn test_max_points_ignores_fatal() {
    let criterion = Criterion::new(
        "only criterion",
        vec![
            CriterionOption::new("YES", CriterionOptionScore::Points(1)),
            CriterionOption::new("PARTIALLY", CriterionOptionScore::Points(0)),
            CriterionOption::new("NO", CriterionOptionScore::Fatal),
        ],
    );
    assert_eq!(criterion.max_points(), 1);
    let review = Review::new(vec![criterion]);
    assert_eq!(review.max_points(), 1);
}

#[test]
fn test_max_points_empty_or_all_fatal() {
    let empty = Criterion::new("no options", vec![]);
    assert_eq!(empty.max_points(), 0);

    let all_fatal = Criterion::new(
        "all fatal",
        vec![
            CriterionOption::new("A", CriterionOptionScore::Fatal),
            CriterionOption::new("B", CriterionOptionScore::Fatal),
        ],
    );
    assert_eq!(all_fatal.max_points(), 0);
}

#[test]
fn test_max_points_negative_options_floor_zero() {
    let criterion = Criterion::new(
        "penalties only",
        vec![
            CriterionOption::new("BAD", CriterionOptionScore::Points(-5)),
            CriterionOption::new("WORSE", CriterionOptionScore::Points(-10)),
        ],
    );
    assert_eq!(criterion.max_points(), 0);
}

#[test]
fn test_top_scores_reach_full_percent() {
    let c1 = Criterion::new(
        "first",
        vec![
            CriterionOption::new("YES", CriterionOptionScore::Points(1)),
            CriterionOption::new("NO", CriterionOptionScore::Points(0)),
        ],
    );
    let c2 = Criterion::new(
        "second",
        vec![
            CriterionOption::new("YES", CriterionOptionScore::Points(2)),
            CriterionOption::new("NO", CriterionOptionScore::Points(0)),
        ],
    );
    let c3 = Criterion::new(
        "third",
        vec![
            CriterionOption::new("YES", CriterionOptionScore::Points(3)),
            CriterionOption::new("NO", CriterionOptionScore::Points(0)),
        ],
    );
    let mut review = Review::new(vec![c1, c2, c3]);
    review.criteria_mut()[0].set_selection_index(0);
    review.criteria_mut()[1].set_selection_index(0);
    review.criteria_mut()[2].set_selection_index(0);

    assert_eq!(review.max_points(), 6);
    assert_eq!(review.total_points(), 6);
    assert_eq!(review.percent_score_string(), "100.00%");
}

#[test]
fn test_fatal_selection_zeroes_total() {
    let c1 = Criterion::new(
        "scored",
        vec![CriterionOption::new("GOOD", CriterionOptionScore::Points(5))],
    );
    let c2 = Criterion::new(
        "gate",
        vec![
            CriterionOption::new("OK", CriterionOptionScore::Points(1)),
            CriterionOption::new("FAIL", CriterionOptionScore::Fatal),
        ],
    );
    let mut review = Review::new(vec![c1, c2]);
    review.criteria_mut()[0].set_selection_index(0);
    review.criteria_mut()[1].set_selection_index(1);

    assert_eq!(review.total_points(), 0);
    assert_eq!(review.max_points(), 6);
    assert_eq!(review.percent_score_string(), "0.00%");
}

#[test]
fn test_unanswered_contributes_nothing() {
    let c1 = Criterion::new(
        "answered",
        vec![CriterionOption::new("YES", CriterionOptionScore::Points(2))],
    );
    let c2 = Criterion::new(
        "unanswered",
        vec![CriterionOption::new("YES", CriterionOptionScore::Points(4))],
    );
    let mut review = Review::new(vec![c1, c2]);
    review.criteria_mut()[0].set_selection_index(0);

    assert_eq!(review.total_points(), 2);
    assert_eq!(review.max_points(), 6);
}

#[test]
fn test_percent_undefined_when_max_is_zero() {
    let review = Review::new(vec![]);
    assert_eq!(review.max_points(), 0);
    assert_eq!(review.total_points(), 0);
    assert_eq!(review.percent_score_string(), "undefined");
}

#[test]
fn test_negative_total_percent() {
    let criterion = Criterion::new(
        "penalty possible",
        vec![
            CriterionOption::new("GOOD", CriterionOptionScore::Points(2)),
            CriterionOption::new("BAD", CriterionOptionScore::Points(-1)),
        ],
    );
    let mut review = Review::new(vec![criterion]);
    review.criteria_mut()[0].set_selection_index(1);

    assert_eq!(review.total_points(), -1);
    assert_eq!(review.max_points(), 2);
    assert_eq!(review.percent_score_string(), "-50.00%");
}

#[test]
fn test_percent_exact_fraction() {
    let c1 = Criterion::new(
        "five of eight",
        vec![CriterionOption::new("A", CriterionOptionScore::Points(5))],
    );
    let c2 = Criterion::new(
        "unanswered",
        vec![CriterionOption::new("B", CriterionOptionScore::Points(3))],
    );
    let mut review = Review::new(vec![c1, c2]);
    review.criteria_mut()[0].set_selection_index(0);

    assert_eq!(review.total_points(), 5);
    assert_eq!(review.max_points(), 8);
    assert_eq!(review.percent_score_string(), "62.50%");
}

#[test]
fn test_selection_and_comment_accessors() {
    let mut criterion = Criterion::new(
        "accessors",
        vec![
            CriterionOption::new("YES", CriterionOptionScore::Points(1)),
            CriterionOption::new("NO", CriterionOptionScore::Points(0)),
        ],
    );
    assert_eq!(criterion.label(), "accessors");
    assert_eq!(criterion.options().len(), 2);
    assert_eq!(criterion.options()[0].label(), "YES");
    assert!(matches!(
        *criterion.options()[0].score(),
        CriterionOptionScore::Points(1)
    ));
    assert!(criterion.selection().is_none());
    assert!(criterion.selection_score().is_none());
    assert_eq!(criterion.comment(), "");

    criterion.set_selection_index(1);
    assert_eq!(criterion.selection().unwrap().label(), "NO");
    assert!(matches!(
        *criterion.selection_score().unwrap(),
        CriterionOptionScore::Points(0)
    ));

    criterion.set_selection_index(0);
    assert_eq!(criterion.selection().unwrap().label(), "YES");

    criterion.set_comment("needs work");
    assert_eq!(criterion.comment(), "needs work");
}
