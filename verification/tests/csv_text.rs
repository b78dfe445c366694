use qams_core::{Criterion, CriterionOption, CriterionOptionScore, Review};

#[test]
fn test_review_from_csv() {
    let csv = "Criterion,YES,NO\n\
               C1,1,0\n\
               C2,1,0\n\
               C3,1,0\n\
               C4,1,0\n\
               C5,1,0\n\
               C6,1,0\n\
               C7,,FATAL\n";
    let csv = csv.trim();
    let review = Review::from_csv(csv).expect("well-formed scorecard must import");

    assert_eq!(review.criteria.len(), 7);
    assert_eq!(review.max_points(), 6);
}

#[test]
fn test_from_csv_cells_and_labels() {
    let csv = "Criterion,YES,NO\nFirst,3,0\nSecond,,FATAL";
    let review = Review::from_csv(csv).unwrap();

    assert_eq!(review.criteria.len(), 2);

    let first = &review.criteria[0];
    assert_eq!(first.label(), "First");
    assert_eq!(first.options().len(), 2);
    assert_eq!(first.options()[0].label(), "YES");
    assert!(matches!(*first.options()[0].score(), CriterionOptionScore::Points(3)));
    assert_eq!(first.options()[1].label(), "NO");
    assert!(matches!(*first.options()[1].score(), CriterionOptionScore::Points(0)));
    assert!(first.selection().is_none());
    assert_eq!(first.comment(), "");
    assert_eq!(first.max_points(), 3);

    let second = &review.criteria[1];
    assert_eq!(second.label(), "Second");
    assert_eq!(second.options().len(), 1);
    assert_eq!(second.options()[0].label(), "NO");
    assert!(matches!(*second.options()[0].score(), CriterionOptionScore::Fatal));
    assert_eq!(second.max_points(), 0);
}

#[test]
fn test_from_csv_skips_unparsable_cells() {
    let csv = "Criterion,A,B,C\nSparse,1,not a score,2";
    let review = Review::from_csv(csv).unwrap();
    let criterion = &review.criteria[0];
    assert_eq!(criterion.options().len(), 2);
    assert_eq!(criterion.options()[0].label(), "A");
    assert_eq!(criterion.options()[1].label(), "C");
    assert_eq!(criterion.max_points(), 2);
}

#[test]
fn test_from_csv_rejects_column_mismatch() {
    let csv = "Criterion,YES,NO\nShortRow,1";
    assert!(Review::from_csv(csv).is_none());

    let csv = "Criterion,YES\nLongRow,1,2";
    assert!(Review::from_csv(csv).is_none());
}

#[test]
fn test_from_csv_trims_surrounding_whitespace() {
    let csv = "\n  Criterion,YES\nOnly,1\n\n";
    let review = Review::from_csv(csv).unwrap();
    assert_eq!(review.criteria.len(), 1);
    assert_eq!(review.criteria[0].label(), "Only");
    assert_eq!(review.max_points(), 1);
}

#[test]
fn test_to_csv_exact_text() {
    let criterion = Criterion::new(
        "Criterion 1",
        vec![
            CriterionOption::new("YES", CriterionOptionScore::Points(3)),
            CriterionOption::new("MOSTLY", CriterionOptionScore::Points(2)),
            CriterionOption::new("PARTLY", CriterionOptionScore::Points(1)),
            CriterionOption::new("NO", CriterionOptionScore::Points(0)),
        ],
    );
    let mut review = Review::new(vec![criterion]);
    review.criteria_mut()[0].set_selection_index(2);
    review.criteria_mut()[0].set_comment("partly met");

    assert_eq!(
        review.to_csv(),
        "Criterion,Selection,Comments\nPercent Score,33.33%,\nCriterion 1,PARTLY,partly met"
    );
}

#[test]
fn test_to_csv_unanswered_has_empty_cells() {
    let criterion = Criterion::new(
        "Quiet",
        vec![CriterionOption::new("YES", CriterionOptionScore::Points(1))],
    );
    let review = Review::new(vec![criterion]);
    assert_eq!(
        review.to_csv(),
        "Criterion,Selection,Comments\nPercent Score,0.00%,\nQuiet,,"
    );
}

#[test]
fn test_to_csv_empty_review() {
    let review = Review::new(vec![]);
    let text = review.to_csv();
    assert_eq!(text, "Criterion,Selection,Comments\nPercent Score,undefined,");

    let imported = Review::from_csv(&text).unwrap();
    assert_eq!(imported.criteria.len(), 1);
    assert_eq!(imported.criteria[0].label(), "Percent Score");
    assert_eq!(imported.criteria[0].options().len(), 0);
}

#[test]
fn test_csv_export_then_import_keeps_labels() {
    let c1 = Criterion::new(
        "Alpha",
        vec![
            CriterionOption::new("YES", CriterionOptionScore::Points(2)),
            CriterionOption::new("NO", CriterionOptionScore::Points(0)),
        ],
    );
    let c2 = Criterion::new(
        "Beta",
        vec![CriterionOption::new("YES", CriterionOptionScore::Points(1))],
    );
    let mut review = Review::new(vec![c1, c2]);
    review.criteria_mut()[0].set_selection_index(0);

    let text = review.to_csv();
    let imported = Review::from_csv(&text).expect("an exported review must import");

    assert_eq!(imported.criteria.len(), 3);
    assert_eq!(imported.criteria[0].label(), "Percent Score");
    assert_eq!(imported.criteria[1].label(), "Alpha");
    assert_eq!(imported.criteria[2].label(), "Beta");
    for criterion in &imported.criteria {
        assert!(criterion.selection().is_none());
        assert_eq!(criterion.comment(), "");
    }
}
