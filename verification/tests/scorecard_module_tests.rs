use qams::names::NameMap;
use qams::scorecard::{Criterion, CriterionScore, Scorecard};
use qams::Score;

fn sel(pairs: &[(&str, &str)]) -> NameMap<String> {
    NameMap::from_pairs(pairs.iter().map(|(k, v)| (k.to_string(), v.to_string())).collect())
}

fn get_score(sc: &Scorecard, sel: &NameMap<String>) -> f64 {
    match sc.score(sel).expect("totals fit in a u32") {
        Score::Autofail => 0.0,
        Score::Ratio { earned, possible } => earned as f64 / possible as f64,
    }
}

fn get_avg_score(crit: &Criterion, sels: &Vec<&str>) -> f64 {
    match crit.average_parts(sels) {
        Some((num, denom)) => num as f64 / denom as f64,
        None => 100.0,
    }
}

#[test]
fn scorecard_basic_criterion_test() {
    let crit = Criterion::new(vec![
        ("p1".into(), CriterionScore::Points(1)),
        ("p0".into(), CriterionScore::Points(0)),
    ]);

    assert!(crit.get_numerator("p1") == 1);
    assert!(crit.get_numerator("p0") == 0);

    assert!(crit.get_denominator("p1") == 1);
    assert!(crit.get_denominator("p0") == 1);

    assert!(!crit.is_autofail("p1"));
    assert!(!crit.is_autofail("p0"));
}

#[test]
fn scorecard_na_criterion_test() {
    let crit = Criterion::new(vec![
        ("p1".into(), CriterionScore::Points(1)),
        ("p0".into(), CriterionScore::Points(0)),
        ("na".into(), CriterionScore::NotApplicable),
    ]);

    assert!(crit.get_numerator("p1") == 1);
    assert!(crit.get_numerator("p0") == 0);
    assert!(crit.get_numerator("na") == 0);

    assert!(crit.get_denominator("p1") == 1);
    assert!(crit.get_denominator("p0") == 1);
    assert!(crit.get_denominator("na") == 0);

    assert!(!crit.is_autofail("p1"));
    assert!(!crit.is_autofail("p0"));
    assert!(!crit.is_autofail("na"));
}

#[test]
fn scorecard_autofail_criterion_test() {
    let crit = Criterion::new(vec![
        ("p1".into(), CriterionScore::Points(1)),
        ("af".into(), CriterionScore::Autofail),
        ("na".into(), CriterionScore::NotApplicable),
    ]);

    assert!(crit.get_numerator("p1") == 1);
    assert!(crit.get_numerator("af") == 0);
    assert!(crit.get_numerator("na") == 0);

    assert!(crit.get_denominator("p1") == 1);
    assert!(crit.get_denominator("af") == 1);
    assert!(crit.get_denominator("na") == 0);

    assert!(!crit.is_autofail("p1"));
    assert!(crit.is_autofail("af"));
    assert!(!crit.is_autofail("na"));
}

#[test]
fn get_avg_score_test() {
    let crit = Criterion::new(vec![
        ("p1".into(), CriterionScore::Points(1)),
        ("p0".into(), CriterionScore::Points(0)),
        ("na".into(), CriterionScore::NotApplicable),
    ]);

    // Two perfect scores → 1.0
    assert_eq!(get_avg_score(&crit, &vec!["p1", "p1"]), 1.0);

    // One perfect, one zero → 0.5
    assert_eq!(get_avg_score(&crit, &vec!["p1", "p0"]), 0.5);

    // All N/A → denom is 0, defaults to 100.0
    assert_eq!(get_avg_score(&crit, &vec!["na", "na"]), 100.0);

    // Mix of N/A and points: N/A contributes 0 to both num and denom
    assert_eq!(get_avg_score(&crit, &vec!["p1", "na"]), 1.0);
}

#[test]
fn average_parts_exact() {
    let crit = Criterion::new(vec![
        ("p2".into(), CriterionScore::Points(2)),
        ("p1".into(), CriterionScore::Points(1)),
        ("af".into(), CriterionScore::Autofail),
        ("na".into(), CriterionScore::NotApplicable),
    ]);
    assert_eq!(crit.average_parts(&vec!["p1", "p2", "af"]), Some((3, 6)));
    assert_eq!(crit.average_parts(&vec![]), None);
    assert_eq!(crit.average_parts(&vec!["na"]), None);
}

fn three_criteria() -> Scorecard {
    let mut criteria = NameMap::new();
    criteria.insert(
        "crit1".into(),
        Criterion::new(vec![
            ("p1".into(), CriterionScore::Points(1)),
            ("p0".into(), CriterionScore::Points(0)),
        ]),
    );
    criteria.insert(
        "crit2".into(),
        Criterion::new(vec![
            ("p1".into(), CriterionScore::Points(1)),
            ("p0".into(), CriterionScore::Points(0)),
            ("na".into(), CriterionScore::NotApplicable),
        ]),
    );
    criteria.insert(
        "crit3".into(),
        Criterion::new(vec![
            ("p1".into(), CriterionScore::Points(1)),
            ("p0".into(), CriterionScore::Points(0)),
            ("na".into(), CriterionScore::NotApplicable),
            ("af".into(), CriterionScore::Autofail),
        ]),
    );
    Scorecard::new(
        criteria,
        vec!["p1".into(), "p0".into(), "na".into(), "af".into()],
        vec!["crit1".into(), "crit2".into(), "crit3".into()],
    )
}

#[test]
fn scorecard_scorecard_test() {
    let sc = three_criteria();

    let sel1 = sel(&[("crit1", "p1"), ("crit2", "p1"), ("crit3", "p1")]);
    assert!(get_score(&sc, &sel1) == 1.0);

    let sel2 = sel(&[("crit1", "p1"), ("crit2", "na"), ("crit3", "na")]);
    assert!(get_score(&sc, &sel2) == 1.0);

    let sel3 = sel(&[("crit1", "p1"), ("crit2", "na"), ("crit3", "af")]);
    assert!(get_score(&sc, &sel3) == 0.0);
}

#[test]
fn module_autofail_still_counts_full_marks() {
    let sc = three_criteria();
    let s = sel(&[("crit1", "p1"), ("crit2", "na"), ("crit3", "af")]);
    assert_eq!(sc.get_numerator(&s), 1);
    assert_eq!(sc.get_denominator(&s), 2);
    assert_eq!(sc.score(&s), Some(Score::Autofail));
    let s2 = sel(&[("crit1", "p0"), ("crit2", "p1"), ("crit3", "p0")]);
    assert_eq!(sc.score(&s2), Some(Score::Ratio { earned: 1, possible: 3 }));
}

#[test]
fn new_constructor_roundtrip() {
    let mut criteria = NameMap::new();
    criteria.insert(
        "crit1".to_string(),
        Criterion::new(vec![
            ("YES".to_string(), CriterionScore::Points(1)),
            ("NO".to_string(), CriterionScore::Points(0)),
        ]),
    );
    let sc = Scorecard::new(
        criteria,
        vec!["YES".to_string(), "NO".to_string()],
        vec!["crit1".to_string()],
    );

    assert_eq!(sc.criterion_order(), &["crit1".to_string()]);
    assert_eq!(sc.option_order(), &["YES".to_string(), "NO".to_string()]);
    assert!(sc.criterion("crit1").is_some());
    assert!(sc.criterion("nonexistent").is_none());

    let sel: NameMap<String> = sel(&[("crit1", "YES")]);
    assert_eq!(get_score(&sc, &sel), 1.0);
}

#[test]
fn criterion_accessors() {
    let crit = Criterion::new(vec![
        ("YES".to_string(), CriterionScore::Points(1)),
        ("NO".to_string(), CriterionScore::Points(0)),
        ("N/A".to_string(), CriterionScore::NotApplicable),
    ]);

    assert_eq!(crit.max_points(), 1);
    assert!(matches!(crit.option("YES"), Some(CriterionScore::Points(1))));
    assert!(crit.option("MISSING").is_none());
    assert_eq!(crit.options().iter().count(), 3);
}

#[test]
fn max_points_is_denominator_of_scored_options() {
    let crit = Criterion::new(vec![
        ("a".to_string(), CriterionScore::Points(4)),
        ("b".to_string(), CriterionScore::Points(9)),
        ("f".to_string(), CriterionScore::Autofail),
        ("n".to_string(), CriterionScore::NotApplicable),
    ]);
    assert_eq!(crit.max_points(), 9);
    for o in ["a", "b", "f"] {
        assert_eq!(crit.get_denominator(o), crit.max_points());
        assert!(crit.get_numerator(o) <= crit.get_denominator(o));
    }
    assert_eq!(crit.get_denominator("n"), 0);
}

#[test]
fn criteria_accessor_lists_each_once() {
    let sc = three_criteria();
    let names: Vec<&str> = sc.criteria().iter().map(|(n, _)| n.as_str()).collect();
    assert_eq!(names, vec!["crit1", "crit2", "crit3"]);
    assert_eq!(sc.criterion("crit3").unwrap().max_points(), 1);
}

#[test]
fn options_list_each_option_once() {
    let crit = Criterion::new(vec![
        ("a".to_string(), CriterionScore::Points(1)),
        ("a".to_string(), CriterionScore::Points(2)),
        ("b".to_string(), CriterionScore::Autofail),
    ]);
    let opts = crit.options();
    assert_eq!(opts.len(), 2);
    assert!(opts.iter().any(|(n, s)| n == "a" && *s == CriterionScore::Points(2)));
    assert_eq!(crit.option("a"), Some(&CriterionScore::Points(2)));
}

#[test]
fn average_totals_report_overflow() {
    let crit = Criterion::new(vec![("big".to_string(), CriterionScore::Points(4000000000))]);
    assert_eq!(crit.average_totals(&vec!["big"]), Some((4000000000, 4000000000)));
    assert_eq!(crit.average_totals(&vec!["big", "big"]), None);
}

#[test]
fn module_selection_checks() {
    let sc = three_criteria();
    assert!(sc.selects_from_each(&sel(&[("crit1", "p1"), ("crit2", "na"), ("crit3", "af")])));
    assert!(!sc.selects_from_each(&sel(&[("crit1", "na"), ("crit2", "na"), ("crit3", "af")])));
    assert_eq!(
        sc.checked_numerator(&sel(&[("crit1", "p1"), ("crit2", "p1"), ("crit3", "p0")])),
        Some(2)
    );
}
