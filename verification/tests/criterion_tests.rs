use qams::names::NameMap;
use qams::{Criterion, CriterionScore, Score, Scorecard};

fn sel(pairs: &[(&str, &str)]) -> NameMap<String> {
    NameMap::from_pairs(pairs.iter().map(|(k, v)| (k.to_string(), v.to_string())).collect())
}

fn get_score(sc: &Scorecard, sel: &NameMap<String>) -> f64 {
    match sc.score(sel).expect("totals fit in a u32") {
        Score::Autofail => 0.0,
        Score::Ratio { earned, possible } => earned as f64 / possible as f64,
    }
}

#[test]
fn lib_basic_criterion_test() {
    let crit = Criterion::new(vec![
        ("p1".into(), CriterionScore::Points(1)),
        ("p0".into(), CriterionScore::Points(0)),
    ]);

    assert!(crit.get_numerator("p1") == 1);
    assert!(crit.get_numerator("p0") == 0);

    assert!(crit.get_denominator("p1") == 1);
    assert!(crit.get_denominator("p0") == 1);

    assert!(!crit.is_autofail("p1"));
    assert!(!crit.is_autofail("p0"));
}

#[test]
fn lib_na_criterion_test() {
    let crit = Criterion::new(vec![
        ("p1".into(), CriterionScore::Points(1)),
        ("p0".into(), CriterionScore::Points(0)),
        ("na".into(), CriterionScore::NotApplicable),
    ]);

    assert!(crit.get_numerator("p1") == 1);
    assert!(crit.get_numerator("p0") == 0);
    assert!(crit.get_numerator("na") == 0);

    assert!(crit.get_denominator("p1") == 1);
    assert!(crit.get_denominator("p0") == 1);
    assert!(crit.get_denominator("na") == 0);

    assert!(!crit.is_autofail("p1"));
    assert!(!crit.is_autofail("p0"));
    assert!(!crit.is_autofail("na"));
}

#[test]
fn lib_autofail_criterion_test() {
    let crit = Criterion::new(vec![
        ("p1".into(), CriterionScore::Points(1)),
        ("af".into(), CriterionScore::Autofail),
        ("na".into(), CriterionScore::NotApplicable),
    ]);

    assert!(crit.get_numerator("p1") == 1);
    assert!(crit.get_numerator("af") == 0);
    assert!(crit.get_numerator("na") == 0);

    assert!(crit.get_denominator("p1") == 1);
    assert!(crit.get_denominator("af") == 0);
    assert!(crit.get_denominator("na") == 0);

    assert!(!crit.is_autofail("p1"));
    assert!(crit.is_autofail("af"));
    assert!(!crit.is_autofail("na"));
}

fn three_criteria() -> Scorecard {
    Scorecard::from_csv_string(",p1,p0,na,af\ncrit1,1,0,,\ncrit2,1,0,N,\ncrit3,1,0,N,F\n")
        .expect("parse should succeed")
}

#[test]
fn lib_scorecard_test() {
    let sc = three_criteria();

    let sel1 = sel(&[("crit1", "p1"), ("crit2", "p1"), ("crit3", "p1")]);
    assert!(get_score(&sc, &sel1) == 1.0);

    let sel2 = sel(&[("crit1", "p1"), ("crit2", "na"), ("crit3", "na")]);
    assert!(get_score(&sc, &sel2) == 1.0);

    let sel3 = sel(&[("crit1", "p1"), ("crit2", "na"), ("crit3", "af")]);
    assert!(get_score(&sc, &sel3) == 0.0);
}

#[test]
fn scorecard_totals_exact() {
    let sc = three_criteria();
    let sel1 = sel(&[("crit1", "p1"), ("crit2", "p0"), ("crit3", "p1")]);
    assert_eq!(sc.get_numerator(&sel1), 2);
    assert_eq!(sc.get_denominator(&sel1), 3);
    assert!(!sc.is_autofail(&sel1));
    assert_eq!(sc.score(&sel1), Some(Score::Ratio { earned: 2, possible: 3 }));

    let sel2 = sel(&[("crit1", "p0"), ("crit2", "na"), ("crit3", "af")]);
    assert!(sc.is_autofail(&sel2));
    assert_eq!(sc.score(&sel2), Some(Score::Autofail));
    // the failing option is worth nothing and counts nothing as possible here
    assert_eq!(sc.get_numerator(&sel2), 0);
    assert_eq!(sc.get_denominator(&sel2), 1);
}

#[test]
fn earned_never_exceeds_possible() {
    let sc = three_criteria();
    for a in ["p1", "p0"] {
        for b in ["p1", "p0", "na"] {
            for c in ["p1", "p0", "na", "af"] {
                let s = sel(&[("crit1", a), ("crit2", b), ("crit3", c)]);
                assert!(sc.get_numerator(&s) <= sc.get_denominator(&s));
            }
        }
    }
}

#[test]
fn not_applicable_drops_criterion() {
    let sc = three_criteria();
    let with_na = sel(&[("crit1", "p1"), ("crit2", "na"), ("crit3", "p0")]);
    assert_eq!(sc.get_numerator(&with_na), 1);
    assert_eq!(sc.get_denominator(&with_na), 2);
    assert_eq!(sc.score(&with_na), Some(Score::Ratio { earned: 1, possible: 2 }));
}

#[test]
fn all_not_applicable_gives_nothing_possible() {
    let sc = Scorecard::from_csv_string(",y,n\nc,1,N\n").unwrap();
    let s = sel(&[("c", "n")]);
    assert_eq!(sc.score(&s), Some(Score::Ratio { earned: 0, possible: 0 }));
}

#[test]
fn criterion_new_later_pair_wins() {
    let crit = Criterion::new(vec![
        ("a".into(), CriterionScore::Points(3)),
        ("a".into(), CriterionScore::Points(7)),
        ("b".into(), CriterionScore::Points(5)),
    ]);
    assert_eq!(crit.get_numerator("a"), 7);
    assert_eq!(crit.get_denominator("b"), 7);
}

#[test]
fn criterion_without_points_has_zero_full_marks() {
    let crit = Criterion::new(vec![
        ("n".into(), CriterionScore::NotApplicable),
        ("f".into(), CriterionScore::Autofail),
    ]);
    assert_eq!(crit.get_numerator("f"), 0);
    assert_eq!(crit.get_denominator("f"), 0);
    assert!(crit.is_autofail("f"));
}
