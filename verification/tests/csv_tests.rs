use qams::csv::CsvError;
use qams::names::NameMap;
use qams::{CriterionScore, Score, Scorecard};

fn sel(pairs: &[(&str, &str)]) -> NameMap<String> {
    NameMap::from_pairs(pairs.iter().map(|(k, v)| (k.to_string(), v.to_string())).collect())
}

fn get_score(sc: &Scorecard, sel: &NameMap<String>) -> f64 {
    match sc.score(sel).expect("totals fit in a u32") {
        Score::Autofail => 0.0,
        Score::Ratio { earned, possible } => earned as f64 / possible as f64,
    }
}

// crit1: YES=1, NO=0, N/A=NotApplicable, FYI=1
// crit3: YES=1, NO=0  (N/A and FYI absent)
const VSC1_CSV: &str = ",YES,NO,N/A,FYI\ncrit1,1,0,N,1\ncrit3,1,0,,\n";

#[test]
fn from_csv_vsc1() {
    let sc = Scorecard::from_csv_string(VSC1_CSV).expect("parse should succeed");

    let sel_perfect = sel(&[("crit1", "YES"), ("crit3", "YES")]);
    assert_eq!(get_score(&sc, &sel_perfect), 1.0);

    let sel_zero = sel(&[("crit1", "NO"), ("crit3", "NO")]);
    assert_eq!(get_score(&sc, &sel_zero), 0.0);

    let sel_na = sel(&[("crit1", "N/A"), ("crit3", "YES")]);
    assert_eq!(get_score(&sc, &sel_na), 1.0);

    let sel_fyi = sel(&[("crit1", "FYI"), ("crit3", "NO")]);
    assert_eq!(get_score(&sc, &sel_fyi), 0.5);
}

#[test]
fn from_csv_duplicate_option_error() {
    let csv = ",A,A\ncrit1,1,0\n";
    assert!(Scorecard::from_csv_string(csv).is_err());
}

#[test]
fn from_csv_duplicate_criterion_error() {
    let csv = ",YES,NO\ncrit1,1,0\ncrit1,1,0\n";
    assert!(Scorecard::from_csv_string(csv).is_err());
}

#[test]
fn from_csv_invalid_cell_error() {
    let csv = ",YES,NO\ncrit1,1,BAD\n";
    assert!(Scorecard::from_csv_string(csv).is_err());
}

#[test]
fn csv_error_kinds() {
    assert_eq!(Scorecard::from_csv_string("").err(), Some(CsvError::Empty));
    assert_eq!(
        Scorecard::from_csv_string(",A,B,A\n").err(),
        Some(CsvError::DuplicateOption("A".to_string()))
    );
    assert_eq!(
        Scorecard::from_csv_string(",YES,NO\ncrit1,1,0\ncrit1,1,0\n").err(),
        Some(CsvError::DuplicateCriterion("crit1".to_string()))
    );
    assert_eq!(
        Scorecard::from_csv_string(",YES,NO\ncrit1,1,0\n\n,1,0\n").err(),
        Some(CsvError::EmptyCriterionName(4))
    );
    assert_eq!(
        Scorecard::from_csv_string(",YES,NO\ncrit1,1, BAD \n").err(),
        Some(CsvError::InvalidCell {
            value: "BAD".to_string(),
            criterion: "crit1".to_string(),
            option: "NO".to_string(),
        })
    );
}

#[test]
fn first_error_wins() {
    // the bad cell on line 2 comes before the duplicate on line 3
    assert_eq!(
        Scorecard::from_csv_string(",A\nc,x\nc,1\n").err(),
        Some(CsvError::InvalidCell {
            value: "x".to_string(),
            criterion: "c".to_string(),
            option: "A".to_string(),
        })
    );
}

#[test]
fn cells_are_trimmed_and_blank_lines_skipped() {
    let sc = Scorecard::from_csv_string(",A,B,C\r\n\r\n  \nc, 2 ,\tF, N \r\n").unwrap();
    let s = sel(&[("c", "A")]);
    assert_eq!(sc.score(&s), Some(Score::Ratio { earned: 2, possible: 2 }));
    assert_eq!(sc.score(&sel(&[("c", "B")])), Some(Score::Autofail));
    assert_eq!(sc.score(&sel(&[("c", "C")])), Some(Score::Ratio { earned: 0, possible: 0 }));
}

#[test]
fn numbers_follow_u32_parsing() {
    let sc = Scorecard::from_csv_string(",A,B\nc,+7,4294967295\n").unwrap();
    assert_eq!(sc.get_numerator(&sel(&[("c", "A")])), 7);
    assert_eq!(sc.get_denominator(&sel(&[("c", "A")])), 4294967295);
    assert!(Scorecard::from_csv_string(",A\nc,4294967296\n").is_err());
    assert!(Scorecard::from_csv_string(",A\nc,-1\n").is_err());
    assert!(Scorecard::from_csv_string(",A\nc,+\n").is_err());
    assert!(Scorecard::from_csv_string(",A\nc,1 2\n").is_err());
}

#[test]
fn missing_and_extra_cells() {
    // a short row leaves the remaining options out; extra cells are ignored
    let sc = Scorecard::from_csv_string(",A,B\nshort,1\nlong,0,3,9,x\n").unwrap();
    assert_eq!(sc.get_denominator(&sel(&[("short", "A"), ("long", "B")])), 4);
    assert_eq!(sc.get_numerator(&sel(&[("short", "A"), ("long", "B")])), 4);
}

#[test]
fn header_only_gives_empty_scorecard() {
    let sc = Scorecard::from_csv_string(",A,B\n").unwrap();
    assert_eq!(sc.score(&sel(&[])), Some(Score::Ratio { earned: 0, possible: 0 }));
}

#[test]
fn names_are_not_trimmed() {
    // " c" and "c" are different criteria
    let sc = Scorecard::from_csv_string(",A\nc,1\n c,2\n").unwrap();
    assert_eq!(sc.get_numerator(&sel(&[("c", "A"), (" c", "A")])), 3);
}

#[test]
fn points_score_reads_back() {
    let sc = Scorecard::from_csv_string(",A\nc,5\n").unwrap();
    let _ = CriterionScore::Points(5);
    assert_eq!(sc.score(&sel(&[("c", "A")])), Some(Score::Ratio { earned: 5, possible: 5 }));
}

#[test]
fn totals_past_u32_are_reported() {
    let sc = Scorecard::from_csv_string(",A,B\nc1,4294967295,0\nc2,1,F\n").unwrap();
    let s = sel(&[("c1", "A"), ("c2", "A")]);
    assert_eq!(sc.checked_numerator(&s), None);
    assert_eq!(sc.checked_denominator(&s), None);
    assert_eq!(sc.score(&s), None);
    // a failing pick decides the score before any total is taken
    let f = sel(&[("c1", "A"), ("c2", "B")]);
    assert_eq!(sc.score(&f), Some(Score::Autofail));
    let ok = sel(&[("c1", "B"), ("c2", "A")]);
    assert_eq!(sc.checked_numerator(&ok), Some(1));
    assert_eq!(sc.checked_denominator(&ok), None);
}

#[test]
fn selection_must_pick_an_offered_option_everywhere() {
    let sc = Scorecard::from_csv_string(",A,B\nc1,1,\nc2,1,0\n").unwrap();
    assert!(sc.selects_from_each(&sel(&[("c1", "A"), ("c2", "B")])));
    assert!(!sc.selects_from_each(&sel(&[("c1", "B"), ("c2", "B")])));
    assert!(!sc.selects_from_each(&sel(&[("c1", "A")])));
    assert!(sc.selects_from_each(&sel(&[("c1", "A"), ("c2", "A"), ("extra", "Z")])));
}
