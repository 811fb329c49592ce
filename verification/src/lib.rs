//! Scorecards for quality assessments: each criterion offers named options, each
//! option is worth some points, fails the assessment outright, or takes the
//! criterion out of the assessment. A selection picks one option per criterion.
//!
//! The crate root holds the scorecard that is read from CSV; the module
//! `scorecard` holds the variant that is built from parts and keeps the
//! order of its rows and columns.
use vstd::prelude::*;

pub mod csv;
pub mod laws;
pub mod names;
pub mod scorecard;
pub mod text;

use crate::names::{
    NameMap,
    lemma_pairs_to_map_finite,
    lemma_pairs_to_map_lookup,
    lemma_pairs_to_map_value,
    pairs_to_map,
};

verus! {

/// The score attached to one option of a criterion.
#[derive(Clone, Copy, Debug, PartialEq, Eq, Structural)]
pub enum CriterionScore {
    /// Choosing the option earns this many points.
    Points(u32),
    /// Choosing the option fails the whole assessment.
    Autofail,
    /// Choosing the option takes the criterion out of the assessment.
    NotApplicable,
}

/// The outcome of scoring a selection: failed outright, or some points out of
/// the points that were possible.
#[derive(Clone, Copy, Debug, PartialEq, Eq, Structural)]
pub enum Score {
    Autofail,
    Ratio { earned: u32, possible: u32 },
}

/// The options of a criterion, by name.
pub type OptionMap = Map<Seq<char>, CriterionScore>;

/// Points earned by a score: the points of `Points`, 0 otherwise.
pub open spec fn points_of(s: CriterionScore) -> u32 {
    match s {
        CriterionScore::Points(p) => p,
        _ => 0,
    }
}

/// `r` is the highest `Points` value among the options of `m`, or 0 when no
/// option is worth points.
pub open spec fn is_full_marks(m: OptionMap, r: u32) -> bool {
    &&& forall|k: Seq<char>|
        #![trigger m[k]]
        m.contains_key(k) && m[k] is Points ==> points_of(m[k]) <= r
    &&& (r == 0 || exists|k: Seq<char>| m.contains_key(k) && m[k] == CriterionScore::Points(r))
}

/// The highest `Points` value among the options of `m` (0 if none).
pub open spec fn full_marks(m: OptionMap) -> u32 {
    choose|r: u32| is_full_marks(m, r)
}

/// At most one value is the highest.
pub proof fn lemma_full_marks_unique(m: OptionMap, r1: u32, r2: u32)
    requires
        is_full_marks(m, r1),
        is_full_marks(m, r2),
    ensures
        r1 == r2,
{
    if r1 != 0 {
        let k = choose|k: Seq<char>| m.contains_key(k) && m[k] == CriterionScore::Points(r1);
        assert(points_of(m[k]) <= r2);
    }
    if r2 != 0 {
        let k = choose|k: Seq<char>| m.contains_key(k) && m[k] == CriterionScore::Points(r2);
        assert(points_of(m[k]) <= r1);
    }
}

/// Every finite set of options has a highest `Points` value.
pub proof fn lemma_full_marks(m: OptionMap)
    requires
        m.dom().finite(),
    ensures
        is_full_marks(m, full_marks(m)),
    decreases m.dom().len(),
{
    if m.dom().len() == 0 {
        vstd::set_lib::lemma_set_empty_equivalency_len(m.dom());
        assert(is_full_marks(m, 0u32));
    } else {
        let k0 = m.dom().choose();
        let m2 = m.remove(k0);
        assert(m2.dom() =~= m.dom().remove(k0));
        lemma_full_marks(m2);
        let r2 = full_marks(m2);
        let r: u32 = match m[k0] {
            CriterionScore::Points(p) => if p > r2 {
                p
            } else {
                r2
            },
            _ => r2,
        };
        assert forall|k: Seq<char>| m.contains_key(k) && m[k] is Points implies points_of(m[k])
            <= r by {
            if k != k0 {
                assert(m2.contains_key(k) && m2[k] == m[k]);
            }
        }
        if r != 0 {
            if r == r2 {
                let k = choose|k: Seq<char>| m2.contains_key(k) && m2[k] == CriterionScore::Points(r2);
                assert(m.contains_key(k) && m[k] == CriterionScore::Points(r));
            } else {
                assert(m.contains_key(k0) && m[k0] == CriterionScore::Points(r));
            }
        }
        assert(is_full_marks(m, r));
    }
}

/// The highest `Points` value among the options stored in `options`.
pub(crate) fn highest_points(options: &NameMap<CriterionScore>) -> (r: u32)
    ensures
        r == full_marks(options@),
        is_full_marks(options@, r),
{
    proof {
        use_type_invariant(options);
    }
    let entries = options.entries();
    let ghost s = options.pairs();
    let mut best: u32 = 0;
    let mut i: usize = 0;
    while i < entries.len()
        invariant
            entries@.len() == s.len(),
            forall|j: int|
                0 <= j < entries@.len() ==> (#[trigger] entries@[j]).1 == s[j].1,
            i <= s.len(),
            forall|j: int| 0 <= j < i && s[j].1 is Points ==> points_of(s[j].1) <= best,
            best == 0 || exists|j: int| 0 <= j < i && s[j].1 == CriterionScore::Points(best),
        decreases s.len() - i,
    {
        if let CriterionScore::Points(p) = entries[i].1 {
            if p > best {
                best = p;
            }
        }
        i = i + 1;
    }
    proof {
        let m = options@;
        assert forall|k: Seq<char>| m.contains_key(k) && m[k] is Points implies points_of(m[k])
            <= best by {
            lemma_pairs_to_map_lookup(s, k);
        }
        if best != 0 {
            let j = choose|j: int| 0 <= j < s.len() && s[j].1 == CriterionScore::Points(best);
            lemma_pairs_to_map_value(s, j);
        }
        lemma_pairs_to_map_finite(s);
        lemma_full_marks(m);
        lemma_full_marks_unique(m, best, full_marks(m));
    }
    best
}

/// The criteria of a scorecard, as (name, options) pairs.
pub type CriteriaView = Seq<(Seq<char>, OptionMap)>;

/// The option that `sel` picks for the criterion named `name`.
pub open spec fn picked(sel: Map<Seq<char>, String>, name: Seq<char>) -> Seq<char> {
    sel[name]@
}

/// `sel` names an option of every criterion.
pub open spec fn covers(cs: CriteriaView, sel: Map<Seq<char>, String>) -> bool {
    forall|i: int|
        #![trigger cs[i]]
        0 <= i < cs.len() ==> sel.contains_key(cs[i].0) && cs[i].1.contains_key(picked(sel, cs[i].0))
}

/// The sum, over the criteria, of `f` applied to each criterion's options and
/// the option that `sel` picks for it.
pub open spec fn tally(
    cs: CriteriaView,
    sel: Map<Seq<char>, String>,
    f: spec_fn(OptionMap, Seq<char>) -> int,
) -> int
    decreases cs.len(),
{
    if cs.len() == 0 {
        0
    } else {
        tally(cs.drop_last(), sel, f) + f(cs.last().1, picked(sel, cs.last().0))
    }
}

/// Some criterion has its fail-everything option picked.
pub open spec fn any_autofail(cs: CriteriaView, sel: Map<Seq<char>, String>) -> bool {
    exists|i: int|
        #![trigger cs[i]]
        0 <= i < cs.len() && cs[i].1[picked(sel, cs[i].0)] == CriterionScore::Autofail
}

/// A tally of non-negative terms over a prefix is at most the whole tally.
pub proof fn lemma_tally_prefix(
    cs: CriteriaView,
    sel: Map<Seq<char>, String>,
    f: spec_fn(OptionMap, Seq<char>) -> int,
    i: int,
)
    requires
        0 <= i <= cs.len(),
        forall|m: OptionMap, o: Seq<char>| #[trigger] f(m, o) >= 0,
    ensures
        0 <= tally(cs.take(i), sel, f) <= tally(cs, sel, f),
    decreases cs.len(),
{
    if i < cs.len() {
        lemma_tally_prefix(cs.drop_last(), sel, f, i);
        assert(cs.drop_last().take(i) =~= cs.take(i));
    } else {
        assert(cs.take(i) =~= cs);
        if cs.len() > 0 {
            lemma_tally_prefix(cs.drop_last(), sel, f, i - 1);
            assert(cs.drop_last().take(i - 1) =~= cs.drop_last());
        }
    }
}

/// Points earned by the option `o` of a criterion with options `m`.
pub open spec fn numerator_of(m: OptionMap, o: Seq<char>) -> int {
    points_of(m[o]) as int
}

/// Points possible for a criterion with options `m` when `o` is picked: the
/// criterion's full marks for an option worth points, nothing for an option
/// that fails the assessment or takes the criterion out of it.
pub open spec fn denominator_of(m: OptionMap, o: Seq<char>) -> int {
    match m[o] {
        CriterionScore::Points(_) => full_marks(m) as int,
        _ => 0,
    }
}

/// Total points earned by `sel`.
pub open spec fn numerator_total(cs: CriteriaView, sel: Map<Seq<char>, String>) -> int {
    tally(cs, sel, |m: OptionMap, o: Seq<char>| numerator_of(m, o))
}

/// Total points possible for `sel`.
pub open spec fn denominator_total(cs: CriteriaView, sel: Map<Seq<char>, String>) -> int {
    tally(cs, sel, |m: OptionMap, o: Seq<char>| denominator_of(m, o))
}

/// The criteria stored in `m`, as (name, options) pairs.
pub open spec fn criteria_view_of(m: NameMap<Criterion>) -> CriteriaView {
    Seq::new(m.pairs().len(), |i: int| (m.pairs()[i].0, m.pairs()[i].1@))
}

/// One criterion of a scorecard: its options, by name.
pub struct Criterion {
    options: NameMap<CriterionScore>,
}

impl View for Criterion {
    type V = OptionMap;

    closed spec fn view(&self) -> OptionMap {
        self.options@
    }
}

impl Criterion {
    /// A criterion has finitely many options.
    pub proof fn lemma_finite(&self)
        ensures
            self@.dom().finite(),
    {
        lemma_pairs_to_map_finite(self.options.pairs());
    }

    /// The criterion with the given options; a later option with the same
    /// name replaces an earlier one.
    pub fn new(options: Vec<(String, CriterionScore)>) -> (c: Self)
        ensures
            c@ == pairs_to_map(Seq::new(options@.len(), |i: int| (options@[i].0@, options@[i].1))),
    {
        Criterion { options: NameMap::from_pairs(options) }
    }

    /// The criterion with the options stored in `options`.
    pub(crate) fn from_options(options: NameMap<CriterionScore>) -> (c: Self)
        ensures
            c@ == options@,
    {
        Criterion { options }
    }

    /// The score of the option named `name`, if the criterion offers it.
    pub fn option(&self, name: &str) -> (r: Option<&CriterionScore>)
        ensures
            match r {
                Some(s) => self@.contains_key(name@) && *s == self@[name@],
                None => !self@.contains_key(name@),
            },
    {
        self.options.get(name)
    }

    /// Points earned by picking `sel`.
    pub fn get_numerator(&self, sel: &str) -> (r: u32)
        requires
            self@.contains_key(sel@),
        ensures
            r == numerator_of(self@, sel@),
    {
        match self.options.get(sel).unwrap() {
            CriterionScore::Points(n) => *n,
            _ => 0,
        }
    }

    /// Points possible when `sel` is picked.
    pub fn get_denominator(&self, sel: &str) -> (r: u32)
        requires
            self@.contains_key(sel@),
        ensures
            r == denominator_of(self@, sel@),
    {
        match self.options.get(sel).unwrap() {
            CriterionScore::Points(_) => highest_points(&self.options),
            _ => 0,
        }
    }

    /// Whether picking `sel` fails the assessment.
    pub fn is_autofail(&self, sel: &str) -> (r: bool)
        requires
            self@.contains_key(sel@),
        ensures
            r == (self@[sel@] == CriterionScore::Autofail),
    {
        match self.options.get(sel).unwrap() {
            CriterionScore::Autofail => true,
            _ => false,
        }
    }
}

/// A scorecard: its criteria, by name.
pub struct Scorecard {
    criteria: NameMap<Criterion>,
}

impl Scorecard {
    /// The criteria as (name, options) pairs, in the order of their rows.
    pub closed spec fn criteria_view(self) -> CriteriaView {
        criteria_view_of(self.criteria)
    }

    /// The scorecard with the given criteria.
    pub(crate) fn from_criteria(criteria: NameMap<Criterion>) -> (sc: Self)
        ensures
            sc.criteria_view() == criteria_view_of(criteria),
    {
        Scorecard { criteria }
    }

    /// Each criterion has finitely many options.
    pub proof fn lemma_criteria_finite(&self)
        ensures
            forall|i: int|
                0 <= i < self.criteria_view().len() ==> (#[trigger] self.criteria_view()[i]).1.dom().finite(),
    {
        assert forall|i: int| 0 <= i < self.criteria_view().len() implies (
        #[trigger] self.criteria_view()[i]).1.dom().finite() by {
            self.criteria.pairs()[i].1.lemma_finite();
        }
    }

    /// Whether `sel` picks, for every criterion, an option that the criterion
    /// offers.
    pub fn selects_from_each(&self, sel: &NameMap<String>) -> (b: bool)
        ensures
            b == covers(self.criteria_view(), sel@),
    {
        let ghost cs = self.criteria_view();
        let entries = self.criteria.entries();
        let mut i: usize = 0;
        while i < entries.len()
            invariant
                cs == self.criteria_view(),
                entries@.len() == cs.len(),
                forall|j: int|
                    0 <= j < entries@.len() ==> (#[trigger] entries@[j]).0@ == cs[j].0
                        && entries@[j].1@ == cs[j].1,
                i <= cs.len(),
                forall|j: int|
                    0 <= j < i ==> sel@.contains_key(cs[j].0) && cs[j].1.contains_key(
                        picked(sel@, cs[j].0),
                    ),
            decreases cs.len() - i,
        {
            let name = &entries[i].0;
            let crit = &entries[i].1;
            assert(cs[i as int].0 == name@);
            match sel.get(name.as_str()) {
                None => return false,
                Some(opt) => {
                    if crit.option(opt.as_str()).is_none() {
                        return false;
                    }
                },
            }
            i = i + 1;
        }
        true
    }

    /// Total points earned by the selection `sel`, or `None` when that total
    /// does not fit in a `u32`.
    pub fn checked_numerator(&self, sel: &NameMap<String>) -> (r: Option<u32>)
        requires
            covers(self.criteria_view(), sel@),
        ensures
            match r {
                Some(n) => n == numerator_total(self.criteria_view(), sel@),
                None => numerator_total(self.criteria_view(), sel@) > u32::MAX,
            },
    {
        let ghost cs = self.criteria_view();
        let ghost f = |m: OptionMap, o: Seq<char>| numerator_of(m, o);
        let entries = self.criteria.entries();
        let mut total: u32 = 0;
        let mut i: usize = 0;
        while i < entries.len()
            invariant
                covers(cs, sel@),
                cs == self.criteria_view(),
                f == (|m: OptionMap, o: Seq<char>| numerator_of(m, o)),
                entries@.len() == cs.len(),
                forall|j: int|
                    0 <= j < entries@.len() ==> (#[trigger] entries@[j]).0@ == cs[j].0
                        && entries@[j].1@ == cs[j].1,
                i <= cs.len(),
                total == tally(cs.take(i as int), sel@, f),
            decreases cs.len() - i,
        {
            let name = &entries[i].0;
            let crit = &entries[i].1;
            assert(cs[i as int].0 == name@);
            let opt = sel.get(name.as_str()).unwrap();
            let n = crit.get_numerator(opt.as_str());
            proof {
                assert(cs.take(i + 1).drop_last() =~= cs.take(i as int));
                lemma_tally_prefix(cs, sel@, f, i + 1);
            }
            match total.checked_add(n) {
                Some(t) => total = t,
                None => return None,
            }
            i = i + 1;
        }
        assert(cs.take(i as int) =~= cs);
        Some(total)
    }

    /// Total points earned by the selection `sel`.
    pub fn get_numerator(&self, sel: &NameMap<String>) -> (r: u32)
        requires
            covers(self.criteria_view(), sel@),
            numerator_total(self.criteria_view(), sel@) <= u32::MAX,
        ensures
            r == numerator_total(self.criteria_view(), sel@),
    {
        self.checked_numerator(sel).unwrap()
    }

    /// Total points possible for the selection `sel`, or `None` when that total
    /// does not fit in a `u32`.
    pub fn checked_denominator(&self, sel: &NameMap<String>) -> (r: Option<u32>)
        requires
            covers(self.criteria_view(), sel@),
        ensures
            match r {
                Some(n) => n == denominator_total(self.criteria_view(), sel@),
                None => denominator_total(self.criteria_view(), sel@) > u32::MAX,
            },
    {
        let ghost cs = self.criteria_view();
        let ghost f = |m: OptionMap, o: Seq<char>| denominator_of(m, o);
        let entries = self.criteria.entries();
        let mut total: u32 = 0;
        let mut i: usize = 0;
        while i < entries.len()
            invariant
                covers(cs, sel@),
                cs == self.criteria_view(),
                f == (|m: OptionMap, o: Seq<char>| denominator_of(m, o)),
                entries@.len() == cs.len(),
                forall|j: int|
                    0 <= j < entries@.len() ==> (#[trigger] entries@[j]).0@ == cs[j].0
                        && entries@[j].1@ == cs[j].1,
                i <= cs.len(),
                total == tally(cs.take(i as int), sel@, f),
            decreases cs.len() - i,
        {
            let name = &entries[i].0;
            let crit = &entries[i].1;
            assert(cs[i as int].0 == name@);
            let opt = sel.get(name.as_str()).unwrap();
            let n = crit.get_denominator(opt.as_str());
            proof {
                assert(cs.take(i + 1).drop_last() =~= cs.take(i as int));
                lemma_tally_prefix(cs, sel@, f, i + 1);
            }
            match total.checked_add(n) {
                Some(t) => total = t,
                None => return None,
            }
            i = i + 1;
        }
        assert(cs.take(i as int) =~= cs);
        Some(total)
    }

    /// Total points possible for the selection `sel`.
    pub fn get_denominator(&self, sel: &NameMap<String>) -> (r: u32)
        requires
            covers(self.criteria_view(), sel@),
            denominator_total(self.criteria_view(), sel@) <= u32::MAX,
        ensures
            r == denominator_total(self.criteria_view(), sel@),
    {
        self.checked_denominator(sel).unwrap()
    }

    /// Whether the selection `sel` fails the assessment: some criterion has its
    /// fail-everything option picked.
    pub fn is_autofail(&self, sel: &NameMap<String>) -> (r: bool)
        requires
            covers(self.criteria_view(), sel@),
        ensures
            r == any_autofail(self.criteria_view(), sel@),
    {
        let ghost cs = self.criteria_view();
        let entries = self.criteria.entries();
        let mut i: usize = 0;
        while i < entries.len()
            invariant
                covers(cs, sel@),
                cs == self.criteria_view(),
                entries@.len() == cs.len(),
                forall|j: int|
                    0 <= j < entries@.len() ==> (#[trigger] entries@[j]).0@ == cs[j].0
                        && entries@[j].1@ == cs[j].1,
                i <= cs.len(),
                forall|j: int|
                    0 <= j < i ==> cs[j].1[picked(sel@, cs[j].0)] != CriterionScore::Autofail,
            decreases cs.len() - i,
        {
            let name = &entries[i].0;
            let crit = &entries[i].1;
            assert(cs[i as int].0 == name@);
            let opt = sel.get(name.as_str()).unwrap();
            if crit.is_autofail(opt.as_str()) {
                return true;
            }
            i = i + 1;
        }
        false
    }

    /// The score of the selection `sel`: a failure when some picked option
    /// fails the assessment, otherwise the points earned out of the points
    /// possible; `None` when one of those totals does not fit in a `u32`.
    pub fn score(&self, sel: &NameMap<String>) -> (r: Option<Score>)
        requires
            covers(self.criteria_view(), sel@),
        ensures
            r == (if any_autofail(self.criteria_view(), sel@) {
                Some(Score::Autofail)
            } else if numerator_total(self.criteria_view(), sel@) <= u32::MAX
                && denominator_total(self.criteria_view(), sel@) <= u32::MAX {
                Some(
                    Score::Ratio {
                        earned: numerator_total(self.criteria_view(), sel@) as u32,
                        possible: denominator_total(self.criteria_view(), sel@) as u32,
                    },
                )
            } else {
                None
            }),
    {
        if self.is_autofail(sel) {
            return Some(Score::Autofail);
        }
        match (self.checked_numerator(sel), self.checked_denominator(sel)) {
            (Some(earned), Some(possible)) => Some(Score::Ratio { earned, possible }),
            _ => None,
        }
    }
}

} // verus!
