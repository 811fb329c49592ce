//! The scorecard built from parts: besides its criteria it keeps the order of
//! its option columns and criterion rows, and its criteria offer lookups,
//! their full marks, and an average over several picks.
//!
//! Here an option that fails the assessment still counts the criterion's full
//! marks as possible, unlike in the scorecard at the crate root.
use vstd::prelude::*;

pub use crate::CriterionScore;
use crate::names::{
    NameMap,
    keys_unique,
    lemma_pairs_to_map_dom,
    lemma_pairs_to_map_finite,
    lemma_pairs_to_map_len,
    lemma_pairs_to_map_value,
    pairs_to_map,
};
use crate::{
    CriteriaView,
    OptionMap,
    Score,
    any_autofail,
    covers,
    full_marks,
    highest_points,
    lemma_tally_prefix,
    numerator_of,
    picked,
    tally,
};

verus! {

/// Points possible for a criterion with options `m` when `o` is picked: the
/// criterion's full marks, unless the option takes the criterion out of the
/// assessment.
pub open spec fn denominator_of(m: OptionMap, o: Seq<char>) -> int {
    match m[o] {
        CriterionScore::NotApplicable => 0,
        _ => full_marks(m) as int,
    }
}

/// Total points earned by `sel`.
pub open spec fn numerator_total(cs: CriteriaView, sel: Map<Seq<char>, String>) -> int {
    tally(cs, sel, |m: OptionMap, o: Seq<char>| numerator_of(m, o))
}

/// Total points possible for `sel`.
pub open spec fn denominator_total(cs: CriteriaView, sel: Map<Seq<char>, String>) -> int {
    tally(cs, sel, |m: OptionMap, o: Seq<char>| denominator_of(m, o))
}

/// The sum of `f(m, o)` over the picks `sels`.
pub open spec fn picks_total(m: OptionMap, sels: Seq<Seq<char>>, f: spec_fn(OptionMap, Seq<char>) -> int) -> int
    decreases sels.len(),
{
    if sels.len() == 0 {
        0
    } else {
        picks_total(m, sels.drop_last(), f) + f(m, sels.last())
    }
}

/// A sum of non-negative terms over a prefix of the picks is at most the whole sum.
proof fn lemma_picks_prefix(
    m: OptionMap,
    sels: Seq<Seq<char>>,
    f: spec_fn(OptionMap, Seq<char>) -> int,
    i: int,
)
    requires
        0 <= i <= sels.len(),
        forall|m: OptionMap, o: Seq<char>| #[trigger] f(m, o) >= 0,
    ensures
        0 <= picks_total(m, sels.take(i), f) <= picks_total(m, sels, f),
    decreases sels.len(),
{
    if i < sels.len() {
        lemma_picks_prefix(m, sels.drop_last(), f, i);
        assert(sels.drop_last().take(i) =~= sels.take(i));
    } else {
        assert(sels.take(i) =~= sels);
        if sels.len() > 0 {
            lemma_picks_prefix(m, sels.drop_last(), f, i - 1);
            assert(sels.drop_last().take(i - 1) =~= sels.drop_last());
        }
    }
}

/// The names that the picks in `sels` give.
pub open spec fn str_seq(sels: Seq<&str>) -> Seq<Seq<char>> {
    Seq::new(sels.len(), |i: int| sels[i]@)
}

/// One criterion of a scorecard: its options, by name.
pub struct Criterion {
    options: NameMap<CriterionScore>,
}

impl View for Criterion {
    type V = OptionMap;

    closed spec fn view(&self) -> OptionMap {
        self.options@
    }
}

impl Criterion {
    /// A criterion has finitely many options.
    pub proof fn lemma_finite(&self)
        ensures
            self@.dom().finite(),
    {
        lemma_pairs_to_map_finite(self.options.pairs());
    }

    /// The criterion with the given options; a later option with the same
    /// name replaces an earlier one.
    pub fn new(options: Vec<(String, CriterionScore)>) -> (c: Self)
        ensures
            c@ == pairs_to_map(Seq::new(options@.len(), |i: int| (options@[i].0@, options@[i].1))),
    {
        Criterion { options: NameMap::from_pairs(options) }
    }

    /// The score of the option named `name`, if the criterion offers it.
    pub fn option(&self, name: &str) -> (r: Option<&CriterionScore>)
        ensures
            match r {
                Some(s) => self@.contains_key(name@) && *s == self@[name@],
                None => !self@.contains_key(name@),
            },
    {
        self.options.get(name)
    }

    /// All (option name, score) pairs of this criterion, each option once.
    pub fn options(&self) -> (s: &[(String, CriterionScore)])
        ensures
            s@.len() == self@.dom().len(),
            forall|i: int|
                0 <= i < s@.len() ==> self@.contains_key((#[trigger] s@[i]).0@) && self@[s@[i].0@]
                    == s@[i].1,
            forall|i: int, j: int| 0 <= i < j < s@.len() ==> s@[i].0@ != s@[j].0@,
            forall|k: Seq<char>|
                self@.contains_key(k) ==> exists|i: int| 0 <= i < s@.len() && s@[i].0@ == k,
    {
        proof {
            use_type_invariant(&self.options);
            lemma_pairs_to_map_len(self.options.pairs());
        }
        let s = self.options.entries();
        let ghost p = self.options.pairs();
        assert forall|i: int| 0 <= i < s@.len() implies self@.contains_key((#[trigger] s@[i]).0@)
            && self@[s@[i].0@] == s@[i].1 by {
            lemma_pairs_to_map_value(p, i);
        }
        assert forall|i: int, j: int| 0 <= i < j < s@.len() implies s@[i].0@ != s@[j].0@ by {
            assert(p[i].0 != p[j].0);
        }
        assert forall|k: Seq<char>| self@.contains_key(k) implies exists|i: int|
            0 <= i < s@.len() && s@[i].0@ == k by {
            lemma_pairs_to_map_dom(p, k);
            let i = choose|i: int| 0 <= i < p.len() && p[i].0 == k;
            assert(s@[i].0@ == k);
        }
        s
    }

    /// The highest `Points` value among this criterion's options (0 if
    /// none): the full marks of the criterion.
    pub fn max_points(&self) -> (r: u32)
        ensures
            r == full_marks(self@),
    {
        highest_points(&self.options)
    }

    /// Points earned by picking `sel`.
    pub fn get_numerator(&self, sel: &str) -> (r: u32)
        requires
            self@.contains_key(sel@),
        ensures
            r == numerator_of(self@, sel@),
    {
        match self.options.get(sel).unwrap() {
            CriterionScore::Points(n) => *n,
            _ => 0,
        }
    }

    /// Points possible when `sel` is picked.
    pub fn get_denominator(&self, sel: &str) -> (r: u32)
        requires
            self@.contains_key(sel@),
        ensures
            r == denominator_of(self@, sel@),
    {
        match self.options.get(sel).unwrap() {
            CriterionScore::NotApplicable => 0,
            _ => highest_points(&self.options),
        }
    }

    /// Whether picking `sel` fails the assessment.
    pub fn is_autofail(&self, sel: &str) -> (r: bool)
        requires
            self@.contains_key(sel@),
        ensures
            r == (self@[sel@] == CriterionScore::Autofail),
    {
        match self.options.get(sel).unwrap() {
            CriterionScore::Autofail => true,
            _ => false,
        }
    }

    /// The points earned and the points possible over the picks `sels`, or
    /// `None` when one of those totals does not fit in a `u32`.
    pub fn average_totals(&self, sels: &Vec<&str>) -> (r: Option<(u32, u32)>)
        requires
            forall|i: int| 0 <= i < sels@.len() ==> self@.contains_key((#[trigger] sels@[i])@),
        ensures
            match r {
                Some((n, d)) => {
                    &&& n == picks_total(
                        self@,
                        str_seq(sels@),
                        |m: OptionMap, o: Seq<char>| numerator_of(m, o),
                    )
                    &&& d == picks_total(
                        self@,
                        str_seq(sels@),
                        |m: OptionMap, o: Seq<char>| denominator_of(m, o),
                    )
                },
                None => picks_total(
                    self@,
                    str_seq(sels@),
                    |m: OptionMap, o: Seq<char>| numerator_of(m, o),
                ) > u32::MAX || picks_total(
                    self@,
                    str_seq(sels@),
                    |m: OptionMap, o: Seq<char>| denominator_of(m, o),
                ) > u32::MAX,
            },
    {
        let ghost ss = str_seq(sels@);
        let ghost fnum = |m: OptionMap, o: Seq<char>| numerator_of(m, o);
        let ghost fden = |m: OptionMap, o: Seq<char>| denominator_of(m, o);
        let mut num: u32 = 0;
        let mut den: u32 = 0;
        let mut i: usize = 0;
        while i < sels.len()
            invariant
                ss == str_seq(sels@),
                fnum == (|m: OptionMap, o: Seq<char>| numerator_of(m, o)),
                fden == (|m: OptionMap, o: Seq<char>| denominator_of(m, o)),
                forall|j: int| 0 <= j < sels@.len() ==> self@.contains_key((#[trigger] sels@[j])@),
                i <= sels@.len(),
                num == picks_total(self@, ss.take(i as int), fnum),
                den == picks_total(self@, ss.take(i as int), fden),
            decreases sels@.len() - i,
        {
            let sel: &str = sels[i];
            assert(ss[i as int] == sel@);
            let n = self.get_numerator(sel);
            let d = self.get_denominator(sel);
            proof {
                assert(ss.take(i + 1).drop_last() =~= ss.take(i as int));
                lemma_picks_prefix(self@, ss, fnum, i + 1);
                lemma_picks_prefix(self@, ss, fden, i + 1);
            }
            match (num.checked_add(n), den.checked_add(d)) {
                (Some(a), Some(b)) => {
                    num = a;
                    den = b;
                },
                _ => return None,
            }
            i = i + 1;
        }
        assert(ss.take(i as int) =~= ss);
        Some((num, den))
    }

    /// The points earned and the points possible over the picks `sels`, or
    /// `None` when no points were possible.
    pub fn average_parts(&self, sels: &Vec<&str>) -> (r: Option<(u32, u32)>)
        requires
            forall|i: int| 0 <= i < sels@.len() ==> self@.contains_key((#[trigger] sels@[i])@),
            picks_total(self@, str_seq(sels@), |m: OptionMap, o: Seq<char>| numerator_of(m, o))
                <= u32::MAX,
            picks_total(self@, str_seq(sels@), |m: OptionMap, o: Seq<char>| denominator_of(m, o))
                <= u32::MAX,
        ensures
            match r {
                Some((n, d)) => {
                    &&& n == picks_total(
                        self@,
                        str_seq(sels@),
                        |m: OptionMap, o: Seq<char>| numerator_of(m, o),
                    )
                    &&& d == picks_total(
                        self@,
                        str_seq(sels@),
                        |m: OptionMap, o: Seq<char>| denominator_of(m, o),
                    )
                    &&& d > 0
                },
                None => picks_total(
                    self@,
                    str_seq(sels@),
                    |m: OptionMap, o: Seq<char>| denominator_of(m, o),
                ) == 0,
            },
    {
        let (num, den) = self.average_totals(sels).unwrap();
        if den > 0 {
            Some((num, den))
        } else {
            None
        }
    }
}

/// A scorecard: its criteria by name, with the order of its option columns
/// and of its criterion rows.
pub struct Scorecard {
    criteria: NameMap<Criterion>,
    option_order: Vec<String>,
    criterion_order: Vec<String>,
}

/// The criteria stored in `m`, as (name, options) pairs.
pub open spec fn criteria_view_of(m: NameMap<Criterion>) -> CriteriaView {
    Seq::new(m.pairs().len(), |i: int| (m.pairs()[i].0, m.pairs()[i].1@))
}

impl Scorecard {
    /// The criteria as (name, options) pairs, in the order they were stored.
    pub closed spec fn criteria_view(self) -> CriteriaView {
        criteria_view_of(self.criteria)
    }

    /// The criteria, by name.
    pub closed spec fn criteria_map(self) -> Map<Seq<char>, Criterion> {
        self.criteria@
    }

    /// The option names in column order.
    pub closed spec fn option_order_view(self) -> Seq<String> {
        self.option_order@
    }

    /// The criterion names in row order.
    pub closed spec fn criterion_order_view(self) -> Seq<String> {
        self.criterion_order@
    }

    /// The scorecard made of the given parts. Keeping the orders consistent
    /// with the names of `criteria` and of their options is left to the caller.
    pub fn new(criteria: NameMap<Criterion>, option_order: Vec<String>, criterion_order: Vec<String>) -> (sc:
        Self)
        ensures
            sc.criteria_view() == criteria_view_of(criteria),
            sc.criteria_map() == criteria@,
            sc.option_order_view() == option_order@,
            sc.criterion_order_view() == criterion_order@,
    {
        Scorecard { criteria, option_order, criterion_order }
    }

    /// The criterion names in their row order.
    pub fn criterion_order(&self) -> (r: &[String])
        ensures
            r@ == self.criterion_order_view(),
    {
        self.criterion_order.as_slice()
    }

    /// The option names in their column order.
    pub fn option_order(&self) -> (r: &[String])
        ensures
            r@ == self.option_order_view(),
    {
        self.option_order.as_slice()
    }

    /// The criterion named `name`, if there is one.
    pub fn criterion(&self, name: &str) -> (r: Option<&Criterion>)
        ensures
            match r {
                Some(c) => self.criteria_map().contains_key(name@) && *c == self.criteria_map()[name@],
                None => !self.criteria_map().contains_key(name@),
            },
    {
        self.criteria.get(name)
    }

    /// All (criterion name, criterion) pairs, each criterion once.
    pub fn criteria(&self) -> (s: &[(String, Criterion)])
        ensures
            s@.len() == self.criteria_view().len(),
            forall|i: int|
                0 <= i < s@.len() ==> (#[trigger] s@[i]).0@ == self.criteria_view()[i].0
                    && s@[i].1@ == self.criteria_view()[i].1,
            keys_unique(self.criteria_view()),
    {
        proof {
            use_type_invariant(&self.criteria);
        }
        let s = self.criteria.entries();
        assert forall|i: int, j: int|
            0 <= i < j < self.criteria_view().len() implies self.criteria_view()[i].0
            != self.criteria_view()[j].0 by {
            assert(self.criteria.pairs()[i].0 != self.criteria.pairs()[j].0);
        }
        s
    }

    /// Each criterion has finitely many options.
    pub proof fn lemma_criteria_finite(&self)
        ensures
            forall|i: int|
                0 <= i < self.criteria_view().len() ==> (#[trigger] self.criteria_view()[i]).1.dom().finite(),
    {
        assert forall|i: int| 0 <= i < self.criteria_view().len() implies (
        #[trigger] self.criteria_view()[i]).1.dom().finite() by {
            self.criteria.pairs()[i].1.lemma_finite();
        }
    }

    /// Whether `sel` picks, for every criterion, an option that the criterion
    /// offers.
    pub fn selects_from_each(&self, sel: &NameMap<String>) -> (b: bool)
        ensures
            b == covers(self.criteria_view(), sel@),
    {
        let ghost cs = self.criteria_view();
        let entries = self.criteria.entries();
        let mut i: usize = 0;
        while i < entries.len()
            invariant
                cs == self.criteria_view(),
                entries@.len() == cs.len(),
                forall|j: int|
                    0 <= j < entries@.len() ==> (#[trigger] entries@[j]).0@ == cs[j].0
                        && entries@[j].1@ == cs[j].1,
                i <= cs.len(),
                forall|j: int|
                    0 <= j < i ==> sel@.contains_key(cs[j].0) && cs[j].1.contains_key(
                        picked(sel@, cs[j].0),
                    ),
            decreases cs.len() - i,
        {
            let name = &entries[i].0;
            let crit = &entries[i].1;
            assert(cs[i as int].0 == name@);
            match sel.get(name.as_str()) {
                None => return false,
                Some(opt) => {
                    if crit.option(opt.as_str()).is_none() {
                        return false;
                    }
                },
            }
            i = i + 1;
        }
        true
    }

    /// Total points earned by the selection `sel`, or `None` when that total
    /// does not fit in a `u32`.
    pub fn checked_numerator(&self, sel: &NameMap<String>) -> (r: Option<u32>)
        requires
            covers(self.criteria_view(), sel@),
        ensures
            match r {
                Some(n) => n == numerator_total(self.criteria_view(), sel@),
                None => numerator_total(self.criteria_view(), sel@) > u32::MAX,
            },
    {
        let ghost cs = self.criteria_view();
        let ghost f = |m: OptionMap, o: Seq<char>| numerator_of(m, o);
        let entries = self.criteria.entries();
        let mut total: u32 = 0;
        let mut i: usize = 0;
        while i < entries.len()
            invariant
                covers(cs, sel@),
                cs == self.criteria_view(),
                f == (|m: OptionMap, o: Seq<char>| numerator_of(m, o)),
                entries@.len() == cs.len(),
                forall|j: int|
                    0 <= j < entries@.len() ==> (#[trigger] entries@[j]).0@ == cs[j].0
                        && entries@[j].1@ == cs[j].1,
                i <= cs.len(),
                total == tally(cs.take(i as int), sel@, f),
            decreases cs.len() - i,
        {
            let name = &entries[i].0;
            let crit = &entries[i].1;
            assert(cs[i as int].0 == name@);
            let opt = sel.get(name.as_str()).unwrap();
            let n = crit.get_numerator(opt.as_str());
            proof {
                assert(cs.take(i + 1).drop_last() =~= cs.take(i as int));
                lemma_tally_prefix(cs, sel@, f, i + 1);
            }
            match total.checked_add(n) {
                Some(t) => total = t,
                None => return None,
            }
            i = i + 1;
        }
        assert(cs.take(i as int) =~= cs);
        Some(total)
    }

    /// Total points earned by the selection `sel`.
    pub fn get_numerator(&self, sel: &NameMap<String>) -> (r: u32)
        requires
            covers(self.criteria_view(), sel@),
            numerator_total(self.criteria_view(), sel@) <= u32::MAX,
        ensures
            r == numerator_total(self.criteria_view(), sel@),
    {
        self.checked_numerator(sel).unwrap()
    }

    /// Total points possible for the selection `sel`, or `None` when that total
    /// does not fit in a `u32`.
    pub fn checked_denominator(&self, sel: &NameMap<String>) -> (r: Option<u32>)
        requires
            covers(self.criteria_view(), sel@),
        ensures
            match r {
                Some(n) => n == denominator_total(self.criteria_view(), sel@),
                None => denominator_total(self.criteria_view(), sel@) > u32::MAX,
            },
    {
        let ghost cs = self.criteria_view();
        let ghost f = |m: OptionMap, o: Seq<char>| denominator_of(m, o);
        let entries = self.criteria.entries();
        let mut total: u32 = 0;
        let mut i: usize = 0;
        while i < entries.len()
            invariant
                covers(cs, sel@),
                cs == self.criteria_view(),
                f == (|m: OptionMap, o: Seq<char>| denominator_of(m, o)),
                entries@.len() == cs.len(),
                forall|j: int|
                    0 <= j < entries@.len() ==> (#[trigger] entries@[j]).0@ == cs[j].0
                        && entries@[j].1@ == cs[j].1,
                i <= cs.len(),
                total == tally(cs.take(i as int), sel@, f),
            decreases cs.len() - i,
        {
            let name = &entries[i].0;
            let crit = &entries[i].1;
            assert(cs[i as int].0 == name@);
            let opt = sel.get(name.as_str()).unwrap();
            let n = crit.get_denominator(opt.as_str());
            proof {
                assert(cs.take(i + 1).drop_last() =~= cs.take(i as int));
                lemma_tally_prefix(cs, sel@, f, i + 1);
            }
            match total.checked_add(n) {
                Some(t) => total = t,
                None => return None,
            }
            i = i + 1;
        }
        assert(cs.take(i as int) =~= cs);
        Some(total)
    }

    /// Total points possible for the selection `sel`.
    pub fn get_denominator(&self, sel: &NameMap<String>) -> (r: u32)
        requires
            covers(self.criteria_view(), sel@),
            denominator_total(self.criteria_view(), sel@) <= u32::MAX,
        ensures
            r == denominator_total(self.criteria_view(), sel@),
    {
        self.checked_denominator(sel).unwrap()
    }

    /// Whether the selection `sel` fails the assessment: some criterion has its
    /// fail-everything option picked.
    pub fn is_autofail(&self, sel: &NameMap<String>) -> (r: bool)
        requires
            covers(self.criteria_view(), sel@),
        ensures
            r == any_autofail(self.criteria_view(), sel@),
    {
        let ghost cs = self.criteria_view();
        let entries = self.criteria.entries();
        let mut i: usize = 0;
        while i < entries.len()
            invariant
                covers(cs, sel@),
                cs == self.criteria_view(),
                entries@.len() == cs.len(),
                forall|j: int|
                    0 <= j < entries@.len() ==> (#[trigger] entries@[j]).0@ == cs[j].0
                        && entries@[j].1@ == cs[j].1,
                i <= cs.len(),
                forall|j: int|
                    0 <= j < i ==> cs[j].1[picked(sel@, cs[j].0)] != CriterionScore::Autofail,
            decreases cs.len() - i,
        {
            let name = &entries[i].0;
            let crit = &entries[i].1;
            assert(cs[i as int].0 == name@);
            let opt = sel.get(name.as_str()).unwrap();
            if crit.is_autofail(opt.as_str()) {
                return true;
            }
            i = i + 1;
        }
        false
    }

    /// The score of the selection `sel`: a failure when some picked option
    /// fails the assessment, otherwise the points earned out of the points
    /// possible; `None` when one of those totals does not fit in a `u32`.
    pub fn score(&self, sel: &NameMap<String>) -> (r: Option<Score>)
        requires
            covers(self.criteria_view(), sel@),
        ensures
            r == (if any_autofail(self.criteria_view(), sel@) {
                Some(Score::Autofail)
            } else if numerator_total(self.criteria_view(), sel@) <= u32::MAX
                && denominator_total(self.criteria_view(), sel@) <= u32::MAX {
                Some(
                    Score::Ratio {
                        earned: numerator_total(self.criteria_view(), sel@) as u32,
                        possible: denominator_total(self.criteria_view(), sel@) as u32,
                    },
                )
            } else {
                None
            }),
    {
        if self.is_autofail(sel) {
            return Some(Score::Autofail);
        }
        match (self.checked_numerator(sel), self.checked_denominator(sel)) {
            (Some(earned), Some(possible)) => Some(Score::Ratio { earned, possible }),
            _ => None,
        }
    }
}

} // verus!
