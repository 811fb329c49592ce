//! Reading a scorecard from CSV text.
//!
//! The first line names the options (its first cell is ignored); each later
//! line that is not blank is a criterion: its name, then one cell per option.
//! A cell holding a number is worth that many points, `N` marks the option
//! not applicable, `F` marks it as failing the assessment, and an empty cell means
//! the criterion does not offer that option. Cells are trimmed of white
//! space; names are taken as written.
use vstd::prelude::*;

use crate::names::{NameMap, lemma_pairs_to_map_dom};
use crate::text::{
    chars_of,
    lemma_split_nonempty,
    line_ranges,
    lines_of,
    parse_u32,
    parse_u32_range,
    split_on,
    split_ranges,
    trim,
    trim_range,
};
use crate::{Criterion, CriteriaView, CriterionScore, OptionMap, Scorecard, criteria_view_of};

verus! {

/// Why a text is not a scorecard.
#[derive(Debug, PartialEq, Eq)]
pub enum CsvError {
    /// The text has no lines.
    Empty,
    /// Two options carry this name.
    DuplicateOption(String),
    /// The criterion on this line (counted from 1) has an empty name.
    EmptyCriterionName(usize),
    /// Two criteria carry this name.
    DuplicateCriterion(String),
    /// A cell that is neither empty, `N`, `F` nor a number.
    InvalidCell { value: String, criterion: String, option: String },
}

/// `CsvError` with its texts taken as character sequences.
pub enum CsvErrorView {
    Empty,
    DuplicateOption(Seq<char>),
    EmptyCriterionName(nat),
    DuplicateCriterion(Seq<char>),
    InvalidCell { value: Seq<char>, criterion: Seq<char>, option: Seq<char> },
}

impl View for CsvError {
    type V = CsvErrorView;

    open spec fn view(&self) -> CsvErrorView {
        match self {
            CsvError::Empty => CsvErrorView::Empty,
            CsvError::DuplicateOption(n) => CsvErrorView::DuplicateOption(n@),
            CsvError::EmptyCriterionName(l) => CsvErrorView::EmptyCriterionName(*l as nat),
            CsvError::DuplicateCriterion(n) => CsvErrorView::DuplicateCriterion(n@),
            CsvError::InvalidCell { value, criterion, option } => CsvErrorView::InvalidCell {
                value: value@,
                criterion: criterion@,
                option: option@,
            },
        }
    }
}

/// The name at column `j` also stands at an earlier column.
pub open spec fn repeats_earlier(names: Seq<Seq<char>>, j: int) -> bool {
    exists|i: int| 0 <= i < j && names[i] == names[j]
}

/// `j` is the first column whose name stands at an earlier column.
pub open spec fn is_first_repeat(names: Seq<Seq<char>>, j: int) -> bool {
    &&& 0 <= j < names.len()
    &&& repeats_earlier(names, j)
    &&& forall|k: int| 0 <= k < j ==> !repeats_earlier(names, k)
}

/// The first column whose name stands at an earlier column, if any.
pub open spec fn first_repeat(names: Seq<Seq<char>>) -> Option<int> {
    if exists|j: int| is_first_repeat(names, j) {
        Some(choose|j: int| is_first_repeat(names, j))
    } else {
        None
    }
}

/// The trimmed cell of option `c` in a row cut into `cells` (the name cell
/// first); a missing cell reads as empty.
pub open spec fn cell_text(cells: Seq<Seq<char>>, c: int) -> Seq<char> {
    trim(
        if c + 1 < cells.len() {
            cells[c + 1]
        } else {
            Seq::empty()
        },
    )
}

/// A trimmed cell is empty, `N`, `F`, or a number.
pub open spec fn cell_valid(t: Seq<char>) -> bool {
    t.len() == 0 || t == seq!['N'] || t == seq!['F'] || parse_u32(t) is Some
}

/// The score that a valid, non-empty trimmed cell gives.
pub open spec fn cell_score(t: Seq<char>) -> CriterionScore {
    if t == seq!['N'] {
        CriterionScore::NotApplicable
    } else if t == seq!['F'] {
        CriterionScore::Autofail
    } else {
        CriterionScore::Points(parse_u32(t).unwrap())
    }
}

/// The options that the first `n` option cells of a row define.
pub open spec fn row_options(names: Seq<Seq<char>>, cells: Seq<Seq<char>>, n: int) -> OptionMap
    decreases n,
{
    if n <= 0 {
        Map::empty()
    } else {
        let m = row_options(names, cells, n - 1);
        let t = cell_text(cells, n - 1);
        if t.len() == 0 {
            m
        } else {
            m.insert(names[n - 1], cell_score(t))
        }
    }
}

/// The first of the first `n` option cells of a row that is not valid.
pub open spec fn first_invalid_cell(cells: Seq<Seq<char>>, n: int) -> Option<int>
    decreases n,
{
    if n <= 0 {
        None
    } else {
        match first_invalid_cell(cells, n - 1) {
            Some(c) => Some(c),
            None => if !cell_valid(cell_text(cells, n - 1)) {
                Some(n - 1)
            } else {
                None
            },
        }
    }
}

/// Some criterion read so far carries `name`.
pub open spec fn names_contain(done: CriteriaView, name: Seq<char>) -> bool {
    exists|k: int| 0 <= k < done.len() && done[k].0 == name
}

/// Reads the non-blank row `line`, at line `line_no`, after the criteria `done`.
pub open spec fn read_row(names: Seq<Seq<char>>, line: Seq<char>, line_no: nat, done: CriteriaView) -> Result<
    CriteriaView,
    CsvErrorView,
> {
    let cells = split_on(line, ',');
    let name = cells[0];
    if name.len() == 0 {
        Err(CsvErrorView::EmptyCriterionName(line_no))
    } else if names_contain(done, name) {
        Err(CsvErrorView::DuplicateCriterion(name))
    } else {
        match first_invalid_cell(cells, names.len() as int) {
            Some(c) => Err(
                CsvErrorView::InvalidCell {
                    value: cell_text(cells, c),
                    criterion: name,
                    option: names[c],
                },
            ),
            None => Ok(done.push((name, row_options(names, cells, names.len() as int)))),
        }
    }
}

/// Reads the rows that follow the header, in order, skipping blank ones and
/// stopping at the first error. The row `rows[k]` stands on line `k + 2`.
pub open spec fn read_rows(names: Seq<Seq<char>>, rows: Seq<Seq<char>>) -> Result<
    CriteriaView,
    CsvErrorView,
>
    decreases rows.len(),
{
    if rows.len() == 0 {
        Ok(Seq::empty())
    } else {
        match read_rows(names, rows.drop_last()) {
            Err(e) => Err(e),
            Ok(done) => if trim(rows.last()).len() == 0 {
                Ok(done)
            } else {
                read_row(names, rows.last(), rows.len() + 1, done)
            },
        }
    }
}

/// The option names of the header line `header`.
pub open spec fn option_names(header: Seq<char>) -> Seq<Seq<char>> {
    split_on(header, ',').drop_first()
}

/// The criteria that the CSV text `s` describes, or why it describes none.
pub open spec fn read_scorecard(s: Seq<char>) -> Result<CriteriaView, CsvErrorView> {
    let lines = lines_of(s);
    if lines.len() == 0 {
        Err(CsvErrorView::Empty)
    } else {
        let names = option_names(lines[0]);
        match first_repeat(names) {
            Some(j) => Err(CsvErrorView::DuplicateOption(names[j])),
            None => read_rows(names, lines.drop_first()),
        }
    }
}

/// Once reading a prefix of the rows fails, reading all of them fails alike.
proof fn lemma_read_rows_error(names: Seq<Seq<char>>, rows: Seq<Seq<char>>, k: int)
    requires
        0 <= k <= rows.len(),
        read_rows(names, rows.take(k)) is Err,
    ensures
        read_rows(names, rows) == read_rows(names, rows.take(k)),
    decreases rows.len() - k,
{
    if k < rows.len() {
        assert(rows.take(k + 1).drop_last() =~= rows.take(k));
        lemma_read_rows_error(names, rows, k + 1);
    } else {
        assert(rows.take(k) =~= rows);
    }
}

/// The names of `v`, as character sequences.
pub open spec fn string_seq(v: Seq<String>) -> Seq<Seq<char>> {
    Seq::new(v.len(), |i: int| v[i]@)
}

/// The first position in `names` whose name also stands at an earlier position.
fn find_first_repeat(names: &Vec<String>) -> (r: Option<usize>)
    ensures
        match r {
            Some(j) => first_repeat(string_seq(names@)) == Some(j as int),
            None => first_repeat(string_seq(names@)) is None,
        },
{
    let ghost ns = string_seq(names@);
    let mut j: usize = 0;
    while j < names.len()
        invariant
            ns == string_seq(names@),
            j <= names@.len(),
            forall|k: int| 0 <= k < j ==> !repeats_earlier(ns, k),
        decreases names@.len() - j,
    {
        let mut i: usize = 0;
        while i < j
            invariant
                ns == string_seq(names@),
                i <= j < names@.len(),
                forall|k: int| 0 <= k < j ==> !repeats_earlier(ns, k),
                forall|k: int| 0 <= k < i ==> ns[k] != ns[j as int],
            decreases j - i,
        {
            if names[i] == names[j] {
                proof {
                    assert(ns[i as int] == ns[j as int]);
                    assert(repeats_earlier(ns, j as int));
                    assert(is_first_repeat(ns, j as int));
                    let c = choose|c: int| is_first_repeat(ns, c);
                    if c < j {
                        assert(!repeats_earlier(ns, c));
                    }
                    if c > j {
                        assert(!repeats_earlier(ns, j as int));
                    }
                }
                return Some(j);
            }
            i = i + 1;
        }
        assert(!repeats_earlier(ns, j as int));
        j = j + 1;
    }
    assert forall|c: int| !is_first_repeat(ns, c) by {
        if 0 <= c < ns.len() {
            assert(!repeats_earlier(ns, c));
        }
    }
    None
}

/// How a cell reads.
enum CellReading {
    Blank,
    Valid(CriterionScore),
    Invalid,
}

/// Reads the cell `chars[lo..hi]`; also gives the range of its trimmed text.
fn read_cell(chars: &Vec<char>, lo: usize, hi: usize) -> (r: (CellReading, usize, usize))
    requires
        lo <= hi <= chars@.len(),
    ensures
        lo <= r.1 <= r.2 <= hi,
        chars@.subrange(r.1 as int, r.2 as int) == trim(chars@.subrange(lo as int, hi as int)),
        match r.0 {
            CellReading::Blank => trim(chars@.subrange(lo as int, hi as int)).len() == 0,
            CellReading::Valid(score) => {
                let t = trim(chars@.subrange(lo as int, hi as int));
                t.len() != 0 && cell_valid(t) && score == cell_score(t)
            },
            CellReading::Invalid => !cell_valid(trim(chars@.subrange(lo as int, hi as int))),
        },
{
    let (a, b) = trim_range(chars, lo, hi);
    let ghost t = chars@.subrange(a as int, b as int);
    if a == b {
        return (CellReading::Blank, a, b);
    }
    if b == a + 1 && chars[a] == 'N' {
        assert(t =~= seq!['N']);
        return (CellReading::Valid(CriterionScore::NotApplicable), a, b);
    }
    if b == a + 1 && chars[a] == 'F' {
        assert(t =~= seq!['F']);
        return (CellReading::Valid(CriterionScore::Autofail), a, b);
    }
    assert(t != seq!['N'] && t != seq!['F']) by {
        if t.len() == 1 {
            assert(t[0] == chars@[a as int]);
        }
    }
    match parse_u32_range(chars, a, b) {
        Some(p) => (CellReading::Valid(CriterionScore::Points(p)), a, b),
        None => (CellReading::Invalid, a, b),
    }
}

/// The text `s[a..b]`, counted in characters.
fn text_of(s: &str, a: usize, b: usize) -> (r: String)
    requires
        a <= b <= s@.len(),
    ensures
        r@ == s@.subrange(a as int, b as int),
{
    s.substring_char(a, b).to_owned()
}

impl Scorecard {
    /// Reads a scorecard from CSV text.
    ///
    /// The first line names the options; its first cell is ignored and the
    /// names must differ. Each later line that is not blank is a criterion:
    /// a non-empty name not used by an earlier criterion, then one cell per
    /// option: a number (`Points`), `N` (`NotApplicable`), `F` (`Autofail`),
    /// or empty (the option is not offered). Reading stops at the first error.
    pub fn from_csv_string(csv: &str) -> (r: Result<Self, CsvError>)
        ensures
            match r {
                Ok(sc) => read_scorecard(csv@) == Ok::<CriteriaView, CsvErrorView>(
                    sc.criteria_view(),
                ),
                Err(e) => read_scorecard(csv@) == Err::<CriteriaView, CsvErrorView>(e@),
            },
    {
        let chars = chars_of(csv);
        let lines = line_ranges(&chars);
        let ghost ls = lines_of(csv@);
        if lines.len() == 0 {
            return Err(CsvError::Empty);
        }
        let (h0, h1) = lines[0];
        let header = split_ranges(&chars, h0, h1, ',');
        let ghost hs = split_on(ls[0], ',');
        let ghost ns = option_names(ls[0]);
        proof {
            lemma_split_nonempty(chars@.subrange(h0 as int, h1 as int), ',');
        }
        let mut names: Vec<String> = Vec::new();
        let mut k: usize = 1;
        while k < header.len()
            invariant
                chars@ == csv@,
                h0 <= h1 <= chars@.len(),
                hs == split_on(chars@.subrange(h0 as int, h1 as int), ','),
                ns == hs.drop_first(),
                header@.len() == hs.len(),
                forall|q: int|
                    0 <= q < header@.len() ==> (#[trigger] header@[q]).0 <= header@[q].1
                        <= h1 <= chars@.len() && chars@.subrange(
                        header@[q].0 as int,
                        header@[q].1 as int,
                    ) == hs[q],
                1 <= k <= header@.len(),
                names@.len() == k - 1,
                forall|q: int| 0 <= q < names@.len() ==> (#[trigger] names@[q])@ == ns[q],
            decreases header@.len() - k,
        {
            let (a, b) = header[k];
            names.push(text_of(csv, a, b));
            k = k + 1;
        }
        assert(string_seq(names@) =~= ns);
        if let Some(j) = find_first_repeat(&names) {
            return Err(CsvError::DuplicateOption(names[j].clone()));
        }
        let ghost rows = ls.drop_first();
        let mut criteria: NameMap<Criterion> = NameMap::new();
        let mut r: usize = 1;
        assert(rows.take(0) =~= Seq::<Seq<char>>::empty());
        assert(criteria_view_of(criteria) =~= Seq::<(Seq<char>, OptionMap)>::empty());
        while r < lines.len()
            invariant
                chars@ == csv@,
                ls == lines_of(csv@),
                ls.len() > 0,
                ns == option_names(ls[0]),
                rows == ls.drop_first(),
                lines@.len() == ls.len(),
                forall|q: int|
                    0 <= q < lines@.len() ==> (#[trigger] lines@[q]).0 <= lines@[q].1
                        <= chars@.len() && chars@.subrange(lines@[q].0 as int, lines@[q].1 as int)
                        == ls[q],
                string_seq(names@) == ns,
                first_repeat(ns) is None,
                1 <= r <= lines@.len(),
                read_rows(ns, rows.take(r - 1)) == Ok::<CriteriaView, CsvErrorView>(
                    criteria_view_of(criteria),
                ),
            decreases lines@.len() - r,
        {
            let ghost done = criteria_view_of(criteria);
            let ghost line = ls[r as int];
            proof {
                assert(rows.take(r as int).drop_last() =~= rows.take(r - 1));
                assert(rows.take(r as int).last() == line);
            }
            let (a, b) = lines[r];
            let (ta, tb) = trim_range(&chars, a, b);
            if ta == tb {
                assert(read_rows(ns, rows.take(r as int)) == read_rows(ns, rows.take(r - 1)));
                r = r + 1;
                continue ;
            }
            assert(trim(line).len() != 0);
            let cells = split_ranges(&chars, a, b, ',');
            let ghost cs = split_on(line, ',');
            proof {
                lemma_split_nonempty(line, ',');
            }
            let (n0, n1) = cells[0];
            if n0 == n1 {
                proof {
                    assert(cs[0].len() == 0);
                    assert(read_rows(ns, rows.take(r as int)) == Err::<CriteriaView, CsvErrorView>(
                        CsvErrorView::EmptyCriterionName((r + 1) as nat),
                    ));
                    lemma_read_rows_error(ns, rows, r as int);
                }
                return Err(CsvError::EmptyCriterionName(r + 1));
            }
            let name = text_of(csv, n0, n1);
            assert(name@ == cs[0]);
            proof {
                lemma_pairs_to_map_dom(criteria.pairs(), name@);
                if names_contain(done, name@) {
                    let q = choose|q: int| 0 <= q < done.len() && done[q].0 == name@;
                    assert(criteria.pairs()[q].0 == name@);
                }
                if criteria@.contains_key(name@) {
                    let q = choose|q: int|
                        0 <= q < criteria.pairs().len() && criteria.pairs()[q].0 == name@;
                    assert(done[q].0 == name@);
                }
                assert(names_contain(done, name@) == criteria@.contains_key(name@));
            }
            if criteria.contains_key(name.as_str()) {
                proof {
                    assert(read_rows(ns, rows.take(r as int)) == Err::<CriteriaView, CsvErrorView>(
                        CsvErrorView::DuplicateCriterion(name@),
                    ));
                    lemma_read_rows_error(ns, rows, r as int);
                }
                return Err(CsvError::DuplicateCriterion(name));
            }
            let mut options: NameMap<CriterionScore> = NameMap::new();
            let mut c: usize = 0;
            while c < names.len()
                invariant
                    chars@ == csv@,
                    string_seq(names@) == ns,
                    a <= b <= chars@.len(),
                    cs == split_on(chars@.subrange(a as int, b as int), ','),
                    cells@.len() == cs.len(),
                    forall|q: int|
                        0 <= q < cells@.len() ==> (#[trigger] cells@[q]).0 <= cells@[q].1 <= b
                            <= chars@.len() && chars@.subrange(
                            cells@[q].0 as int,
                            cells@[q].1 as int,
                        ) == cs[q],
                    c <= names@.len(),
                    options@ == row_options(ns, cs, c as int),
                    ls == lines_of(csv@),
                    ls.len() > 0,
                    ns == option_names(ls[0]),
                    first_repeat(ns) is None,
                    first_invalid_cell(cs, c as int) is None,
                    name@ == cs[0],
                    rows == ls.drop_first(),
                    read_rows(ns, rows.take(r - 1)) == Ok::<CriteriaView, CsvErrorView>(done),
                    rows.take(r as int).drop_last() == rows.take(r - 1),
                    rows.take(r as int).last() == line,
                    line == chars@.subrange(a as int, b as int),
                    rows.take(r as int).len() == r,
                    1 <= r < lines@.len() == ls.len(),
                    trim(line).len() != 0,
                    cs[0].len() != 0,
                    !names_contain(done, cs[0]),
                decreases names@.len() - c,
            {
                let (ca, cb) = if c + 1 < cells.len() {
                    cells[c + 1]
                } else {
                    (0, 0)
                };
                let (reading, xa, xb) = read_cell(&chars, ca, cb);
                let ghost t = cell_text(cs, c as int);
                assert(chars@.subrange(ca as int, cb as int) == (if c + 1 < cs.len() {
                    cs[c + 1]
                } else {
                    Seq::<char>::empty()
                }));
                match reading {
                    CellReading::Blank => {
                        assert(row_options(ns, cs, c + 1) == row_options(ns, cs, c as int));
                    },
                    CellReading::Valid(score) => {
                        assert(names@[c as int]@ == ns[c as int]);
                        options.insert(names[c].clone(), score);
                    },
                    CellReading::Invalid => {
                        proof {
                            assert(first_invalid_cell(cs, c + 1) == Some(c as int));
                            assert(first_invalid_cell(cs, ns.len() as int) == Some(c as int)) by {
                                lemma_first_invalid_stays(cs, c + 1, ns.len() as int);
                            }
                            assert(read_rows(ns, rows.take(r as int)) == Err::<
                                CriteriaView,
                                CsvErrorView,
                            >(
                                CsvErrorView::InvalidCell {
                                    value: t,
                                    criterion: cs[0],
                                    option: ns[c as int],
                                },
                            ));
                            lemma_read_rows_error(ns, rows, r as int);
                        }
                        return Err(
                            CsvError::InvalidCell {
                                value: text_of(csv, xa, xb),
                                criterion: name,
                                option: names[c].clone(),
                            },
                        );
                    },
                }
                c = c + 1;
            }
            criteria.insert(name, Criterion::from_options(options));
            assert(criteria_view_of(criteria) =~= done.push(
                (cs[0], row_options(ns, cs, ns.len() as int)),
            ));
            r = r + 1;
        }
        assert(rows.take(r - 1) =~= rows);
        Ok(Scorecard::from_criteria(criteria))
    }
}

/// Once an invalid cell is found among the first `n` cells, it stays the
/// first one among more cells.
proof fn lemma_first_invalid_stays(cells: Seq<Seq<char>>, n: int, m: int)
    requires
        0 <= n <= m,
        first_invalid_cell(cells, n) is Some,
    ensures
        first_invalid_cell(cells, m) == first_invalid_cell(cells, n),
    decreases m - n,
{
    if n < m {
        lemma_first_invalid_stays(cells, n, m - 1);
    }
}

} // verus!
