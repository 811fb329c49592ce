//! What holds of every scorecard, every selection and every CSV text.
use vstd::prelude::*;

use crate::csv::{
    cell_text,
    CsvErrorView,
    cell_valid,
    first_invalid_cell,
    first_repeat,
    is_first_repeat,
    repeats_earlier,
    names_contain,
    option_names,
    read_rows,
    read_scorecard,
    row_options,
};
use crate::names::keys_unique;
use crate::scorecard::picks_total;
use crate::text::{
    decimal_value,
    is_digit,
    is_white,
    lemma_split_nonempty,
    lines_of,
    parse_u32,
    split_on,
    strip_cr,
    trim,
    trim_end,
    trim_start,
};
use vstd::arithmetic::power::pow;
use crate::{
    any_autofail,
    CriteriaView,
    CriterionScore,
    OptionMap,
    covers,
    denominator_of,
    denominator_total,
    full_marks,
    is_full_marks,
    lemma_full_marks,
    numerator_of,
    numerator_total,
    picked,
    points_of,
    tally,
};

verus! {

/// A tally is at most another tally whose every term is at least as large.
pub proof fn lemma_tally_le(
    cs: CriteriaView,
    sel: Map<Seq<char>, String>,
    f: spec_fn(OptionMap, Seq<char>) -> int,
    g: spec_fn(OptionMap, Seq<char>) -> int,
)
    requires
        forall|i: int|
            0 <= i < cs.len() ==> f((#[trigger] cs[i]).1, picked(sel, cs[i].0)) <= g(
                cs[i].1,
                picked(sel, cs[i].0),
            ),
    ensures
        tally(cs, sel, f) <= tally(cs, sel, g),
    decreases cs.len(),
{
    if cs.len() > 0 {
        assert forall|i: int| 0 <= i < cs.drop_last().len() implies f(
            (#[trigger] cs.drop_last()[i]).1,
            picked(sel, cs.drop_last()[i].0),
        ) <= g(cs.drop_last()[i].1, picked(sel, cs.drop_last()[i].0)) by {
            assert(cs.drop_last()[i] == cs[i]);
        }
        lemma_tally_le(cs.drop_last(), sel, f, g);
        assert(cs[cs.len() - 1] == cs.last());
    }
}

/// A criterion whose pick contributes nothing can be left out of a tally.
pub proof fn lemma_tally_without(
    cs: CriteriaView,
    sel: Map<Seq<char>, String>,
    f: spec_fn(OptionMap, Seq<char>) -> int,
    i: int,
)
    requires
        0 <= i < cs.len(),
        f(cs[i].1, picked(sel, cs[i].0)) == 0,
    ensures
        tally(cs, sel, f) == tally(cs.remove(i), sel, f),
    decreases cs.len(),
{
    if i == cs.len() - 1 {
        assert(cs.remove(i) =~= cs.drop_last());
    } else {
        lemma_tally_without(cs.drop_last(), sel, f, i);
        assert(cs.remove(i).drop_last() =~= cs.drop_last().remove(i));
        assert(cs.remove(i).last() == cs.last());
    }
}

/// The points earned by a pick never exceed the points possible for it.
pub proof fn lemma_pick_within_possible(c: crate::Criterion, o: Seq<char>)
    requires
        c@.contains_key(o),
    ensures
        0 <= numerator_of(c@, o) <= denominator_of(c@, o),
{
    c.lemma_finite();
    lemma_full_marks(c@);
}

/// The points earned by a selection never exceed the points possible for it.
pub proof fn lemma_score_within_possible(sc: crate::Scorecard, sel: Map<Seq<char>, String>)
    requires
        covers(sc.criteria_view(), sel),
    ensures
        numerator_total(sc.criteria_view(), sel) <= denominator_total(sc.criteria_view(), sel),
{
    let cs = sc.criteria_view();
    sc.lemma_criteria_finite();
    assert forall|i: int| 0 <= i < cs.len() implies numerator_of(
        (#[trigger] cs[i]).1,
        picked(sel, cs[i].0),
    ) <= denominator_of(cs[i].1, picked(sel, cs[i].0)) by {
        lemma_full_marks(cs[i].1);
    }
    lemma_tally_le(
        cs,
        sel,
        |m: OptionMap, o: Seq<char>| numerator_of(m, o),
        |m: OptionMap, o: Seq<char>| denominator_of(m, o),
    );
}

/// Picking a not-applicable option takes the criterion out of the assessment:
/// both totals are those of the scorecard without that criterion.
pub proof fn lemma_not_applicable_drops_out(cs: CriteriaView, sel: Map<Seq<char>, String>, i: int)
    requires
        0 <= i < cs.len(),
        cs[i].1[picked(sel, cs[i].0)] == CriterionScore::NotApplicable,
    ensures
        numerator_total(cs, sel) == numerator_total(cs.remove(i), sel),
        denominator_total(cs, sel) == denominator_total(cs.remove(i), sel),
{
    lemma_tally_without(cs, sel, |m: OptionMap, o: Seq<char>| numerator_of(m, o), i);
    lemma_tally_without(cs, sel, |m: OptionMap, o: Seq<char>| denominator_of(m, o), i);
}

/// In the scorecard module, the points earned by a pick never exceed the
/// points possible for it.
pub proof fn lemma_module_pick_within_possible(c: crate::scorecard::Criterion, o: Seq<char>)
    requires
        c@.contains_key(o),
    ensures
        0 <= numerator_of(c@, o) <= crate::scorecard::denominator_of(c@, o),
{
    c.lemma_finite();
    lemma_full_marks(c@);
}

/// In the scorecard module, the points possible for any option other than a
/// not-applicable one are the criterion's full marks (its `max_points`).
pub proof fn lemma_module_possible_is_full_marks(c: crate::scorecard::Criterion, o: Seq<char>)
    requires
        c@.contains_key(o),
        c@[o] != CriterionScore::NotApplicable,
    ensures
        crate::scorecard::denominator_of(c@, o) == full_marks(c@),
        is_full_marks(c@, full_marks(c@)),
{
    c.lemma_finite();
    lemma_full_marks(c@);
}

/// In the scorecard module, the points earned by a selection never exceed the
/// points possible for it.
pub proof fn lemma_module_score_within_possible(
    sc: crate::scorecard::Scorecard,
    sel: Map<Seq<char>, String>,
)
    requires
        covers(sc.criteria_view(), sel),
    ensures
        crate::scorecard::numerator_total(sc.criteria_view(), sel)
            <= crate::scorecard::denominator_total(sc.criteria_view(), sel),
{
    let cs = sc.criteria_view();
    sc.lemma_criteria_finite();
    assert forall|i: int| 0 <= i < cs.len() implies numerator_of(
        (#[trigger] cs[i]).1,
        picked(sel, cs[i].0),
    ) <= crate::scorecard::denominator_of(cs[i].1, picked(sel, cs[i].0)) by {
        lemma_full_marks(cs[i].1);
    }
    lemma_tally_le(
        cs,
        sel,
        |m: OptionMap, o: Seq<char>| numerator_of(m, o),
        |m: OptionMap, o: Seq<char>| crate::scorecard::denominator_of(m, o),
    );
}

/// In the scorecard module too, a not-applicable pick takes the criterion out
/// of both totals.
pub proof fn lemma_module_not_applicable_drops_out(
    cs: CriteriaView,
    sel: Map<Seq<char>, String>,
    i: int,
)
    requires
        0 <= i < cs.len(),
        cs[i].1[picked(sel, cs[i].0)] == CriterionScore::NotApplicable,
    ensures
        crate::scorecard::numerator_total(cs, sel) == crate::scorecard::numerator_total(
            cs.remove(i),
            sel,
        ),
        crate::scorecard::denominator_total(cs, sel) == crate::scorecard::denominator_total(
            cs.remove(i),
            sel,
        ),
{
    lemma_tally_without(cs, sel, |m: OptionMap, o: Seq<char>| numerator_of(m, o), i);
    lemma_tally_without(
        cs,
        sel,
        |m: OptionMap, o: Seq<char>| crate::scorecard::denominator_of(m, o),
        i,
    );
}

/// Every option of every criterion in `cs` is named in `names`.
pub open spec fn options_within(cs: CriteriaView, names: Seq<Seq<char>>) -> bool {
    forall|i: int, k: Seq<char>|
        0 <= i < cs.len() && #[trigger] cs[i].1.contains_key(k) ==> names.contains(k)
}

/// The options defined by a row are among the header's options.
proof fn lemma_row_options_named(names: Seq<Seq<char>>, cells: Seq<Seq<char>>, n: int, k: Seq<char>)
    requires
        0 <= n <= names.len(),
        row_options(names, cells, n).contains_key(k),
    ensures
        exists|c: int| 0 <= c < n && names[c] == k && cell_text(cells, c).len() != 0,
    decreases n,
{
    if n > 0 {
        if row_options(names, cells, n - 1).contains_key(k) {
            lemma_row_options_named(names, cells, n - 1, k);
            let c = choose|c: int| 0 <= c < n - 1 && names[c] == k && cell_text(cells, c).len() != 0;
            assert(0 <= c < n && names[c] == k);
        } else {
            assert(names[n - 1] == k && cell_text(cells, n - 1).len() != 0);
        }
    }
}

/// Reading rows gives criteria with distinct names, each offering only
/// options named in the header.
proof fn lemma_read_rows_sound(names: Seq<Seq<char>>, rows: Seq<Seq<char>>)
    requires
        read_rows(names, rows) is Ok,
    ensures
        keys_unique(read_rows(names, rows)->Ok_0),
        options_within(read_rows(names, rows)->Ok_0, names),
    decreases rows.len(),
{
    if rows.len() > 0 {
        lemma_read_rows_sound(names, rows.drop_last());
        let done = read_rows(names, rows.drop_last())->Ok_0;
        if trim(rows.last()).len() != 0 {
            let cells = split_on(rows.last(), ',');
            let all = read_rows(names, rows)->Ok_0;
            assert(all == done.push((cells[0], row_options(names, cells, names.len() as int))));
            assert(!names_contain(done, cells[0]));
            assert forall|i: int, j: int| 0 <= i < j < all.len() implies all[i].0 != all[j].0 by {
                if j == all.len() - 1 {
                    assert(done[i].0 == all[i].0);
                } else {
                    assert(done[i].0 != done[j].0);
                }
            }
            assert forall|i: int, k: Seq<char>|
                0 <= i < all.len() && (#[trigger] all[i].1.contains_key(k)) implies names.contains(
                k,
            ) by {
                if i == all.len() - 1 {
                    lemma_row_options_named(names, cells, names.len() as int, k);
                    let c = choose|c: int|
                        0 <= c < names.len() && names[c] == k && cell_text(cells, c).len() != 0;
                    assert(names[c] == k);
                } else {
                    assert(all[i] == done[i]);
                }
            }
        }
    }
}

/// A column that repeats an earlier name means some column is the first to do so.
proof fn lemma_first_repeat_exists(names: Seq<Seq<char>>, j: int)
    requires
        0 <= j < names.len(),
        repeats_earlier(names, j),
    ensures
        exists|k: int| is_first_repeat(names, k),
    decreases j,
{
    if exists|k: int| 0 <= k < j && repeats_earlier(names, k) {
        let k = choose|k: int| 0 <= k < j && repeats_earlier(names, k);
        lemma_first_repeat_exists(names, k);
    } else {
        assert(is_first_repeat(names, j));
    }
}

/// When no column repeats an earlier name, all names differ.
pub proof fn lemma_no_repeat_distinct(names: Seq<Seq<char>>)
    requires
        first_repeat(names) is None,
    ensures
        forall|i: int, j: int| 0 <= i < j < names.len() ==> names[i] != names[j],
{
    assert forall|i: int, j: int| 0 <= i < j < names.len() implies names[i] != names[j] by {
        if names[i] == names[j] {
            assert(repeats_earlier(names, j));
            lemma_first_repeat_exists(names, j);
        }
    }
}

/// A scorecard read from CSV has distinct option names, criteria with
/// distinct names, and each criterion offers only options that the header
/// names.
pub proof fn lemma_read_scorecard_sound(s: Seq<char>)
    requires
        read_scorecard(s) is Ok,
    ensures
        forall|i: int, j: int|
            0 <= i < j < option_names(lines_of(s)[0]).len() ==> option_names(lines_of(s)[0])[i]
                != option_names(lines_of(s)[0])[j],
        keys_unique(read_scorecard(s)->Ok_0),
        options_within(read_scorecard(s)->Ok_0, option_names(lines_of(s)[0])),
{
    lemma_no_repeat_distinct(option_names(lines_of(s)[0]));
    lemma_read_rows_sound(option_names(lines_of(s)[0]), lines_of(s).drop_first());
}


/// A text without the separator is one piece.
pub proof fn lemma_split_without_separator(s: Seq<char>, sep: char)
    requires
        forall|i: int| 0 <= i < s.len() ==> s[i] != sep,
    ensures
        split_on(s, sep) == seq![s],
    decreases s.len(),
{
    if s.len() > 0 {
        assert forall|i: int| 0 <= i < s.drop_last().len() implies s.drop_last()[i] != sep by {
            assert(s.drop_last()[i] == s[i]);
        }
        lemma_split_without_separator(s.drop_last(), sep);
        assert(s[s.len() - 1] != sep);
        assert(s.drop_last().push(s.last()) =~= s);
        assert(seq![s.drop_last()].update(0, s.drop_last().push(s.last())) =~= seq![s]);
    } else {
        assert(s =~= Seq::<char>::empty());
    }
}

/// Splitting a concatenation: the last piece of `a` and the first piece of
/// `b` join into one piece; the other pieces stay as they are.
pub proof fn lemma_split_append(a: Seq<char>, b: Seq<char>, sep: char)
    ensures
        split_on(a + b, sep) == split_on(a, sep).drop_last() + seq![
            split_on(a, sep).last() + split_on(b, sep)[0],
        ] + split_on(b, sep).drop_first(),
    decreases b.len(),
{
    lemma_split_nonempty(a, sep);
    if b.len() == 0 {
        assert(a + b =~= a);
        assert(split_on(b, sep) =~= seq![Seq::<char>::empty()]);
        assert(split_on(a, sep).last() + Seq::<char>::empty() =~= split_on(a, sep).last());
        assert(split_on(a, sep).drop_last() + seq![split_on(a, sep).last()] =~= split_on(a, sep));
        assert(split_on(b, sep).drop_first() =~= Seq::<Seq<char>>::empty());
        assert(split_on(a, sep).drop_last() + seq![split_on(a, sep).last() + split_on(b, sep)[0]]
            + split_on(b, sep).drop_first() =~= split_on(a, sep));
    } else {
        let b1 = b.drop_last();
        let c = b.last();
        lemma_split_append(a, b1, sep);
        lemma_split_nonempty(b1, sep);
        assert((a + b).drop_last() =~= a + b1);
        assert((a + b).last() == c);
        let aa = split_on(a, sep);
        let bb1 = split_on(b1, sep);
        let x = split_on(a + b1, sep);
        let bb = split_on(b, sep);
        if c == sep {
            assert(bb == bb1.push(Seq::<char>::empty()));
            assert(bb[0] == bb1[0]);
            assert(bb.drop_first() =~= bb1.drop_first().push(Seq::<char>::empty()));
            assert(split_on(a + b, sep) == x.push(Seq::<char>::empty()));
            assert(x.push(Seq::<char>::empty()) =~= aa.drop_last() + seq![aa.last() + bb[0]]
                + bb.drop_first());
        } else {
            assert(bb == bb1.update(bb1.len() - 1, bb1.last().push(c)));
            assert(split_on(a + b, sep) == x.update(x.len() - 1, x.last().push(c)));
            if bb1.len() == 1 {
                assert(bb[0] == bb1[0].push(c));
                assert(aa.last() + bb1[0].push(c) =~= (aa.last() + bb1[0]).push(c));
                assert(bb.drop_first() =~= Seq::<Seq<char>>::empty());
                assert(bb1.drop_first() =~= Seq::<Seq<char>>::empty());
                assert(x.update(x.len() - 1, x.last().push(c)) =~= aa.drop_last() + seq![
                    aa.last() + bb[0],
                ] + bb.drop_first());
            } else {
                assert(bb[0] == bb1[0]);
                assert(bb.drop_first() =~= bb1.drop_first().update(
                    bb1.len() - 2,
                    bb1.last().push(c),
                ));
                assert(x.update(x.len() - 1, x.last().push(c)) =~= aa.drop_last() + seq![
                    aa.last() + bb[0],
                ] + bb.drop_first());
            }
        }
    }
}


/// Every non-empty text has at least one line.
pub proof fn lemma_lines_nonempty(s: Seq<char>)
    requires
        s.len() > 0,
    ensures
        lines_of(s).len() >= 1,
{
    lemma_split_nonempty(s, '\n');
    lemma_split_nonempty(s.drop_last(), '\n');
}

/// A non-empty text without a line feed is a single line, kept as it is
/// (a final carriage return included).
pub proof fn lemma_lines_single(s: Seq<char>)
    requires
        s.len() > 0,
        forall|i: int| 0 <= i < s.len() ==> s[i] != '\n',
    ensures
        lines_of(s) == seq![s],
{
    lemma_split_without_separator(s, '\n');
    assert(s[s.len() - 1] != '\n');
    assert(seq![s].drop_last() =~= Seq::<Seq<char>>::empty());
    assert(Seq::<Seq<char>>::empty().map_values(|l: Seq<char>| strip_cr(l)) =~= Seq::<
        Seq<char>,
    >::empty());
    assert(Seq::<Seq<char>>::empty().push(s) =~= seq![s]);
}

/// A text without a line feed, followed by one line feed, is one line; a
/// carriage return just before the line feed is not part of it.
pub proof fn lemma_lines_terminated(s: Seq<char>)
    requires
        forall|i: int| 0 <= i < s.len() ==> s[i] != '\n',
    ensures
        lines_of(s.push('\n')) == seq![
            if s.len() > 0 && s[s.len() - 1] == '\r' {
                s.drop_last()
            } else {
                s
            },
        ],
{
    lemma_split_without_separator(s, '\n');
    let t = s.push('\n');
    assert(t.drop_last() =~= s);
    assert(split_on(t, '\n') == seq![s].push(Seq::<char>::empty()));
    assert(seq![s].push(Seq::<char>::empty()).drop_last() =~= seq![s]);
    assert(seq![s].map_values(|l: Seq<char>| strip_cr(l)) =~= seq![strip_cr(s)]);
}

/// The lines of a text that ends with a line feed, followed by another
/// text, are the lines of the first and then the lines of the second.
pub proof fn lemma_lines_concat(a: Seq<char>, b: Seq<char>)
    requires
        a.len() > 0,
        a[a.len() - 1] == '\n',
    ensures
        lines_of(a + b) == lines_of(a) + lines_of(b),
{
    lemma_split_append(a, b, '\n');
    lemma_split_nonempty(a.drop_last(), '\n');
    lemma_split_nonempty(b, '\n');
    let aa = split_on(a, '\n');
    let bb = split_on(b, '\n');
    assert(aa == split_on(a.drop_last(), '\n').push(Seq::<char>::empty()));
    assert(aa.last() + bb[0] =~= bb[0]);
    let p = aa.drop_last() + bb;
    assert(split_on(a + b, '\n') =~= p);
    if b.len() == 0 {
        assert(a + b =~= a);
        assert(lines_of(b) =~= Seq::<Seq<char>>::empty());
        assert(lines_of(a) + lines_of(b) =~= lines_of(a));
    } else {
        assert((a + b).last() == b.last());
        assert((a + b).len() > 0);
        assert(p.drop_last() =~= aa.drop_last() + bb.drop_last());
        assert(p.last() == bb.last());
        let f = |l: Seq<char>| strip_cr(l);
        assert((aa.drop_last() + bb.drop_last()).map_values(f) =~= aa.drop_last().map_values(f)
            + bb.drop_last().map_values(f));
        if b.last() == '\n' {
            assert(lines_of(a + b) =~= lines_of(a) + lines_of(b));
        } else {
            assert(lines_of(a + b) =~= lines_of(a) + lines_of(b));
        }
    }
}


/// The option names are the header's cells after the first, whatever the
/// first cell holds.
pub proof fn lemma_option_names_skip_corner(corner: Seq<char>, rest: Seq<char>)
    requires
        forall|i: int| 0 <= i < corner.len() ==> corner[i] != ',',
    ensures
        option_names(corner + seq![','] + rest) == split_on(rest, ','),
{
    let a = corner + seq![','];
    lemma_split_without_separator(corner, ',');
    assert(a.drop_last() =~= corner);
    assert(split_on(a, ',') == seq![corner].push(Seq::<char>::empty()));
    lemma_split_append(a, rest, ',');
    lemma_split_nonempty(rest, ',');
    let rr = split_on(rest, ',');
    assert(Seq::<char>::empty() + rr[0] =~= rr[0]);
    assert(split_on(a + rest, ',') =~= seq![corner] + rr);
    assert((seq![corner] + rr).drop_first() =~= rr);
}

/// A header without a comma names no options.
pub proof fn lemma_option_names_no_comma(header: Seq<char>)
    requires
        forall|i: int| 0 <= i < header.len() ==> header[i] != ',',
    ensures
        option_names(header).len() == 0,
{
    lemma_split_without_separator(header, ',');
}

/// Two CSV texts whose header lines differ only in the corner cell describe
/// the same scorecard, or fail alike.
pub proof fn lemma_read_scorecard_ignores_corner(
    corner1: Seq<char>,
    corner2: Seq<char>,
    rest: Seq<char>,
    body: Seq<char>,
)
    requires
        forall|i: int| 0 <= i < corner1.len() ==> corner1[i] != ',' && corner1[i] != '\n',
        forall|i: int| 0 <= i < corner2.len() ==> corner2[i] != ',' && corner2[i] != '\n',
        forall|i: int| 0 <= i < rest.len() ==> rest[i] != '\n' && rest[i] != '\r',
    ensures
        read_scorecard(corner1 + seq![','] + rest + seq!['\n'] + body) == read_scorecard(
            corner2 + seq![','] + rest + seq!['\n'] + body,
        ),
{
    lemma_header_line(corner1, rest, body);
    lemma_header_line(corner2, rest, body);
    lemma_option_names_skip_corner(corner1, rest);
    lemma_option_names_skip_corner(corner2, rest);
    let l1 = lines_of(corner1 + seq![','] + rest + seq!['\n'] + body);
    let l2 = lines_of(corner2 + seq![','] + rest + seq!['\n'] + body);
    assert(l1[0] == corner1 + seq![','] + rest);
    assert(l2[0] == corner2 + seq![','] + rest);
    assert(l1.drop_first() =~= lines_of(body));
    assert(l2.drop_first() =~= lines_of(body));
    assert(option_names(l1[0]) == option_names(l2[0]));
}

proof fn lemma_header_line(corner: Seq<char>, rest: Seq<char>, body: Seq<char>)
    requires
        forall|i: int| 0 <= i < corner.len() ==> corner[i] != ',' && corner[i] != '\n',
        forall|i: int| 0 <= i < rest.len() ==> rest[i] != '\n' && rest[i] != '\r',
    ensures
        lines_of(corner + seq![','] + rest + seq!['\n'] + body) == seq![corner + seq![','] + rest]
            + lines_of(body),
{
    let h = corner + seq![','] + rest;
    assert forall|i: int| 0 <= i < h.len() implies h[i] != '\n' by {
        if i < corner.len() {
            assert(h[i] == corner[i]);
        } else if i > corner.len() {
            assert(h[i] == rest[i - corner.len() - 1]);
        }
    }
    assert(h[h.len() - 1] != '\r') by {
        if rest.len() > 0 {
            assert(h[h.len() - 1] == rest[rest.len() - 1]);
        }
    }
    lemma_lines_terminated(h);
    assert(h + seq!['\n'] =~= h.push('\n'));
    lemma_lines_concat(h.push('\n'), body);
    assert(corner + seq![','] + rest + seq!['\n'] + body =~= h.push('\n') + body);
}


/// A selection fails as soon as the pick of any one criterion, wherever it
/// stands, is a failing option.
pub proof fn lemma_failing_pick_fails(cs: CriteriaView, sel: Map<Seq<char>, String>, i: int)
    requires
        0 <= i < cs.len(),
        cs[i].1[sel[cs[i].0]@] == CriterionScore::Autofail,
    ensures
        any_autofail(cs, sel),
{
    assert(cs[i].1[picked(sel, cs[i].0)] == CriterionScore::Autofail);
}

/// A selection with no failing pick does not fail.
pub proof fn lemma_no_failing_pick_passes(cs: CriteriaView, sel: Map<Seq<char>, String>)
    requires
        forall|i: int|
            0 <= i < cs.len() ==> (#[trigger] cs[i]).1[sel[cs[i].0]@] != CriterionScore::Autofail,
    ensures
        !any_autofail(cs, sel),
{
    assert forall|i: int| 0 <= i < cs.len() implies (#[trigger] cs[i]).1[picked(sel, cs[i].0)]
        != CriterionScore::Autofail by {
        assert(cs[i].1[sel[cs[i].0]@] != CriterionScore::Autofail);
    }
}

/// Adding criteria before or after never turns a failing selection into one
/// that passes.
pub proof fn lemma_failing_stays_failing(
    cs: CriteriaView,
    before: CriteriaView,
    after: CriteriaView,
    sel: Map<Seq<char>, String>,
)
    requires
        any_autofail(cs, sel),
    ensures
        any_autofail(before + cs + after, sel),
{
    let i = choose|i: int|
        #![trigger cs[i]]
        0 <= i < cs.len() && cs[i].1[picked(sel, cs[i].0)] == CriterionScore::Autofail;
    let all = before + cs + after;
    assert(all[before.len() + i] == cs[i]);
    lemma_failing_pick_fails(all, sel, before.len() + i);
}

/// No picks add up to nothing.
pub proof fn lemma_picks_total_empty(m: OptionMap, f: spec_fn(OptionMap, Seq<char>) -> int)
    ensures
        picks_total(m, Seq::<Seq<char>>::empty(), f) == 0,
{
}

/// A single pick adds up to its own term.
pub proof fn lemma_picks_total_single(m: OptionMap, o: Seq<char>, f: spec_fn(OptionMap, Seq<char>) -> int)
    ensures
        picks_total(m, seq![o], f) == f(m, o),
{
    assert(seq![o].drop_last() =~= Seq::<Seq<char>>::empty());
    assert(seq![o].last() == o);
    assert(picks_total(m, Seq::<Seq<char>>::empty(), f) == 0);
}

/// The total over two runs of picks is the sum of their totals.
pub proof fn lemma_picks_total_append(
    m: OptionMap,
    s1: Seq<Seq<char>>,
    s2: Seq<Seq<char>>,
    f: spec_fn(OptionMap, Seq<char>) -> int,
)
    ensures
        picks_total(m, s1 + s2, f) == picks_total(m, s1, f) + picks_total(m, s2, f),
    decreases s2.len(),
{
    if s2.len() == 0 {
        assert(s1 + s2 =~= s1);
    } else {
        lemma_picks_total_append(m, s1, s2.drop_last(), f);
        assert((s1 + s2).drop_last() =~= s1 + s2.drop_last());
        assert((s1 + s2).last() == s2.last());
    }
}

/// A not-applicable pick, wherever it stands, changes neither the points
/// earned nor the points possible over the other picks.
pub proof fn lemma_not_applicable_pick_adds_nothing(
    m: OptionMap,
    s1: Seq<Seq<char>>,
    o: Seq<char>,
    s2: Seq<Seq<char>>,
)
    requires
        m.contains_key(o),
        m[o] == CriterionScore::NotApplicable,
    ensures
        picks_total(m, s1 + seq![o] + s2, |m: OptionMap, o: Seq<char>| numerator_of(m, o))
            == picks_total(m, s1 + s2, |m: OptionMap, o: Seq<char>| numerator_of(m, o)),
        picks_total(
            m,
            s1 + seq![o] + s2,
            |m: OptionMap, o: Seq<char>| crate::scorecard::denominator_of(m, o),
        ) == picks_total(m, s1 + s2, |m: OptionMap, o: Seq<char>| crate::scorecard::denominator_of(m, o)),
{
    let fnum = |m: OptionMap, o: Seq<char>| numerator_of(m, o);
    let fden = |m: OptionMap, o: Seq<char>| crate::scorecard::denominator_of(m, o);
    lemma_picks_total_append(m, s1 + seq![o], s2, fnum);
    lemma_picks_total_append(m, s1, seq![o], fnum);
    lemma_picks_total_append(m, s1, s2, fnum);
    lemma_picks_total_single(m, o, fnum);
    lemma_picks_total_append(m, s1 + seq![o], s2, fden);
    lemma_picks_total_append(m, s1, seq![o], fden);
    lemma_picks_total_append(m, s1, s2, fden);
    lemma_picks_total_single(m, o, fden);
}

/// With no invalid cell among the first `n`, each of them is valid.
proof fn lemma_no_invalid_cell(cells: Seq<Seq<char>>, n: int)
    requires
        first_invalid_cell(cells, n) is None,
    ensures
        forall|c: int| 0 <= c < n ==> cell_valid(#[trigger] cell_text(cells, c)),
    decreases n,
{
    if n > 0 {
        lemma_no_invalid_cell(cells, n - 1);
    }
}

/// What the cells of a row define, when the option names differ: the
/// criterion offers option `c` exactly when its trimmed cell is not empty,
/// `N` gives `NotApplicable`, `F` gives `Autofail`, and a number gives that
/// many points.
pub proof fn lemma_row_options_cells(names: Seq<Seq<char>>, cells: Seq<Seq<char>>, c: int)
    requires
        forall|i: int, j: int| 0 <= i < j < names.len() ==> names[i] != names[j],
        0 <= c < names.len(),
    ensures
        ({
            let t = trimmed_cell(cells, c);
            let m = row_options(names, cells, names.len() as int);
            &&& m.contains_key(names[c]) <==> t.len() != 0
            &&& t == seq!['N'] ==> m[names[c]] == CriterionScore::NotApplicable
            &&& t == seq!['F'] ==> m[names[c]] == CriterionScore::Autofail
            &&& forall|p: u32|
                t != seq!['N'] && t != seq!['F'] && parse_u32(t) == Some(p) ==> m[names[c]]
                    == CriterionScore::Points(p)
        }),
{
    lemma_row_options_column(names, cells, names.len() as int, c);
}

proof fn lemma_row_options_column(names: Seq<Seq<char>>, cells: Seq<Seq<char>>, n: int, c: int)
    requires
        forall|i: int, j: int| 0 <= i < j < names.len() ==> names[i] != names[j],
        0 <= c < n <= names.len(),
    ensures
        ({
            let t = cell_text(cells, c);
            let m = row_options(names, cells, n);
            &&& m.contains_key(names[c]) <==> t.len() != 0
            &&& t.len() != 0 ==> m[names[c]] == crate::csv::cell_score(t)
        }),
    decreases n,
{
    if c < n - 1 {
        lemma_row_options_column(names, cells, n - 1, c);
        assert(names[n - 1] != names[c]);
    } else {
        if row_options(names, cells, n - 1).contains_key(names[c]) {
            lemma_row_options_named(names, cells, n - 1, names[c]);
            let k = choose|k: int|
                0 <= k < n - 1 && names[k] == names[c] && cell_text(cells, k).len() != 0;
            assert(names[k] != names[c]);
        }
    }
}

/// The trimmed cell under option column `c` of a row cut into `cells` (the
/// name first); a missing cell is empty.
pub open spec fn trimmed_cell(cells: Seq<Seq<char>>, c: int) -> Seq<char> {
    trim(
        if c + 1 < cells.len() {
            cells[c + 1]
        } else {
            Seq::<char>::empty()
        },
    )
}

/// A trimmed cell that a scorecard can hold: empty, `N`, `F`, or a number
/// that fits in a `u32`.
pub open spec fn readable(t: Seq<char>) -> bool {
    t.len() == 0 || t == seq!['N'] || t == seq!['F'] || parse_u32(t) is Some
}

/// A non-blank row whose name is not empty and whose cells under the `n`
/// option columns are all readable.
pub open spec fn row_readable(row: Seq<char>, n: int) -> bool {
    &&& split_on(row, ',')[0].len() != 0
    &&& forall|c: int| 0 <= c < n ==> #[trigger] readable(trimmed_cell(split_on(row, ','), c))
}

/// Every non-blank row of a scorecard that was read has a non-empty name
/// and only readable cells under the option columns.
pub proof fn lemma_read_rows_readable(names: Seq<Seq<char>>, rows: Seq<Seq<char>>)
    requires
        read_rows(names, rows) is Ok,
    ensures
        forall|r: int|
            0 <= r < rows.len() && trim(#[trigger] rows[r]).len() != 0 ==> row_readable(
                rows[r],
                names.len() as int,
            ),
{
    assert forall|r: int| 0 <= r < rows.len() && trim(#[trigger] rows[r]).len() != 0 implies row_readable(
        rows[r],
        names.len() as int,
    ) by {
        lemma_split_nonempty(rows[r], ',');
        assert forall|c: int| 0 <= c < names.len() implies #[trigger] readable(
            trimmed_cell(split_on(rows[r], ','), c),
        ) by {
            lemma_read_rows_readable_at(names, rows, r, c);
        }
        lemma_read_rows_readable_at(names, rows, r, 0);
    }
}

proof fn lemma_read_rows_readable_at(names: Seq<Seq<char>>, rows: Seq<Seq<char>>, r: int, c: int)
    requires
        read_rows(names, rows) is Ok,
        0 <= r < rows.len(),
        trim(rows[r]).len() != 0,
        0 <= c,
    ensures
        split_on(rows[r], ',')[0].len() != 0,
        c < names.len() ==> readable(trimmed_cell(split_on(rows[r], ','), c)),
    decreases rows.len(),
{
    let front = rows.drop_last();
    lemma_split_nonempty(rows[r], ',');
    if r < rows.len() - 1 {
        assert(front[r] == rows[r]);
        lemma_read_rows_readable_at(names, front, r, c);
    } else {
        let last = rows.last();
        assert(rows[r] == last);
        let cells = split_on(last, ',');
        assert(read_rows(names, front) is Ok);
        assert(cells[0].len() != 0);
        assert(first_invalid_cell(cells, names.len() as int) is None);
        lemma_no_invalid_cell(cells, names.len() as int);
        if c < names.len() {
            assert(cell_valid(cell_text(cells, c)));
        }
    }
}

/// The criteria read from the rows are exactly the non-blank rows, each
/// giving its first cell as name and the options its cells define.
pub proof fn lemma_read_rows_criteria(names: Seq<Seq<char>>, rows: Seq<Seq<char>>)
    requires
        read_rows(names, rows) is Ok,
    ensures
        forall|i: int|
            #![trigger read_rows(names, rows)->Ok_0[i]]
            0 <= i < read_rows(names, rows)->Ok_0.len() ==> exists|r: int|
                #![trigger rows[r]]
                0 <= r < rows.len() && trim(rows[r]).len() != 0 && read_rows(names, rows)->Ok_0[i]
                    == (
                    split_on(rows[r], ',')[0],
                    row_options(names, split_on(rows[r], ','), names.len() as int),
                ),
        forall|r: int|
            #![trigger rows[r]]
            0 <= r < rows.len() && trim(rows[r]).len() != 0 ==> exists|i: int|
                #![trigger read_rows(names, rows)->Ok_0[i]]
                0 <= i < read_rows(names, rows)->Ok_0.len() && read_rows(names, rows)->Ok_0[i] == (
                    split_on(rows[r], ',')[0],
                    row_options(names, split_on(rows[r], ','), names.len() as int),
                ),
    decreases rows.len(),
{
    if rows.len() > 0 {
        let front = rows.drop_last();
        lemma_read_rows_criteria(names, front);
        let done = read_rows(names, front)->Ok_0;
        let cs = read_rows(names, rows)->Ok_0;
        let last = rows.last();
        let entry = (
            split_on(last, ',')[0],
            row_options(names, split_on(last, ','), names.len() as int),
        );
        if trim(last).len() != 0 {
            assert(cs == done.push(entry));
        } else {
            assert(cs == done);
        }
        assert forall|i: int| #![trigger cs[i]] 0 <= i < cs.len() implies exists|r: int|
            #![trigger rows[r]]
            0 <= r < rows.len() && trim(rows[r]).len() != 0 && cs[i] == (
                split_on(rows[r], ',')[0],
                row_options(names, split_on(rows[r], ','), names.len() as int),
            ) by {
            if i < done.len() {
                assert(cs[i] == done[i]);
                let r = choose|r: int|
                    #![trigger front[r]]
                    0 <= r < front.len() && trim(front[r]).len() != 0 && done[i] == (
                        split_on(front[r], ',')[0],
                        row_options(names, split_on(front[r], ','), names.len() as int),
                    );
                assert(rows[r] == front[r]);
            } else {
                assert(rows[rows.len() - 1] == last);
            }
        }
        assert forall|r: int|
            #![trigger rows[r]]
            0 <= r < rows.len() && trim(rows[r]).len() != 0 implies exists|i: int|
            #![trigger cs[i]]
            0 <= i < cs.len() && cs[i] == (
                split_on(rows[r], ',')[0],
                row_options(names, split_on(rows[r], ','), names.len() as int),
            ) by {
            if r < rows.len() - 1 {
                assert(front[r] == rows[r]);
                let i = choose|i: int|
                    #![trigger done[i]]
                    0 <= i < done.len() && done[i] == (
                        split_on(front[r], ',')[0],
                        row_options(names, split_on(front[r], ','), names.len() as int),
                    );
                assert(cs[i] == done[i]);
            } else {
                assert(rows[r] == last);
                assert(cs[cs.len() - 1] == entry);
            }
        }
    }
}


/// The tally over two runs of criteria is the sum of their tallies.
pub proof fn lemma_tally_append(
    cs1: CriteriaView,
    cs2: CriteriaView,
    sel: Map<Seq<char>, String>,
    f: spec_fn(OptionMap, Seq<char>) -> int,
)
    ensures
        tally(cs1 + cs2, sel, f) == tally(cs1, sel, f) + tally(cs2, sel, f),
    decreases cs2.len(),
{
    if cs2.len() == 0 {
        assert(cs1 + cs2 =~= cs1);
    } else {
        lemma_tally_append(cs1, cs2.drop_last(), sel, f);
        assert((cs1 + cs2).drop_last() =~= cs1 + cs2.drop_last());
        assert((cs1 + cs2).last() == cs2.last());
    }
}

/// The tally over one criterion is its own term for the option `sel` picks.
pub proof fn lemma_tally_single(
    name: Seq<char>,
    m: OptionMap,
    sel: Map<Seq<char>, String>,
    f: spec_fn(OptionMap, Seq<char>) -> int,
)
    ensures
        tally(seq![(name, m)], sel, f) == f(m, sel[name]@),
{
    assert(seq![(name, m)].drop_last() =~= Seq::<(Seq<char>, OptionMap)>::empty());
    assert(seq![(name, m)].last() == (name, m));
    assert(tally(Seq::<(Seq<char>, OptionMap)>::empty(), sel, f) == 0);
}

/// What one pick earns and makes possible, in the scorecard at the crate
/// root: a points option earns its points out of the criterion's highest
/// points; a failing or not-applicable option earns and counts nothing.
pub proof fn lemma_pick_values(c: crate::Criterion, o: Seq<char>)
    requires
        c@.contains_key(o),
    ensures
        forall|p: u32|
            c@[o] == CriterionScore::Points(p) ==> numerator_of(c@, o) == p && (forall|k: Seq<char>,
                q: u32|
                c@.contains_key(k) && c@[k] == CriterionScore::Points(q) ==> q <= denominator_of(
                    c@,
                    o,
                )) && exists|k: Seq<char>|
                c@.contains_key(k) && c@[k] == CriterionScore::Points(denominator_of(c@, o) as u32),
        c@[o] == CriterionScore::Autofail ==> numerator_of(c@, o) == 0 && denominator_of(c@, o) == 0,
        c@[o] == CriterionScore::NotApplicable ==> numerator_of(c@, o) == 0 && denominator_of(c@, o)
            == 0,
{
    c.lemma_finite();
    lemma_full_marks(c@);
    let m = c@;
    assert forall|p: u32| m[o] == CriterionScore::Points(p) implies numerator_of(m, o) == p && (
    forall|k: Seq<char>, q: u32|
        m.contains_key(k) && m[k] == CriterionScore::Points(q) ==> q <= denominator_of(m, o))
        && exists|k: Seq<char>|
        m.contains_key(k) && m[k] == CriterionScore::Points(denominator_of(m, o) as u32) by {
        assert forall|k: Seq<char>, q: u32|
            m.contains_key(k) && m[k] == CriterionScore::Points(q) implies q <= denominator_of(m, o) by {
            assert(points_of(m[k]) == q);
        }
        if full_marks(m) == 0 {
            assert(m.contains_key(o) && m[o] == CriterionScore::Points(p));
            assert(points_of(m[o]) <= 0);
        }
    }
}

/// What one pick earns and makes possible, in the scorecard module: a
/// points option earns its points, a failing one nothing, both out of the
/// criterion's highest points; a not-applicable option counts nothing.
pub proof fn lemma_module_pick_values(c: crate::scorecard::Criterion, o: Seq<char>)
    requires
        c@.contains_key(o),
    ensures
        c@[o] != CriterionScore::NotApplicable ==> (forall|k: Seq<char>, q: u32|
            c@.contains_key(k) && c@[k] == CriterionScore::Points(q) ==> q
                <= crate::scorecard::denominator_of(c@, o)),
        c@[o] != CriterionScore::NotApplicable ==> crate::scorecard::denominator_of(c@, o) == 0
            || exists|k: Seq<char>|
            c@.contains_key(k) && c@[k] == CriterionScore::Points(
                crate::scorecard::denominator_of(c@, o) as u32,
            ),
        forall|p: u32| c@[o] == CriterionScore::Points(p) ==> numerator_of(c@, o) == p,
        c@[o] == CriterionScore::Autofail ==> numerator_of(c@, o) == 0,
        c@[o] == CriterionScore::NotApplicable ==> numerator_of(c@, o) == 0
            && crate::scorecard::denominator_of(c@, o) == 0,
{
    c.lemma_finite();
    lemma_full_marks(c@);
    let m = c@;
    if m[o] != CriterionScore::NotApplicable {
        assert forall|k: Seq<char>, q: u32|
            m.contains_key(k) && m[k] == CriterionScore::Points(q) implies q
            <= crate::scorecard::denominator_of(m, o) by {
            assert(points_of(m[k]) == q);
        }
    }
}


/// Why reading rows fails: each error points at a row that has that fault.
/// The row `rows[r]` stands on line `r + 2`.
pub proof fn lemma_read_rows_errors(names: Seq<Seq<char>>, rows: Seq<Seq<char>>)
    ensures
        !(read_rows(names, rows) matches Err(CsvErrorView::Empty)),
        !(read_rows(names, rows) matches Err(CsvErrorView::DuplicateOption(_))),
        read_rows(names, rows) matches Err(CsvErrorView::EmptyCriterionName(l)) ==> 2 <= l <= rows.len()
            + 1 && trim(rows[l - 2]).len() != 0 && split_on(rows[l - 2], ',')[0].len() == 0,
        read_rows(names, rows) matches Err(CsvErrorView::DuplicateCriterion(n)) ==> exists|
            r1: int,
            r2: int,
        |
            0 <= r1 < r2 < rows.len() && trim(#[trigger] rows[r1]).len() != 0 && trim(
                #[trigger] rows[r2],
            ).len() != 0 && split_on(rows[r1], ',')[0] == n && split_on(rows[r2], ',')[0] == n,
        read_rows(names, rows) matches Err(
            CsvErrorView::InvalidCell { value: v, criterion: cr, option: op },
        ) ==> exists|r: int, c: int|
            0 <= r < rows.len() && 0 <= c < names.len() && trim(#[trigger] rows[r]).len() != 0
                && split_on(rows[r], ',')[0] == cr && #[trigger] names[c] == op && trimmed_cell(
                split_on(rows[r], ','),
                c,
            ) == v && !readable(v),
    decreases rows.len(),
{
    if rows.len() > 0 {
        let front = rows.drop_last();
        lemma_read_rows_errors(names, front);
        let last = rows.last();
        let r = rows.len() - 1;
        assert(rows[r] == last);
        assert forall|q: int| 0 <= q < front.len() implies front[q] == rows[q] by {}
        match read_rows(names, front) {
            Err(e) => {
                assert(read_rows(names, rows) == Err::<CriteriaView, CsvErrorView>(e));
                if let CsvErrorView::DuplicateCriterion(n) = e {
                    let (r1, r2) = choose|r1: int, r2: int|
                        0 <= r1 < r2 < front.len() && trim(#[trigger] front[r1]).len() != 0 && trim(
                            #[trigger] front[r2],
                        ).len() != 0 && split_on(front[r1], ',')[0] == n && split_on(front[r2], ',')[0]
                            == n;
                    assert(front[r1] == rows[r1] && front[r2] == rows[r2]);
                }
                if let CsvErrorView::InvalidCell { value: v, criterion: cr, option: op } = e {
                    let (q, c) = choose|q: int, c: int|
                        0 <= q < front.len() && 0 <= c < names.len() && trim(#[trigger] front[q]).len()
                            != 0 && split_on(front[q], ',')[0] == cr && #[trigger] names[c] == op
                            && trimmed_cell(split_on(front[q], ','), c) == v && !readable(v);
                    assert(front[q] == rows[q]);
                }
                if let CsvErrorView::EmptyCriterionName(l) = e {
                    assert(front[l - 2] == rows[l - 2]);
                }
            },
            Ok(done) => {
                if trim(last).len() != 0 {
                    let cells = split_on(last, ',');
                    let name = cells[0];
                    lemma_split_nonempty(last, ',');
                    if name.len() != 0 && names_contain(done, name) {
                        lemma_read_rows_criteria(names, front);
                        let k = choose|k: int| 0 <= k < done.len() && done[k].0 == name;
                        assert(done[k] == done[k]);
                        let r1 = choose|r1: int|
                            #![trigger front[r1]]
                            0 <= r1 < front.len() && trim(front[r1]).len() != 0 && done[k] == (
                                split_on(front[r1], ',')[0],
                                row_options(names, split_on(front[r1], ','), names.len() as int),
                            );
                        assert(rows[r1] == front[r1]);
                        assert(0 <= r1 < r < rows.len() && trim(rows[r1]).len() != 0 && trim(
                            rows[r],
                        ).len() != 0 && split_on(rows[r1], ',')[0] == name && split_on(rows[r], ',')[0]
                            == name);
                    }
                    if name.len() != 0 && !names_contain(done, name) {
                        if let Some(c) = first_invalid_cell(cells, names.len() as int) {
                            lemma_first_invalid_found(cells, names.len() as int);
                            assert(!cell_valid(cell_text(cells, c)));
                            assert(trimmed_cell(cells, c) == cell_text(cells, c));
                            assert(names[c] == names[c]);
                        }
                    }
                }
            },
        }
    }
}

/// The first invalid cell found among the first `n` is one of them, and is invalid.
proof fn lemma_first_invalid_found(cells: Seq<Seq<char>>, n: int)
    requires
        first_invalid_cell(cells, n) is Some,
    ensures
        0 <= first_invalid_cell(cells, n)->Some_0 < n,
        !cell_valid(cell_text(cells, first_invalid_cell(cells, n)->Some_0)),
    decreases n,
{
    if n > 0 && first_invalid_cell(cells, n - 1) is Some {
        lemma_first_invalid_found(cells, n - 1);
    }
}

/// Why reading a scorecard fails: an empty text; an option name that the
/// header repeats; or a row with the fault that the error names (the row on
/// line `l` is `lines_of(s)[l - 1]`).
pub proof fn lemma_read_scorecard_errors(s: Seq<char>)
    ensures
        (read_scorecard(s) matches Err(CsvErrorView::Empty)) <==> s.len() == 0,
        read_scorecard(s) matches Err(CsvErrorView::DuplicateOption(n)) ==> exists|i: int, j: int|
            0 <= i < j < option_names(lines_of(s)[0]).len() && #[trigger] option_names(
                lines_of(s)[0],
            )[i] == n && #[trigger] option_names(lines_of(s)[0])[j] == n,
        read_scorecard(s) matches Err(CsvErrorView::EmptyCriterionName(l)) ==> 2 <= l
            <= lines_of(s).len() && trim(lines_of(s)[l - 1]).len() != 0 && split_on(
            lines_of(s)[l - 1],
            ',',
        )[0].len() == 0,
        read_scorecard(s) matches Err(CsvErrorView::DuplicateCriterion(n)) ==> exists|
            r1: int,
            r2: int,
        |
            1 <= r1 < r2 < lines_of(s).len() && trim(#[trigger] lines_of(s)[r1]).len() != 0 && trim(
                #[trigger] lines_of(s)[r2],
            ).len() != 0 && split_on(lines_of(s)[r1], ',')[0] == n && split_on(lines_of(s)[r2], ',')[0]
                == n,
        read_scorecard(s) matches Err(
            CsvErrorView::InvalidCell { value: v, criterion: cr, option: op },
        ) ==> exists|r: int, c: int|
            1 <= r < lines_of(s).len() && 0 <= c < option_names(lines_of(s)[0]).len() && trim(
                #[trigger] lines_of(s)[r],
            ).len() != 0 && split_on(lines_of(s)[r], ',')[0] == cr && #[trigger] option_names(
                lines_of(s)[0],
            )[c] == op && trimmed_cell(split_on(lines_of(s)[r], ','), c) == v && !readable(v),
{
    if s.len() > 0 {
        lemma_lines_nonempty(s);
        let lines = lines_of(s);
        let names = option_names(lines[0]);
        let rows = lines.drop_first();
        lemma_read_rows_errors(names, rows);
        assert forall|q: int| 0 <= q < rows.len() implies rows[q] == lines[q + 1] by {}
        match first_repeat(names) {
            Some(j) => {
                assert(is_first_repeat(names, j)) by {
                    let w = choose|w: int| is_first_repeat(names, w);
                    assert(is_first_repeat(names, w));
                }
                let i = choose|i: int| 0 <= i < j && names[i] == names[j];
                assert(0 <= i < j < names.len() && names[i] == names[j]);
            },
            None => {
                let e = read_rows(names, rows);
                if let Err(CsvErrorView::EmptyCriterionName(l)) = e {
                    assert(rows[l - 2] == lines[l - 1]);
                }
                if let Err(CsvErrorView::DuplicateCriterion(n)) = e {
                    let (r1, r2) = choose|r1: int, r2: int|
                        0 <= r1 < r2 < rows.len() && trim(#[trigger] rows[r1]).len() != 0 && trim(
                            #[trigger] rows[r2],
                        ).len() != 0 && split_on(rows[r1], ',')[0] == n && split_on(rows[r2], ',')[0]
                            == n;
                    assert(lines[r1 + 1] == rows[r1] && lines[r2 + 1] == rows[r2]);
                }
                if let Err(CsvErrorView::InvalidCell { value: v, criterion: cr, option: op }) = e {
                    let (q, c) = choose|q: int, c: int|
                        0 <= q < rows.len() && 0 <= c < names.len() && trim(#[trigger] rows[q]).len()
                            != 0 && split_on(rows[q], ',')[0] == cr && #[trigger] names[c] == op
                            && trimmed_cell(split_on(rows[q], ','), c) == v && !readable(v);
                    assert(lines[q + 1] == rows[q]);
                }
            },
        }
    }
}


/// With every one of the first `n` cells valid, none is found invalid.
proof fn lemma_all_valid_none_invalid(cells: Seq<Seq<char>>, n: int)
    requires
        forall|c: int| 0 <= c < n ==> readable(#[trigger] trimmed_cell(cells, c)),
    ensures
        first_invalid_cell(cells, n) is None,
    decreases n,
{
    if n > 0 {
        lemma_all_valid_none_invalid(cells, n - 1);
        assert(readable(trimmed_cell(cells, n - 1)));
    }
}

/// Rows whose non-blank ones all have non-empty, distinct names and
/// readable cells are read without error.
pub proof fn lemma_read_rows_ok(names: Seq<Seq<char>>, rows: Seq<Seq<char>>)
    requires
        forall|r: int|
            0 <= r < rows.len() && trim(#[trigger] rows[r]).len() != 0 ==> row_readable(
                rows[r],
                names.len() as int,
            ),
        forall|r1: int, r2: int|
            0 <= r1 < r2 < rows.len() && trim(#[trigger] rows[r1]).len() != 0 && trim(
                #[trigger] rows[r2],
            ).len() != 0 ==> split_on(rows[r1], ',')[0] != split_on(rows[r2], ',')[0],
    ensures
        read_rows(names, rows) is Ok,
    decreases rows.len(),
{
    if rows.len() > 0 {
        let front = rows.drop_last();
        let r = rows.len() - 1;
        assert forall|q: int| 0 <= q < front.len() implies front[q] == rows[q] by {}
        assert forall|q: int|
            0 <= q < front.len() && trim(#[trigger] front[q]).len() != 0 implies row_readable(
            front[q],
            names.len() as int,
        ) by {
            assert(front[q] == rows[q]);
        }
        assert forall|r1: int, r2: int|
            0 <= r1 < r2 < front.len() && trim(#[trigger] front[r1]).len() != 0 && trim(
                #[trigger] front[r2],
            ).len() != 0 implies split_on(front[r1], ',')[0] != split_on(front[r2], ',')[0] by {
            assert(front[r1] == rows[r1] && front[r2] == rows[r2]);
        }
        lemma_read_rows_ok(names, front);
        let last = rows.last();
        assert(rows[r] == last);
        if trim(last).len() != 0 {
            let done = read_rows(names, front)->Ok_0;
            let cells = split_on(last, ',');
            assert(row_readable(rows[r], names.len() as int));
            assert forall|c: int| 0 <= c < names.len() implies readable(
                #[trigger] trimmed_cell(cells, c),
            ) by {
                assert(readable(trimmed_cell(split_on(rows[r], ','), c)));
            }
            lemma_all_valid_none_invalid(cells, names.len() as int);
            lemma_read_rows_criteria(names, front);
            if names_contain(done, cells[0]) {
                let k = choose|k: int| 0 <= k < done.len() && done[k].0 == cells[0];
                assert(done[k] == done[k]);
                let r1 = choose|r1: int|
                    #![trigger front[r1]]
                    0 <= r1 < front.len() && trim(front[r1]).len() != 0 && done[k] == (
                        split_on(front[r1], ',')[0],
                        row_options(names, split_on(front[r1], ','), names.len() as int),
                    );
                assert(rows[r1] == front[r1]);
                assert(split_on(rows[r1], ',')[0] != split_on(rows[r], ',')[0]);
            }
        }
    }
}

/// A non-empty text whose header names distinct options, and whose
/// non-blank rows have non-empty, distinct names and readable cells, is
/// read without error.
pub proof fn lemma_read_scorecard_ok(s: Seq<char>)
    requires
        s.len() > 0,
        forall|i: int, j: int|
            0 <= i < j < option_names(lines_of(s)[0]).len() ==> #[trigger] option_names(
                lines_of(s)[0],
            )[i] != #[trigger] option_names(lines_of(s)[0])[j],
        forall|r: int|
            1 <= r < lines_of(s).len() && trim(#[trigger] lines_of(s)[r]).len() != 0 ==> row_readable(
                lines_of(s)[r],
                option_names(lines_of(s)[0]).len() as int,
            ),
        forall|r1: int, r2: int|
            1 <= r1 < r2 < lines_of(s).len() && trim(#[trigger] lines_of(s)[r1]).len() != 0 && trim(
                #[trigger] lines_of(s)[r2],
            ).len() != 0 ==> split_on(lines_of(s)[r1], ',')[0] != split_on(lines_of(s)[r2], ',')[0],
    ensures
        read_scorecard(s) is Ok,
{
    lemma_lines_nonempty(s);
    let lines = lines_of(s);
    let names = option_names(lines[0]);
    let rows = lines.drop_first();
    assert forall|q: int| 0 <= q < rows.len() implies rows[q] == lines[q + 1] by {}
    assert forall|q: int|
        0 <= q < rows.len() && trim(#[trigger] rows[q]).len() != 0 implies row_readable(
        rows[q],
        names.len() as int,
    ) by {
        assert(rows[q] == lines[q + 1]);
    }
    assert forall|r1: int, r2: int|
        0 <= r1 < r2 < rows.len() && trim(#[trigger] rows[r1]).len() != 0 && trim(
            #[trigger] rows[r2],
        ).len() != 0 implies split_on(rows[r1], ',')[0] != split_on(rows[r2], ',')[0] by {
        assert(rows[r1] == lines[r1 + 1] && rows[r2] == lines[r2 + 1]);
    }
    lemma_read_rows_ok(names, rows);
    assert forall|j: int| !is_first_repeat(names, j) by {
        if 0 <= j < names.len() && repeats_earlier(names, j) {
            let i = choose|i: int| 0 <= i < j && names[i] == names[j];
            assert(names[i] != names[j]);
        }
    }
}


proof fn lemma_trim_start_shape(s: Seq<char>)
    ensures
        exists|i: int|
            0 <= i <= s.len() && trim_start(s) == s.subrange(i, s.len() as int) && (forall|k: int|
                0 <= k < i ==> is_white(#[trigger] s[k])) && (i < s.len() ==> !is_white(s[i])),
    decreases s.len(),
{
    if s.len() > 0 && is_white(s[0]) {
        lemma_trim_start_shape(s.drop_first());
        let t = s.drop_first();
        let i = choose|i: int|
            0 <= i <= t.len() && trim_start(t) == t.subrange(i, t.len() as int) && (forall|k: int|
                0 <= k < i ==> is_white(#[trigger] t[k])) && (i < t.len() ==> !is_white(t[i]));
        assert(t.subrange(i, t.len() as int) =~= s.subrange(i + 1, s.len() as int));
        assert forall|k: int| 0 <= k < i + 1 implies is_white(#[trigger] s[k]) by {
            if k > 0 {
                assert(s[k] == t[k - 1]);
            }
        }
        if i + 1 < s.len() {
            assert(s[i + 1] == t[i]);
        }
    } else {
        assert(s.subrange(0, s.len() as int) =~= s);
    }
}

proof fn lemma_trim_end_shape(s: Seq<char>)
    ensures
        exists|j: int|
            0 <= j <= s.len() && trim_end(s) == s.subrange(0, j) && (forall|k: int|
                j <= k < s.len() ==> is_white(#[trigger] s[k])) && (j > 0 ==> !is_white(s[j - 1])),
    decreases s.len(),
{
    if s.len() > 0 && is_white(s.last()) {
        lemma_trim_end_shape(s.drop_last());
        let t = s.drop_last();
        let j = choose|j: int|
            0 <= j <= t.len() && trim_end(t) == t.subrange(0, j) && (forall|k: int|
                j <= k < t.len() ==> is_white(#[trigger] t[k])) && (j > 0 ==> !is_white(t[j - 1]));
        assert(t.subrange(0, j) =~= s.subrange(0, j));
        assert forall|k: int| j <= k < s.len() implies is_white(#[trigger] s[k]) by {
            if k < s.len() - 1 {
                assert(s[k] == t[k]);
            }
        }
        if j > 0 {
            assert(s[j - 1] == t[j - 1]);
        }
    } else {
        assert(s.subrange(0, s.len() as int) =~= s);
    }
}

/// Trimming keeps one stretch of the text: only white space lies before and
/// after it, and it neither starts nor ends with white space.
pub proof fn lemma_trim_shape(s: Seq<char>)
    ensures
        exists|i: int, j: int|
            0 <= i <= j <= s.len() && trim(s) == s.subrange(i, j) && (forall|k: int|
                0 <= k < i ==> is_white(#[trigger] s[k])) && (forall|k: int|
                j <= k < s.len() ==> is_white(#[trigger] s[k])) && (i < j ==> !is_white(s[i])
                && !is_white(s[j - 1])),
{
    lemma_trim_start_shape(s);
    let i = choose|i: int|
        0 <= i <= s.len() && trim_start(s) == s.subrange(i, s.len() as int) && (forall|k: int|
            0 <= k < i ==> is_white(#[trigger] s[k])) && (i < s.len() ==> !is_white(s[i]));
    let t = s.subrange(i, s.len() as int);
    lemma_trim_end_shape(t);
    let j = choose|j: int|
        0 <= j <= t.len() && trim_end(t) == t.subrange(0, j) && (forall|k: int|
            j <= k < t.len() ==> is_white(#[trigger] t[k])) && (j > 0 ==> !is_white(t[j - 1]));
    assert(t.subrange(0, j) =~= s.subrange(i, i + j));
    assert forall|k: int| i + j <= k < s.len() implies is_white(#[trigger] s[k]) by {
        assert(s[k] == t[k - i]);
    }
    if 0 < j {
        assert(s[i] == t[0]);
        assert(s[i + j - 1] == t[j - 1]);
    }
}

/// One digit is worth its own value.
pub proof fn lemma_decimal_digit(d: char)
    requires
        is_digit(d),
    ensures
        decimal_value(seq![d]) == d as u32 - 0x30,
{
    assert(seq![d].drop_last() =~= Seq::<char>::empty());
    assert(seq![d].last() == d);
    assert(decimal_value(Seq::<char>::empty()) == 0);
}

/// Writing digits `b` after digits `a` multiplies the value of `a` by ten
/// for each digit of `b`, and adds the value of `b`.
pub proof fn lemma_decimal_append(a: Seq<char>, b: Seq<char>)
    ensures
        decimal_value(a + b) == decimal_value(a) * pow(10, b.len()) + decimal_value(b),
    decreases b.len(),
{
    reveal(pow);
    if b.len() == 0 {
        assert(a + b =~= a);
    } else {
        let b1 = b.drop_last();
        lemma_decimal_append(a, b1);
        assert((a + b).drop_last() =~= a + b1);
        assert((a + b).last() == b.last());
        let x = decimal_value(a);
        let p = pow(10, b1.len());
        assert(pow(10, b.len()) == 10 * p);
        let y = decimal_value(b1);
        let z = (b.last() as u32 - 0x30) as nat;
        assert((x * p + y) * 10 + z == x * (10 * p) + (y * 10 + z)) by (nonlinear_arith);
    }
}

/// Digits alone, or after one `+`, read as their value when it fits in a
/// `u32`; too large a value, a sign alone, an empty text, or any other
/// character reads as nothing.
pub proof fn lemma_parse_u32(d: Seq<char>)
    requires
        forall|i: int| 0 <= i < d.len() ==> is_digit(#[trigger] d[i]),
    ensures
        d.len() > 0 && decimal_value(d) <= u32::MAX ==> parse_u32(d) == Some(decimal_value(d) as u32)
            && parse_u32(seq!['+'] + d) == Some(decimal_value(d) as u32),
        decimal_value(d) > u32::MAX ==> parse_u32(d) is None && parse_u32(seq!['+'] + d) is None,
        d.len() == 0 ==> parse_u32(d) is None && parse_u32(seq!['+'] + d) is None,
        forall|a: Seq<char>, c: char|
            !is_digit(c) && (d.len() > 0 || c != '+') ==> parse_u32(d + seq![c] + a) is None
                && parse_u32(seq!['+'] + d + seq![c] + a) is None,
{
    let pd = seq!['+'] + d;
    assert(pd.drop_first() =~= d);
    if d.len() > 0 {
        assert(d[0] != '+') by {
            assert(is_digit(d[0]));
        }
    }
    assert forall|a: Seq<char>, c: char| !is_digit(c) && (d.len() > 0 || c != '+') implies parse_u32(
        d + seq![c] + a,
    ) is None && parse_u32(seq!['+'] + d + seq![c] + a) is None by {
        let t = d + seq![c] + a;
        assert(t[d.len() as int] == c);
        if d.len() > 0 {
            assert(t[0] == d[0]);
        }
        assert(!(t.len() > 0 && t[0] == '+'));
        assert(!is_digit(t[d.len() as int]));
        let u = seq!['+'] + d + seq![c] + a;
        assert(u.drop_first() =~= t);
        assert(u[0] == '+');
    }
}

} // verus!
