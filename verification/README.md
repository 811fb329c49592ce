# qams

Scorecards for quality assessments, proved correct with Verus.

A scorecard has criteria; each criterion offers named options, and each option
is worth some points (`Points`), fails the whole assessment (`Autofail`), or
takes the criterion out of the assessment (`NotApplicable`). A selection picks
one option per criterion and is scored as the points earned out of the points
possible.

Layout:

- `src/lib.rs`: the scorecard that is read from CSV, its criteria, and the
  totals and score of a selection.
- `src/csv.rs`: the CSV format as a specification, and the reader proved
  against it.
- `src/scorecard.rs`: the scorecard built from parts, which keeps the order of
  its rows and columns; its criteria also give their full marks and an
  average over several picks.
- `src/names.rs`: a map from names to values that keeps insertion order.
- `src/text.rs`: lines, splitting, trimming and number parsing on characters.
- `src/laws.rs`: properties that hold of every scorecard and every CSV text.
- `app/`: floating-point scores, hash-map constructors and error messages.
