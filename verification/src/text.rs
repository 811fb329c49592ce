use vstd::prelude::*;

verus! {

/// The pieces of `s` between occurrences of `sep`: `k` separators give
/// `k + 1` pieces, empty ones included.
pub open spec fn split_on(s: Seq<char>, sep: char) -> Seq<Seq<char>>
    decreases s.len(),
{
    if s.len() == 0 {
        seq![Seq::<char>::empty()]
    } else {
        let p = split_on(s.drop_last(), sep);
        if s.last() == sep {
            p.push(Seq::<char>::empty())
        } else {
            p.update(p.len() - 1, p.last().push(s.last()))
        }
    }
}

/// `l` without one trailing carriage return.
pub open spec fn strip_cr(l: Seq<char>) -> Seq<char> {
    if l.len() > 0 && l.last() == '\r' {
        l.drop_last()
    } else {
        l
    }
}

/// The lines of `s`: it is cut at each line feed, a carriage return just
/// before a line feed is dropped, and a final line feed ends the last line
/// rather than starting an empty one. An empty text has no lines.
pub open spec fn lines_of(s: Seq<char>) -> Seq<Seq<char>> {
    if s.len() == 0 {
        Seq::empty()
    } else {
        let p = split_on(s, '\n');
        let body = p.drop_last().map_values(|l: Seq<char>| strip_cr(l));
        if s.last() == '\n' {
            body
        } else {
            body.push(p.last())
        }
    }
}

/// Unicode white space, as `char::is_whitespace` documents it.
pub open spec fn is_white(c: char) -> bool {
    let x = c as u32;
    x == 0x20 || (0x09 <= x && x <= 0x0d) || x == 0x85 || x == 0xa0 || x == 0x1680 || (0x2000 <= x
        && x <= 0x200a) || x == 0x2028 || x == 0x2029 || x == 0x202f || x == 0x205f || x == 0x3000
}

/// `s` without its leading white space.
pub open spec fn trim_start(s: Seq<char>) -> Seq<char>
    decreases s.len(),
{
    if s.len() > 0 && is_white(s[0]) {
        trim_start(s.drop_first())
    } else {
        s
    }
}

/// `s` without its trailing white space.
pub open spec fn trim_end(s: Seq<char>) -> Seq<char>
    decreases s.len(),
{
    if s.len() > 0 && is_white(s.last()) {
        trim_end(s.drop_last())
    } else {
        s
    }
}

/// `s` without white space at either end.
pub open spec fn trim(s: Seq<char>) -> Seq<char> {
    trim_end(trim_start(s))
}

/// A decimal digit `0` to `9`.
pub open spec fn is_digit(c: char) -> bool {
    0x30 <= (c as u32) && (c as u32) <= 0x39
}

/// Every character of `s` is a decimal digit.
pub open spec fn all_digits(s: Seq<char>) -> bool {
    forall|i: int| 0 <= i < s.len() ==> is_digit(#[trigger] s[i])
}

/// The number that a string of decimal digits writes.
pub open spec fn decimal_value(s: Seq<char>) -> nat
    decreases s.len(),
{
    if s.len() == 0 {
        0
    } else {
        decimal_value(s.drop_last()) * 10 + (s.last() as u32 - 0x30) as nat
    }
}

/// What `str::parse::<u32>` gives: an optional `+`, then one or more decimal
/// digits whose value fits in a `u32`.
pub open spec fn parse_u32(s: Seq<char>) -> Option<u32> {
    let d = if s.len() > 0 && s[0] == '+' {
        s.drop_first()
    } else {
        s
    };
    if d.len() > 0 && all_digits(d) && decimal_value(d) <= u32::MAX {
        Some(decimal_value(d) as u32)
    } else {
        None
    }
}

pub proof fn lemma_split_nonempty(s: Seq<char>, sep: char)
    ensures
        split_on(s, sep).len() >= 1,
    decreases s.len(),
{
    if s.len() > 0 {
        lemma_split_nonempty(s.drop_last(), sep);
    }
}

/// The characters of `s`, one per element.
pub fn chars_of(s: &str) -> (v: Vec<char>)
    ensures
        v@ == s@,
{
    broadcast use vstd::string::group_string_axioms;

    let mut v: Vec<char> = Vec::new();
    for c in it: s.chars()
        invariant
            v@ == it.seq().take(it.index()),
    {
        v.push(c);
        assert(v@ =~= it.seq().take(it.index() + 1));
    }
    assert(v@ =~= s@);
    v
}

/// The ranges of `chars[lo..hi]` that `split_on` would cut it into.
pub fn split_ranges(chars: &Vec<char>, lo: usize, hi: usize, sep: char) -> (r: Vec<(usize, usize)>)
    requires
        lo <= hi <= chars@.len(),
    ensures
        r@.len() == split_on(chars@.subrange(lo as int, hi as int), sep).len(),
        forall|k: int|
            0 <= k < r@.len() ==> lo <= (#[trigger] r@[k]).0 <= r@[k].1 <= hi && chars@.subrange(
                r@[k].0 as int,
                r@[k].1 as int,
            ) == split_on(chars@.subrange(lo as int, hi as int), sep)[k],
{
    let mut done: Vec<(usize, usize)> = Vec::new();
    let mut start: usize = lo;
    let mut i: usize = lo;
    while i < hi
        invariant
            lo <= start <= i <= hi <= chars@.len(),
            done@.len() + 1 == split_on(chars@.subrange(lo as int, i as int), sep).len(),
            forall|k: int|
                0 <= k < done@.len() ==> lo <= (#[trigger] done@[k]).0 <= done@[k].1 <= i
                    && chars@.subrange(done@[k].0 as int, done@[k].1 as int) == split_on(
                    chars@.subrange(lo as int, i as int),
                    sep,
                )[k],
            chars@.subrange(start as int, i as int) == split_on(
                chars@.subrange(lo as int, i as int),
                sep,
            ).last(),
        decreases hi - i,
    {
        let ghost before = split_on(chars@.subrange(lo as int, i as int), sep);
        proof {
            lemma_split_nonempty(chars@.subrange(lo as int, i as int), sep);
            assert(chars@.subrange(lo as int, i + 1).drop_last() =~= chars@.subrange(
                lo as int,
                i as int,
            ));
        }
        let c = chars[i];
        if c == sep {
            done.push((start, i));
            start = i + 1;
            i = i + 1;
            assert(chars@.subrange(start as int, i as int) =~= Seq::<char>::empty());
        } else {
            i = i + 1;
            assert(chars@.subrange(start as int, i as int) =~= chars@.subrange(
                start as int,
                i - 1,
            ).push(c));
        }
    }
    proof {
        lemma_split_nonempty(chars@.subrange(lo as int, hi as int), sep);
    }
    done.push((start, hi));
    done
}

/// The ranges of the lines of `chars`, as `lines_of` gives them.
pub fn line_ranges(chars: &Vec<char>) -> (r: Vec<(usize, usize)>)
    ensures
        r@.len() == lines_of(chars@).len(),
        forall|k: int|
            0 <= k < r@.len() ==> (#[trigger] r@[k]).0 <= r@[k].1 <= chars@.len()
                && chars@.subrange(r@[k].0 as int, r@[k].1 as int) == lines_of(chars@)[k],
{
    let n = chars.len();
    if n == 0 {
        return Vec::new();
    }
    let pieces = split_ranges(chars, 0, n, '\n');
    let ghost p = split_on(chars@.subrange(0, n as int), '\n');
    proof {
        assert(chars@.subrange(0, n as int) =~= chars@);
        lemma_split_nonempty(chars@, '\n');
    }
    let ghost body = p.drop_last().map_values(|l: Seq<char>| strip_cr(l));
    let mut out: Vec<(usize, usize)> = Vec::new();
    let last = pieces.len() - 1;
    let mut k: usize = 0;
    while k < last
        invariant
            last + 1 == pieces@.len(),
            pieces@.len() == p.len(),
            p == split_on(chars@, '\n'),
            body == p.drop_last().map_values(|l: Seq<char>| strip_cr(l)),
            p.len() >= 1,
            n == chars@.len(),
            k + 1 <= pieces@.len(),
            out@.len() == k,
            forall|j: int|
                0 <= j < pieces@.len() ==> 0 <= (#[trigger] pieces@[j]).0 <= pieces@[j].1 <= n
                    && chars@.subrange(pieces@[j].0 as int, pieces@[j].1 as int) == p[j],
            forall|j: int|
                0 <= j < k ==> (#[trigger] out@[j]).0 <= out@[j].1 <= n && chars@.subrange(
                    out@[j].0 as int,
                    out@[j].1 as int,
                ) == body[j],
        decreases pieces@.len() - k,
    {
        let (a, b) = pieces[k];
        let ghost piece = p[k as int];
        assert(chars@.subrange(a as int, b as int) == piece);
        if a < b && chars[b - 1] == '\r' {
            out.push((a, b - 1));
            assert(chars@.subrange(a as int, b - 1) =~= piece.drop_last());
        } else {
            out.push((a, b));
        }
        k = k + 1;
    }
    if chars[n - 1] == '\n' {
        assert(lines_of(chars@) == body);
        out
    } else {
        out.push(pieces[k]);
        assert(lines_of(chars@) == body.push(p.last()));
        assert(out@.len() == lines_of(chars@).len());
        out
    }
}

/// Whether `c` is white space.
pub fn white(c: char) -> (b: bool)
    ensures
        b == is_white(c),
{
    let x = c as u32;
    x == 0x20 || (0x09 <= x && x <= 0x0d) || x == 0x85 || x == 0xa0 || x == 0x1680 || (0x2000 <= x
        && x <= 0x200a) || x == 0x2028 || x == 0x2029 || x == 0x202f || x == 0x205f || x == 0x3000
}

/// The part of `chars[lo..hi]` left once white space is taken off both ends.
pub fn trim_range(chars: &Vec<char>, lo: usize, hi: usize) -> (r: (usize, usize))
    requires
        lo <= hi <= chars@.len(),
    ensures
        lo <= r.0 <= r.1 <= hi,
        chars@.subrange(r.0 as int, r.1 as int) == trim(chars@.subrange(lo as int, hi as int)),
{
    let mut a = lo;
    while a < hi && white(chars[a])
        invariant
            lo <= a <= hi <= chars@.len(),
            trim_start(chars@.subrange(lo as int, hi as int)) == trim_start(
                chars@.subrange(a as int, hi as int),
            ),
        decreases hi - a,
    {
        assert(chars@.subrange(a as int, hi as int).drop_first() =~= chars@.subrange(
            a + 1,
            hi as int,
        ));
        a = a + 1;
    }
    let mut b = hi;
    while b > a && white(chars[b - 1])
        invariant
            lo <= a <= b <= hi <= chars@.len(),
            trim_start(chars@.subrange(lo as int, hi as int)) == chars@.subrange(a as int, hi as int),
            trim_end(chars@.subrange(a as int, hi as int)) == trim_end(
                chars@.subrange(a as int, b as int),
            ),
        decreases b - a,
    {
        assert(chars@.subrange(a as int, b as int).drop_last() =~= chars@.subrange(
            a as int,
            b - 1,
        ));
        b = b - 1;
    }
    (a, b)
}

/// `str::parse::<u32>` on the characters `chars[lo..hi]`.
pub fn parse_u32_range(chars: &Vec<char>, lo: usize, hi: usize) -> (r: Option<u32>)
    requires
        lo <= hi <= chars@.len(),
    ensures
        r == parse_u32(chars@.subrange(lo as int, hi as int)),
{
    let ghost s = chars@.subrange(lo as int, hi as int);
    let mut a = lo;
    if a < hi && chars[a] == '+' {
        a = a + 1;
        assert(s.drop_first() =~= chars@.subrange(a as int, hi as int));
    }
    let ghost d = chars@.subrange(a as int, hi as int);
    assert(d == (if s.len() > 0 && s[0] == '+' {
        s.drop_first()
    } else {
        s
    }));
    if a == hi {
        return None;
    }
    let mut val: u64 = 0;
    let mut big = false;
    let mut i = a;
    while i < hi
        invariant
            a <= i <= hi <= chars@.len(),
            d == chars@.subrange(a as int, hi as int),
            s == chars@.subrange(lo as int, hi as int),
            d == (if s.len() > 0 && s[0] == '+' {
                s.drop_first()
            } else {
                s
            }),
            forall|j: int| a <= j < i ==> is_digit(#[trigger] chars@[j]),
            !big ==> val == decimal_value(chars@.subrange(a as int, i as int)) && val <= u32::MAX,
            big ==> decimal_value(chars@.subrange(a as int, i as int)) > u32::MAX,
        decreases hi - i,
    {
        let c = chars[i];
        let x = c as u32;
        if x < 0x30 || x > 0x39 {
            assert(d[i - a] == c);
            assert(!is_digit(d[i - a]));
            return None;
        }
        let ghost prefix = chars@.subrange(a as int, i as int);
        assert(chars@.subrange(a as int, i + 1).drop_last() =~= prefix);
        let digit = (x - 0x30) as u64;
        if !big {
            val = val * 10 + digit;
            if val > 0xffff_ffff {
                big = true;
            }
        }
        i = i + 1;
    }
    assert(chars@.subrange(a as int, i as int) =~= d);
    assert forall|j: int| 0 <= j < d.len() implies is_digit(d[j]) by {
        assert(d[j] == chars@[a + j]);
    }
    if big {
        None
    } else {
        Some(val as u32)
    }
}

} // verus!
