//! Menus, legend styles and series labels of the plots, and the Student
//! table used for confidence intervals.

use vstd::prelude::*;
use crate::prompts::{parse_usize, usize_of_text};
use crate::text::{
    chars_of, is_whitespace, is_ws, pieces_of, split_ranges, split_seq, string_of, trim_bounds,
    trim_end_seq, trim_seq, trim_start_seq, trimmed_string,
};

verus! {

/// How several pressure logs are compared: by absolute flow, or by flow
/// per square metre of filter element.
#[derive(Clone, Copy, Debug, PartialEq, Eq, Structural)]
pub enum CompareMode {
    Absolute,
    PerSquareMeter,
}

impl CompareMode {
    /// Text of the menu entry.
    pub fn label(self) -> (r: &'static str)
        ensures
            r@ == (match self {
                CompareMode::Absolute => "По абсолютному расходу (без площади ФЭ)"@,
                CompareMode::PerSquareMeter => "По удельному расходу (на 1 м² ФЭ)"@,
            }),
    {
        match self {
            CompareMode::Absolute => "По абсолютному расходу (без площади ФЭ)",
            CompareMode::PerSquareMeter => "По удельному расходу (на 1 м² ФЭ)",
        }
    }

    /// The mode at position `selection` of the menu `[Absolute,
    /// PerSquareMeter]`.
    pub fn from_selection(selection: usize) -> (r: CompareMode)
        ensures
            r == (if selection == 0 {
                CompareMode::Absolute
            } else {
                CompareMode::PerSquareMeter
            }),
    {
        if selection == 0 {
            CompareMode::Absolute
        } else {
            CompareMode::PerSquareMeter
        }
    }
}

/// Scale of the efficiency axis: linear 0–100 %, or logarithmic in the
/// shortfall 100 % − E.
#[derive(Clone, Copy, Debug, PartialEq, Eq, Structural)]
pub enum YScale {
    Linear,
    Logarithmic,
}

impl YScale {
    /// Text of the menu entry.
    pub fn label(self) -> (r: &'static str)
        ensures
            r@ == (match self {
                YScale::Linear => "Обычная (линейная), 0-100%"@,
                YScale::Logarithmic => "Логарифмическая (0% / 90% / 99% / 99.9% / 99.99%)"@,
            }),
    {
        match self {
            YScale::Linear => "Обычная (линейная), 0-100%",
            YScale::Logarithmic => "Логарифмическая (0% / 90% / 99% / 99.9% / 99.99%)",
        }
    }

    /// The scale at position `selection` of the menu `[Linear,
    /// Logarithmic]`.
    pub fn from_selection(selection: usize) -> (r: YScale)
        ensures
            r == (if selection == 0 {
                YScale::Linear
            } else {
                YScale::Logarithmic
            }),
    {
        if selection == 0 {
            YScale::Linear
        } else {
            YScale::Logarithmic
        }
    }
}

/// The ten colours of the series, as red, green and blue.
pub open spec fn palette_entry(k: int) -> (u8, u8, u8) {
    if k == 0 {
        (230, 25, 75)
    } else if k == 1 {
        (60, 180, 75)
    } else if k == 2 {
        (255, 196, 12)
    } else if k == 3 {
        (0, 130, 200)
    } else if k == 4 {
        (245, 130, 48)
    } else if k == 5 {
        (145, 30, 180)
    } else if k == 6 {
        (70, 240, 240)
    } else if k == 7 {
        (240, 50, 230)
    } else if k == 8 {
        (170, 110, 40)
    } else {
        (0, 0, 0)
    }
}

/// Number of colours in the palette.
pub const PALETTE_LEN: usize = 10;

/// Number of marker shapes.
pub const MARKER_SHAPES_LEN: usize = 3;

/// The colour of series `i`: the palette taken in turn.
pub fn palette_rgb(i: usize) -> (r: (u8, u8, u8))
    ensures
        r == palette_entry((i % 10) as int),
{
    let k = i % PALETTE_LEN;
    if k == 0 {
        (230, 25, 75)
    } else if k == 1 {
        (60, 180, 75)
    } else if k == 2 {
        (255, 196, 12)
    } else if k == 3 {
        (0, 130, 200)
    } else if k == 4 {
        (245, 130, 48)
    } else if k == 5 {
        (145, 30, 180)
    } else if k == 6 {
        (70, 240, 240)
    } else if k == 7 {
        (240, 50, 230)
    } else if k == 8 {
        (170, 110, 40)
    } else {
        (0, 0, 0)
    }
}

/// Shape of the markers of a series.
#[derive(Clone, Copy, Debug, PartialEq, Eq, Hash, Structural)]
pub enum MarkerShape {
    Circle,
    Cross,
    Triangle,
}

/// The marker shape at position `k` of the cycle circle, cross, triangle.
pub open spec fn marker_entry(k: int) -> MarkerShape {
    if k == 0 {
        MarkerShape::Circle
    } else if k == 1 {
        MarkerShape::Cross
    } else {
        MarkerShape::Triangle
    }
}

/// The marker shape of series `i`: the three shapes taken in turn.
pub fn marker_shape(i: usize) -> (r: MarkerShape)
    ensures
        r == marker_entry((i % 3) as int),
{
    let k = i % MARKER_SHAPES_LEN;
    if k == 0 {
        MarkerShape::Circle
    } else if k == 1 {
        MarkerShape::Cross
    } else {
        MarkerShape::Triangle
    }
}

/// The ten colours of the palette differ from each other.
pub proof fn palette_colours_distinct(a: int, b: int)
    requires
        0 <= a < b < 10,
    ensures
        palette_entry(a) != palette_entry(b),
{
}

/// Series `0` to `29` get thirty different pairs of colour and marker
/// shape: ten colours and three shapes, cycled in step, repeat together
/// only every thirty series.
pub proof fn style_pairs_distinct(i: usize, j: usize)
    requires
        i < j < 30,
    ensures
        (palette_entry((i % 10) as int), marker_entry((i % 3) as int)) != (palette_entry(
            (j % 10) as int,
        ), marker_entry((j % 3) as int)),
{
    if i % 10 == j % 10 && i % 3 == j % 3 {
        assert(false) by (bit_vector)
            requires
                i < j < 30,
                i % 10 == j % 10,
                i % 3 == j % 3,
        ;
    }
    if i % 10 != j % 10 {
        let a = (i % 10) as int;
        let b = (j % 10) as int;
        if a < b {
            palette_colours_distinct(a, b);
        } else {
            palette_colours_distinct(b, a);
        }
    }
}

/// The two-sided 95 % critical value of Student's t for `df` degrees of
/// freedom, in thousandths: the table up to 30, and 1960 (the normal
/// value) beyond it and at 0.
pub open spec fn t_critical_95_table(df: usize) -> u32 {
    if df == 1 { 12706 } else if df == 2 { 4303 } else if df == 3 { 3182 } else if df == 4 { 2776 }
    else if df == 5 { 2571 } else if df == 6 { 2447 } else if df == 7 { 2365 } else if df == 8 { 2306 }
    else if df == 9 { 2262 } else if df == 10 { 2228 } else if df == 11 { 2201 } else if df == 12 { 2179 }
    else if df == 13 { 2160 } else if df == 14 { 2145 } else if df == 15 { 2131 } else if df == 16 { 2120 }
    else if df == 17 { 2110 } else if df == 18 { 2101 } else if df == 19 { 2093 } else if df == 20 { 2086 }
    else if df == 21 { 2080 } else if df == 22 { 2074 } else if df == 23 { 2069 } else if df == 24 { 2064 }
    else if df == 25 { 2060 } else if df == 26 { 2056 } else if df == 27 { 2052 } else if df == 28 { 2048 }
    else if df == 29 { 2045 } else if df == 30 { 2042 } else { 1960 }
}

/// The two-sided 95 % critical value of Student's t for `df` degrees of
/// freedom, in thousandths (12.706 is 12706).
pub fn t_critical_95_milli(df: usize) -> (r: u32)
    ensures
        r == t_critical_95_table(df),
{
    match df {
        1 => 12706, 2 => 4303, 3 => 3182, 4 => 2776, 5 => 2571,
        6 => 2447, 7 => 2365, 8 => 2306, 9 => 2262, 10 => 2228,
        11 => 2201, 12 => 2179, 13 => 2160, 14 => 2145, 15 => 2131,
        16 => 2120, 17 => 2110, 18 => 2101, 19 => 2093, 20 => 2086,
        21 => 2080, 22 => 2074, 23 => 2069, 24 => 2064, 25 => 2060,
        26 => 2056, 27 => 2052, 28 => 2048, 29 => 2045, 30 => 2042,
        _ => 1960,
    }
}

/// For 1 to 30 degrees of freedom the critical value is the two-sided 95 %
/// quantile of Student's t from the standard table, in thousandths; with no
/// degrees of freedom, or more than 30, it is the normal value 1.960.
pub proof fn t_critical_95_is_student_quantile(df: usize)
    ensures
        ({
            let table = seq![
                12706u32, 4303, 3182, 2776, 2571, 2447, 2365, 2306, 2262, 2228,
                2201, 2179, 2160, 2145, 2131, 2120, 2110, 2101, 2093, 2086,
                2080, 2074, 2069, 2064, 2060, 2056, 2052, 2048, 2045, 2042,
            ];
            &&& 1 <= df <= 30 ==> t_critical_95_table(df) == table[df - 1]
            &&& (df == 0 || df > 30) ==> t_critical_95_table(df) == 1960
        }),
{
}

/// More degrees of freedom never give a larger critical value, and up to 30
/// each one more gives a strictly smaller one; no value lies below the
/// normal value 1.960.
pub proof fn t_critical_95_decreases(a: usize, b: usize)
    requires
        1 <= a < b,
    ensures
        t_critical_95_table(b) <= t_critical_95_table(a),
        a <= 30 ==> t_critical_95_table(b) < t_critical_95_table(a),
        t_critical_95_table(a) >= 1960,
{
}

/// `s` with every occurrence of `p` removed, left to right without
/// overlaps, as `str::replace(p, "")` does.
pub open spec fn remove_all(s: Seq<char>, p: Seq<char>) -> Seq<char>
    decreases s.len(),
{
    if p.len() == 0 || s.len() < p.len() {
        s
    } else if s.take(p.len() as int) == p {
        remove_all(s.skip(p.len() as int), p)
    } else {
        seq![s[0]] + remove_all(s.drop_first(), p)
    }
}

/// `s` with each run of whitespace written as one space.
pub open spec fn collapse_ws(s: Seq<char>) -> Seq<char>
    decreases s.len(),
{
    if s.len() == 0 {
        s
    } else {
        let t = s.drop_last();
        let c = s.last();
        if is_ws(c) {
            if t.len() > 0 && is_ws(t.last()) {
                collapse_ws(t)
            } else {
                collapse_ws(t).push(' ')
            }
        } else {
            collapse_ws(t).push(c)
        }
    }
}

/// The legend label of a pair of sensor files, made from the label of the
/// upstream file: the sensor marks `_SP1`, `_sp1`, ` SP1`, ` sp1`, `SP1`,
/// `sp1` removed in that order, then trimmed, whitespace runs written as
/// one space, and trimmed again.
pub open spec fn combined_label_of(s: Seq<char>) -> Seq<char> {
    let c = remove_all(
        remove_all(
            remove_all(remove_all(remove_all(remove_all(s, "_SP1"@), "_sp1"@), " SP1"@), " sp1"@),
            "SP1"@,
        ),
        "sp1"@,
    );
    trim_seq(collapse_ws(trim_seq(c)))
}

/// `v` with every occurrence of `p` removed, left to right.
fn remove_all_chars(v: &Vec<char>, p: &Vec<char>) -> (r: Vec<char>)
    ensures
        r@ == remove_all(v@, p@),
{
    let n = v.len();
    let pl = p.len();
    let mut out: Vec<char> = Vec::new();
    let mut i: usize = 0;
    assert(v@.skip(0) =~= v@);
    while i < n
        invariant
            n == v@.len(),
            pl == p@.len(),
            i <= n,
            out@ + remove_all(v@.skip(i as int), p@) == remove_all(v@, p@),
        decreases n - i,
    {
        let ghost rest = v@.skip(i as int);
        if pl == 0 {
            assert(remove_all(rest, p@) == rest);
            assert(out@ + rest =~= out@ + seq![v@[i as int]] + v@.skip(i + 1));
            assert(remove_all(v@.skip(i + 1), p@) == v@.skip(i + 1));
            out.push(v[i]);
            i = i + 1;
        } else if n - i < pl {
            assert(remove_all(rest, p@) == rest);
            assert(out@ + rest =~= out@ + seq![v@[i as int]] + v@.skip(i + 1));
            assert(remove_all(v@.skip(i + 1), p@) == v@.skip(i + 1));
            out.push(v[i]);
            i = i + 1;
        } else {
            let mut k: usize = 0;
            let mut same = true;
            while k < pl
                invariant
                    pl == p@.len(),
                    i + pl <= n == v@.len(),
                    k <= pl,
                    same == forall|j: int| 0 <= j < k ==> v@[i + j] == p@[j],
                decreases pl - k,
            {
                if v[i + k] != p[k] {
                    same = false;
                }
                k = k + 1;
            }
            if same {
                assert(rest.take(pl as int) =~= p@);
                assert(rest.skip(pl as int) =~= v@.skip(i + pl));
                i = i + pl;
            } else {
                assert(rest.take(pl as int) != p@) by {
                    let j = choose|j: int| 0 <= j < pl && v@[i + j] != p@[j];
                    assert(rest.take(pl as int)[j] == v@[i + j]);
                }
                assert(rest.drop_first() =~= v@.skip(i + 1));
                assert(out@ + (seq![rest[0]] + remove_all(rest.drop_first(), p@)) =~= out@.push(
                    v@[i as int],
                ) + remove_all(v@.skip(i + 1), p@));
                out.push(v[i]);
                i = i + 1;
            }
        }
    }
    assert(v@.skip(n as int) =~= Seq::<char>::empty());
    assert(out@ + Seq::<char>::empty() =~= out@);
    out
}

/// The legend label of a pair of sensor files, made from the label of the
/// upstream file: its sensor mark (`SP1` with `_` or space before it, in
/// upper or lower case) removed, and whitespace tidied.
pub fn combined_label(sp1_label: &str) -> (r: String)
    ensures
        r@ == combined_label_of(sp1_label@),
{
    let v = chars_of(sp1_label);
    let c1 = remove_all_chars(&v, &chars_of("_SP1"));
    let c2 = remove_all_chars(&c1, &chars_of("_sp1"));
    let c3 = remove_all_chars(&c2, &chars_of(" SP1"));
    let c4 = remove_all_chars(&c3, &chars_of(" sp1"));
    let c5 = remove_all_chars(&c4, &chars_of("SP1"));
    let c6 = remove_all_chars(&c5, &chars_of("sp1"));
    let (a, b) = trim_bounds(&c6, 0, c6.len());
    assert(c6@.subrange(0, c6@.len() as int) =~= c6@);
    let ghost t = c6@.subrange(a as int, b as int);
    let mut out: Vec<char> = Vec::new();
    let mut prev_space = false;
    let mut i = a;
    assert(t.take(0) =~= Seq::<char>::empty());
    while i < b
        invariant
            a <= i <= b <= c6@.len(),
            t == c6@.subrange(a as int, b as int),
            out@ == collapse_ws(t.take(i - a)),
            prev_space == (i > a && is_ws(c6@[i - 1])),
        decreases b - i,
    {
        let ch = c6[i];
        assert(t.take(i + 1 - a).drop_last() =~= t.take(i - a));
        assert(t.take(i + 1 - a).last() == ch);
        if i > a {
            assert(t.take(i - a).last() == c6@[i - 1]);
        }
        if is_whitespace(ch) {
            if !prev_space {
                out.push(' ');
            }
            prev_space = true;
        } else {
            out.push(ch);
            prev_space = false;
        }
        i = i + 1;
    }
    assert(t.take(b - a) =~= t);
    let (x, y) = trim_bounds(&out, 0, out.len());
    assert(out@.subrange(0, out@.len() as int) =~= out@);
    string_of(&out, x, y)
}


/// Whitespace in `s` is only single plain spaces: every whitespace
/// character is a space, and no two whitespace characters stand together.
pub open spec fn single_spaced(s: Seq<char>) -> bool {
    &&& forall|i: int| 0 <= i < s.len() && is_ws(#[trigger] s[i]) ==> s[i] == ' '
    &&& forall|i: int| 0 <= i < s.len() - 1 ==> !(is_ws(#[trigger] s[i]) && is_ws(s[i + 1]))
}

/// Collapsing whitespace runs leaves single plain spaces, and keeps
/// whether the text ends in whitespace.
proof fn lemma_collapse_ws(x: Seq<char>)
    ensures
        single_spaced(collapse_ws(x)),
        x.len() == 0 ==> collapse_ws(x).len() == 0,
        x.len() > 0 ==> collapse_ws(x).len() > 0 && is_ws(collapse_ws(x).last()) == is_ws(x.last()),
    decreases x.len(),
{
    if x.len() > 0 {
        let t = x.drop_last();
        let c = x.last();
        lemma_collapse_ws(t);
        let y = collapse_ws(t);
        if is_ws(c) {
            if t.len() > 0 && is_ws(t.last()) {
            } else {
                let z = y.push(' ');
                assert(is_ws(' '));
                assert forall|i: int| 0 <= i < z.len() - 1 implies !(is_ws(#[trigger] z[i]) && is_ws(
                    z[i + 1],
                )) by {
                    if i == z.len() - 2 {
                        assert(z[i] == y.last());
                    } else {
                        assert(z[i] == y[i] && z[i + 1] == y[i + 1]);
                    }
                }
                assert forall|i: int| 0 <= i < z.len() && is_ws(#[trigger] z[i]) implies z[i] == ' ' by {
                    if i < y.len() {
                        assert(z[i] == y[i]);
                    }
                }
            }
        } else {
            let z = y.push(c);
            assert forall|i: int| 0 <= i < z.len() - 1 implies !(is_ws(#[trigger] z[i]) && is_ws(
                z[i + 1],
            )) by {
                if i == z.len() - 2 {
                    assert(z[i + 1] == c);
                } else {
                    assert(z[i] == y[i] && z[i + 1] == y[i + 1]);
                }
            }
            assert forall|i: int| 0 <= i < z.len() && is_ws(#[trigger] z[i]) implies z[i] == ' ' by {
                if i < y.len() {
                    assert(z[i] == y[i]);
                }
            }
        }
    }
}

/// Trimming removes leading whitespace: what remains is a suffix that does
/// not begin with whitespace.
proof fn lemma_trim_start(y: Seq<char>) -> (a: int)
    ensures
        0 <= a <= y.len(),
        trim_start_seq(y) == y.skip(a),
        trim_start_seq(y).len() > 0 ==> !is_ws(trim_start_seq(y)[0]),
    decreases y.len(),
{
    if y.len() > 0 && is_ws(y[0]) {
        let a = lemma_trim_start(y.drop_first());
        assert(y.drop_first().skip(a) =~= y.skip(a + 1));
        a + 1
    } else {
        assert(y.skip(0) =~= y);
        0
    }
}

/// Trimming removes trailing whitespace: what remains is a prefix that does
/// not end in whitespace.
proof fn lemma_trim_end(y: Seq<char>) -> (b: int)
    ensures
        0 <= b <= y.len(),
        trim_end_seq(y) == y.take(b),
        trim_end_seq(y).len() > 0 ==> !is_ws(trim_end_seq(y).last()),
    decreases y.len(),
{
    if y.len() > 0 && is_ws(y.last()) {
        let b = lemma_trim_end(y.drop_last());
        assert(y.drop_last().take(b) =~= y.take(b));
        b
    } else {
        assert(y.take(y.len() as int) =~= y);
        y.len() as int
    }
}

/// Trimming keeps a part of the text that neither begins nor ends in
/// whitespace.
proof fn lemma_trim(y: Seq<char>) -> (ab: (int, int))
    ensures
        0 <= ab.0 <= ab.1 <= y.len(),
        trim_seq(y) == y.subrange(ab.0, ab.1),
        trim_seq(y).len() > 0 ==> !is_ws(trim_seq(y)[0]) && !is_ws(trim_seq(y).last()),
{
    let a = lemma_trim_start(y);
    let s = trim_start_seq(y);
    let b = lemma_trim_end(s);
    assert(s.take(b) =~= y.subrange(a, a + b));
    if trim_seq(y).len() > 0 {
        assert(trim_seq(y)[0] == s[0]);
    }
    (a, a + b)
}

/// A combined legend label is tidy: it neither begins nor ends in
/// whitespace, and its only whitespace is single plain spaces.
pub proof fn combined_label_is_tidy(s: Seq<char>)
    ensures
        combined_label_of(s).len() > 0 ==> !is_ws(combined_label_of(s)[0]) && !is_ws(
            combined_label_of(s).last(),
        ),
        single_spaced(combined_label_of(s)),
{
    let c = remove_all(
        remove_all(
            remove_all(remove_all(remove_all(remove_all(s, "_SP1"@), "_sp1"@), " SP1"@), " sp1"@),
            "SP1"@,
        ),
        "sp1"@,
    );
    let y = collapse_ws(trim_seq(c));
    lemma_collapse_ws(trim_seq(c));
    let (a, b) = lemma_trim(y);
    let r = trim_seq(y);
    assert(r == combined_label_of(s));
    assert forall|i: int| 0 <= i < r.len() && is_ws(#[trigger] r[i]) implies r[i] == ' ' by {
        assert(r[i] == y[a + i]);
    }
    assert forall|i: int| 0 <= i < r.len() - 1 implies !(is_ws(#[trigger] r[i]) && is_ws(r[i + 1])) by {
        assert(r[i] == y[a + i] && r[i + 1] == y[a + i + 1]);
    }
}

/// No letter `p` or `P` occurs in `s`: no sensor mark can be found in it.
pub open spec fn has_no_p(s: Seq<char>) -> bool {
    forall|i: int| 0 <= i < s.len() ==> #[trigger] s[i] != 'p' && s[i] != 'P'
}

/// No stretch of `x + y` that starts inside `x` reads `p`.
pub open spec fn no_match_from(x: Seq<char>, y: Seq<char>, p: Seq<char>) -> bool {
    forall|i: int|
        0 <= i < x.len() && i + p.len() <= x.len() + y.len() ==> #[trigger] (x + y).subrange(
            i,
            i + p.len(),
        ) != p
}

/// Removing `p` from `x + y` keeps `x` whole when `p` starts nowhere in it.
proof fn lemma_remove_all_keeps_prefix(x: Seq<char>, y: Seq<char>, p: Seq<char>)
    requires
        p.len() > 0,
        no_match_from(x, y, p),
    ensures
        remove_all(x + y, p) == x + remove_all(y, p),
    decreases x.len(),
{
    let s = x + y;
    if x.len() == 0 {
        assert(s =~= y);
        assert(x + remove_all(y, p) =~= remove_all(y, p));
    } else if s.len() < p.len() {
        assert(remove_all(s, p) == s);
        assert(remove_all(y, p) == y);
    } else {
        let i0: int = 0;
        assert((x + y).subrange(i0, i0 + p.len()) != p);
        assert(s.take(p.len() as int) =~= s.subrange(0, p.len() as int));
        assert(s.drop_first() =~= x.drop_first() + y);
        assert forall|i: int|
            0 <= i < x.drop_first().len() && i + p.len() <= x.drop_first().len() + y.len() implies
            #[trigger] (x.drop_first() + y).subrange(i, i + p.len()) != p by {
            assert((x.drop_first() + y).subrange(i, i + p.len()) =~= s.subrange(
                i + 1,
                i + 1 + p.len(),
            ));
        }
        lemma_remove_all_keeps_prefix(x.drop_first(), y, p);
        assert(seq![s[0]] + (x.drop_first() + remove_all(y, p)) =~= x + remove_all(y, p));
    }
}

/// Removing `p` changes nothing in a text that lacks the letter `p[k]`.
proof fn lemma_remove_all_absent(s: Seq<char>, p: Seq<char>, k: int)
    requires
        0 <= k < p.len(),
        forall|i: int| 0 <= i < s.len() ==> #[trigger] s[i] != p[k],
    ensures
        remove_all(s, p) == s,
    decreases s.len(),
{
    if s.len() >= p.len() {
        assert(s.take(p.len() as int)[k] == s[k]);
        lemma_remove_all_absent(s.drop_first(), p, k);
        assert(seq![s[0]] + s.drop_first() =~= s);
    }
}

/// A mark `p` whose letter `p[k]` is `p` or `P` starts nowhere inside a
/// label part `a` free of those letters, unless the text after `a` supplies
/// that letter early enough (which the last condition rules out).
proof fn lemma_no_match_in_label(a: Seq<char>, t: Seq<char>, p: Seq<char>, k: int)
    requires
        has_no_p(a),
        0 <= k < p.len(),
        p[k] == 'p' || p[k] == 'P',
        k <= t.len(),
        forall|j: int|
            0 <= j < k ==> #[trigger] t[j] != p[k] || (j == k - 1 && (a.len() == 0 || a.last()
                != p[0])),
    ensures
        no_match_from(a, t, p),
{
    assert forall|i: int|
        0 <= i < a.len() && i + p.len() <= a.len() + t.len() implies #[trigger] (a + t).subrange(
        i,
        i + p.len(),
    ) != p by {
        let w = (a + t).subrange(i, i + p.len());
        assert(w[k] == (a + t)[i + k]);
        assert(w[0] == (a + t)[i]);
        if i + k >= a.len() {
            let j = i + k - a.len();
            assert((a + t)[i + k] == t[j]);
            if j == k - 1 {
                assert(i == a.len() - 1);
            }
        }
    }
}

/// A mark `p` starts nowhere inside the mark `m` when each letter of `m`
/// differs from the first letter of `p`, or the next one from its second.
proof fn lemma_no_match_in_mark(m: Seq<char>, b: Seq<char>, p: Seq<char>)
    requires
        2 <= p.len(),
        forall|i: int|
            0 <= i < m.len() ==> #[trigger] m[i] != p[0] || (i + 1 < m.len() && m[i + 1] != p[1]),
    ensures
        no_match_from(m, b, p),
{
    assert forall|i: int|
        0 <= i < m.len() && i + p.len() <= m.len() + b.len() implies #[trigger] (m + b).subrange(
        i,
        i + p.len(),
    ) != p by {
        let w = (m + b).subrange(i, i + p.len());
        assert(w[0] == m[i]);
        if i + 1 < m.len() {
            assert(w[1] == m[i + 1]);
        }
    }
}

/// One removal step of the label: on `a + m + b` it removes the mark `m`
/// when `p` is `m`, and otherwise changes nothing; on `a + b` it changes
/// nothing.
proof fn lemma_mark_step(a: Seq<char>, m: Seq<char>, b: Seq<char>, cur: Seq<char>, p: Seq<char>, k: int)
    requires
        has_no_p(a),
        has_no_p(b),
        0 <= k < p.len(),
        p[k] == 'p' || p[k] == 'P',
        k <= m.len(),
        cur == a + m + b || cur == a + b,
        cur == a + m + b ==> forall|j: int|
            0 <= j < k ==> #[trigger] m[j] != p[k] || (j == k - 1 && (a.len() == 0 || a.last() != p[0])),
        cur == a + m + b && p != m ==> no_match_from(m, b, p),
    ensures
        cur == a + b ==> remove_all(cur, p) == a + b,
        cur == a + m + b && p == m ==> remove_all(cur, p) == a + b,
        cur == a + m + b && p != m ==> remove_all(cur, p) == a + m + b,
{
    if cur == a + b {
        assert forall|i: int| 0 <= i < (a + b).len() implies #[trigger] (a + b)[i] != p[k] by {
            if i < a.len() {
                assert((a + b)[i] == a[i]);
            } else {
                assert((a + b)[i] == b[i - a.len()]);
            }
        }
        lemma_remove_all_absent(a + b, p, k);
    } else {
        assert(cur =~= a + (m + b));
        assert forall|j: int| 0 <= j < k implies #[trigger] (m + b)[j] != p[k] || (j == k - 1
            && (a.len() == 0 || a.last() != p[0])) by {
            assert((m + b)[j] == m[j]);
        }
        lemma_no_match_in_label(a, m + b, p, k);
        lemma_remove_all_keeps_prefix(a, m + b, p);
        assert forall|i: int| 0 <= i < b.len() implies #[trigger] b[i] != p[k] by {}
        lemma_remove_all_absent(b, p, k);
        if p == m {
            assert((m + b).take(m.len() as int) =~= m);
            assert((m + b).skip(m.len() as int) =~= b);
        } else {
            lemma_remove_all_keeps_prefix(m, b, p);
            assert(a + (m + b) =~= a + m + b);
        }
    }
}

/// Each sensor mark is removed as a whole: for label parts `a` and `b` in
/// which no other `p` or `P` occurs, the label with one mark between them
/// gives the same legend label as the two parts alone. For the bare marks
/// `SP1` and `sp1`, `a` must not end in `_` or a space (those belong to the
/// longer marks).
pub proof fn combined_label_drops_whole_mark(a: Seq<char>, m: Seq<char>, b: Seq<char>)
    requires
        has_no_p(a),
        has_no_p(b),
        m == "_SP1"@ || m == "_sp1"@ || m == " SP1"@ || m == " sp1"@ || ((m == "SP1"@ || m
            == "sp1"@) && (a.len() == 0 || (a.last() != '_' && a.last() != ' '))),
    ensures
        combined_label_of(a + m + b) == combined_label_of(a + b),
{
    reveal_strlit("_SP1");
    reveal_strlit("_sp1");
    reveal_strlit(" SP1");
    reveal_strlit(" sp1");
    reveal_strlit("SP1");
    reveal_strlit("sp1");
    let p1 = "_SP1"@;
    let p2 = "_sp1"@;
    let p3 = " SP1"@;
    let p4 = " sp1"@;
    let p5 = "SP1"@;
    let p6 = "sp1"@;
    let ab = a + b;
    let amb = a + m + b;
    // The parts alone: no mark occurs.
    lemma_mark_step(a, m, b, ab, p1, 2);
    lemma_mark_step(a, m, b, ab, p2, 2);
    lemma_mark_step(a, m, b, ab, p3, 2);
    lemma_mark_step(a, m, b, ab, p4, 2);
    lemma_mark_step(a, m, b, ab, p5, 1);
    lemma_mark_step(a, m, b, ab, p6, 1);
    // With the mark: it goes at its own step, and nothing else changes.
    if m != p1 {
        lemma_no_match_in_mark(m, b, p1);
    }
    lemma_mark_step(a, m, b, amb, p1, 2);
    let c1 = remove_all(amb, p1);
    if c1 == amb && m != p2 {
        lemma_no_match_in_mark(m, b, p2);
    }
    lemma_mark_step(a, m, b, c1, p2, 2);
    let c2 = remove_all(c1, p2);
    if c2 == amb && m != p3 {
        lemma_no_match_in_mark(m, b, p3);
    }
    lemma_mark_step(a, m, b, c2, p3, 2);
    let c3 = remove_all(c2, p3);
    if c3 == amb && m != p4 {
        lemma_no_match_in_mark(m, b, p4);
    }
    lemma_mark_step(a, m, b, c3, p4, 2);
    let c4 = remove_all(c3, p4);
    if c4 == amb && m != p5 {
        lemma_no_match_in_mark(m, b, p5);
    }
    lemma_mark_step(a, m, b, c4, p5, 1);
    let c5 = remove_all(c4, p5);
    if c5 == amb && m != p6 {
        lemma_no_match_in_mark(m, b, p6);
    }
    lemma_mark_step(a, m, b, c5, p6, 1);
    let c6 = remove_all(c5, p6);
    assert(c6 == ab);
}

/// Every character of `s` is whitespace.
pub open spec fn all_ws(s: Seq<char>) -> bool {
    forall|i: int| 0 <= i < s.len() ==> is_ws(#[trigger] s[i])
}

/// No character of `s` is whitespace.
pub open spec fn no_ws(s: Seq<char>) -> bool {
    forall|i: int| 0 <= i < s.len() ==> !is_ws(#[trigger] s[i])
}

proof fn lemma_trim_start_gap(g: Seq<char>, x: Seq<char>)
    requires
        all_ws(g),
        x.len() > 0,
        !is_ws(x[0]),
    ensures
        trim_start_seq(g + x) == x,
    decreases g.len(),
{
    if g.len() == 0 {
        assert(g + x =~= x);
    } else {
        assert((g + x).drop_first() =~= g.drop_first() + x);
        assert((g + x)[0] == g[0]);
        lemma_trim_start_gap(g.drop_first(), x);
    }
}

proof fn lemma_trim_end_gap(x: Seq<char>, g: Seq<char>)
    requires
        all_ws(g),
        x.len() > 0,
        !is_ws(x.last()),
    ensures
        trim_end_seq(x + g) == x,
    decreases g.len(),
{
    if g.len() == 0 {
        assert(x + g =~= x);
    } else {
        assert((x + g).drop_last() =~= x + g.drop_last());
        assert((x + g).last() == g.last());
        lemma_trim_end_gap(x, g.drop_last());
    }
}

proof fn lemma_collapse_word(x: Seq<char>, w: Seq<char>)
    requires
        no_ws(w),
    ensures
        collapse_ws(x + w) == collapse_ws(x) + w,
    decreases w.len(),
{
    if w.len() == 0 {
        assert(x + w =~= x);
        assert(collapse_ws(x) + w =~= collapse_ws(x));
    } else {
        assert((x + w).drop_last() =~= x + w.drop_last());
        assert((x + w).last() == w.last());
        lemma_collapse_word(x, w.drop_last());
        assert(collapse_ws(x) + w.drop_last() + seq![w.last()] =~= collapse_ws(x) + w);
    }
}

proof fn lemma_collapse_gap(x: Seq<char>, g: Seq<char>)
    requires
        all_ws(g),
        g.len() > 0,
        x.len() > 0,
        !is_ws(x.last()),
    ensures
        collapse_ws(x + g) == collapse_ws(x).push(' '),
    decreases g.len(),
{
    assert((x + g).drop_last() =~= x + g.drop_last());
    assert((x + g).last() == g.last());
    if g.len() == 1 {
        assert(x + g.drop_last() =~= x);
    } else {
        lemma_collapse_gap(x, g.drop_last());
        assert((x + g.drop_last()).last() == g[g.len() - 2]);
    }
}

proof fn lemma_no_mark_removed(s: Seq<char>)
    requires
        has_no_p(s),
    ensures
        remove_all(
            remove_all(
                remove_all(remove_all(remove_all(remove_all(s, "_SP1"@), "_sp1"@), " SP1"@), " sp1"@),
                "SP1"@,
            ),
            "sp1"@,
        ) == s,
{
    reveal_strlit("_SP1");
    reveal_strlit("_sp1");
    reveal_strlit(" SP1");
    reveal_strlit(" sp1");
    reveal_strlit("SP1");
    reveal_strlit("sp1");
    lemma_remove_all_absent(s, "_SP1"@, 2);
    lemma_remove_all_absent(s, "_sp1"@, 2);
    lemma_remove_all_absent(s, " SP1"@, 2);
    lemma_remove_all_absent(s, " sp1"@, 2);
    lemma_remove_all_absent(s, "SP1"@, 1);
    lemma_remove_all_absent(s, "sp1"@, 1);
}

/// Whitespace in a label without sensor marks is tidied: whitespace before
/// the first word and after the last is dropped, and a run of whitespace
/// between two words becomes one space.
pub proof fn combined_label_tidies_whitespace(
    g1: Seq<char>,
    w1: Seq<char>,
    g: Seq<char>,
    w2: Seq<char>,
    g2: Seq<char>,
)
    requires
        all_ws(g1),
        all_ws(g),
        all_ws(g2),
        g.len() > 0,
        w1.len() > 0,
        w2.len() > 0,
        no_ws(w1),
        no_ws(w2),
        has_no_p(w1),
        has_no_p(w2),
    ensures
        combined_label_of(g1 + w1 + g2) == w1,
        combined_label_of(g1 + w1 + g + w2 + g2) == w1 + seq![' '] + w2,
{
    assert forall|c: char| is_ws(c) implies c != 'p' && c != 'P' by {}
    // One word.
    let s1 = g1 + w1 + g2;
    assert(has_no_p(s1)) by {
        assert forall|i: int| 0 <= i < s1.len() implies #[trigger] s1[i] != 'p' && s1[i] != 'P' by {
            if i < g1.len() {
                assert(s1[i] == g1[i]);
            } else if i < g1.len() + w1.len() {
                assert(s1[i] == w1[i - g1.len()]);
            } else {
                assert(s1[i] == g2[i - g1.len() - w1.len()]);
            }
        }
    }
    lemma_no_mark_removed(s1);
    assert(s1 =~= g1 + (w1 + g2));
    lemma_trim_start_gap(g1, w1 + g2);
    lemma_trim_end_gap(w1, g2);
    lemma_collapse_word(Seq::empty(), w1);
    assert(Seq::<char>::empty() + w1 =~= w1);
    assert(collapse_ws(Seq::<char>::empty()) + w1 =~= w1);
    lemma_trim_start_gap(Seq::empty(), w1);
    assert(Seq::<char>::empty() + w1 =~= w1);
    lemma_trim_end_gap(w1, Seq::empty());
    assert(w1 + Seq::<char>::empty() =~= w1);
    // Two words.
    let core = w1 + g + w2;
    let s2 = g1 + w1 + g + w2 + g2;
    assert(has_no_p(s2)) by {
        assert forall|i: int| 0 <= i < s2.len() implies #[trigger] s2[i] != 'p' && s2[i] != 'P' by {
            let a = g1.len() as int;
            let b = a + w1.len();
            let c = b + g.len();
            let d = c + w2.len();
            if i < a {
                assert(s2[i] == g1[i]);
            } else if i < b {
                assert(s2[i] == w1[i - a]);
            } else if i < c {
                assert(s2[i] == g[i - b]);
            } else if i < d {
                assert(s2[i] == w2[i - c]);
            } else {
                assert(s2[i] == g2[i - d]);
            }
        }
    }
    lemma_no_mark_removed(s2);
    assert(s2 =~= g1 + (core + g2));
    assert((core + g2)[0] == w1[0]);
    lemma_trim_start_gap(g1, core + g2);
    assert(core.last() == w2.last());
    lemma_trim_end_gap(core, g2);
    lemma_collapse_gap(w1, g);
    lemma_collapse_word(w1 + g, w2);
    let r = w1 + seq![' '] + w2;
    assert(collapse_ws(core) == r);
    assert(r[0] == w1[0]);
    assert(r.last() == w2.last());
    lemma_trim_start_gap(Seq::empty(), r);
    assert(Seq::<char>::empty() + r =~= r);
    lemma_trim_end_gap(r, Seq::empty());
    assert(r + Seq::<char>::empty() =~= r);
}

/// The position, counted from zero, that a piece of a list of file numbers
/// stands for: the piece, trimmed, must be a number from 1 to `max_len`.
pub open spec fn index_of_piece(p: Seq<char>, max_len: usize) -> Option<usize> {
    match usize_of_text(trim_seq(p)) {
        Some(i) => if 1 <= i <= max_len {
            Some((i - 1) as usize)
        } else {
            None
        },
        None => None,
    }
}

/// The positions that the pieces `pieces` stand for, in order, the pieces
/// that stand for none left out.
pub open spec fn indices_of(pieces: Seq<Seq<char>>, max_len: usize) -> Seq<usize>
    decreases pieces.len(),
{
    if pieces.len() == 0 {
        Seq::empty()
    } else {
        let prev = indices_of(pieces.drop_last(), max_len);
        match index_of_piece(pieces.last(), max_len) {
            Some(i) => prev.push(i),
            None => prev,
        }
    }
}

/// Reads a comma-separated list of file numbers, counted from 1, as
/// positions counted from zero; pieces that are not numbers from 1 to
/// `max_len` are left out.
pub fn parse_indices(input: &str, max_len: usize) -> (r: Vec<usize>)
    ensures
        r@ == indices_of(split_seq(input@, ','), max_len),
{
    let v = chars_of(input);
    let pieces = split_ranges(&v, 0, v.len(), ',');
    assert(v@.subrange(0, v@.len() as int) =~= v@);
    let ghost ps = pieces_of(v@, pieces@);
    let mut out: Vec<usize> = Vec::new();
    let mut k: usize = 0;
    assert(ps.take(0) =~= Seq::<Seq<char>>::empty());
    while k < pieces.len()
        invariant
            ps == pieces_of(v@, pieces@),
            crate::text::ranges_within(pieces@, 0, v@.len() as int),
            k <= pieces@.len(),
            out@ == indices_of(ps.take(k as int), max_len),
        decreases pieces@.len() - k,
    {
        let (a, b) = pieces[k];
        assert(ps[k as int] == v@.subrange(a as int, b as int));
        assert(ps.take(k + 1).drop_last() =~= ps.take(k as int));
        assert(ps.take(k + 1).last() == ps[k as int]);
        let t = trimmed_string(&v, a, b);
        match parse_usize(t.as_str()) {
            Some(i) => {
                if 1 <= i && i <= max_len {
                    out.push(i - 1);
                }
            },
            None => {},
        }
        k = k + 1;
    }
    assert(ps.take(pieces@.len() as int) =~= ps);
    out
}


/// Every position read from a list of file numbers picks one of the
/// `max_len` files.
pub proof fn parsed_indices_in_range(pieces: Seq<Seq<char>>, max_len: usize)
    ensures
        forall|k: int|
            0 <= k < indices_of(pieces, max_len).len() ==> #[trigger] indices_of(pieces, max_len)[k]
                < max_len,
    decreases pieces.len(),
{
    if pieces.len() > 0 {
        parsed_indices_in_range(pieces.drop_last(), max_len);
        let prev = indices_of(pieces.drop_last(), max_len);
        match index_of_piece(pieces.last(), max_len) {
            Some(i) => {
                assert(i < max_len);
                assert(indices_of(pieces, max_len) == prev.push(i));
            },
            None => {},
        }
    }
}

/// Why upstream and downstream file numbers cannot be paired.
#[derive(Clone, Copy, Debug, PartialEq, Eq, Structural)]
pub enum PairingError {
    /// No upstream (SP1) file was chosen.
    NoUpstream,
    /// The two lists differ in length.
    CountMismatch { upstream: usize, downstream: usize },
}

/// The two lists taken position by position.
pub open spec fn zipped(upstream: Seq<usize>, downstream: Seq<usize>) -> Seq<(usize, usize)> {
    Seq::new(upstream.len(), |i: int| (upstream[i], downstream[i]))
}

/// Pairs each upstream (SP1) file number with the downstream (SP2) one at
/// the same position. At least one upstream file is needed, and the lists
/// must have the same length.
pub fn pair_sensor_files(upstream: &Vec<usize>, downstream: &Vec<usize>) -> (r: Result<
    Vec<(usize, usize)>,
    PairingError,
>)
    ensures
        match r {
            Ok(p) => upstream@.len() > 0 && upstream@.len() == downstream@.len() && p@ == zipped(
                upstream@,
                downstream@,
            ),
            Err(PairingError::NoUpstream) => upstream@.len() == 0,
            Err(PairingError::CountMismatch { upstream: u, downstream: d }) => upstream@.len() > 0
                && upstream@.len() != downstream@.len() && u == upstream@.len() && d
                == downstream@.len(),
        },
{
    if upstream.len() == 0 {
        return Err(PairingError::NoUpstream);
    }
    if upstream.len() != downstream.len() {
        return Err(PairingError::CountMismatch { upstream: upstream.len(), downstream: downstream.len() });
    }
    let mut pairs: Vec<(usize, usize)> = Vec::new();
    let mut k: usize = 0;
    while k < upstream.len()
        invariant
            k <= upstream@.len(),
            upstream@.len() == downstream@.len(),
            pairs@ == zipped(upstream@.take(k as int), downstream@.take(k as int)),
        decreases upstream@.len() - k,
    {
        pairs.push((upstream[k], downstream[k]));
        k = k + 1;
        assert(pairs@ =~= zipped(upstream@.take(k as int), downstream@.take(k as int)));
    }
    assert(upstream@.take(k as int) =~= upstream@);
    assert(downstream@.take(k as int) =~= downstream@);
    Ok(pairs)
}

} // verus!
