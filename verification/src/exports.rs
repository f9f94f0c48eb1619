//! Reading the data series out of the text exports of the test rigs: the
//! differential-pressure log, the fractional-efficiency table and the
//! per-sensor measurement file. The numbers are handed out as text, ready
//! for reading as decimals.

use vstd::prelude::*;
use crate::columns::{col_matches, find_col_in, first_col_from, first_col_is_first_match};
use crate::merge::{col_of, fields_of, up_col_name, Quantity};
use crate::text::{
    chars_of, contains_in, has_prefix, contains_seq, decimal_string, decimal_text, is_blank, line_ranges,
    lines_seq, pieces_of, ranges_within, split_ranges, split_seq, starts_with_seq, trim_bounds, trim_seq,
    trimmed_string,
};

verus! {

/// A field of the pressure log that names the air flow column: it mentions
/// both `main air` and `l/min`.
pub open spec fn is_flow_field(f: Seq<char>) -> bool {
    contains_seq(f, "main air"@) && contains_seq(f, "l/min"@)
}

/// A field of the pressure log that names the differential pressure.
pub open spec fn is_pressure_field(f: Seq<char>) -> bool {
    contains_seq(f, "P_diff"@)
}

/// The first field at or after `i` that names the air flow.
pub open spec fn first_flow_field(fields: Seq<Seq<char>>, i: int) -> Option<usize>
    decreases fields.len() - i,
{
    if i < 0 || i >= fields.len() {
        None
    } else if is_flow_field(fields[i]) {
        Some(i as usize)
    } else {
        first_flow_field(fields, i + 1)
    }
}

/// The first field at or after `i` that names the differential pressure.
pub open spec fn first_pressure_field(fields: Seq<Seq<char>>, i: int) -> Option<usize>
    decreases fields.len() - i,
{
    if i < 0 || i >= fields.len() {
        None
    } else if is_pressure_field(fields[i]) {
        Some(i as usize)
    } else {
        first_pressure_field(fields, i + 1)
    }
}

/// A line of the pressure log that names both the flow and the pressure.
pub open spec fn is_diffp_header(line: Seq<char>) -> bool {
    first_flow_field(fields_of(line), 0) is Some && first_pressure_field(fields_of(line), 0) is Some
}

/// The first header line of the pressure log at or after `i`.
pub open spec fn first_diffp_header(lines: Seq<Seq<char>>, i: int) -> Option<usize>
    decreases lines.len() - i,
{
    if i < 0 || i >= lines.len() {
        None
    } else if is_diffp_header(lines[i]) {
        Some(i as usize)
    } else {
        first_diffp_header(lines, i + 1)
    }
}

/// The header of the pressure log: its line, the flow field, the pressure
/// field.
pub open spec fn diffp_layout(lines: Seq<Seq<char>>) -> Option<(usize, usize, usize)> {
    match first_diffp_header(lines, 0) {
        None => None,
        Some(h) => {
            let f = fields_of(lines[h as int]);
            Some((h, first_flow_field(f, 0)->Some_0, first_pressure_field(f, 0)->Some_0))
        },
    }
}

/// A character that lower-cases to exactly `d`.
pub open spec fn lowers_to_d(c: char) -> bool {
    c == 'd' || c == 'D'
}

/// A character that lower-cases to exactly `p`.
pub open spec fn lowers_to_p(c: char) -> bool {
    c == 'p' || c == 'P'
}

/// A character that lower-cases to exactly `k` (the Kelvin sign does too).
pub open spec fn lowers_to_k(c: char) -> bool {
    c == 'k' || c == 'K' || c == '\u{212A}'
}

/// Whether the lower-cased `t` begins with `dpk`: only the first three
/// characters can make that prefix, and each of them lower-cases to a
/// single character.
pub open spec fn starts_with_dpk(t: Seq<char>) -> bool {
    t.len() >= 3 && lowers_to_d(t[0]) && lowers_to_p(t[1]) && lowers_to_k(t[2])
}

/// The flow and pressure texts that a line of the pressure log gives: only
/// lines whose first field, trimmed and lower-cased, begins with `dpk` and
/// that have both fields.
pub open spec fn diffp_row(line: Seq<char>, fi: usize, pi: usize) -> Option<(Seq<char>, Seq<char>)> {
    let f = fields_of(line);
    let m = if fi >= pi {
        fi
    } else {
        pi
    };
    if !starts_with_dpk(trim_seq(f[0])) || f.len() <= m {
        None
    } else {
        Some((decimal_text(f[fi as int]), decimal_text(f[pi as int])))
    }
}

/// The rows that the lines `lines` of the pressure log give, in order.
pub open spec fn diffp_rows(lines: Seq<Seq<char>>, fi: usize, pi: usize) -> Seq<
    (Seq<char>, Seq<char>),
>
    decreases lines.len(),
{
    if lines.len() == 0 {
        Seq::empty()
    } else {
        let prev = diffp_rows(lines.drop_last(), fi, pi);
        match diffp_row(lines.last(), fi, pi) {
            Some(r) => prev.push(r),
            None => prev,
        }
    }
}

/// The texts of each pair.
pub open spec fn pair_views(v: Seq<(String, String)>) -> Seq<(Seq<char>, Seq<char>)> {
    v.map_values(|p: (String, String)| (p.0@, p.1@))
}

/// Index of the first field in `fields` that names the air flow.
fn find_flow_field(v: &[char], fields: &Vec<(usize, usize)>) -> (r: Option<usize>)
    requires
        ranges_within(fields@, 0, v@.len() as int),
    ensures
        r == first_flow_field(pieces_of(v@, fields@), 0),
{
    let ghost fs = pieces_of(v@, fields@);
    let p1 = chars_of("main air");
    let p2 = chars_of("l/min");
    let mut i: usize = 0;
    while i < fields.len()
        invariant
            fs == pieces_of(v@, fields@),
            ranges_within(fields@, 0, v@.len() as int),
            p1@ == "main air"@,
            p2@ == "l/min"@,
            first_flow_field(fs, i as int) == first_flow_field(fs, 0),
        decreases fields@.len() - i,
    {
        let (a, b) = fields[i];
        assert(fs[i as int] == v@.subrange(a as int, b as int));
        if contains_in(v, a, b, &p1) && contains_in(v, a, b, &p2) {
            return Some(i);
        }
        i = i + 1;
    }
    None
}

/// Index of the first field in `fields` that names the pressure.
fn find_pressure_field(v: &[char], fields: &Vec<(usize, usize)>) -> (r: Option<usize>)
    requires
        ranges_within(fields@, 0, v@.len() as int),
    ensures
        r == first_pressure_field(pieces_of(v@, fields@), 0),
{
    let ghost fs = pieces_of(v@, fields@);
    let p = chars_of("P_diff");
    let mut i: usize = 0;
    while i < fields.len()
        invariant
            fs == pieces_of(v@, fields@),
            ranges_within(fields@, 0, v@.len() as int),
            p@ == "P_diff"@,
            first_pressure_field(fs, i as int) == first_pressure_field(fs, 0),
        decreases fields@.len() - i,
    {
        let (a, b) = fields[i];
        assert(fs[i as int] == v@.subrange(a as int, b as int));
        if contains_in(v, a, b, &p) {
            return Some(i);
        }
        i = i + 1;
    }
    None
}

/// Whether the trimmed `v[lo..hi]` begins, lower-cased, with `dpk`.
fn field_starts_with_dpk(v: &[char], lo: usize, hi: usize) -> (r: bool)
    requires
        lo <= hi <= v@.len(),
    ensures
        r == starts_with_dpk(trim_seq(v@.subrange(lo as int, hi as int))),
{
    let (a, b) = trim_bounds(v, lo, hi);
    let ghost t = v@.subrange(a as int, b as int);
    if b - a < 3 {
        return false;
    }
    assert(t[0] == v@[a as int] && t[1] == v@[a + 1] && t[2] == v@[a + 2]);
    let c0 = v[a];
    let c1 = v[a + 1];
    let c2 = v[a + 2];
    (c0 == 'd' || c0 == 'D') && (c1 == 'p' || c1 == 'P') && (c2 == 'k' || c2 == 'K' || c2
        == '\u{212A}')
}

/// Reads the differential-pressure log from its text: finds the first line
/// with a field naming the air flow (`main air` … `l/min`) and one naming
/// `P_diff`, then takes from each later line whose first field begins with
/// `dpk` (in any case) and has both fields the flow and the pressure,
/// trimmed and with decimal commas written as points. `None` when there is
/// no such header line.
pub fn parse_diffp_text(content: &str) -> (r: Option<Vec<(String, String)>>)
    ensures
        ({
            let lines = lines_seq(content@);
            match diffp_layout(lines) {
                None => r is None,
                Some((h, fi, pi)) => r matches Some(rows) && pair_views(rows@) == diffp_rows(
                    lines.skip(h + 1),
                    fi,
                    pi,
                ),
            }
        }),        ({
            let lines = lines_seq(content@);
            diffp_layout(lines) matches Some((h, fi, pi)) ==> r matches Some(rows) && rows@.len()
                == diffp_rows(lines.skip(h + 1), fi, pi).len() && forall|i: int|
                0 <= i < rows@.len() ==> #[trigger] diffp_rows(lines.skip(h + 1), fi, pi)[i] == (
                    rows@[i].0@,
                    rows@[i].1@,
                )
        }),
{
    let v = chars_of(content);
    let lines = line_ranges(&v);
    let ghost ls = pieces_of(v@, lines@);
    let mut h: usize = 0;
    while h < lines.len()
        invariant
            ls == pieces_of(v@, lines@),
            ranges_within(lines@, 0, v@.len() as int),
            first_diffp_header(ls, h as int) == first_diffp_header(ls, 0),
            ls == lines_seq(content@),
        decreases lines@.len() - h,
    {
        let (a, b) = lines[h];
        let fr = split_ranges(&v, a, b, '\t');
        assert(ls[h as int] == v@.subrange(a as int, b as int));
        let fi = find_flow_field(&v, &fr);
        let pi = find_pressure_field(&v, &fr);
        assert(fields_of(ls[h as int]) == pieces_of(v@, fr@));
        if let (Some(x), Some(y)) = (fi, pi) {
            assert(is_diffp_header(ls[h as int]));
            assert(first_diffp_header(ls, h as int) == Some(h));
            assert(lines_seq(content@) == ls);
            assert(diffp_layout(ls) == Some((h, x, y)));
            let rows = collect_diffp_rows(&v, &lines, h, x, y);
            assert forall|i: int| 0 <= i < rows@.len() implies #[trigger] pair_views(rows@)[i] == (
                rows@[i].0@,
                rows@[i].1@,
            ) by {}
            return Some(rows);
        }
        h = h + 1;
    }
    None
}

/// The rows of the pressure log after the header line `h`.
fn collect_diffp_rows(v: &[char], lines: &Vec<(usize, usize)>, h: usize, fi: usize, pi: usize) -> (r:
    Vec<(String, String)>)
    requires
        ranges_within(lines@, 0, v@.len() as int),
        h < lines.len(),
    ensures
        pair_views(r@) == diffp_rows(pieces_of(v@, lines@).skip(h + 1), fi, pi),
{
    let ghost ls = pieces_of(v@, lines@);
    let ghost data = ls.skip(h + 1);
    let m = if fi >= pi {
        fi
    } else {
        pi
    };
    let mut rows: Vec<(String, String)> = Vec::new();
    let mut k: usize = h + 1;
    assert(data.take(0) =~= Seq::<Seq<char>>::empty());
    while k < lines.len()
        invariant
            h < k <= lines@.len(),
            ls == pieces_of(v@, lines@),
            ranges_within(lines@, 0, v@.len() as int),
            data == ls.skip(h + 1),
            m == (if fi >= pi {
                fi
            } else {
                pi
            }),
            pair_views(rows@) == diffp_rows(data.take(k - h - 1), fi, pi),
        decreases lines@.len() - k,
    {
        let (a, b) = lines[k];
        let ghost line = v@.subrange(a as int, b as int);
        assert(ls[k as int] == line);
        assert(data.take(k + 1 - h - 1).drop_last() =~= data.take(k - h - 1));
        assert(data.take(k + 1 - h - 1).last() == line);
        let fr = split_ranges(v, a, b, '\t');
        let ghost f = pieces_of(v@, fr@);
        proof {
            crate::text::lemma_split_nonempty(line, '\t');
        }
        let (a0, b0) = fr[0];
        assert(f[0] == v@.subrange(a0 as int, b0 as int));
        if field_starts_with_dpk(v, a0, b0) && fr.len() > m {
            let (a1, b1) = fr[fi];
            let (a2, b2) = fr[pi];
            assert(f[fi as int] == v@.subrange(a1 as int, b1 as int));
            assert(f[pi as int] == v@.subrange(a2 as int, b2 as int));
            let pair = (decimal_string(v, a1, b1), decimal_string(v, a2, b2));
            let ghost before = rows@;
            rows.push(pair);
            assert(pair_views(rows@) =~= pair_views(before).push((pair.0@, pair.1@)));
        }
        k = k + 1;
    }
    assert(data.take(lines@.len() - h - 1) =~= data);
    rows
}


/// The size and efficiency columns of a header line of the efficiency
/// table: the size is the column `X`; the efficiency is the first column `E`
/// at or after the upstream column of `q` where the line has both `X` and
/// that column, and otherwise the first column `E` of the line.
pub open spec fn frac_eff_cols(f: Seq<Seq<char>>, q: Quantity) -> Option<(usize, usize)> {
    let si = col_of(f, "X"@);
    let ei = match (si, col_of(f, up_col_name(q))) {
        (Some(_), Some(m)) => first_col_from(f, "E"@, m as int),
        _ => col_of(f, "E"@),
    };
    match (si, ei) {
        (Some(a), Some(b)) => Some((a, b)),
        _ => None,
    }
}

/// The first header line of the efficiency table at or after `i`.
pub open spec fn first_frac_eff_header(lines: Seq<Seq<char>>, q: Quantity, i: int) -> Option<usize>
    decreases lines.len() - i,
{
    if i < 0 || i >= lines.len() {
        None
    } else if frac_eff_cols(fields_of(lines[i]), q) is Some {
        Some(i as usize)
    } else {
        first_frac_eff_header(lines, q, i + 1)
    }
}

/// The header of the efficiency table: its line, the size column and the
/// efficiency column.
pub open spec fn frac_eff_layout(lines: Seq<Seq<char>>, q: Quantity) -> Option<
    (usize, usize, usize),
> {
    match first_frac_eff_header(lines, q, 0) {
        None => None,
        Some(h) => {
            let (si, ei) = frac_eff_cols(fields_of(lines[h as int]), q)->Some_0;
            Some((h, si, ei))
        },
    }
}

/// The size and efficiency texts of a data line that has both columns.
pub open spec fn frac_eff_row(line: Seq<char>, si: usize, ei: usize) -> Option<
    (Seq<char>, Seq<char>),
> {
    let f = fields_of(line);
    let m = if si >= ei {
        si
    } else {
        ei
    };
    if f.len() <= m {
        None
    } else {
        Some((decimal_text(f[si as int]), decimal_text(f[ei as int])))
    }
}

/// The rows that the lines `lines` of the efficiency table give, in order.
pub open spec fn frac_eff_rows(lines: Seq<Seq<char>>, si: usize, ei: usize) -> Seq<
    (Seq<char>, Seq<char>),
>
    decreases lines.len(),
{
    if lines.len() == 0 {
        Seq::empty()
    } else {
        let prev = frac_eff_rows(lines.drop_last(), si, ei);
        match frac_eff_row(lines.last(), si, ei) {
            Some(r) => prev.push(r),
            None => prev,
        }
    }
}

/// The size and efficiency columns of the header line whose fields are
/// `fr`.
fn find_frac_eff_cols(v: &[char], fr: &Vec<(usize, usize)>, q: Quantity) -> (r: Option<
    (usize, usize),
>)
    requires
        ranges_within(fr@, 0, v@.len() as int),
    ensures
        r == frac_eff_cols(pieces_of(v@, fr@), q),
{
    let xt = chars_of("X");
    let et = chars_of("E");
    let si = find_col_in(v, fr, &xt, 0);
    let ei = match si {
        Some(_) => match find_col_in(v, fr, &chars_of(q.up_col()), 0) {
            Some(m) => find_col_in(v, fr, &et, m),
            None => find_col_in(v, fr, &et, 0),
        },
        None => find_col_in(v, fr, &et, 0),
    };
    match (si, ei) {
        (Some(a), Some(b)) => Some((a, b)),
        _ => None,
    }
}

/// Reads the fractional-efficiency table from its text: finds the first
/// line with a size column `X` and an efficiency column `E` (the one after
/// the upstream column of `quantity` where there is one), then takes from
/// each later line that has both fields the size and the efficiency,
/// trimmed and with decimal commas written as points. `None` when there is
/// no such header line.
pub fn parse_frac_eff_text(content: &str, quantity: Quantity) -> (r: Option<Vec<(String, String)>>)
    ensures
        ({
            let lines = lines_seq(content@);
            match frac_eff_layout(lines, quantity) {
                None => r is None,
                Some((h, si, ei)) => r matches Some(rows) && pair_views(rows@) == frac_eff_rows(
                    lines.skip(h + 1),
                    si,
                    ei,
                ),
            }
        }),        ({
            let lines = lines_seq(content@);
            frac_eff_layout(lines, quantity) matches Some((h, si, ei)) ==> r matches Some(rows)
                && rows@.len() == frac_eff_rows(lines.skip(h + 1), si, ei).len() && forall|i: int|
                0 <= i < rows@.len() ==> #[trigger] frac_eff_rows(lines.skip(h + 1), si, ei)[i] == (
                    rows@[i].0@,
                    rows@[i].1@,
                )
        }),
{
    let v = chars_of(content);
    let lines = line_ranges(&v);
    let ghost ls = pieces_of(v@, lines@);
    let mut h: usize = 0;
    while h < lines.len()
        invariant
            ls == pieces_of(v@, lines@),
            ls == lines_seq(content@),
            ranges_within(lines@, 0, v@.len() as int),
            first_frac_eff_header(ls, quantity, h as int) == first_frac_eff_header(ls, quantity, 0),
        decreases lines@.len() - h,
    {
        let (a, b) = lines[h];
        let fr = split_ranges(&v, a, b, '\t');
        assert(ls[h as int] == v@.subrange(a as int, b as int));
        assert(fields_of(ls[h as int]) == pieces_of(v@, fr@));
        if let Some((si, ei)) = find_frac_eff_cols(&v, &fr, quantity) {
            assert(first_frac_eff_header(ls, quantity, h as int) == Some(h));
            assert(frac_eff_layout(ls, quantity) == Some((h, si, ei)));
            let rows = collect_frac_eff_rows(&v, &lines, h, si, ei);
            assert forall|i: int| 0 <= i < rows@.len() implies #[trigger] pair_views(rows@)[i] == (
                rows@[i].0@,
                rows@[i].1@,
            ) by {}
            return Some(rows);
        }
        h = h + 1;
    }
    None
}

/// The rows of the efficiency table after the header line `h`.
fn collect_frac_eff_rows(v: &[char], lines: &Vec<(usize, usize)>, h: usize, si: usize, ei: usize) -> (r:
    Vec<(String, String)>)
    requires
        ranges_within(lines@, 0, v@.len() as int),
        h < lines.len(),
    ensures
        pair_views(r@) == frac_eff_rows(pieces_of(v@, lines@).skip(h + 1), si, ei),
{
    let ghost ls = pieces_of(v@, lines@);
    let ghost data = ls.skip(h + 1);
    let m = if si >= ei {
        si
    } else {
        ei
    };
    let mut rows: Vec<(String, String)> = Vec::new();
    let mut k: usize = h + 1;
    assert(data.take(0) =~= Seq::<Seq<char>>::empty());
    while k < lines.len()
        invariant
            h < k <= lines@.len(),
            ls == pieces_of(v@, lines@),
            ranges_within(lines@, 0, v@.len() as int),
            data == ls.skip(h + 1),
            m == (if si >= ei {
                si
            } else {
                ei
            }),
            pair_views(rows@) == frac_eff_rows(data.take(k - h - 1), si, ei),
        decreases lines@.len() - k,
    {
        let (a, b) = lines[k];
        let ghost line = v@.subrange(a as int, b as int);
        assert(ls[k as int] == line);
        assert(data.take(k + 1 - h - 1).drop_last() =~= data.take(k - h - 1));
        assert(data.take(k + 1 - h - 1).last() == line);
        let fr = split_ranges(v, a, b, '\t');
        let ghost f = pieces_of(v@, fr@);
        if fr.len() > m {
            let (a1, b1) = fr[si];
            let (a2, b2) = fr[ei];
            assert(f[si as int] == v@.subrange(a1 as int, b1 as int));
            assert(f[ei as int] == v@.subrange(a2 as int, b2 as int));
            let pair = (decimal_string(v, a1, b1), decimal_string(v, a2, b2));
            let ghost before = rows@;
            rows.push(pair);
            assert(pair_views(rows@) =~= pair_views(before).push((pair.0@, pair.1@)));
        }
        k = k + 1;
    }
    assert(data.take(lines@.len() - h - 1) =~= data);
    rows
}


/// `s` without the carriage returns at its end.
pub open spec fn strip_all_cr(s: Seq<char>) -> Seq<char>
    decreases s.len(),
{
    if s.len() > 0 && s.last() == '\r' {
        strip_all_cr(s.drop_last())
    } else {
        s
    }
}

/// A line of the measurement file that carries the first remark.
pub open spec fn is_remark_line(line: Seq<char>) -> bool {
    starts_with_seq(strip_all_cr(line), "rem.1:"@)
}

/// The first remark line at or after `i`.
pub open spec fn first_remark_line(lines: Seq<Seq<char>>, i: int) -> Option<usize>
    decreases lines.len() - i,
{
    if i < 0 || i >= lines.len() {
        None
    } else if is_remark_line(lines[i]) {
        Some(i as usize)
    } else {
        first_remark_line(lines, i + 1)
    }
}

/// The label of the measurement: the trimmed text after `rem.1:` on the
/// first remark line.
pub open spec fn measurement_label(lines: Seq<Seq<char>>) -> Option<Seq<char>> {
    match first_remark_line(lines, 0) {
        None => None,
        Some(i) => Some(trim_seq(strip_all_cr(lines[i as int]).skip(6))),
    }
}

/// The header line of the measurement table: it mentions `Xu` and `E [%]`.
pub open spec fn is_measurement_header(line: Seq<char>) -> bool {
    contains_seq(strip_all_cr(line), "Xu"@) && contains_seq(strip_all_cr(line), "E [%]"@)
}

/// The first header line at or after `i`.
pub open spec fn first_measurement_header(lines: Seq<Seq<char>>, i: int) -> Option<usize>
    decreases lines.len() - i,
{
    if i < 0 || i >= lines.len() {
        None
    } else if is_measurement_header(lines[i]) {
        Some(i as usize)
    } else {
        first_measurement_header(lines, i + 1)
    }
}

/// The size, upstream and downstream texts of a data line: the trimmed
/// second, sixth and seventh fields of a line that is not blank and has at
/// least ten fields.
pub open spec fn measurement_row(line: Seq<char>) -> Option<(Seq<char>, Seq<char>, Seq<char>)> {
    let t = strip_all_cr(line);
    let f = fields_of(t);
    if trim_seq(t).len() == 0 || f.len() < 10 {
        None
    } else {
        Some((trim_seq(f[1]), trim_seq(f[5]), trim_seq(f[6])))
    }
}

/// The rows that the lines `lines` of the measurement file give, in order.
pub open spec fn measurement_rows(lines: Seq<Seq<char>>) -> Seq<(Seq<char>, Seq<char>, Seq<char>)>
    decreases lines.len(),
{
    if lines.len() == 0 {
        Seq::empty()
    } else {
        let prev = measurement_rows(lines.drop_last());
        match measurement_row(lines.last()) {
            Some(r) => prev.push(r),
            None => prev,
        }
    }
}

/// The texts of each triple.
pub open spec fn triple_views(v: Seq<(String, String, String)>) -> Seq<
    (Seq<char>, Seq<char>, Seq<char>),
> {
    v.map_values(|p: (String, String, String)| (p.0@, p.1@, p.2@))
}

/// What a measurement file of one sensor holds, as text.
pub struct MeasurementText {
    /// The text of the first remark (`rem.1:`), if there is one.
    pub label: Option<String>,
    /// Size, upstream and downstream texts of each data line.
    pub rows: Vec<(String, String, String)>,
}

/// Why a measurement file could not be read.
#[derive(Clone, Copy, Debug, PartialEq, Eq, Structural)]
pub enum MeasurementError {
    /// No line mentions both `Xu` and `E [%]`.
    NoHeader,
}

/// End of `v[lo..hi]` once the carriage returns at its end are dropped.
fn strip_cr_end(v: &[char], lo: usize, hi: usize) -> (e: usize)
    requires
        lo <= hi <= v@.len(),
    ensures
        lo <= e <= hi,
        v@.subrange(lo as int, e as int) == strip_all_cr(v@.subrange(lo as int, hi as int)),
{
    let mut e = hi;
    while e > lo && v[e - 1] == '\r'
        invariant
            lo <= e <= hi <= v@.len(),
            strip_all_cr(v@.subrange(lo as int, e as int)) == strip_all_cr(
                v@.subrange(lo as int, hi as int),
            ),
        decreases e,
    {
        assert(v@.subrange(lo as int, e as int).drop_last() =~= v@.subrange(lo as int, e - 1));
        e = e - 1;
    }
    e
}

/// The label after the first remark line of the lines `lines` of `v`.
fn find_measurement_label(v: &[char], lines: &Vec<(usize, usize)>) -> (r: Option<String>)
    requires
        ranges_within(lines@, 0, v@.len() as int),
    ensures
        r matches Some(s) ==> measurement_label(pieces_of(v@, lines@)) == Some(s@),
        r is None ==> measurement_label(pieces_of(v@, lines@)) is None,
{
    let ghost ls = pieces_of(v@, lines@);
    let pre = chars_of("rem.1:");
    let mut i: usize = 0;
    while i < lines.len()
        invariant
            ls == pieces_of(v@, lines@),
            ranges_within(lines@, 0, v@.len() as int),
            pre@ == "rem.1:"@,
            first_remark_line(ls, i as int) == first_remark_line(ls, 0),
        decreases lines@.len() - i,
    {
        let (a, b) = lines[i];
        assert(ls[i as int] == v@.subrange(a as int, b as int));
        let e = strip_cr_end(v, a, b);
        let ghost t = v@.subrange(a as int, e as int);
        if e - a >= 6 {
            let sub = has_prefix(v, a, e, &pre);
            if sub {
                proof {
                    reveal_strlit("rem.1:");
                }
                assert(first_remark_line(ls, i as int) == Some(i));
                let s = trimmed_string(v, a + 6, e);
                assert(t.skip(6) =~= v@.subrange(a + 6, e as int));
                return Some(s);
            }
        } else {
            proof {
                reveal_strlit("rem.1:");
            }
        }
        i = i + 1;
    }
    None
}

/// Reads the measurement file of one sensor from its text: the label on
/// the first `rem.1:` line, and from each line after the first one that
/// mentions `Xu` and `E [%]` (trailing carriage returns dropped) that is not
/// blank and has at least ten fields, the trimmed size (second field),
/// upstream (sixth) and downstream (seventh) texts.
pub fn parse_measurement_text(content: &str) -> (r: Result<MeasurementText, MeasurementError>)
    ensures
        ({
            let lines = lines_seq(content@);
            match first_measurement_header(lines, 0) {
                None => r == Err::<MeasurementText, MeasurementError>(MeasurementError::NoHeader),
                Some(h) => r matches Ok(m) && (match m.label {
                    Some(s) => measurement_label(lines) == Some(s@),
                    None => measurement_label(lines) is None,
                }) && triple_views(m.rows@) == measurement_rows(lines.skip(h + 1)),
            }
        }),        ({
            let lines = lines_seq(content@);
            first_measurement_header(lines, 0) matches Some(h) ==> r matches Ok(m) && m.rows@.len()
                == measurement_rows(lines.skip(h + 1)).len() && forall|i: int|
                0 <= i < m.rows@.len() ==> #[trigger] measurement_rows(lines.skip(h + 1))[i] == (
                    m.rows@[i].0@,
                    m.rows@[i].1@,
                    m.rows@[i].2@,
                )
        }),
{
    let v = chars_of(content);
    let lines = line_ranges(&v);
    let ghost ls = pieces_of(v@, lines@);
    let label = find_measurement_label(&v, &lines);
    let p1 = chars_of("Xu");
    let p2 = chars_of("E [%]");
    let mut h: usize = 0;
    while h < lines.len()
        invariant
            ls == pieces_of(v@, lines@),
            ls == lines_seq(content@),
            ranges_within(lines@, 0, v@.len() as int),
            p1@ == "Xu"@,
            p2@ == "E [%]"@,
            first_measurement_header(ls, h as int) == first_measurement_header(ls, 0),
            label matches Some(s) ==> measurement_label(ls) == Some(s@),
            label is None ==> measurement_label(ls) is None,
        decreases lines@.len() - h,
    {
        let (a, b) = lines[h];
        assert(ls[h as int] == v@.subrange(a as int, b as int));
        let e = strip_cr_end(&v, a, b);
        if contains_in(&v, a, e, &p1) && contains_in(&v, a, e, &p2) {
            assert(first_measurement_header(ls, h as int) == Some(h));
            let rows = collect_measurement_rows(&v, &lines, h);
            assert forall|i: int| 0 <= i < rows@.len() implies #[trigger] triple_views(rows@)[i] == (
                rows@[i].0@,
                rows@[i].1@,
                rows@[i].2@,
            ) by {}
            return Ok(MeasurementText { label, rows });
        }
        h = h + 1;
    }
    Err(MeasurementError::NoHeader)
}

/// The rows of the measurement file after the header line `h`.
fn collect_measurement_rows(v: &[char], lines: &Vec<(usize, usize)>, h: usize) -> (r: Vec<
    (String, String, String),
>)
    requires
        ranges_within(lines@, 0, v@.len() as int),
        h < lines.len(),
    ensures
        triple_views(r@) == measurement_rows(pieces_of(v@, lines@).skip(h + 1)),
{
    let ghost ls = pieces_of(v@, lines@);
    let ghost data = ls.skip(h + 1);
    let mut rows: Vec<(String, String, String)> = Vec::new();
    let mut k: usize = h + 1;
    assert(data.take(0) =~= Seq::<Seq<char>>::empty());
    while k < lines.len()
        invariant
            h < k <= lines@.len(),
            ls == pieces_of(v@, lines@),
            ranges_within(lines@, 0, v@.len() as int),
            data == ls.skip(h + 1),
            triple_views(rows@) == measurement_rows(data.take(k - h - 1)),
        decreases lines@.len() - k,
    {
        let (a, b) = lines[k];
        let ghost line = v@.subrange(a as int, b as int);
        assert(ls[k as int] == line);
        assert(data.take(k + 1 - h - 1).drop_last() =~= data.take(k - h - 1));
        assert(data.take(k + 1 - h - 1).last() == line);
        let e = strip_cr_end(v, a, b);
        if !is_blank(v, a, e) {
            let fr = split_ranges(v, a, e, '\t');
            let ghost f = pieces_of(v@, fr@);
            if fr.len() >= 10 {
                let (a1, b1) = fr[1];
                let (a5, b5) = fr[5];
                let (a6, b6) = fr[6];
                assert(f[1] == v@.subrange(a1 as int, b1 as int));
                assert(f[5] == v@.subrange(a5 as int, b5 as int));
                assert(f[6] == v@.subrange(a6 as int, b6 as int));
                let t = (trimmed_string(v, a1, b1), trimmed_string(v, a5, b5), trimmed_string(v, a6, b6));
                let ghost before = rows@;
                rows.push(t);
                assert(triple_views(rows@) =~= triple_views(before).push((t.0@, t.1@, t.2@)));
            }
        }
        k = k + 1;
    }
    assert(data.take(lines@.len() - h - 1) =~= data);
    rows
}

/// A line after the measurement header gives a row exactly when, with its
/// trailing carriage returns dropped, it is not blank and has at least ten
/// tab-separated fields, however many more it has; the row is its second,
/// sixth and seventh fields, trimmed, and comes after the rows of the lines
/// before it. Any other line gives no row, and no lines give no rows.
pub proof fn measurement_line_gives_row(before: Seq<Seq<char>>, line: Seq<char>)
    ensures
        measurement_rows(Seq::empty()) == Seq::<(Seq<char>, Seq<char>, Seq<char>)>::empty(),
        ({
            let t = strip_all_cr(line);
            let f = split_seq(t, '\t');
            if trim_seq(t).len() > 0 && f.len() >= 10 {
                measurement_rows(before.push(line)) == measurement_rows(before).push(
                    (trim_seq(f[1]), trim_seq(f[5]), trim_seq(f[6])),
                )
            } else {
                measurement_rows(before.push(line)) == measurement_rows(before)
            }
        }),
{
    assert(before.push(line).drop_last() =~= before);
}

/// The line, trailing carriage returns dropped, mentions `Xu` and `E [%]`.
pub open spec fn mentions_xu_and_e(line: Seq<char>) -> bool {
    contains_seq(strip_all_cr(line), "Xu"@) && contains_seq(strip_all_cr(line), "E [%]"@)
}

proof fn lemma_first_measurement_header(lines: Seq<Seq<char>>, i: int)
    requires
        0 <= i <= lines.len(),
        lines.len() <= usize::MAX,
    ensures
        first_measurement_header(lines, i) matches Some(h) ==> i <= h < lines.len()
            && mentions_xu_and_e(lines[h as int]) && forall|j: int|
            i <= j < h ==> !mentions_xu_and_e(#[trigger] lines[j]),
        first_measurement_header(lines, i) is None ==> forall|j: int|
            i <= j < lines.len() ==> !mentions_xu_and_e(#[trigger] lines[j]),
    decreases lines.len() - i,
{
    if i < lines.len() && !is_measurement_header(lines[i]) {
        lemma_first_measurement_header(lines, i + 1);
        assert(!mentions_xu_and_e(lines[i]));
        assert forall|j: int| i <= j < lines.len() && mentions_xu_and_e(#[trigger] lines[j]) implies j
            > i by {}
    }
}

/// The measurement table starts after the first line that mentions both
/// `Xu` and `E [%]` (trailing carriage returns dropped); without such a
/// line there is no table.
pub proof fn measurement_header_is_first_mention(lines: Seq<Seq<char>>)
    requires
        lines.len() <= usize::MAX,
    ensures
        first_measurement_header(lines, 0) matches Some(h) ==> h < lines.len() && mentions_xu_and_e(
            lines[h as int],
        ) && forall|j: int| 0 <= j < h ==> !mentions_xu_and_e(#[trigger] lines[j]),
        first_measurement_header(lines, 0) is None ==> forall|j: int|
            0 <= j < lines.len() ==> !mentions_xu_and_e(#[trigger] lines[j]),
{
    lemma_first_measurement_header(lines, 0);
}

/// The line, trailing carriage returns dropped, begins with `rem.1:`.
pub open spec fn begins_with_remark(line: Seq<char>) -> bool {
    starts_with_seq(strip_all_cr(line), "rem.1:"@)
}

proof fn lemma_first_remark_line(lines: Seq<Seq<char>>, i: int)
    requires
        0 <= i <= lines.len(),
        lines.len() <= usize::MAX,
    ensures
        first_remark_line(lines, i) matches Some(h) ==> i <= h < lines.len() && begins_with_remark(
            lines[h as int],
        ) && forall|j: int| i <= j < h ==> !begins_with_remark(#[trigger] lines[j]),
        first_remark_line(lines, i) is None ==> forall|j: int|
            i <= j < lines.len() ==> !begins_with_remark(#[trigger] lines[j]),
    decreases lines.len() - i,
{
    if i < lines.len() && !is_remark_line(lines[i]) {
        lemma_first_remark_line(lines, i + 1);
        assert(!begins_with_remark(lines[i]));
        assert forall|j: int| i <= j < lines.len() && begins_with_remark(#[trigger] lines[j]) implies j
            > i by {}
    }
}

/// The label of a measurement is the text after `rem.1:` on the first line
/// that begins with it (trailing carriage returns dropped), trimmed; a file
/// with no such line has no label.
pub proof fn measurement_label_is_first_remark(lines: Seq<Seq<char>>)
    requires
        lines.len() <= usize::MAX,
    ensures
        measurement_label(lines) is None <==> forall|j: int|
            0 <= j < lines.len() ==> !begins_with_remark(#[trigger] lines[j]),
        forall|i: int|
            0 <= i < lines.len() && begins_with_remark(#[trigger] lines[i]) && (forall|j: int|
                0 <= j < i ==> !begins_with_remark(#[trigger] lines[j])) ==> measurement_label(lines)
                == Some(trim_seq(strip_all_cr(lines[i]).skip(6))),
{
    lemma_first_remark_line(lines, 0);
}

/// `m` is the first field of `f` that names the column `name`.
pub open spec fn is_first_col(f: Seq<Seq<char>>, name: Seq<char>, m: int) -> bool {
    &&& 0 <= m < f.len()
    &&& col_matches(f[m], name)
    &&& forall|k: int| 0 <= k < m ==> !col_matches(#[trigger] f[k], name)
}

/// No field of `f` from `lo` up to (not including) `hi` names `name`.
pub open spec fn no_col_in(f: Seq<Seq<char>>, name: Seq<char>, lo: int, hi: int) -> bool {
    forall|k: int| lo <= k < hi && 0 <= k < f.len() ==> !col_matches(#[trigger] f[k], name)
}

/// The efficiency column depends on the chosen quantity: where the header
/// has a size column `X` and the upstream column of the quantity (`dCmup`
/// for mass, `dCnup` for count), it is the first `E` column at or after
/// that upstream column; where the quantity's upstream column is missing,
/// it is the first `E` column of the line. The size column is the first
/// `X` column. Without an `X` column, or without such an `E` column, the
/// line is no header.
pub proof fn efficiency_column_follows_quantity(f: Seq<Seq<char>>, q: Quantity)
    requires
        f.len() <= usize::MAX,
    ensures
        ({
            let up = if q == Quantity::Mass {
                "dCmup"@
            } else {
                "dCnup"@
            };
            match frac_eff_cols(f, q) {
                Some((si, ei)) => {
                    &&& is_first_col(f, "X"@, si as int)
                    &&& ei < f.len() && col_matches(f[ei as int], "E"@)
                    &&& forall|m: int|
                        #[trigger] is_first_col(f, up, m) ==> m <= ei && no_col_in(
                            f,
                            "E"@,
                            m,
                            ei as int,
                        )
                    &&& no_col_in(f, up, 0, f.len() as int) ==> no_col_in(f, "E"@, 0, ei as int)
                },
                None => {
                    ||| no_col_in(f, "X"@, 0, f.len() as int)
                    ||| {
                        &&& forall|m: int|
                            #[trigger] is_first_col(f, up, m) ==> no_col_in(
                                f,
                                "E"@,
                                m,
                                f.len() as int,
                            )
                        &&& no_col_in(f, up, 0, f.len() as int) ==> no_col_in(
                            f,
                            "E"@,
                            0,
                            f.len() as int,
                        )
                    }
                },
            }
        }),
{
    let up = up_col_name(q);
    first_col_is_first_match(f, "X"@, 0);
    first_col_is_first_match(f, up, 0);
    first_col_is_first_match(f, "E"@, 0);
    if let Some(m0) = col_of(f, up) {
        first_col_is_first_match(f, "E"@, m0 as int);
        assert forall|m: int| #[trigger] is_first_col(f, up, m) implies m == m0 by {
            if m < m0 {
                assert(!col_matches(f[m], up));
            } else if m > m0 {
                assert(!col_matches(f[m0 as int], up));
            }
        }
    }
}

/// The line's fields form a header of the efficiency table for `q`.
pub open spec fn names_frac_eff_cols(line: Seq<char>, q: Quantity) -> bool {
    frac_eff_cols(fields_of(line), q) is Some
}

proof fn lemma_first_frac_eff_header(lines: Seq<Seq<char>>, q: Quantity, i: int)
    requires
        0 <= i <= lines.len(),
        lines.len() <= usize::MAX,
    ensures
        first_frac_eff_header(lines, q, i) matches Some(h) ==> i <= h < lines.len()
            && names_frac_eff_cols(lines[h as int], q) && forall|j: int|
            i <= j < h ==> !names_frac_eff_cols(#[trigger] lines[j], q),
        first_frac_eff_header(lines, q, i) is None ==> forall|j: int|
            i <= j < lines.len() ==> !names_frac_eff_cols(#[trigger] lines[j], q),
    decreases lines.len() - i,
{
    if i < lines.len() && frac_eff_cols(fields_of(lines[i]), q) is None {
        lemma_first_frac_eff_header(lines, q, i + 1);
        assert(!names_frac_eff_cols(lines[i], q));
        assert forall|j: int|
            i <= j < lines.len() && names_frac_eff_cols(#[trigger] lines[j], q) implies j > i by {}
    }
}

/// The efficiency table starts at the first line that has a size column
/// and an efficiency column for `q`, and reads those two columns of it.
pub proof fn frac_eff_header_is_first(lines: Seq<Seq<char>>, q: Quantity)
    requires
        lines.len() <= usize::MAX,
    ensures
        frac_eff_layout(lines, q) matches Some((h, si, ei)) ==> h < lines.len()
            && frac_eff_cols(fields_of(lines[h as int]), q) == Some((si, ei)) && forall|j: int|
            0 <= j < h ==> !names_frac_eff_cols(#[trigger] lines[j], q),
        frac_eff_layout(lines, q) is None ==> forall|j: int|
            0 <= j < lines.len() ==> !names_frac_eff_cols(#[trigger] lines[j], q),
{
    lemma_first_frac_eff_header(lines, q, 0);
}

/// A line after the efficiency header gives a row exactly when it has a
/// field in both the size and the efficiency column; the row is those two
/// fields, trimmed and with decimal commas written as points, and comes
/// after the rows of the lines before it. Any other line gives no row.
pub proof fn frac_eff_line_gives_row(before: Seq<Seq<char>>, line: Seq<char>, si: usize, ei: usize)
    ensures
        frac_eff_rows(Seq::empty(), si, ei) == Seq::<(Seq<char>, Seq<char>)>::empty(),
        ({
            let f = split_seq(line, '\t');
            if si < f.len() && ei < f.len() {
                frac_eff_rows(before.push(line), si, ei) == frac_eff_rows(before, si, ei).push(
                    (decimal_text(f[si as int]), decimal_text(f[ei as int])),
                )
            } else {
                frac_eff_rows(before.push(line), si, ei) == frac_eff_rows(before, si, ei)
            }
        }),
{
    assert(before.push(line).drop_last() =~= before);
}

proof fn lemma_first_flow_field(f: Seq<Seq<char>>, i: int)
    requires
        0 <= i <= f.len(),
        f.len() <= usize::MAX,
    ensures
        first_flow_field(f, i) matches Some(k) ==> i <= k < f.len() && contains_seq(
            f[k as int],
            "main air"@,
        ) && contains_seq(f[k as int], "l/min"@) && forall|j: int|
            i <= j < k ==> !(contains_seq(#[trigger] f[j], "main air"@) && contains_seq(f[j], "l/min"@)),
        first_flow_field(f, i) is None ==> forall|j: int|
            i <= j < f.len() ==> !(contains_seq(#[trigger] f[j], "main air"@) && contains_seq(f[j], "l/min"@)),
    decreases f.len() - i,
{
    if i < f.len() && !is_flow_field(f[i]) {
        lemma_first_flow_field(f, i + 1);
    }
}

proof fn lemma_first_pressure_field(f: Seq<Seq<char>>, i: int)
    requires
        0 <= i <= f.len(),
        f.len() <= usize::MAX,
    ensures
        first_pressure_field(f, i) matches Some(k) ==> i <= k < f.len() && contains_seq(
            f[k as int],
            "P_diff"@,
        ) && forall|j: int| i <= j < k ==> !contains_seq(#[trigger] f[j], "P_diff"@),
        first_pressure_field(f, i) is None ==> forall|j: int|
            i <= j < f.len() ==> !contains_seq(#[trigger] f[j], "P_diff"@),
    decreases f.len() - i,
{
    if i < f.len() && !is_pressure_field(f[i]) {
        lemma_first_pressure_field(f, i + 1);
    }
}

/// The line has a field that mentions `main air` and `l/min`, and one that
/// mentions `P_diff`.
pub open spec fn names_flow_and_pressure(line: Seq<char>) -> bool {
    let f = split_seq(line, '\t');
    &&& exists|k: int| 0 <= k < f.len() && contains_seq(#[trigger] f[k], "main air"@) && contains_seq(f[k], "l/min"@)
    &&& exists|k: int| 0 <= k < f.len() && contains_seq(#[trigger] f[k], "P_diff"@)
}

proof fn lemma_names_flow_and_pressure(line: Seq<char>)
    requires
        split_seq(line, '\t').len() <= usize::MAX,
    ensures
        is_diffp_header(line) == names_flow_and_pressure(line),
{
    let f = split_seq(line, '\t');
    lemma_first_flow_field(f, 0);
    lemma_first_pressure_field(f, 0);
    if let Some(k) = first_flow_field(f, 0) {
        assert(contains_seq(f[k as int], "main air"@));
    }
    if let Some(k) = first_pressure_field(f, 0) {
        assert(contains_seq(f[k as int], "P_diff"@));
    }
}

proof fn lemma_first_diffp_header(lines: Seq<Seq<char>>, i: int)
    requires
        0 <= i <= lines.len(),
        lines.len() <= usize::MAX,
    ensures
        first_diffp_header(lines, i) matches Some(h) ==> i <= h < lines.len() && is_diffp_header(
            lines[h as int],
        ) && forall|j: int| i <= j < h ==> !is_diffp_header(#[trigger] lines[j]),
        first_diffp_header(lines, i) is None ==> forall|j: int|
            i <= j < lines.len() ==> !is_diffp_header(#[trigger] lines[j]),
    decreases lines.len() - i,
{
    if i < lines.len() && !is_diffp_header(lines[i]) {
        lemma_first_diffp_header(lines, i + 1);
    }
}

/// The pressure log's header is the first line with a field that mentions
/// `main air` and `l/min` and a field that mentions `P_diff`; the flow and
/// pressure columns are the first such fields of that line.
pub proof fn diffp_columns_are_first_mentions(lines: Seq<Seq<char>>)
    requires
        lines.len() <= usize::MAX,
        forall|j: int| 0 <= j < lines.len() ==> split_seq(#[trigger] lines[j], '\t').len() <= usize::MAX,
    ensures
        diffp_layout(lines) matches Some((h, fi, pi)) ==> {
            let f = split_seq(lines[h as int], '\t');
            &&& h < lines.len()
            &&& forall|j: int| 0 <= j < h ==> !names_flow_and_pressure(#[trigger] lines[j])
            &&& fi < f.len() && contains_seq(f[fi as int], "main air"@) && contains_seq(
                f[fi as int],
                "l/min"@,
            )
            &&& forall|k: int|
                0 <= k < fi ==> !(contains_seq(#[trigger] f[k], "main air"@) && contains_seq(
                    f[k],
                    "l/min"@,
                ))
            &&& pi < f.len() && contains_seq(f[pi as int], "P_diff"@)
            &&& forall|k: int| 0 <= k < pi ==> !contains_seq(#[trigger] f[k], "P_diff"@)
        },
        diffp_layout(lines) is None ==> forall|j: int|
            0 <= j < lines.len() ==> !names_flow_and_pressure(#[trigger] lines[j]),
{
    lemma_first_diffp_header(lines, 0);
    assert forall|j: int| 0 <= j < lines.len() implies #[trigger] is_diffp_header(lines[j])
        == names_flow_and_pressure(lines[j]) by {
        lemma_names_flow_and_pressure(lines[j]);
    }
    if let Some(h) = first_diffp_header(lines, 0) {
        let f = split_seq(lines[h as int], '\t');
        lemma_first_flow_field(f, 0);
        lemma_first_pressure_field(f, 0);
    }
}

/// A line after the pressure log's header gives a row exactly when its
/// first field, trimmed, begins with `dpk` in any letter case and it has a
/// field in both the flow and the pressure column; the row is those two
/// fields, trimmed and with decimal commas written as points, after the
/// rows of the lines before it. Any other line gives no row.
pub proof fn diffp_line_gives_row(before: Seq<Seq<char>>, line: Seq<char>, fi: usize, pi: usize)
    ensures
        diffp_rows(Seq::empty(), fi, pi) == Seq::<(Seq<char>, Seq<char>)>::empty(),
        ({
            let f = split_seq(line, '\t');
            let t = trim_seq(f[0]);
            let dpk = t.len() >= 3 && (t[0] == 'd' || t[0] == 'D') && (t[1] == 'p' || t[1] == 'P')
                && (t[2] == 'k' || t[2] == 'K' || t[2] == '\u{212A}');
            if dpk && fi < f.len() && pi < f.len() {
                diffp_rows(before.push(line), fi, pi) == diffp_rows(before, fi, pi).push(
                    (decimal_text(f[fi as int]), decimal_text(f[pi as int])),
                )
            } else {
                diffp_rows(before.push(line), fi, pi) == diffp_rows(before, fi, pi)
            }
        }),
{
    assert(before.push(line).drop_last() =~= before);
}

} // verus!
