//! Merging a pair of fractional-efficiency exports in which one file holds
//! only the upstream column of a quantity and the other only the downstream
//! column, into one table.

use std::path::PathBuf;
use vstd::prelude::*;
use crate::config::{is_sep_char, path_text, starts_with_drive};
use crate::columns::{first_col_from, find_col_in};
use crate::text::{
    chars_of, decimal_string, decimal_text, is_blank, line_ranges, lines_seq, pieces_of,
    ranges_within, split_ranges, split_seq, string_of, trim_seq, trimmed_string,
};

verus! {

/// The quantity whose upstream and downstream concentrations are compared:
/// mass concentration (`dCmup`/`dCmdown`) or count concentration
/// (`dCnup`/`dCndown`).
#[derive(Clone, Copy, Debug, PartialEq, Eq, Structural)]
pub enum Quantity {
    Mass,
    Count,
}

/// Name of the upstream column of `q`.
pub open spec fn up_col_name(q: Quantity) -> Seq<char> {
    match q {
        Quantity::Mass => "dCmup"@,
        Quantity::Count => "dCnup"@,
    }
}

/// Name of the downstream column of `q`.
pub open spec fn down_col_name(q: Quantity) -> Seq<char> {
    match q {
        Quantity::Mass => "dCmdown"@,
        Quantity::Count => "dCndown"@,
    }
}

/// Text shown when the quantity is chosen.
pub open spec fn quantity_label(q: Quantity) -> Seq<char> {
    match q {
        Quantity::Mass => "Массовая концентрация (dCmup/dCmdown)"@,
        Quantity::Count => "Счётная концентрация (dCnup/dCndown)"@,
    }
}

impl Quantity {
    /// Name of the upstream column.
    pub fn up_col(self) -> (r: &'static str)
        ensures
            r@ == up_col_name(self),
    {
        match self {
            Quantity::Mass => "dCmup",
            Quantity::Count => "dCnup",
        }
    }

    /// Name of the downstream column.
    pub fn down_col(self) -> (r: &'static str)
        ensures
            r@ == down_col_name(self),
    {
        match self {
            Quantity::Mass => "dCmdown",
            Quantity::Count => "dCndown",
        }
    }

    /// Text shown when the quantity is chosen.
    pub fn label(self) -> (r: &'static str)
        ensures
            r@ == quantity_label(self),
    {
        match self {
            Quantity::Mass => "Массовая концентрация (dCmup/dCmdown)",
            Quantity::Count => "Счётная концентрация (dCnup/dCndown)",
        }
    }

    /// The quantity picked at position `selection` of the menu
    /// `[Mass, Count]`.
    pub fn from_selection(selection: usize) -> (r: Quantity)
        ensures
            r == (if selection == 0 {
                Quantity::Mass
            } else {
                Quantity::Count
            }),
    {
        if selection == 0 {
            Quantity::Mass
        } else {
            Quantity::Count
        }
    }
}

/// One size channel of a table: its bounds as written in the file (`Xu`,
/// `X`, `Xo`, `dX`) and its upstream and downstream values.
#[derive(Clone, Debug)]
pub struct BinRow<V> {
    pub xu: String,
    pub x: String,
    pub xo: String,
    pub dx: String,
    pub up: V,
    pub down: V,
}

/// The key that identifies a channel: its four bounds joined by tabs.
pub open spec fn bin_key_of<V>(r: BinRow<V>) -> Seq<char> {
    r.xu@ + seq!['\t'] + r.x@ + seq!['\t'] + r.xo@ + seq!['\t'] + r.dx@
}

impl<V> BinRow<V> {
    /// The channel key: `Xu`, `X`, `Xo` and `dX` joined by tabs.
    pub fn bin_key(&self) -> (r: String)
        ensures
            r@ == bin_key_of(*self),
    {
        let mut s = self.xu.clone();
        s.append("\t");
        s.append(self.x.as_str());
        s.append("\t");
        s.append(self.xo.as_str());
        s.append("\t");
        s.append(self.dx.as_str());
        proof {
            reveal_strlit("\t");
        }
        s
    }
}

/// A table read from an export: the lines up to and including the column
/// header, and the data rows.
#[derive(Clone, Debug)]
pub struct FracTable<V> {
    pub header_lines: Vec<String>,
    pub rows: Vec<BinRow<V>>,
}

/// Where the table starts and which field holds each column.
#[derive(Clone, Copy, Debug, PartialEq, Eq, Structural)]
pub struct TableLayout {
    pub header_line: usize,
    pub xu: usize,
    pub x: usize,
    pub xo: usize,
    pub dx: usize,
    pub up: usize,
    pub down: usize,
}

/// Why a table could not be read.
#[derive(Clone, Copy, Debug, PartialEq, Eq, Structural)]
pub enum TableError {
    /// No line names the upstream and downstream columns of the quantity,
    /// or the first one that does lacks one of `Xu`, `X`, `Xo`, `dX`.
    MissingColumns,
}

/// The tab-separated fields of a line.
pub open spec fn fields_of(line: Seq<char>) -> Seq<Seq<char>> {
    split_seq(line, '\t')
}

/// The index of the first column in `fields` named `target`.
pub open spec fn col_of(fields: Seq<Seq<char>>, target: Seq<char>) -> Option<usize> {
    first_col_from(fields, target, 0)
}

/// A line names both the upstream and the downstream column of `q`.
pub open spec fn is_table_header(line: Seq<char>, q: Quantity) -> bool {
    col_of(fields_of(line), up_col_name(q)) is Some && col_of(fields_of(line), down_col_name(q)) is Some
}

/// The first line at or after `i` that is the table header for `q`.
pub open spec fn first_table_header(lines: Seq<Seq<char>>, q: Quantity, i: int) -> Option<usize>
    decreases lines.len() - i,
{
    if i < 0 || i >= lines.len() {
        None
    } else if is_table_header(lines[i], q) {
        Some(i as usize)
    } else {
        first_table_header(lines, q, i + 1)
    }
}

/// The layout of the table in `lines`: the first header line of `q`, and
/// the columns it names.
pub open spec fn table_layout(lines: Seq<Seq<char>>, q: Quantity) -> Option<TableLayout> {
    match first_table_header(lines, q, 0) {
        None => None,
        Some(h) => {
            let f = fields_of(lines[h as int]);
            match (
                col_of(f, "Xu"@),
                col_of(f, "X"@),
                col_of(f, "Xo"@),
                col_of(f, "dX"@),
                col_of(f, up_col_name(q)),
                col_of(f, down_col_name(q)),
            ) {
                (Some(a), Some(b), Some(c), Some(d), Some(e), Some(g)) => Some(
                    TableLayout { header_line: h, xu: a, x: b, xo: c, dx: d, up: e, down: g },
                ),
                _ => None,
            }
        },
    }
}

/// The largest column index of a layout.
pub open spec fn max_col(l: TableLayout) -> usize {
    let m1 = if l.xu >= l.x { l.xu } else { l.x };
    let m2 = if m1 >= l.xo { m1 } else { l.xo };
    let m3 = if m2 >= l.dx { m2 } else { l.dx };
    let m4 = if m3 >= l.up { m3 } else { l.up };
    if m4 >= l.down { m4 } else { l.down }
}

/// The texts a data line gives: the four trimmed bounds, then the
/// upstream and downstream numbers ready for reading. Blank lines and lines
/// too short to hold every column give nothing.
pub open spec fn row_of_line(line: Seq<char>, l: TableLayout) -> Option<Seq<Seq<char>>> {
    let f = fields_of(line);
    if trim_seq(line).len() == 0 || f.len() <= max_col(l) {
        None
    } else {
        Some(
            seq![
                trim_seq(f[l.xu as int]),
                trim_seq(f[l.x as int]),
                trim_seq(f[l.xo as int]),
                trim_seq(f[l.dx as int]),
                decimal_text(f[l.up as int]),
                decimal_text(f[l.down as int]),
            ],
        )
    }
}

/// The rows that the data lines `lines` give, in order.
pub open spec fn rows_of_lines(lines: Seq<Seq<char>>, l: TableLayout) -> Seq<Seq<Seq<char>>>
    decreases lines.len(),
{
    if lines.len() == 0 {
        Seq::empty()
    } else {
        let prev = rows_of_lines(lines.drop_last(), l);
        match row_of_line(lines.last(), l) {
            Some(r) => prev.push(r),
            None => prev,
        }
    }
}

/// The texts of a row read from a file.
pub open spec fn text_row(r: BinRow<String>) -> Seq<Seq<char>> {
    seq![r.xu@, r.x@, r.xo@, r.dx@, r.up@, r.down@]
}

/// The texts of each row.
pub open spec fn text_rows(rows: Seq<BinRow<String>>) -> Seq<Seq<Seq<char>>> {
    rows.map_values(|r: BinRow<String>| text_row(r))
}

/// The text of each string.
pub open spec fn string_views(v: Seq<String>) -> Seq<Seq<char>> {
    v.map_values(|s: String| s@)
}

/// The layout of the table whose lines are the ranges `lines` of `v`.
fn find_table_layout(v: &[char], lines: &Vec<(usize, usize)>, q: Quantity) -> (r: Option<
    TableLayout,
>)
    requires
        ranges_within(lines@, 0, v@.len() as int),
    ensures
        r == table_layout(pieces_of(v@, lines@), q),
        r matches Some(l) ==> l.header_line < lines@.len(),
{
    let ghost ls = pieces_of(v@, lines@);
    let up_t = chars_of(q.up_col());
    let down_t = chars_of(q.down_col());
    let mut h: usize = 0;
    while h < lines.len()
        invariant
            ls == pieces_of(v@, lines@),
            ranges_within(lines@, 0, v@.len() as int),
            up_t@ == up_col_name(q),
            down_t@ == down_col_name(q),
            first_table_header(ls, q, h as int) == first_table_header(ls, q, 0),
        decreases lines@.len() - h,
    {
        let (a, b) = lines[h];
        let fr = split_ranges(v, a, b, '\t');
        assert(ls[h as int] == v@.subrange(a as int, b as int));
        let u = find_col_in(v, &fr, &up_t, 0);
        let d = find_col_in(v, &fr, &down_t, 0);
        if u.is_some() && d.is_some() {
            let xu = find_col_in(v, &fr, &chars_of("Xu"), 0);
            let x = find_col_in(v, &fr, &chars_of("X"), 0);
            let xo = find_col_in(v, &fr, &chars_of("Xo"), 0);
            let dx = find_col_in(v, &fr, &chars_of("dX"), 0);
            match (xu, x, xo, dx, u, d) {
                (Some(a), Some(b), Some(c), Some(d), Some(e), Some(g)) => {
                    return Some(
                        TableLayout { header_line: h, xu: a, x: b, xo: c, dx: d, up: e, down: g },
                    );
                },
                _ => {
                    return None;
                },
            }
        }
        h = h + 1;
    }
    None
}

/// The largest column index of a layout.
fn layout_max(l: TableLayout) -> (m: usize)
    ensures
        m == max_col(l),
{
    let m1 = if l.xu >= l.x { l.xu } else { l.x };
    let m2 = if m1 >= l.xo { m1 } else { l.xo };
    let m3 = if m2 >= l.dx { m2 } else { l.dx };
    let m4 = if m3 >= l.up { m3 } else { l.up };
    if m4 >= l.down { m4 } else { l.down }
}

/// Reads the table of an export from its text: the header lines, up to and
/// including the first line that names both columns of `quantity` (with
/// `Xu`, `X`, `Xo` and `dX`), and, from each later line that is not blank and
/// has a field for every column, the trimmed channel bounds and the
/// upstream and downstream numbers, trimmed and with decimal commas written
/// as points.
pub fn parse_table_text(content: &str, quantity: Quantity) -> (r: Result<
    FracTable<String>,
    TableError,
>)
    ensures
        ({
            let lines = lines_seq(content@);
            match table_layout(lines, quantity) {
                None => r == Err::<FracTable<String>, TableError>(TableError::MissingColumns),
                Some(l) => r matches Ok(t) && string_views(t.header_lines@) == lines.take(
                    l.header_line + 1,
                ) && text_rows(t.rows@) == rows_of_lines(lines.skip(l.header_line + 1), l),
            }
        }),
        ({
            let lines = lines_seq(content@);
            table_layout(lines, quantity) matches Some(l) ==> r matches Ok(t) && t.rows@.len()
                == rows_of_lines(lines.skip(l.header_line + 1), l).len() && forall|i: int|
                0 <= i < t.rows@.len() ==> #[trigger] rows_of_lines(
                    lines.skip(l.header_line + 1),
                    l,
                )[i] == seq![
                    t.rows@[i].xu@,
                    t.rows@[i].x@,
                    t.rows@[i].xo@,
                    t.rows@[i].dx@,
                    t.rows@[i].up@,
                    t.rows@[i].down@,
                ]
        }),
{
    let v = chars_of(content);
    let lines = line_ranges(&v);
    let ghost ls = pieces_of(v@, lines@);
    let layout = match find_table_layout(&v, &lines, quantity) {
        Some(l) => l,
        None => {
            return Err(TableError::MissingColumns);
        },
    };
    let hl = layout.header_line;
    let mut header_lines: Vec<String> = Vec::new();
    let mut i: usize = 0;
    while i <= hl
        invariant
            hl < lines.len(),
            ls == pieces_of(v@, lines@),
            ranges_within(lines@, 0, v@.len() as int),
            i <= hl + 1,
            string_views(header_lines@) == ls.take(i as int),
        decreases hl + 1 - i,
    {
        let (a, b) = lines[i];
        let s = string_of(&v, a, b);
        let ghost before = header_lines@;
        header_lines.push(s);
        assert(string_views(header_lines@) =~= string_views(before).push(s@));
        assert(ls.take(i + 1) =~= ls.take(i as int).push(ls[i as int]));
        i = i + 1;
    }
    let ghost data = ls.skip(hl + 1);
    let m = layout_max(layout);
    let mut rows: Vec<BinRow<String>> = Vec::new();
    let mut k: usize = hl + 1;
    assert(data.take(0) =~= Seq::<Seq<char>>::empty());
    while k < lines.len()
        invariant
            hl < k <= lines@.len(),
            ls == pieces_of(v@, lines@),
            ranges_within(lines@, 0, v@.len() as int),
            data == ls.skip(hl + 1),
            m == max_col(layout),
            text_rows(rows@) == rows_of_lines(data.take(k - hl - 1), layout),
        decreases lines@.len() - k,
    {
        let (a, b) = lines[k];
        let ghost line = v@.subrange(a as int, b as int);
        assert(ls[k as int] == line);
        assert(data.take(k + 1 - hl - 1).drop_last() =~= data.take(k - hl - 1));
        assert(data.take(k + 1 - hl - 1).last() == line);
        if !is_blank(&v, a, b) {
            let fr = split_ranges(&v, a, b, '\t');
            let ghost f = pieces_of(v@, fr@);
            if fr.len() > m {
                let (a0, b0) = fr[layout.xu];
                let (a1, b1) = fr[layout.x];
                let (a2, b2) = fr[layout.xo];
                let (a3, b3) = fr[layout.dx];
                let (a4, b4) = fr[layout.up];
                let (a5, b5) = fr[layout.down];
                assert(f[layout.xu as int] == v@.subrange(a0 as int, b0 as int));
                assert(f[layout.x as int] == v@.subrange(a1 as int, b1 as int));
                assert(f[layout.xo as int] == v@.subrange(a2 as int, b2 as int));
                assert(f[layout.dx as int] == v@.subrange(a3 as int, b3 as int));
                assert(f[layout.up as int] == v@.subrange(a4 as int, b4 as int));
                assert(f[layout.down as int] == v@.subrange(a5 as int, b5 as int));
                let row = BinRow {
                    xu: trimmed_string(&v, a0, b0),
                    x: trimmed_string(&v, a1, b1),
                    xo: trimmed_string(&v, a2, b2),
                    dx: trimmed_string(&v, a3, b3),
                    up: decimal_string(&v, a4, b4),
                    down: decimal_string(&v, a5, b5),
                };
                let ghost before = rows@;
                rows.push(row);
                assert(text_rows(rows@) =~= text_rows(before).push(text_row(row)));
                assert(text_row(row) =~= row_of_line(line, layout)->Some_0);
            }
        }
        k = k + 1;
    }
    assert(data.take(lines@.len() - hl - 1) =~= data);
    assert forall|i: int| 0 <= i < rows@.len() implies #[trigger] text_rows(rows@)[i] == seq![
        rows@[i].xu@,
        rows@[i].x@,
        rows@[i].xo@,
        rows@[i].dx@,
        rows@[i].up@,
        rows@[i].down@,
    ] by {}
    Ok(FracTable { header_lines, rows })
}

/// The line names the upstream and the downstream column of `q`
/// (`dCmup`/`dCmdown` for mass, `dCnup`/`dCndown` for count).
pub open spec fn names_quantity_cols(line: Seq<char>, q: Quantity) -> bool {
    let f = split_seq(line, '\t');
    if q == Quantity::Mass {
        col_of(f, "dCmup"@) is Some && col_of(f, "dCmdown"@) is Some
    } else {
        col_of(f, "dCnup"@) is Some && col_of(f, "dCndown"@) is Some
    }
}

proof fn lemma_first_table_header(lines: Seq<Seq<char>>, q: Quantity, i: int)
    requires
        0 <= i <= lines.len(),
        lines.len() <= usize::MAX,
    ensures
        first_table_header(lines, q, i) matches Some(h) ==> i <= h < lines.len()
            && names_quantity_cols(lines[h as int], q) && forall|j: int|
            i <= j < h ==> !names_quantity_cols(#[trigger] lines[j], q),
        first_table_header(lines, q, i) is None ==> forall|j: int|
            i <= j < lines.len() ==> !names_quantity_cols(#[trigger] lines[j], q),
    decreases lines.len() - i,
{
    if i < lines.len() && !is_table_header(lines[i], q) {
        lemma_first_table_header(lines, q, i + 1);
        assert(!names_quantity_cols(lines[i], q));
        assert forall|j: int|
            i <= j < lines.len() && names_quantity_cols(#[trigger] lines[j], q) implies j > i by {}
    }
}

/// The table header is the first line that names both columns of the
/// quantity, and each column of the layout is the first field of that line
/// with the column's name: `Xu`, `X`, `Xo`, `dX`, and the upstream and
/// downstream columns of the quantity. There is no layout when no line
/// names both columns of the quantity, or when the first that does lacks
/// one of `Xu`, `X`, `Xo`, `dX`.
pub proof fn table_columns_are_named(lines: Seq<Seq<char>>, q: Quantity)
    requires
        lines.len() <= usize::MAX,
    ensures
        table_layout(lines, q) matches Some(l) ==> {
            let hf = split_seq(lines[l.header_line as int], '\t');
            &&& l.header_line < lines.len()
            &&& names_quantity_cols(lines[l.header_line as int], q)
            &&& forall|j: int| 0 <= j < l.header_line ==> !names_quantity_cols(#[trigger] lines[j], q)
            &&& col_of(hf, "Xu"@) == Some(l.xu)
            &&& col_of(hf, "X"@) == Some(l.x)
            &&& col_of(hf, "Xo"@) == Some(l.xo)
            &&& col_of(hf, "dX"@) == Some(l.dx)
            &&& col_of(hf, if q == Quantity::Mass { "dCmup"@ } else { "dCnup"@ }) == Some(l.up)
            &&& col_of(hf, if q == Quantity::Mass { "dCmdown"@ } else { "dCndown"@ }) == Some(
                l.down,
            )
        },
        table_layout(lines, q) is None ==> {
            ||| forall|j: int| 0 <= j < lines.len() ==> !names_quantity_cols(#[trigger] lines[j], q)
            ||| exists|h: int|
                {
                    &&& 0 <= h < lines.len()
                    &&& #[trigger] names_quantity_cols(lines[h], q)
                    &&& forall|j: int| 0 <= j < h ==> !names_quantity_cols(#[trigger] lines[j], q)
                    &&& {
                        let hf = split_seq(lines[h], '\t');
                        ||| col_of(hf, "Xu"@) is None
                        ||| col_of(hf, "X"@) is None
                        ||| col_of(hf, "Xo"@) is None
                        ||| col_of(hf, "dX"@) is None
                    }
                }
        },
{
    lemma_first_table_header(lines, q, 0);
    if let Some(h) = first_table_header(lines, q, 0) {
        assert(names_quantity_cols(lines[h as int], q));
    }
}

/// A line after the table header gives a row exactly when it is not blank
/// and has a field in every column of the layout; the row is the trimmed
/// `Xu`, `X`, `Xo` and `dX` fields, in that order, then the upstream and
/// downstream fields trimmed and with decimal commas written as points, and
/// it comes after the rows of the lines before it. Any other line gives no
/// row.
pub proof fn table_line_gives_row(before: Seq<Seq<char>>, line: Seq<char>, l: TableLayout)
    ensures
        rows_of_lines(Seq::empty(), l) == Seq::<Seq<Seq<char>>>::empty(),
        ({
            let f = split_seq(line, '\t');
            if trim_seq(line).len() > 0 && l.xu < f.len() && l.x < f.len() && l.xo < f.len() && l.dx
                < f.len() && l.up < f.len() && l.down < f.len() {
                rows_of_lines(before.push(line), l) == rows_of_lines(before, l).push(
                    seq![
                        trim_seq(f[l.xu as int]),
                        trim_seq(f[l.x as int]),
                        trim_seq(f[l.xo as int]),
                        trim_seq(f[l.dx as int]),
                        decimal_text(f[l.up as int]),
                        decimal_text(f[l.down as int]),
                    ],
                )
            } else {
                rows_of_lines(before.push(line), l) == rows_of_lines(before, l)
            }
        }),
{
    assert(before.push(line).drop_last() =~= before);
}

/// Why two tables could not be merged.
#[derive(Clone, Copy, Debug, PartialEq, Eq, Structural)]
pub enum MergeError {
    /// The tables hold different numbers of rows.
    RowCountMismatch { up: usize, down: usize },
    /// The channel bounds of the two tables differ first at this row
    /// (counted from zero).
    BinMismatch { row: usize },
}

/// The first row at or after `i` whose channel keys differ.
pub open spec fn first_key_mismatch<V>(up: Seq<BinRow<V>>, down: Seq<BinRow<V>>, i: int) -> Option<
    usize,
>
    decreases up.len() - i,
{
    if i < 0 || i >= up.len() || i >= down.len() {
        None
    } else if bin_key_of(up[i]) != bin_key_of(down[i]) {
        Some(i as usize)
    } else {
        first_key_mismatch(up, down, i + 1)
    }
}

/// The merged row: the channel and upstream value of `u`, the downstream
/// value of `d`.
pub open spec fn merged_row<V>(u: BinRow<V>, d: BinRow<V>) -> BinRow<V> {
    BinRow { xu: u.xu, x: u.x, xo: u.xo, dx: u.dx, up: u.up, down: d.down }
}

/// Merges the rows of the upstream table with those of the downstream
/// table, row by row: each merged row keeps the channel bounds and the
/// upstream value of the upstream row and takes the downstream value of the
/// downstream row. The tables must hold as many rows, with the same channel
/// bounds row by row.
pub fn merge_rows<V: Copy>(up: &[BinRow<V>], down: &[BinRow<V>]) -> (r: Result<
    Vec<BinRow<V>>,
    MergeError,
>)
    ensures
        up@.len() != down@.len() ==> r == Err::<Vec<BinRow<V>>, MergeError>(
            MergeError::RowCountMismatch { up: up@.len() as usize, down: down@.len() as usize },
        ),
        up@.len() == down@.len() ==> match first_key_mismatch(up@, down@, 0) {
            Some(i) => r == Err::<Vec<BinRow<V>>, MergeError>(MergeError::BinMismatch { row: i }),
            None => r matches Ok(m) && m@.len() == up@.len() && forall|k: int|
                0 <= k < up@.len() ==> m@[k] == merged_row(#[trigger] up@[k], down@[k]),
        },
{
    if up.len() != down.len() {
        return Err(MergeError::RowCountMismatch { up: up.len(), down: down.len() });
    }
    let mut out: Vec<BinRow<V>> = Vec::new();
    let mut i: usize = 0;
    while i < up.len()
        invariant
            up@.len() == down@.len(),
            i <= up@.len(),
            first_key_mismatch(up@, down@, i as int) == first_key_mismatch(up@, down@, 0),
            out@.len() == i,
            forall|k: int| 0 <= k < i ==> out@[k] == merged_row(#[trigger] up@[k], down@[k]),
        decreases up@.len() - i,
    {
        let u = &up[i];
        let d = &down[i];
        if u.bin_key() != d.bin_key() {
            return Err(MergeError::BinMismatch { row: i });
        }
        out.push(
            BinRow {
                xu: u.xu.clone(),
                x: u.x.clone(),
                xo: u.xo.clone(),
                dx: u.dx.clone(),
                up: u.up,
                down: d.down,
            },
        );
        i = i + 1;
    }
    Ok(out)
}


/// Merging pairs channels by position: when no row's channel keys differ,
/// row `k` of both tables describes the same channel, and the merged row
/// keeps that channel, the upstream value of the upstream table and the
/// downstream value of the downstream table. When a mismatch is reported
/// at row `i`, the keys agree on every earlier row and differ at `i`.
pub proof fn merge_pairs_rows_by_channel<V>(up: Seq<BinRow<V>>, down: Seq<BinRow<V>>)
    requires
        up.len() == down.len(),
        up.len() <= usize::MAX,
    ensures
        first_key_mismatch(up, down, 0) is None ==> forall|k: int|
            0 <= k < up.len() ==> {
                &&& bin_key_of(#[trigger] up[k]) == bin_key_of(down[k])
                &&& bin_key_of(merged_row(up[k], down[k])) == bin_key_of(up[k])
                &&& merged_row(up[k], down[k]).up == up[k].up
                &&& merged_row(up[k], down[k]).down == down[k].down
            },
        first_key_mismatch(up, down, 0) matches Some(i) ==> {
            &&& i < up.len()
            &&& bin_key_of(up[i as int]) != bin_key_of(down[i as int])
            &&& forall|k: int| 0 <= k < i ==> bin_key_of(#[trigger] up[k]) == bin_key_of(down[k])
        },
{
    lemma_first_key_mismatch(up, down, 0);
}

/// What the search for the first mismatching row finds, from row `i` on.
proof fn lemma_first_key_mismatch<V>(up: Seq<BinRow<V>>, down: Seq<BinRow<V>>, i: int)
    requires
        up.len() == down.len(),
        up.len() <= usize::MAX,
        0 <= i,
    ensures
        first_key_mismatch(up, down, i) is None ==> forall|k: int|
            i <= k < up.len() ==> bin_key_of(#[trigger] up[k]) == bin_key_of(down[k]),
        first_key_mismatch(up, down, i) matches Some(m) ==> {
            &&& i <= m < up.len()
            &&& bin_key_of(up[m as int]) != bin_key_of(down[m as int])
            &&& forall|k: int| i <= k < m ==> bin_key_of(#[trigger] up[k]) == bin_key_of(down[k])
        },
    decreases up.len() - i,
{
    if i < up.len() && bin_key_of(up[i]) == bin_key_of(down[i]) {
        lemma_first_key_mismatch(up, down, i + 1);
    }
}

/// Length of the longest common prefix of `a` and `b`.
pub open spec fn common_prefix_len(a: Seq<char>, b: Seq<char>) -> nat
    decreases a.len(),
{
    if a.len() == 0 || b.len() == 0 || a[0] != b[0] {
        0
    } else {
        1 + common_prefix_len(a.drop_first(), b.drop_first())
    }
}

/// `s` without its trailing `_` and `-` characters.
pub open spec fn trim_end_separators(s: Seq<char>) -> Seq<char>
    decreases s.len(),
{
    if s.len() > 0 && (s.last() == '_' || s.last() == '-') {
        trim_end_separators(s.drop_last())
    } else {
        s
    }
}

/// The name proposed for the merged file of two files with stems `up` and
/// `down`: their common prefix without trailing `_` or `-` (or, if that is
/// empty, the upstream stem), followed by `_merged.txt`.
pub open spec fn merged_name(up: Seq<char>, down: Seq<char>) -> Seq<char> {
    let common = trim_end_separators(up.take(common_prefix_len(up, down) as int));
    let base = if common.len() == 0 {
        up
    } else {
        common
    };
    base + "_merged.txt"@
}

/// The name proposed for the merged file of two files with stems
/// `stem_up` and `stem_down`.
pub fn merged_output_name(stem_up: &str, stem_down: &str) -> (r: String)
    ensures
        r@ == merged_name(stem_up@, stem_down@),
{
    let a = chars_of(stem_up);
    let b = chars_of(stem_down);
    let mut k: usize = 0;
    assert(a@.skip(0) =~= a@);
    assert(b@.skip(0) =~= b@);
    while k < a.len() && k < b.len() && a[k] == b[k]
        invariant
            k <= a@.len(),
            k <= b@.len(),
            forall|j: int| 0 <= j < k ==> a@[j] == b@[j],
            common_prefix_len(a@, b@) == k + common_prefix_len(a@.skip(k as int), b@.skip(k as int)),
        decreases a@.len() - k,
    {
        assert(a@.skip(k as int).drop_first() =~= a@.skip(k + 1));
        assert(b@.skip(k as int).drop_first() =~= b@.skip(k + 1));
        k = k + 1;
    }
    assert(common_prefix_len(a@.skip(k as int), b@.skip(k as int)) == 0);
    let mut e = k;
    assert(a@.take(k as int).subrange(0, e as int) =~= a@.take(k as int));
    while e > 0 && (a[e - 1] == '_' || a[e - 1] == '-')
        invariant
            e <= k <= a@.len(),
            trim_end_separators(a@.take(e as int)) == trim_end_separators(a@.take(k as int)),
        decreases e,
    {
        assert(a@.take(e as int).drop_last() =~= a@.take(e - 1));
        e = e - 1;
    }
    assert(trim_end_separators(a@.take(e as int)) == a@.take(e as int));
    let mut s = if e == 0 {
        string_of(&a, 0, a.len())
    } else {
        string_of(&a, 0, e)
    };
    assert(a@.subrange(0, a@.len() as int) =~= a@);
    assert(a@.subrange(0, e as int) =~= a@.take(e as int));
    s.append("_merged.txt");
    s
}

/// A single path component that is a file name on every platform: not
/// empty, without separators, not beginning with a drive, and neither `.`
/// nor `..`.
pub open spec fn is_component_name(n: Seq<char>) -> bool {
    &&& n.len() > 0
    &&& forall|i: int| 0 <= i < n.len() ==> !is_sep_char(#[trigger] n[i])
    &&& !starts_with_drive(n)
    &&& n != seq!['.']
    &&& n != seq!['.', '.']
}

/// Index of the last `.` in `n`, or -1 where there is none.
pub open spec fn last_dot(n: Seq<char>) -> int
    decreases n.len(),
{
    if n.len() == 0 {
        -1
    } else if n.last() == '.' {
        n.len() - 1
    } else {
        last_dot(n.drop_last())
    }
}

/// The stem of a file name, as `Path::file_stem` cuts it: the name up to its
/// last `.`, or the whole name where it has no `.` after its first
/// character.
pub open spec fn name_stem(n: Seq<char>) -> Seq<char> {
    if last_dot(n) > 0 {
        n.take(last_dot(n))
    } else {
        n
    }
}

/// Index of the last `/` in `t`, or -1 where there is none.
pub open spec fn last_slash(t: Seq<char>) -> int
    decreases t.len(),
{
    if t.len() == 0 {
        -1
    } else if t.last() == '/' {
        t.len() - 1
    } else {
        last_slash(t.drop_last())
    }
}

/// The file stem of a path with text `t`, where every platform reads it the
/// same: `Some(None)` for the empty path (no file name), `Some(Some(stem))`
/// for a path that is a file name, or a folder then `/` then a file name
/// (the folder not beginning with two separators, as network and verbatim
/// paths do); `None` for other paths.
pub open spec fn known_stem(t: Seq<char>) -> Option<Option<Seq<char>>> {
    let k = last_slash(t);
    let d = t.take(k);
    let n = t.skip(k + 1);
    if t.len() == 0 {
        Some(None)
    } else if is_component_name(t) {
        Some(Some(name_stem(t)))
    } else if k >= 0 && is_component_name(n) && !(d.len() >= 2 && is_sep_char(d[0]) && is_sep_char(
        d[1],
    )) {
        Some(Some(name_stem(n)))
    } else {
        None
    }
}

/// The text of an optional string.
pub open spec fn opt_view(r: Option<String>) -> Option<Seq<char>> {
    match r {
        Some(s) => Some(s@),
        None => None,
    }
}

/// A stem found is never empty, and for a path whose stem every platform
/// reads the same it is that stem.
pub open spec fn stem_fits(path: Option<Seq<char>>, stem: Option<Seq<char>>) -> bool {
    &&& (stem matches Some(s) ==> s.len() > 0)
    &&& (path matches Some(t) ==> (known_stem(t) matches Some(k) ==> stem == k))
}

/// The stem used for the proposed name of the file with path text `path`:
/// its stem where it has one, `fallback` where it has no file name, and
/// `None` where the platform decides.
pub open spec fn proposed_stem(path: Option<Seq<char>>, fallback: Seq<char>) -> Option<Seq<char>> {
    match path {
        Some(t) => match known_stem(t) {
            Some(Some(s)) => Some(s),
            Some(None) => Some(fallback),
            None => None,
        },
        None => None,
    }
}

/// `s` may stand as the stem of a file with path text `path`: it is not
/// empty, and it is the proposed stem wherever that is known.
pub open spec fn stem_used(s: Seq<char>, path: Option<Seq<char>>, fallback: Seq<char>) -> bool {
    s.len() > 0 && (proposed_stem(path, fallback) matches Some(k) ==> s == k)
}

/// The name proposed for the merged file of the files at `up_path` and
/// `down_path`: [`merged_output_name`] of their stems, `up` and `down`
/// standing for a stem that cannot be had.
pub fn default_output_name(up_path: &PathBuf, down_path: &PathBuf) -> (r: String)
    ensures
        exists|su: Seq<char>, sd: Seq<char>|
            stem_used(su, path_text(*up_path), "up"@) && stem_used(sd, path_text(*down_path), "down"@)
                && r@ == #[trigger] merged_name(su, sd),
        r@.len() >= "_merged.txt"@.len(),
        r@.subrange(r@.len() - "_merged.txt"@.len(), r@.len() as int) == "_merged.txt"@,
{
    let found_up = file_stem_text(up_path);
    let found_down = file_stem_text(down_path);
    proof {
        reveal_strlit("up");
        reveal_strlit("down");
    }
    let stem_up = match found_up {
        Some(s) => s,
        None => String::from_str("up"),
    };
    let stem_down = match found_down {
        Some(s) => s,
        None => String::from_str("down"),
    };
    let r = merged_output_name(stem_up.as_str(), stem_down.as_str());
    let ghost a = stem_up@;
    let ghost b = stem_down@;
    assert(stem_used(a, path_text(*up_path), "up"@));
    assert(stem_used(b, path_text(*down_path), "down"@));
    assert(r@.subrange(r@.len() - "_merged.txt"@.len(), r@.len() as int) =~= "_merged.txt"@);
    assert(r@ == merged_name(a, b));
    r
}

/// `Path::file_stem` as text (with `OsStr::to_str`): the file name without
/// its final extension, or `None` where the path has no file name or the
/// stem is not valid Unicode. A file name, and so a stem, is never empty.
/// Where the path's text is empty, a file name, or a folder then `/` then a
/// file name (the folder not beginning with two separators), every platform
/// reads the same stem: the name up to its last `.`, or the whole name where
/// it has no `.` after its first character (`None` for the empty path). For
/// other paths the platform's separators decide, and nothing more is said.
#[verifier::external_body]
fn file_stem_text(p: &PathBuf) -> (r: Option<String>)
    ensures
        stem_fits(path_text(*p), opt_view(r)),
{
    match p.file_stem() {
        Some(stem) => match stem.to_str() {
            Some(s) => Some(s.to_string()),
            None => None,
        },
        None => None,
    }
}

/// Which files a choice made in a multiple-selection list picks.
#[derive(Clone, Copy, Debug, PartialEq, Eq, Structural)]
pub enum FilePick {
    /// Exactly two were chosen: these positions, in order.
    Pair(usize, usize),
    /// Nothing was chosen: give up.
    Cancel,
    /// Some other number was chosen: ask again.
    Retry(usize),
}

/// What a selection of files to merge means: exactly two picks them,
/// none cancels, any other number asks again.
pub fn two_file_pick(selections: &[usize]) -> (r: FilePick)
    ensures
        selections@.len() == 2 ==> r == FilePick::Pair(selections@[0], selections@[1]),
        selections@.len() == 0 ==> r == FilePick::Cancel,
        selections@.len() != 2 && selections@.len() != 0 ==> r == FilePick::Retry(
            selections@.len() as usize,
        ),
{
    let n = selections.len();
    if n == 2 {
        FilePick::Pair(selections[0], selections[1])
    } else if n == 0 {
        FilePick::Cancel
    } else {
        FilePick::Retry(n)
    }
}

} // verus!
