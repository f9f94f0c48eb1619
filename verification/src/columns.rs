//! Finding named columns in the header of a tab-separated table.

use vstd::prelude::*;
use crate::text::{
    chars_of, has_prefix, pieces_of, ranges_within, starts_with_seq, trim_bounds, trim_seq,
};

verus! {

/// A header field names the column `target`: once trimmed, it begins with
/// `target` followed by a space or by `[` (as in `dCmup [mg/m³]`).
pub open spec fn col_matches(field: Seq<char>, target: Seq<char>) -> bool {
    let t = trim_seq(field);
    &&& starts_with_seq(t, target)
    &&& t.len() > target.len()
    &&& (t[target.len() as int] == ' ' || t[target.len() as int] == '[')
}

/// The index of the first field at or after `from` that names `target`.
pub open spec fn first_col_from(fields: Seq<Seq<char>>, target: Seq<char>, from: int) -> Option<
    usize,
>
    decreases fields.len() - from,
{
    if from < 0 || from >= fields.len() {
        None
    } else if col_matches(fields[from], target) {
        Some(from as usize)
    } else {
        first_col_from(fields, target, from + 1)
    }
}

/// A found column lies at or after `from`, names `target`, and no field
/// between `from` and it does; when none is found, no field at or after
/// `from` names `target`.
pub proof fn first_col_is_first_match(fields: Seq<Seq<char>>, target: Seq<char>, from: int)
    requires
        0 <= from,
        fields.len() <= usize::MAX,
    ensures
        first_col_from(fields, target, from) matches Some(i) ==> {
            &&& from <= i < fields.len()
            &&& col_matches(fields[i as int], target)
            &&& forall|j: int| from <= j < i ==> !col_matches(#[trigger] fields[j], target)
        },
        first_col_from(fields, target, from) is None ==> forall|j: int|
            from <= j < fields.len() ==> !col_matches(#[trigger] fields[j], target),
    decreases fields.len() - from,
{
    if from < fields.len() && !col_matches(fields[from], target) {
        first_col_is_first_match(fields, target, from + 1);
    }
}

/// Whether the field `v[lo..hi]` names the column `target`.
pub fn field_matches(v: &[char], lo: usize, hi: usize, target: &[char]) -> (r: bool)
    requires
        lo <= hi <= v@.len(),
    ensures
        r == col_matches(v@.subrange(lo as int, hi as int), target@),
{
    let (a, b) = trim_bounds(v, lo, hi);
    let tl = target.len();
    if b - a <= tl || !has_prefix(v, a, b, target) {
        return false;
    }
    let c = v[a + tl];
    assert(v@.subrange(a as int, b as int)[tl as int] == c);
    c == ' ' || c == '['
}

/// Index of the first field at or after `from` whose range in `v` names
/// `target`.
pub fn find_col_in(v: &[char], fields: &Vec<(usize, usize)>, target: &[char], from: usize) -> (r:
    Option<usize>)
    requires
        ranges_within(fields@, 0, v@.len() as int),
    ensures
        r == first_col_from(pieces_of(v@, fields@), target@, from as int),
{
    let ghost fs = pieces_of(v@, fields@);
    let mut i = from;
    while i < fields.len()
        invariant
            from <= i,
            fs == pieces_of(v@, fields@),
            ranges_within(fields@, 0, v@.len() as int),
            first_col_from(fs, target@, i as int) == first_col_from(fs, target@, from as int),
        decreases fields@.len() - i,
    {
        let (a, b) = fields[i];
        assert(fs[i as int] == v@.subrange(a as int, b as int));
        if field_matches(v, a, b, target) {
            return Some(i);
        }
        i = i + 1;
    }
    None
}

/// The view of each field.
pub open spec fn field_views(fields: Seq<&str>) -> Seq<Seq<char>> {
    fields.map_values(|f: &str| f@)
}

/// Index of the first field that names the column `target`: once trimmed it
/// begins with `target` followed by a space or `[`.
pub fn find_col(fields: &[&str], target: &str) -> (r: Option<usize>)
    ensures
        r == first_col_from(field_views(fields@), target@, 0),
{
    find_col_from(fields, target, 0)
}

/// Index of the first field at or after `from` that names the column
/// `target`.
pub fn find_col_from(fields: &[&str], target: &str, from: usize) -> (r: Option<usize>)
    ensures
        r == first_col_from(field_views(fields@), target@, from as int),
{
    let ghost fs = field_views(fields@);
    let t = chars_of(target);
    let mut i = from;
    while i < fields.len()
        invariant
            from <= i,
            fs == field_views(fields@),
            t@ == target@,
            first_col_from(fs, target@, i as int) == first_col_from(fs, target@, from as int),
        decreases fields@.len() - i,
    {
        let f = chars_of(fields[i]);
        assert(f@.subrange(0, f@.len() as int) =~= f@);
        if field_matches(&f, 0, f.len(), &t) {
            return Some(i);
        }
        i = i + 1;
    }
    None
}

} // verus!
