//! Character-level text handling: whitespace, trimming, splitting into
//! fields and lines, and the small answers typed at prompts.

use vstd::prelude::*;

verus! {

/// `String::push` appends one character at the end of the string.
pub assume_specification[ String::push ](s: &mut String, ch: char)
    ensures
        final(s)@ == old(s)@.push(ch),
;

/// A Unicode `White_Space` character, the set that `char::is_whitespace`
/// and `str::trim` use.
pub open spec fn is_ws(c: char) -> bool {
    let u = c as u32;
    ||| 9 <= u <= 13
    ||| u == 32
    ||| u == 0x85
    ||| u == 0xA0
    ||| u == 0x1680
    ||| 0x2000 <= u <= 0x200A
    ||| u == 0x2028
    ||| u == 0x2029
    ||| u == 0x202F
    ||| u == 0x205F
    ||| u == 0x3000
}

/// Executable test for [`is_ws`].
pub fn is_whitespace(c: char) -> (r: bool)
    ensures
        r == is_ws(c),
{
    let u = c as u32;
    (9 <= u && u <= 13) || u == 32 || u == 0x85 || u == 0xA0 || u == 0x1680 || (0x2000 <= u
        && u <= 0x200A) || u == 0x2028 || u == 0x2029 || u == 0x202F || u == 0x205F || u == 0x3000
}

/// `s` without its leading whitespace.
pub open spec fn trim_start_seq(s: Seq<char>) -> Seq<char>
    decreases s.len(),
{
    if s.len() > 0 && is_ws(s[0]) {
        trim_start_seq(s.drop_first())
    } else {
        s
    }
}

/// `s` without its trailing whitespace.
pub open spec fn trim_end_seq(s: Seq<char>) -> Seq<char>
    decreases s.len(),
{
    if s.len() > 0 && is_ws(s.last()) {
        trim_end_seq(s.drop_last())
    } else {
        s
    }
}

/// `s` without leading and trailing whitespace, as `str::trim` gives it.
pub open spec fn trim_seq(s: Seq<char>) -> Seq<char> {
    trim_end_seq(trim_start_seq(s))
}

/// The characters of a string, in order.
pub fn chars_of(s: &str) -> (v: Vec<char>)
    ensures
        v@ == s@,
{
    let mut v: Vec<char> = Vec::new();
    for c in it: s.chars()
        invariant
            v@ == it.seq().take(it.index() as int),
            it.seq() == s@,
    {
        v.push(c);
    }
    v
}

/// A string made of the characters `v[lo..hi]`.
pub fn string_of(v: &[char], lo: usize, hi: usize) -> (s: String)
    requires
        lo <= hi <= v@.len(),
    ensures
        s@ == v@.subrange(lo as int, hi as int),
{
    let mut s = String::new();
    let mut i = lo;
    while i < hi
        invariant
            lo <= i <= hi <= v@.len(),
            s@ == v@.subrange(lo as int, i as int),
        decreases hi - i,
    {
        s.push(v[i]);
        assert(v@.subrange(lo as int, i + 1) == v@.subrange(lo as int, i as int).push(v@[i as int]));
        i = i + 1;
    }
    s
}


/// Bounds of `v[lo..hi]` with its leading and trailing whitespace removed.
pub fn trim_bounds(v: &[char], lo: usize, hi: usize) -> (r: (usize, usize))
    requires
        lo <= hi <= v@.len(),
    ensures
        lo <= r.0 <= r.1 <= hi,
        v@.subrange(r.0 as int, r.1 as int) == trim_seq(v@.subrange(lo as int, hi as int)),
{
    let mut a = lo;
    while a < hi && is_whitespace(v[a])
        invariant
            lo <= a <= hi <= v@.len(),
            trim_start_seq(v@.subrange(a as int, hi as int)) == trim_start_seq(
                v@.subrange(lo as int, hi as int),
            ),
        decreases hi - a,
    {
        assert(v@.subrange(a as int, hi as int).drop_first() == v@.subrange(a + 1, hi as int));
        a = a + 1;
    }
    let ghost start = v@.subrange(a as int, hi as int);
    assert(trim_start_seq(start) == start);
    let mut b = hi;
    while b > a && is_whitespace(v[b - 1])
        invariant
            lo <= a <= b <= hi <= v@.len(),
            trim_end_seq(v@.subrange(a as int, b as int)) == trim_end_seq(start),
        decreases b - a,
    {
        assert(v@.subrange(a as int, b as int).drop_last() == v@.subrange(a as int, b - 1));
        b = b - 1;
    }
    (a, b)
}

/// Whether `t` begins with `p`.
pub open spec fn starts_with_seq(t: Seq<char>, p: Seq<char>) -> bool {
    p.len() <= t.len() && t.subrange(0, p.len() as int) == p
}

/// Whether `p` occurs somewhere inside `t`.
pub open spec fn contains_seq(t: Seq<char>, p: Seq<char>) -> bool {
    exists|k: int| 0 <= k && k + p.len() <= t.len() && #[trigger] t.subrange(k, k + p.len()) == p
}

/// Whether `v[lo..hi]` begins with `p`.
pub fn has_prefix(v: &[char], lo: usize, hi: usize, p: &[char]) -> (r: bool)
    requires
        lo <= hi <= v@.len(),
    ensures
        r == starts_with_seq(v@.subrange(lo as int, hi as int), p@),
{
    let ghost t = v@.subrange(lo as int, hi as int);
    let plen = p.len();
    if plen > hi - lo {
        return false;
    }
    let mut k: usize = 0;
    while k < plen
        invariant
            plen == p@.len(),
            lo + plen <= hi <= v.len(),
            t == v@.subrange(lo as int, hi as int),
            k <= plen,
            forall|j: int| 0 <= j < k ==> v@[lo + j] == p@[j],
        decreases plen - k,
    {
        if v[lo + k] != p[k] {
            assert(t.subrange(0, plen as int)[k as int] != p@[k as int]);
            return false;
        }
        k = k + 1;
    }
    assert(t.subrange(0, plen as int) =~= p@);
    true
}

/// Whether `p` occurs somewhere inside `v[lo..hi]`.
pub fn contains_in(v: &[char], lo: usize, hi: usize, p: &[char]) -> (r: bool)
    requires
        lo <= hi <= v@.len(),
    ensures
        r == contains_seq(v@.subrange(lo as int, hi as int), p@),
{
    let ghost t = v@.subrange(lo as int, hi as int);
    if p.len() > hi - lo {
        return false;
    }
    let mut k: usize = lo;
    while p.len() <= hi - k
        invariant
            lo <= k <= hi <= v@.len(),
            t == v@.subrange(lo as int, hi as int),
            p@.len() <= hi - lo,
            forall|j: int| 0 <= j < k - lo ==> #[trigger] t.subrange(j, j + p@.len()) != p@,
        decreases hi - k,
    {
        let mut m: usize = 0;
        let mut same = true;
        while m < p.len()
            invariant
                k + p@.len() <= hi <= v@.len(),
                m <= p@.len(),
                same == forall|j: int| 0 <= j < m ==> v@[k + j] == p@[j],
            decreases p@.len() - m,
        {
            if v[k + m] != p[m] {
                same = false;
            }
            m = m + 1;
        }
        let ghost off = k - lo;
        if same {
            assert(t.subrange(off as int, off + p@.len()) =~= p@);
            return true;
        }
        assert(t.subrange(off as int, off + p@.len()) != p@) by {
            let j = choose|j: int| 0 <= j < p@.len() && v@[k + j] != p@[j];
            assert(t.subrange(off as int, off + p@.len())[j] == v@[k + j]);
        }
        k = k + 1;
    }
    assert forall|j: int| 0 <= j && j + p@.len() <= t.len() implies #[trigger] t.subrange(
        j,
        j + p@.len(),
    ) != p@ by {}
    false
}


/// The pieces of `s` between occurrences of `sep`, as `str::split` with a
/// character pattern gives them (always at least one piece).
pub open spec fn split_seq(s: Seq<char>, sep: char) -> Seq<Seq<char>>
    decreases s.len(),
{
    if s.len() == 0 {
        seq![Seq::<char>::empty()]
    } else {
        let prev = split_seq(s.drop_last(), sep);
        if s.last() == sep {
            prev.push(Seq::<char>::empty())
        } else {
            prev.update(prev.len() - 1, prev.last().push(s.last()))
        }
    }
}

/// Splitting always gives at least one piece.
pub proof fn lemma_split_nonempty(s: Seq<char>, sep: char)
    ensures
        split_seq(s, sep).len() >= 1,
    decreases s.len(),
{
    if s.len() > 0 {
        lemma_split_nonempty(s.drop_last(), sep);
    }
}

/// `p` without one carriage return at its end.
pub open spec fn strip_cr(p: Seq<char>) -> Seq<char> {
    if p.len() > 0 && p.last() == '\r' {
        p.drop_last()
    } else {
        p
    }
}

/// The lines of `s` as `str::lines` gives them: split at `\n`, a `\r`
/// just before a `\n` dropped, and no final empty line after a last `\n`.
pub open spec fn lines_seq(s: Seq<char>) -> Seq<Seq<char>> {
    let pieces = split_seq(s, '\n');
    let n = pieces.len();
    let body = pieces.take(n - 1).map_values(|p: Seq<char>| strip_cr(p));
    if pieces.last().len() == 0 {
        body
    } else {
        body.push(pieces.last())
    }
}

/// The text that each range `(a, b)` of `rs` picks out of `v`.
pub open spec fn pieces_of(v: Seq<char>, rs: Seq<(usize, usize)>) -> Seq<Seq<char>> {
    rs.map_values(|r: (usize, usize)| v.subrange(r.0 as int, r.1 as int))
}

/// Every range of `rs` lies inside `lo..hi`.
pub open spec fn ranges_within(rs: Seq<(usize, usize)>, lo: int, hi: int) -> bool {
    forall|k: int| 0 <= k < rs.len() ==> lo <= (#[trigger] rs[k]).0 <= rs[k].1 <= hi
}

/// Ranges of the pieces of `v[lo..hi]` between occurrences of `sep`.
pub fn split_ranges(v: &[char], lo: usize, hi: usize, sep: char) -> (r: Vec<(usize, usize)>)
    requires
        lo <= hi <= v@.len(),
    ensures
        ranges_within(r@, lo as int, hi as int),
        pieces_of(v@, r@) == split_seq(v@.subrange(lo as int, hi as int), sep),
{
    let mut rs: Vec<(usize, usize)> = Vec::new();
    let mut start = lo;
    let mut i = lo;
    assert(v@.subrange(lo as int, lo as int) =~= Seq::<char>::empty());
    assert(pieces_of(v@, rs@).push(v@.subrange(start as int, i as int)) =~= split_seq(
        v@.subrange(lo as int, i as int),
        sep,
    ));
    while i < hi
        invariant
            lo <= start <= i <= hi <= v@.len(),
            ranges_within(rs@, lo as int, start as int),
            pieces_of(v@, rs@).push(v@.subrange(start as int, i as int)) == split_seq(
                v@.subrange(lo as int, i as int),
                sep,
            ),
        decreases hi - i,
    {
        let ghost prev = split_seq(v@.subrange(lo as int, i as int), sep);
        let ghost old_rs = rs@;
        assert(v@.subrange(lo as int, i + 1).drop_last() =~= v@.subrange(lo as int, i as int));
        assert(v@.subrange(lo as int, i + 1).last() == v@[i as int]);
        if v[i] == sep {
            let ghost old_start = start;
            rs.push((start, i));
            start = i + 1;
            assert(pieces_of(v@, rs@) =~= pieces_of(v@, old_rs).push(
                v@.subrange(old_start as int, i as int),
            ));
            assert(v@.subrange(start as int, i + 1) =~= Seq::<char>::empty());
            assert(pieces_of(v@, rs@).push(v@.subrange(start as int, i + 1)) =~= prev.push(
                Seq::<char>::empty(),
            ));
        } else {
            assert(v@.subrange(start as int, i + 1) =~= v@.subrange(start as int, i as int).push(
                v@[i as int],
            ));
            assert(pieces_of(v@, rs@).push(v@.subrange(start as int, i + 1)) =~= prev.update(
                prev.len() - 1,
                prev.last().push(v@[i as int]),
            ));
        }
        i = i + 1;
    }
    let ghost before = rs@;
    rs.push((start, hi));
    assert(pieces_of(v@, rs@) =~= pieces_of(v@, before).push(
        v@.subrange(start as int, hi as int),
    ));
    rs
}


/// Ranges of the lines of `v`, as `str::lines` would cut them.
pub fn line_ranges(v: &[char]) -> (r: Vec<(usize, usize)>)
    ensures
        ranges_within(r@, 0, v@.len() as int),
        pieces_of(v@, r@) == lines_seq(v@),
{
    let pieces = split_ranges(v, 0, v.len(), '\n');
    let ghost sp = split_seq(v@, '\n');
    assert(v@.subrange(0, v@.len() as int) =~= v@);
    proof {
        lemma_split_nonempty(v@, '\n');
    }
    let n = pieces.len();
    let ghost body = sp.take(n - 1).map_values(|p: Seq<char>| strip_cr(p));
    let mut out: Vec<(usize, usize)> = Vec::new();
    let mut k: usize = 0;
    while k + 1 < n
        invariant
            n == pieces@.len() == sp.len(),
            n >= 1,
            k < n,
            ranges_within(pieces@, 0, v@.len() as int),
            pieces_of(v@, pieces@) == sp,
            ranges_within(out@, 0, v@.len() as int),
            out@.len() == k,
            body.len() == n - 1,
            body == sp.take(n - 1).map_values(|p: Seq<char>| strip_cr(p)),
            pieces_of(v@, out@) == body.take(k as int),
        decreases n - k,
    {
        let (a, b) = pieces[k];
        assert(v@.subrange(a as int, b as int) == sp[k as int]);
        let ghost before = out@;
        if a < b && v[b - 1] == '\r' {
            out.push((a, b - 1));
            assert(v@.subrange(a as int, b - 1) =~= sp[k as int].drop_last());
        } else {
            out.push((a, b));
        }
        let (c, d) = out[k];
        assert(pieces_of(v@, out@) =~= pieces_of(v@, before).push(v@.subrange(c as int, d as int)));
        assert(body[k as int] == strip_cr(sp[k as int]));
        assert(v@.subrange(c as int, d as int) == strip_cr(sp[k as int]));
        assert(pieces_of(v@, out@) =~= body.take(k + 1));
        k = k + 1;
    }
    assert(body.take(k as int) =~= body);
    let (a, b) = pieces[n - 1];
    assert(v@.subrange(a as int, b as int) == sp.last());
    if a < b {
        let ghost before = out@;
        out.push((a, b));
        assert(pieces_of(v@, out@) =~= body.push(sp.last()));
    }
    out
}


/// A number as typed or exported, made ready for reading: trimmed, with a
/// decimal comma written as a point.
pub open spec fn decimal_text(s: Seq<char>) -> Seq<char> {
    trim_seq(s).map_values(|c: char| if c == ',' { '.' } else { c })
}

/// The text `v[lo..hi]` without leading and trailing whitespace.
pub fn trimmed_string(v: &[char], lo: usize, hi: usize) -> (s: String)
    requires
        lo <= hi <= v@.len(),
    ensures
        s@ == trim_seq(v@.subrange(lo as int, hi as int)),
{
    let (a, b) = trim_bounds(v, lo, hi);
    string_of(v, a, b)
}

/// The text `v[lo..hi]` trimmed and with every `,` written as `.`.
pub fn decimal_string(v: &[char], lo: usize, hi: usize) -> (s: String)
    requires
        lo <= hi <= v@.len(),
    ensures
        s@ == decimal_text(v@.subrange(lo as int, hi as int)),
{
    let (a, b) = trim_bounds(v, lo, hi);
    let ghost t = v@.subrange(a as int, b as int);
    let ghost want = t.map_values(|c: char| if c == ',' { '.' } else { c });
    let mut s = String::new();
    let mut i = a;
    while i < b
        invariant
            a <= i <= b <= v@.len(),
            t == v@.subrange(a as int, b as int),
            want == t.map_values(|c: char| if c == ',' { '.' } else { c }),
            s@ == want.take(i - a),
        decreases b - i,
    {
        let c = v[i];
        if c == ',' {
            s.push('.');
        } else {
            s.push(c);
        }
        assert(want.take(i + 1 - a) =~= want.take(i - a).push(want[i - a]));
        i = i + 1;
    }
    assert(want.take(b - a) =~= want);
    s
}

/// Whether `v[lo..hi]` holds nothing but whitespace.
pub fn is_blank(v: &[char], lo: usize, hi: usize) -> (r: bool)
    requires
        lo <= hi <= v@.len(),
    ensures
        r == (trim_seq(v@.subrange(lo as int, hi as int)).len() == 0),
{
    let (a, b) = trim_bounds(v, lo, hi);
    a == b
}

} // verus!
