//! The decisions behind the console prompts: cancelling with `q`, reading
//! counts and numbers typed by the user, and naming output files.

use vstd::prelude::*;
use crate::exports::lowers_to_p;
use crate::text::{chars_of, decimal_string, decimal_text, string_of, trim_bounds, trim_seq};

verus! {

/// An answer that cancels: `q` or `Q`, with any whitespace around it.
pub open spec fn is_quit_text(s: Seq<char>) -> bool {
    trim_seq(s) == seq!['q'] || trim_seq(s) == seq!['Q']
}

/// Whether the answer typed at a prompt cancels it (`q`, in either case,
/// with surrounding whitespace ignored).
pub fn is_quit(input: &str) -> (r: bool)
    ensures
        r == is_quit_text(input@),
{
    let v = chars_of(input);
    let (a, b) = trim_bounds(&v, 0, v.len());
    assert(v@.subrange(0, v@.len() as int) =~= v@);
    if b - a == 1 && (v[a] == 'q' || v[a] == 'Q') {
        assert(v@.subrange(a as int, b as int) =~= seq![v@[a as int]]);
        true
    } else {
        let ghost t = v@.subrange(a as int, b as int);
        assert(seq!['q'].len() == 1 && seq!['q'][0] == 'q');
        assert(seq!['Q'].len() == 1 && seq!['Q'][0] == 'Q');
        if b - a == 1 {
            assert(t[0] == v@[a as int]);
        }
        assert(t != seq!['q'] && t != seq!['Q']);
        false
    }
}

/// An ASCII decimal digit.
pub open spec fn is_digit(c: char) -> bool {
    '0' <= c && c <= '9'
}

/// The value of a string of decimal digits.
pub open spec fn digits_value(s: Seq<char>) -> nat
    decreases s.len(),
{
    if s.len() == 0 {
        0
    } else {
        digits_value(s.drop_last()) * 10 + ((s.last() as u32) - ('0' as u32)) as nat
    }
}

/// The unsigned integer that `s` writes, as `str::parse::<usize>` reads it:
/// an optional `+`, then one or more ASCII digits, and a value that fits.
pub open spec fn usize_of_text(s: Seq<char>) -> Option<usize> {
    let d = digits_part(s);
    if d.len() > 0 && (forall|i: int| 0 <= i < d.len() ==> is_digit(#[trigger] d[i])) && digits_value(d)
        <= usize::MAX {
        Some(digits_value(d) as usize)
    } else {
        None
    }
}

/// The text after an optional leading `+`.
pub open spec fn digits_part(s: Seq<char>) -> Seq<char> {
    if s.len() > 0 && s[0] == '+' {
        s.drop_first()
    } else {
        s
    }
}

/// A string of digits is worth no less than any of its prefixes.
proof fn lemma_digits_prefix(s: Seq<char>, m: int)
    requires
        0 <= m <= s.len(),
    ensures
        digits_value(s.take(m)) <= digits_value(s),
    decreases s.len(),
{
    if m < s.len() {
        assert(s.drop_last().take(m) =~= s.take(m));
        lemma_digits_prefix(s.drop_last(), m);
    } else {
        assert(s.take(m) =~= s);
    }
}

/// Reads an unsigned integer as `str::parse::<usize>` does: an optional
/// `+`, then one or more ASCII digits, with a value no larger than
/// `usize::MAX`.
pub fn parse_usize(s: &str) -> (r: Option<usize>)
    ensures
        r == usize_of_text(s@),
{
    let v = chars_of(s);
    let n = v.len();
    let start: usize = if n > 0 && v[0] == '+' {
        1
    } else {
        0
    };
    let ghost d = v@.skip(start as int);
    assert(d =~= digits_part(s@));
    if start == n {
        return None;
    }
    let mut val: usize = 0;
    let mut k: usize = start;
    assert(d.take(0) =~= Seq::<char>::empty());
    while k < n
        invariant
            start <= k <= n == v@.len(),
            d == v@.skip(start as int),
            d == digits_part(s@),
            forall|j: int| 0 <= j < k - start ==> is_digit(#[trigger] d[j]),
            val == digits_value(d.take(k - start)),
        decreases n - k,
    {
        let c = v[k];
        assert(d[k - start] == c);
        if !('0' <= c && c <= '9') {
            assert(!is_digit(d[k - start]));
            assert(0 <= k - start < d.len());
            assert(!(forall|i: int| 0 <= i < d.len() ==> is_digit(#[trigger] d[i])));
            return None;
        }
        let dig = ((c as u32) - ('0' as u32)) as usize;
        assert(d.take(k + 1 - start).drop_last() =~= d.take(k - start));
        assert(digits_value(d.take(k + 1 - start)) == val * 10 + dig);
        if val > (usize::MAX - dig) / 10 {
            assert(val * 10 + dig > usize::MAX) by (nonlinear_arith)
                requires
                    val > (usize::MAX - dig) / 10,
                    dig <= 9,
            ;
            proof {
                lemma_digits_prefix(d, k + 1 - start);
            }
            assert(digits_value(d) > usize::MAX);
            return None;
        }
        val = val * 10 + dig;
        k = k + 1;
    }
    assert(d.take(n - start) =~= d);
    Some(val)
}

/// What an answer to a prompt for a count means.
#[derive(Clone, Copy, Debug, PartialEq, Eq, Structural)]
pub enum CountAnswer {
    /// The user cancelled.
    Quit,
    /// A count no smaller than the minimum.
    Count(usize),
    /// A count below the minimum: ask again.
    TooSmall,
    /// Not a count: ask again.
    Invalid,
}

/// Reads the answer to a prompt for a count of at least `min`: `q` cancels;
/// otherwise the trimmed answer must be an unsigned integer, and no smaller
/// than `min`.
pub fn count_answer(input: &str, min: usize) -> (r: CountAnswer)
    ensures
        is_quit_text(input@) ==> r == CountAnswer::Quit,
        !is_quit_text(input@) ==> r == match usize_of_text(trim_seq(input@)) {
            Some(n) => if n >= min {
                CountAnswer::Count(n)
            } else {
                CountAnswer::TooSmall
            },
            None => CountAnswer::Invalid,
        },
{
    if is_quit(input) {
        return CountAnswer::Quit;
    }
    let v = chars_of(input);
    let (a, b) = trim_bounds(&v, 0, v.len());
    assert(v@.subrange(0, v@.len() as int) =~= v@);
    let t = string_of(&v, a, b);
    match parse_usize(t.as_str()) {
        Some(n) => if n >= min {
            CountAnswer::Count(n)
        } else {
            CountAnswer::TooSmall
        },
        None => CountAnswer::Invalid,
    }
}

/// The number typed at a prompt, ready for reading as a decimal: `None`
/// when the answer cancels (`q`), otherwise the trimmed answer with a
/// decimal comma written as a point.
pub fn number_text(input: &str) -> (r: Option<String>)
    ensures
        is_quit_text(input@) ==> r is None,
        !is_quit_text(input@) ==> (r matches Some(s) && s@ == decimal_text(input@)),
{
    if is_quit(input) {
        return None;
    }
    let v = chars_of(input);
    assert(v@.subrange(0, v@.len() as int) =~= v@);
    Some(decimal_string(&v, 0, v.len()))
}

/// Whether a file name already ends in `.png` in any case: the
/// lower-cased name ends in `.png` exactly when its last four characters
/// are `.`, `p`/`P`, `n`/`N`, `g`/`G`.
pub open spec fn has_png_ext(s: Seq<char>) -> bool {
    let n = s.len();
    n >= 4 && s[n - 4] == '.' && lowers_to_p(s[n - 3]) && (s[n - 2] == 'n' || s[n - 2] == 'N') && (
    s[n - 1] == 'g' || s[n - 1] == 'G')
}

/// The name of a picture file: `name` itself when it already ends in
/// `.png` (in any case), otherwise `name` followed by `.png`.
pub fn with_png_extension(name: &str) -> (r: String)
    ensures
        r@ == (if has_png_ext(name@) {
            name@
        } else {
            name@ + ".png"@
        }),
{
    let v = chars_of(name);
    let n = v.len();
    let mut s = string_of(&v, 0, n);
    assert(v@.subrange(0, n as int) =~= v@);
    let ends = n >= 4 && v[n - 4] == '.' && (v[n - 3] == 'p' || v[n - 3] == 'P') && (v[n - 2]
        == 'n' || v[n - 2] == 'N') && (v[n - 1] == 'g' || v[n - 1] == 'G');
    if !ends {
        s.append(".png");
    }
    s
}


/// A picture name always ends in `.png` (in some case), and naming a name
/// that already does changes nothing.
pub proof fn png_name_has_extension(s: Seq<char>)
    ensures
        has_png_ext(if has_png_ext(s) {
            s
        } else {
            s + ".png"@
        }),
        has_png_ext(s) ==> (if has_png_ext(s) {
            s
        } else {
            s + ".png"@
        }) == s,
{
    reveal_strlit(".png");
    let t = s + ".png"@;
    let n = t.len();
    assert(t[n - 4] == '.' && t[n - 3] == 'p' && t[n - 2] == 'n' && t[n - 1] == 'g');
}

} // verus!
