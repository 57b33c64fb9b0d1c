//! Character-level helpers shared by the input-model readers.

use vstd::prelude::*;
use vstd::string::StrSliceExecFns;

verus! {

/// First position of `c` in `[from, to)` of `s`.
pub(crate) fn find_char(s: &str, from: usize, to: usize, c: char) -> (r: Option<usize>)
    requires
        from <= to <= s@.len(),
    ensures
        r matches Some(p) ==> from <= p < to,
{
    let mut i = from;
    while i < to
        invariant
            from <= i <= to,
            to <= s@.len(),
        decreases to - i,
    {
        if s.get_char(i) == c {
            return Some(i);
        }
        i += 1;
    }
    None
}

/// The range `[from, to)` of `s` with blank space removed from both ends.
pub(crate) fn trim_range(s: &str, from: usize, to: usize) -> (r: (usize, usize))
    requires
        from <= to <= s@.len(),
    ensures
        from <= r.0 <= r.1 <= to,
{
    let mut a = from;
    let mut b = to;
    loop
        invariant
            from <= a <= b <= to,
            to <= s@.len(),
        decreases b - a,
    {
        if a >= b {
            break ;
        }
        let ch = s.get_char(a);
        if ch == ' ' || ch == '\t' || ch == '\r' {
            a += 1;
        } else {
            break ;
        }
    }
    loop
        invariant
            from <= a <= b <= to,
            to <= s@.len(),
        decreases b - a,
    {
        if a >= b {
            break ;
        }
        let ch = s.get_char(b - 1);
        if ch == ' ' || ch == '\t' || ch == '\r' {
            b -= 1;
        } else {
            break ;
        }
    }
    (a, b)
}

/// The text in `[from, to)` of `s` as an owned string.
pub(crate) fn token(s: &str, from: usize, to: usize) -> (r: String)
    requires
        from <= to <= s@.len(),
    ensures
        r@ == s@.subrange(from as int, to as int),
{
    s.substring_char(from, to).to_owned()
}

/// Whether the text in `[from, to)` of `s` equals the literal `lit`.
pub(crate) fn range_is(s: &str, from: usize, to: usize, lit: &str) -> (r: bool)
    requires
        from <= to <= s@.len(),
{
    let t = token(s, from, to);
    let l = lit.to_owned();
    t == l
}

/// Splits `[from, to)` of `s` at commas into trimmed tokens; `None` when a
/// piece is blank or there are more pieces than a `u16` can count.
pub(crate) fn split_values(s: &str, from: usize, to: usize) -> (r: Option<Vec<String>>)
    requires
        from <= to <= s@.len(),
    ensures
        r matches Some(v) ==> 1 <= v@.len() <= 0xffff,
{
    let mut out: Vec<String> = Vec::new();
    let mut pos = from;
    loop
        invariant_except_break
            from <= pos <= to,
            to <= s@.len(),
        ensures
            out@.len() >= 1,
        decreases to - pos,
    {
        let comma = find_char(s, pos, to, ',');
        let end = match comma {
            Some(p) => p,
            None => to,
        };
        let t = trim_range(s, pos, end);
        if t.0 >= t.1 {
            return None;
        }
        out.push(token(s, t.0, t.1));
        match comma {
            Some(p) => {
                pos = p + 1;
            },
            None => {
                break ;
            },
        }
    }
    if out.len() > 0xffff {
        return None;
    }
    Some(out)
}

} // verus!
