//! Measuring multi-line text. Lines are separated by `'\n'`; a `'\r'`
//! standing immediately before a separator belongs to the separator, not to
//! the line.

use vstd::prelude::*;

verus! {

/// The number of newline characters in `s`.
pub open spec fn newline_count(s: Seq<char>) -> int
    decreases s.len(),
{
    if s.len() == 0 {
        0
    } else {
        newline_count(s.drop_last()) + if s.last() == '\n' {
            1int
        } else {
            0int
        }
    }
}

/// The number of lines of `s`: a trailing separator closes the last line
/// instead of opening an empty one.
pub open spec fn height_spec(s: Seq<char>) -> int {
    if s.len() == 0 {
        0
    } else {
        1 + newline_count(s.drop_last())
    }
}

/// A left-to-right scan for the widest line: `cur` characters seen on the
/// current line so far, `best` the widest finished line.
pub open spec fn width_scan(s: Seq<char>, i: int, cur: int, best: int) -> int
    decreases s.len() - i,
{
    if i < 0 || i >= s.len() {
        if cur > best {
            cur
        } else {
            best
        }
    } else if s[i] == '\n' {
        width_scan(
            s,
            i + 1,
            0,
            if cur > best {
                cur
            } else {
                best
            },
        )
    } else if s[i] == '\r' && i + 1 < s.len() && s[i + 1] == '\n' {
        width_scan(s, i + 1, cur, best)
    } else {
        width_scan(s, i + 1, cur + 1, best)
    }
}

/// The character count of the widest line of `s`.
pub open spec fn width_spec(s: Seq<char>) -> int {
    width_scan(s, 0, 0, 0)
}

/// Returns the character count of the widest line of `text`.
pub fn width(text: &str) -> (r: usize)
    ensures
        r == width_spec(text@),
{
    let n = text.unicode_len();
    let mut i: usize = 0;
    let mut cur: usize = 0;
    let mut best: usize = 0;
    while i < n
        invariant
            n == text@.len(),
            i <= n,
            cur <= i,
            best <= i,
            width_spec(text@) == width_scan(text@, i as int, cur as int, best as int),
        decreases n - i,
    {
        let c = text.get_char(i);
        if c == '\n' {
            if cur > best {
                best = cur;
            }
            cur = 0;
        } else if c == '\r' && i + 1 < n && text.get_char(i + 1) == '\n' {
        } else {
            cur = cur + 1;
        }
        i += 1;
    }
    if cur > best {
        cur
    } else {
        best
    }
}

/// Returns the number of lines of `text`.
pub fn height(text: &str) -> (r: usize)
    ensures
        r == height_spec(text@),
{
    let n = text.unicode_len();
    if n == 0 {
        return 0;
    }
    let mut i: usize = 0;
    let mut count: usize = 0;
    while i < n - 1
        invariant
            n == text@.len(),
            n >= 1,
            i <= n - 1,
            count <= i,
            count == newline_count(text@.take(i as int)),
        decreases n - i,
    {
        let c = text.get_char(i);
        proof {
            assert(text@.take(i + 1).drop_last() =~= text@.take(i as int));
            assert(text@.take(i + 1).last() == text@[i as int]);
        }
        if c == '\n' {
            count = count + 1;
        }
        i += 1;
    }
    proof {
        assert(text@.take(n - 1) =~= text@.drop_last());
    }
    count + 1
}

} // verus!
