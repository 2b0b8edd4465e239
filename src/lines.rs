//! Line breaks and lines in byte prefixes.
use vstd::prelude::*;

verus! {

/// The line feed byte.
pub const NEWLINE: u8 = 0x0a;

/// Number of line feeds in `s`.
pub open spec fn newline_count(s: Seq<u8>) -> int
    decreases s.len(),
{
    if s.len() == 0 {
        0
    } else {
        newline_count(s.drop_last()) + if s.last() == NEWLINE {
            1int
        } else {
            0int
        }
    }
}

/// Number of lines in `s`: one per line feed, and one more for a last line
/// that no line feed ends.
pub open spec fn line_count(s: Seq<u8>) -> int {
    newline_count(s) + if s.len() > 0 && s.last() != NEWLINE {
        1int
    } else {
        0int
    }
}

/// Counts the lines of the first `end` bytes of `b`.
pub fn count_lines(b: &[u8], end: usize) -> (r: usize)
    requires
        end <= b@.len(),
    ensures
        r as int == line_count(b@.take(end as int)),
{
    let mut n: usize = 0;
    let mut i: usize = 0;
    while i < end
        invariant
            i <= end <= b@.len(),
            n as int == newline_count(b@.take(i as int)),
            n <= i,
            i > 0 && b@[i - 1] != NEWLINE ==> n < i,
        decreases end - i,
    {
        assert(b@.take(i + 1).drop_last() =~= b@.take(i as int));
        if b[i] == NEWLINE {
            n = n + 1;
        }
        i = i + 1;
    }
    if end > 0 && b[end - 1] != NEWLINE {
        n = n + 1;
    }
    n
}

/// Counts the line feeds in the first `end` bytes of `b`: the 0-based line
/// on which offset `end` lies.
pub fn count_newlines(b: &[u8], end: usize) -> (r: usize)
    requires
        end <= b@.len(),
    ensures
        r as int == newline_count(b@.take(end as int)),
{
    let mut n: usize = 0;
    let mut i: usize = 0;
    while i < end
        invariant
            i <= end <= b@.len(),
            n as int == newline_count(b@.take(i as int)),
            n <= i,
        decreases end - i,
    {
        assert(b@.take(i + 1).drop_last() =~= b@.take(i as int));
        if b[i] == NEWLINE {
            n = n + 1;
        }
        i = i + 1;
    }
    n
}

} // verus!
