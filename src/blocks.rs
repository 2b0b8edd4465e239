//! Brace matching over the bytes of a source buffer.
use vstd::prelude::*;
use vstd::utf8::*;

verus! {

/// The byte that opens a block.
pub const OPEN_BRACE: u8 = 0x7b;

/// The byte that closes a block.
pub const CLOSE_BRACE: u8 = 0x7d;

/// How one byte moves the block depth.
pub open spec fn brace_step(c: u8) -> int {
    if c == OPEN_BRACE {
        1
    } else if c == CLOSE_BRACE {
        -1
    } else {
        0
    }
}

/// Opening braces minus closing braces in `s`.
pub open spec fn brace_depth(s: Seq<u8>) -> int
    decreases s.len(),
{
    if s.len() == 0 {
        0
    } else {
        brace_depth(s.drop_last()) + brace_step(s.last())
    }
}

/// `s` is balanced in braces: no prefix closes more than it opened, and the
/// whole of it closes all it opened.
pub open spec fn braces_balanced(s: Seq<u8>) -> bool {
    &&& brace_depth(s) == 0
    &&& forall|k: int| 0 <= k <= s.len() ==> #[trigger] brace_depth(s.take(k)) >= 0
}

/// `o` is the first opening brace at or after `start`.
pub open spec fn first_open_at(b: Seq<u8>, start: int, o: int) -> bool {
    &&& start <= o < b.len()
    &&& b[o] == OPEN_BRACE
    &&& forall|k: int| start <= k < o ==> b[k] != OPEN_BRACE
}

/// The brace at `o` is matched by the one at `pos`: the depth counted from `o`
/// first comes back to zero at `pos`.
pub open spec fn matched_at(b: Seq<u8>, o: int, pos: int) -> bool {
    &&& o <= pos < b.len()
    &&& brace_depth(b.subrange(o, pos + 1)) == 0
    &&& forall|k: int| o <= k < pos ==> brace_depth(#[trigger] b.subrange(o, k + 1)) > 0
}

/// The block that a declaration at `start` opens ends with the byte at `pos`.
pub open spec fn block_ends_at(b: Seq<u8>, start: int, pos: int) -> bool {
    exists|o: int| first_open_at(b, start, o) && matched_at(b, o, pos)
}

/// The block is found where both the opening brace and its match exist.
pub open spec fn has_block(b: Seq<u8>, start: int) -> bool {
    exists|pos: int| block_ends_at(b, start, pos)
}

/// The position of the brace that closes the block opened at or after `start`.
pub open spec fn block_end(b: Seq<u8>, start: int) -> int
    recommends
        has_block(b, start),
{
    choose|pos: int| block_ends_at(b, start, pos)
}

proof fn lemma_depth_push(b: Seq<u8>, o: int, k: int)
    requires
        0 <= o <= k < b.len(),
    ensures
        brace_depth(b.subrange(o, k + 1)) == brace_depth(b.subrange(o, k)) + brace_step(b[k]),
{
    assert(b.subrange(o, k + 1).drop_last() =~= b.subrange(o, k));
}

/// At most one position closes the block of a given start.
pub proof fn lemma_block_end_unique(b: Seq<u8>, start: int, p: int, q: int)
    requires
        block_ends_at(b, start, p),
        block_ends_at(b, start, q),
    ensures
        p == q,
{
    let o1 = choose|o: int| first_open_at(b, start, o) && matched_at(b, o, p);
    let o2 = choose|o: int| first_open_at(b, start, o) && matched_at(b, o, q);
    if o1 < o2 {
        assert(b[o1] != OPEN_BRACE);
    } else if o2 < o1 {
        assert(b[o2] != OPEN_BRACE);
    }
    if p < q {
        assert(brace_depth(b.subrange(o1, p + 1)) > 0);
    } else if q < p {
        assert(brace_depth(b.subrange(o1, q + 1)) > 0);
    }
}

/// Finds the brace that closes the block opened by the first `{` at or after
/// `start`, counting `{` and `}` only.
pub fn find_block_end(b: &[u8], start: usize) -> (r: Option<usize>)
    ensures
        match r {
            Some(pos) => {
                &&& block_ends_at(b@, start as int, pos as int)
                &&& pos < b@.len()
                &&& b@[pos as int] == CLOSE_BRACE
            },
            None => !has_block(b@, start as int),
        },
{
    let len = b.len();
    let mut o: usize = start;
    while o < len && b[o] != OPEN_BRACE
        invariant
            len == b@.len(),
            start <= o,
            forall|k: int| start <= k < o ==> b@[k] != OPEN_BRACE,
        decreases len - o,
    {
        o = o + 1;
    }
    if o >= len {
        proof {
            assert forall|pos: int| !block_ends_at(b@, start as int, pos) by {
                if block_ends_at(b@, start as int, pos) {
                    let w = choose|w: int| first_open_at(b@, start as int, w) && matched_at(b@, w, pos);
                    assert(b@[w] != OPEN_BRACE);
                }
            }
        }
        return None;
    }
    assert(first_open_at(b@, start as int, o as int));
    let mut depth: usize = 0;
    let mut pos: usize = o;
    assert(b@.subrange(o as int, o as int) =~= Seq::<u8>::empty());
    while pos < len
        invariant
            len == b@.len(),
            first_open_at(b@, start as int, o as int),
            o <= pos <= len,
            depth as int == brace_depth(b@.subrange(o as int, pos as int)),
            pos > o ==> depth > 0,
            depth <= pos - o,
            forall|k: int| o <= k < pos ==> brace_depth(#[trigger] b@.subrange(o as int, k + 1)) > 0,
        decreases len - pos,
    {
        proof {
            lemma_depth_push(b@, o as int, pos as int);
        }
        let c = b[pos];
        if c == OPEN_BRACE {
            depth = depth + 1;
        } else if c == CLOSE_BRACE {
            depth = depth - 1;
            if depth == 0 {
                assert(matched_at(b@, o as int, pos as int));
                return Some(pos);
            }
        }
        pos = pos + 1;
    }
    proof {
        assert forall|p: int| !block_ends_at(b@, start as int, p) by {
            if block_ends_at(b@, start as int, p) {
                let w = choose|w: int| first_open_at(b@, start as int, w) && matched_at(b@, w, p);
                if w < o {
                    assert(b@[w] != OPEN_BRACE);
                } else if o < w {
                    assert(b@[o as int] != OPEN_BRACE);
                }
                assert(brace_depth(b@.subrange(o as int, p + 1)) > 0);
            }
        }
    }
    None
}

/// A byte below 0x80 is a whole character: the position after it is a
/// character boundary.
pub proof fn lemma_boundary_after_ascii(b: Seq<u8>, i: int)
    requires
        valid_utf8(b),
        is_char_boundary(b, i),
        0 <= i < b.len(),
        b[i] < 0x80,
    ensures
        is_char_boundary(b, i + 1),
    decreases b.len(),
{
    let l = length_of_first_scalar(b);
    let rest = pop_first_scalar(b);
    if i == 0 {
        assert(l == 1);
        reveal_with_fuel(is_char_boundary, 2);
    } else {
        assert(is_char_boundary(rest, i - l));
        assert(rest[i - l] == b[i]);
        lemma_boundary_after_ascii(rest, i - l);
    }
}

/// Every character takes at least one byte.
pub proof fn lemma_chars_fit_bytes(s: Seq<char>)
    ensures
        s.len() <= encode_utf8(s).len(),
    decreases s.len(),
{
    if s.len() > 0 {
        lemma_chars_fit_bytes(s.drop_first());
        assert(encode_scalar(s[0] as u32).len() >= 1);
    }
}

/// A closing brace comes at or after `start` before any opening brace does.
pub open spec fn closes_before_opening(b: Seq<u8>, start: int) -> bool {
    exists|k: int|
        start <= k < b.len() && b[k] == CLOSE_BRACE && forall|j: int|
            start <= j < k ==> b[j] != OPEN_BRACE
}

/// The depth of a concatenation is the sum of the depths.
pub proof fn lemma_brace_depth_concat(x: Seq<u8>, y: Seq<u8>)
    ensures
        brace_depth(x + y) == brace_depth(x) + brace_depth(y),
    decreases y.len(),
{
    if y.len() == 0 {
        assert(x + y =~= x);
    } else {
        assert((x + y).drop_last() =~= x + y.drop_last());
        lemma_brace_depth_concat(x, y.drop_last());
    }
}

proof fn lemma_no_braces_depth(x: Seq<u8>)
    requires
        forall|j: int| 0 <= j < x.len() ==> x[j] != OPEN_BRACE && x[j] != CLOSE_BRACE,
    ensures
        brace_depth(x) == 0,
    decreases x.len(),
{
    if x.len() > 0 {
        lemma_no_braces_depth(x.drop_last());
    }
}

/// A closed block is balanced in braces from its opening brace on, and as a
/// whole where no closing brace comes before that opening brace.
pub proof fn lemma_block_balanced(b: Seq<u8>, start: int)
    requires
        has_block(b, start),
        0 <= start,
    ensures
        start <= block_end(b, start) < b.len(),
        exists|o: int|
            first_open_at(b, start, o) && o <= block_end(b, start) && braces_balanced(
                b.subrange(o, block_end(b, start) + 1),
            ),
        !closes_before_opening(b, start) ==> braces_balanced(
            b.subrange(start, block_end(b, start) + 1),
        ),
{
    let pos = block_end(b, start);
    let o = choose|o: int| first_open_at(b, start, o) && matched_at(b, o, pos);
    let t = b.subrange(o, pos + 1);
    assert forall|k: int| 0 <= k <= t.len() implies #[trigger] brace_depth(t.take(k)) >= 0 by {
        if k == 0 {
            assert(t.take(k) =~= Seq::<u8>::empty());
        } else if k <= pos - o {
            assert(t.take(k) =~= b.subrange(o, (o + k - 1) + 1));
        } else {
            assert(t.take(k) =~= t);
        }
    }
    assert(braces_balanced(t));
    if !closes_before_opening(b, start) {
        let head = b.subrange(start, o);
        let whole = b.subrange(start, pos + 1);
        assert forall|j: int| 0 <= j < head.len() implies head[j] != OPEN_BRACE && head[j]
            != CLOSE_BRACE by {
            assert(b[start + j] != OPEN_BRACE);
            if b[start + j] == CLOSE_BRACE {
                assert(closes_before_opening(b, start));
            }
        }
        lemma_no_braces_depth(head);
        assert(whole =~= head + t);
        lemma_brace_depth_concat(head, t);
        assert forall|k: int| 0 <= k <= whole.len() implies #[trigger] brace_depth(whole.take(k))
            >= 0 by {
            if k <= head.len() {
                assert(whole.take(k) =~= head.take(k));
                lemma_no_braces_depth(head.take(k));
            } else {
                assert(whole.take(k) =~= head + t.take(k - head.len()));
                lemma_brace_depth_concat(head, t.take(k - head.len()));
            }
        }
    }
}

} // verus!
