//! Delimiter balance of a whole text, over the three pairs `()`, `{}` and `[]`.
use vstd::prelude::*;

verus! {

/// How one character moves the depth of the pair `open`/`close`.
pub open spec fn delim_step(c: char, open: char, close: char) -> int {
    if c == open {
        1
    } else if c == close {
        -1
    } else {
        0
    }
}

/// Openers minus closers of the pair `open`/`close` in `s`.
pub open spec fn delim_depth(s: Seq<char>, open: char, close: char) -> int
    decreases s.len(),
{
    if s.len() == 0 {
        0
    } else {
        delim_depth(s.drop_last(), open, close) + delim_step(s.last(), open, close)
    }
}

/// No prefix of `s` holds more closers than openers of the pair.
pub open spec fn never_below_zero(s: Seq<char>, open: char, close: char) -> bool {
    forall|k: int| 0 <= k <= s.len() ==> #[trigger] delim_depth(s.take(k), open, close) >= 0
}

/// `s` is balanced in the pair `open`/`close`.
pub open spec fn pair_balanced(s: Seq<char>, open: char, close: char) -> bool {
    never_below_zero(s, open, close) && delim_depth(s, open, close) == 0
}

/// `s` is balanced in parentheses, braces and brackets, each pair counted on
/// its own.
pub open spec fn syntax_balanced(s: Seq<char>) -> bool {
    &&& pair_balanced(s, '(', ')')
    &&& pair_balanced(s, '{', '}')
    &&& pair_balanced(s, '[', ']')
}

/// A prefix of `s` that holds more closers than openers keeps `s` from being
/// balanced in that pair.
pub proof fn lemma_negative_prefix(s: Seq<char>, k: int, open: char, close: char)
    requires
        0 <= k <= s.len(),
        delim_depth(s.take(k), open, close) < 0,
    ensures
        !never_below_zero(s, open, close),
{
}

/// The closing character of one of the three pairs.
pub open spec fn is_closer(c: char) -> bool {
    c == ')' || c == '}' || c == ']'
}

/// The depth of a concatenation is the sum of the depths.
pub proof fn lemma_depth_concat(a: Seq<char>, b: Seq<char>, open: char, close: char)
    ensures
        delim_depth(a + b, open, close) == delim_depth(a, open, close) + delim_depth(b, open, close),
    decreases b.len(),
{
    if b.len() == 0 {
        assert(a + b =~= a);
    } else {
        assert((a + b).drop_last() =~= a + b.drop_last());
        lemma_depth_concat(a, b.drop_last(), open, close);
    }
}

proof fn lemma_depth_single(c: char, open: char, close: char)
    ensures
        delim_depth(seq![c], open, close) == delim_step(c, open, close),
{
    assert(seq![c].drop_last() =~= Seq::<char>::empty());
    assert(delim_depth(Seq::<char>::empty(), open, close) == 0);
    assert(seq![c].last() == c);
}

proof fn lemma_pair_concat(a: Seq<char>, b: Seq<char>, open: char, close: char)
    requires
        pair_balanced(a, open, close),
        pair_balanced(b, open, close),
    ensures
        pair_balanced(a + b, open, close),
{
    lemma_depth_concat(a, b, open, close);
    assert forall|k: int| 0 <= k <= (a + b).len() implies #[trigger] delim_depth(
        (a + b).take(k),
        open,
        close,
    ) >= 0 by {
        if k <= a.len() {
            assert((a + b).take(k) =~= a.take(k));
        } else {
            assert((a + b).take(k) =~= a + b.take(k - a.len()));
            lemma_depth_concat(a, b.take(k - a.len()), open, close);
            assert(a.take(a.len() as int) =~= a);
        }
    }
}

proof fn lemma_pair_wrap(s: Seq<char>, x: char, y: char, open: char, close: char)
    requires
        pair_balanced(s, open, close),
        open != close,
        (x == open && y == close) || (x != open && x != close && y != open && y != close),
    ensures
        pair_balanced(seq![x] + s + seq![y], open, close),
{
    let w = seq![x] + s + seq![y];
    lemma_depth_single(x, open, close);
    lemma_depth_single(y, open, close);
    lemma_depth_concat(seq![x], s, open, close);
    lemma_depth_concat(seq![x] + s, seq![y], open, close);
    assert forall|k: int| 0 <= k <= w.len() implies #[trigger] delim_depth(w.take(k), open, close)
        >= 0 by {
        if k == 0 {
            assert(w.take(k) =~= Seq::<char>::empty());
        } else if k <= s.len() + 1 {
            assert(w.take(k) =~= seq![x] + s.take(k - 1));
            lemma_depth_concat(seq![x], s.take(k - 1), open, close);
        } else {
            assert(w.take(k) =~= w);
        }
    }
}

/// The empty text is balanced.
pub proof fn law_empty_balanced()
    ensures
        syntax_balanced(Seq::<char>::empty()),
{
    let e = Seq::<char>::empty();
    assert forall|k: int| 0 <= k <= 0 implies #[trigger] e.take(k) == e by {
        assert(e.take(k) =~= e);
    }
}

/// A single character that is no delimiter is balanced.
pub proof fn law_plain_char_balanced(c: char)
    requires
        c != '(' && c != ')' && c != '{' && c != '}' && c != '[' && c != ']',
    ensures
        syntax_balanced(seq![c]),
{
    let w = seq![c];
    lemma_depth_single(c, '(', ')');
    lemma_depth_single(c, '{', '}');
    lemma_depth_single(c, '[', ']');
    assert(w.take(0) =~= Seq::<char>::empty());
    assert(w.take(1) =~= w);
    assert(delim_depth(Seq::<char>::empty(), '(', ')') == 0);
    assert(delim_depth(Seq::<char>::empty(), '{', '}') == 0);
    assert(delim_depth(Seq::<char>::empty(), '[', ']') == 0);
}

/// Two balanced texts written one after the other are balanced.
pub proof fn law_concat_balanced(a: Seq<char>, b: Seq<char>)
    requires
        syntax_balanced(a),
        syntax_balanced(b),
    ensures
        syntax_balanced(a + b),
{
    lemma_pair_concat(a, b, '(', ')');
    lemma_pair_concat(a, b, '{', '}');
    lemma_pair_concat(a, b, '[', ']');
}

/// A balanced text enclosed in a matching pair of delimiters is balanced.
pub proof fn law_wrap_balanced(s: Seq<char>, open: char, close: char)
    requires
        syntax_balanced(s),
        (open == '(' && close == ')') || (open == '{' && close == '}') || (open == '[' && close
            == ']'),
    ensures
        syntax_balanced(seq![open] + s + seq![close]),
{
    lemma_pair_wrap(s, open, close, '(', ')');
    lemma_pair_wrap(s, open, close, '{', '}');
    lemma_pair_wrap(s, open, close, '[', ']');
}

/// Taking one closing delimiter out of a balanced text unbalances it.
pub proof fn law_missing_closer(s: Seq<char>, i: int)
    requires
        syntax_balanced(s),
        0 <= i < s.len(),
        is_closer(s[i]),
    ensures
        !syntax_balanced(s.remove(i)),
{
    let c = s[i];
    let open = if c == ')' {
        '('
    } else if c == '}' {
        '{'
    } else {
        '['
    };
    assert(s =~= s.take(i) + seq![c] + s.skip(i + 1));
    assert(s.remove(i) =~= s.take(i) + s.skip(i + 1));
    lemma_depth_concat(s.take(i) + seq![c], s.skip(i + 1), open, c);
    lemma_depth_concat(s.take(i), seq![c], open, c);
    lemma_depth_concat(s.take(i), s.skip(i + 1), open, c);
    lemma_depth_single(c, open, c);
}

/// Putting one more closing delimiter anywhere into a balanced text
/// unbalances it.
pub proof fn law_extra_closer(s: Seq<char>, i: int, c: char)
    requires
        syntax_balanced(s),
        0 <= i <= s.len(),
        is_closer(c),
    ensures
        !syntax_balanced(s.insert(i, c)),
{
    let open = if c == ')' {
        '('
    } else if c == '}' {
        '{'
    } else {
        '['
    };
    assert(s =~= s.take(i) + s.skip(i));
    assert(s.insert(i, c) =~= s.take(i) + seq![c] + s.skip(i));
    lemma_depth_concat(s.take(i) + seq![c], s.skip(i), open, c);
    lemma_depth_concat(s.take(i), seq![c], open, c);
    lemma_depth_concat(s.take(i), s.skip(i), open, c);
    lemma_depth_single(c, open, c);
}

proof fn lemma_pair_insert(s: Seq<char>, u: Seq<char>, i: int, open: char, close: char)
    requires
        pair_balanced(u, open, close),
        0 <= i <= s.len(),
    ensures
        pair_balanced(s.take(i) + u + s.skip(i), open, close) == pair_balanced(s, open, close),
{
    let a = s.take(i);
    let z = s.skip(i);
    let w = a + u + z;
    let n = u.len();
    assert(s =~= a + z);
    lemma_depth_concat(a, z, open, close);
    lemma_depth_concat(a + u, z, open, close);
    lemma_depth_concat(a, u, open, close);
    // a prefix of `s` that reaches past `i` has the depth of the matching
    // prefix of `w`
    assert forall|m: int| i <= m <= s.len() implies delim_depth(#[trigger] s.take(m), open, close)
        == delim_depth(w.take(m + n), open, close) by {
        assert(s.take(m) =~= a + z.take(m - i));
        assert(w.take(m + n) =~= (a + u) + z.take(m - i));
        lemma_depth_concat(a, z.take(m - i), open, close);
        lemma_depth_concat(a + u, z.take(m - i), open, close);
    }
    assert forall|m: int| 0 <= m <= i implies #[trigger] s.take(m) == w.take(m) by {
        assert(s.take(m) =~= w.take(m));
    }
    if never_below_zero(s, open, close) {
        assert forall|k: int| 0 <= k <= w.len() implies #[trigger] delim_depth(w.take(k), open, close)
            >= 0 by {
            if k <= i {
                assert(w.take(k) == s.take(k));
            } else if k <= i + n {
                assert(w.take(k) =~= a + u.take(k - i));
                lemma_depth_concat(a, u.take(k - i), open, close);
                assert(delim_depth(s.take(i), open, close) >= 0);
                assert(delim_depth(u.take(k - i), open, close) >= 0);
            } else {
                assert(delim_depth(s.take(k - n), open, close) >= 0);
            }
        }
    }
    if never_below_zero(w, open, close) {
        assert forall|m: int| 0 <= m <= s.len() implies #[trigger] delim_depth(s.take(m), open, close)
            >= 0 by {
            if m <= i {
                assert(s.take(m) == w.take(m));
                assert(delim_depth(w.take(m), open, close) >= 0);
            } else {
                assert(delim_depth(w.take(m + n), open, close) >= 0);
            }
        }
    }
}

/// Putting a balanced text anywhere into a text does not change whether the
/// text is balanced.
pub proof fn law_insert_balanced(s: Seq<char>, u: Seq<char>, i: int)
    requires
        syntax_balanced(u),
        0 <= i <= s.len(),
    ensures
        syntax_balanced(s.take(i) + u + s.skip(i)) == syntax_balanced(s),
{
    lemma_pair_insert(s, u, i, '(', ')');
    lemma_pair_insert(s, u, i, '{', '}');
    lemma_pair_insert(s, u, i, '[', ']');
}

} // verus!
