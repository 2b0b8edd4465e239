//! The extractor: boundary patterns compiled once, then applied to buffers.
use crate::blocks::{
    block_end, braces_balanced, closes_before_opening, find_block_end, first_open_at, has_block,
    lemma_block_balanced, lemma_block_end_unique, lemma_boundary_after_ascii,
    lemma_chars_fit_bytes,
};
use crate::lines::{count_lines, count_newlines, line_count, newline_count};
use crate::balance::{delim_depth, lemma_negative_prefix, never_below_zero, syntax_balanced};
use crate::models::{AgentBoosterError, CodeChunk, Language};
use regex::Regex;
use vstd::prelude::*;
use vstd::string::*;
use vstd::utf8::*;

verus! {

#[verifier::external_type_specification]
#[verifier::external_body]
pub struct ExRegex(regex::Regex);

#[verifier::external_type_specification]
#[verifier::external_body]
pub struct ExRegexError(regex::Error);

/// A function declaration line: optional `export` and `async`, then
/// `function name(params) {`.
pub const FUNCTION_PATTERN: &'static str = r"(?m)^\s*(?:export\s+)?(?:async\s+)?function\s+(\w+)\s*\([^)]*\)\s*\{";

/// A class declaration line: optional `export`, then `class Name`, an optional
/// `extends Base`, and `{`.
pub const CLASS_PATTERN: &'static str = r"(?m)^\s*(?:export\s+)?class\s+(\w+)(?:\s+extends\s+\w+)?\s*\{";

/// A method declaration line: optional `async`, then `name(params) {`.
pub const METHOD_PATTERN: &'static str = r"(?m)^\s*(?:async\s+)?(\w+)\s*\([^)]*\)\s*\{";

/// Tag of a chunk cut from a function declaration.
pub open spec fn function_kind() -> Seq<char> {
    "function_declaration"@
}

/// Tag of a chunk cut from a class declaration.
pub open spec fn class_kind() -> Seq<char> {
    "class_declaration"@
}

/// Tag of the chunk that spans a whole buffer.
pub open spec fn program_kind() -> Seq<char> {
    "program"@
}

/// Whether the regex crate accepts pattern `p`: it is valid and its compiled
/// form stays within the default size limit.
pub uninterp spec fn pattern_compiles(p: Seq<char>) -> bool;

/// Start offsets of the successive matches of `FUNCTION_PATTERN` in `text`.
pub uninterp spec fn function_match_starts(text: Seq<char>) -> Seq<usize>;

/// Start offsets of the successive matches of `CLASS_PATTERN` in `text`.
pub uninterp spec fn class_match_starts(text: Seq<char>) -> Seq<usize>;

/// Relies on regex::Regex::new: compiles a pattern, and fails only where the
/// pattern is invalid or too large, which depends on the pattern alone.
#[verifier::external_body]
fn compile(pattern: &str) -> (r: Result<Regex, regex::Error>)
    ensures
        (r is Ok) == pattern_compiles(pattern@),
{
    Regex::new(pattern)
}

/// Offsets in ascending order, each on a character boundary of the buffer
/// `b`: what the start offsets of successive regex matches always are.
pub open spec fn candidate_starts(b: Seq<u8>, starts: Seq<usize>) -> bool {
    &&& starts_on_boundaries(b, starts)
    &&& forall|i: int, j: int| 0 <= i < j < starts.len() ==> starts[i] <= starts[j]
}

/// Each start on a character boundary of `b`.
pub open spec fn starts_on_boundaries(b: Seq<u8>, starts: Seq<usize>) -> bool {
    forall|i: int| 0 <= i < starts.len() ==> is_char_boundary(b, #[trigger] starts[i] as int)
}

/// The byte spans `(start, end)` of the blocks that the given starts open, in
/// the order of the starts; a start whose block never closes gives none.
pub open spec fn found_blocks(b: Seq<u8>, starts: Seq<usize>) -> Seq<(int, int)>
    decreases starts.len(),
{
    if starts.len() == 0 {
        Seq::empty()
    } else {
        let rest = found_blocks(b, starts.drop_last());
        let s = starts.last() as int;
        if has_block(b, s) {
            rest.push((s, block_end(b, s) + 1))
        } else {
            rest
        }
    }
}

/// `c` is the chunk of kind `kind` spanning bytes `start..end` of `b`; its
/// lines are the 0-based lines on which the two offsets lie.
pub open spec fn chunk_is(c: CodeChunk, b: Seq<u8>, start: int, end: int, kind: Seq<char>) -> bool {
    &&& c.start_byte == start
    &&& c.end_byte == end
    &&& encode_utf8(c.code@) == b.subrange(start, end)
    &&& c.node_type@ == kind
    &&& c.start_line == newline_count(b.take(start))
    &&& c.end_line == newline_count(b.take(end))
    &&& c.parent_type is None
}

/// `r` holds the chunks of the function blocks at `fs`, then those of the
/// class blocks at `cs`.
pub open spec fn chunks_for(b: Seq<u8>, fs: Seq<usize>, cs: Seq<usize>, r: Seq<CodeChunk>) -> bool {
    let f = found_blocks(b, fs);
    let c = found_blocks(b, cs);
    &&& r.len() == f.len() + c.len()
    &&& forall|i: int| 0 <= i < f.len() ==> chunk_is(#[trigger] r[i], b, f[i].0, f[i].1, function_kind())
    &&& forall|i: int|
        0 <= i < c.len() ==> chunk_is(#[trigger] r[f.len() + i], b, c[i].0, c[i].1, class_kind())
}

/// The block opened by the declaration at `start`: the offset just past its
/// closing brace, and its text from `start` on.
fn block_at(code: &str, start: usize) -> (r: Option<(usize, String)>)
    requires
        start > code.spec_bytes().len() || is_char_boundary(code.spec_bytes(), start as int),
    ensures
        match r {
            Some((end, text)) => {
                &&& has_block(code.spec_bytes(), start as int)
                &&& end == block_end(code.spec_bytes(), start as int) + 1
                &&& encode_utf8(text@) == code.spec_bytes().subrange(start as int, end as int)
            },
            None => !has_block(code.spec_bytes(), start as int),
        },
{
    let bytes = code.as_bytes();
    let len = bytes.len();
    let ghost b = code.spec_bytes();
    match find_block_end(bytes, start) {
        None => None,
        Some(pos) => {
            proof {
                lemma_block_end_unique(b, start as int, pos as int, block_end(b, start as int));
                encode_utf8_valid_utf8(code@);
                is_char_boundary_iff_not_is_continuation_byte(b, pos as int);
                lemma_boundary_after_ascii(b, pos as int);
            }
            assert(pos < len);
            let (head, _) = code.split_at(pos + 1);
            let ghost hb = head.spec_bytes();
            proof {
                valid_utf8_split(b, pos + 1);
                is_char_boundary_iff_not_is_continuation_byte(b, start as int);
                assert(hb[start as int] == b[start as int]);
                is_char_boundary_iff_not_is_continuation_byte(hb, start as int);
            }
            let (_, text) = head.split_at(start);
            assert(text.spec_bytes() =~= b.subrange(start as int, pos + 1));
            Some((pos + 1, text.to_owned()))
        },
    }
}

/// Appends to `out` a chunk of kind `kind` for each start whose block closes.
fn push_blocks(code: &str, starts: &Vec<usize>, kind: &str, out: &mut Vec<CodeChunk>)
    requires
        starts_on_boundaries(code.spec_bytes(), starts@),
    ensures
        final(out)@.len() == old(out)@.len() + found_blocks(code.spec_bytes(), starts@).len(),
        forall|i: int| 0 <= i < old(out)@.len() ==> final(out)@[i] == old(out)@[i],
        forall|i: int|
            0 <= i < found_blocks(code.spec_bytes(), starts@).len() ==> chunk_is(
                #[trigger] final(out)@[old(out)@.len() + i],
                code.spec_bytes(),
                found_blocks(code.spec_bytes(), starts@)[i].0,
                found_blocks(code.spec_bytes(), starts@)[i].1,
                kind@,
            ),
{
    let ghost b = code.spec_bytes();
    let ghost base = old(out)@;
    let bytes = code.as_bytes();
    let mut k: usize = 0;
    while k < starts.len()
        invariant
            b == code.spec_bytes(),
            bytes@ == b,
            k <= starts@.len(),
            starts_on_boundaries(b, starts@),
            out@.len() == base.len() + found_blocks(b, starts@.take(k as int)).len(),
            forall|i: int| 0 <= i < base.len() ==> out@[i] == base[i],
            forall|i: int|
                0 <= i < found_blocks(b, starts@.take(k as int)).len() ==> chunk_is(
                    #[trigger] out@[base.len() + i],
                    b,
                    found_blocks(b, starts@.take(k as int))[i].0,
                    found_blocks(b, starts@.take(k as int))[i].1,
                    kind@,
                ),
        decreases starts.len() - k,
    {
        let start = starts[k];
        assert(starts@.take(k + 1).drop_last() =~= starts@.take(k as int));
        assert(is_char_boundary(b, starts@[k as int] as int));
        if let Some((end, text)) = block_at(code, start) {
            let start_line = count_newlines(bytes, start);
            let end_line = count_newlines(bytes, end);
            let chunk = CodeChunk {
                code: text,
                node_type: kind.to_owned(),
                start_byte: start,
                end_byte: end,
                start_line,
                end_line,
                parent_type: None,
            };
            out.push(chunk);
        }
        k = k + 1;
    }
    assert(starts@.take(starts@.len() as int) =~= starts@);
}

/// Cuts the function blocks at `function_starts`, then the class blocks at
/// `class_starts`, out of `code`.
pub fn chunks_at(code: &str, function_starts: &Vec<usize>, class_starts: &Vec<usize>) -> (r: Vec<
    CodeChunk,
>)
    requires
        starts_on_boundaries(code.spec_bytes(), function_starts@),
        starts_on_boundaries(code.spec_bytes(), class_starts@),
    ensures
        chunks_for(code.spec_bytes(), function_starts@, class_starts@, r@),
{
    let mut chunks: Vec<CodeChunk> = Vec::new();
    let function_tag = "function_declaration";
    let class_tag = "class_declaration";
    assert(function_tag@ == function_kind());
    assert(class_tag@ == class_kind());
    push_blocks(code, function_starts, function_tag, &mut chunks);
    let ghost after_functions = chunks@;
    push_blocks(code, class_starts, class_tag, &mut chunks);
    proof {
        let b = code.spec_bytes();
        let f = found_blocks(b, function_starts@);
        assert forall|i: int| 0 <= i < f.len() implies chunk_is(
            #[trigger] chunks@[i],
            b,
            f[i].0,
            f[i].1,
            function_kind(),
        ) by {
            assert(after_functions[0 + i] == after_functions[i]);
            assert(chunks@[i] == after_functions[i]);
        }
    }
    chunks
}

/// A parsed buffer: the text and the syntax family it was parsed as.
pub struct LiteTree {
    pub code: String,
    pub language: Language,
}

/// Extracts function and class blocks from source text by matching
/// declaration lines, without a grammar.
pub struct Parser {
    /// Compiled from `FUNCTION_PATTERN`; set by `new` alone.
    function_regex: Regex,
    /// Compiled from `CLASS_PATTERN`; set by `new` alone.
    class_regex: Regex,
    /// Compiled with the others, but extraction does not consult it: methods
    /// are part of the class chunk that holds them.
    method_regex: Regex,
}

impl Parser {
    /// Relies on regex::Regex::find_iter and regex::Match::start: the starts
    /// of successive non-overlapping matches, each on a character boundary.
    /// The field holds `FUNCTION_PATTERN` compiled, so the result depends on
    /// `text` alone.
    #[verifier::external_body]
    fn function_starts(&self, text: &str) -> (r: Vec<usize>)
        ensures
            r@ == function_match_starts(text@),
            candidate_starts(text.spec_bytes(), r@),
    {
        self.function_regex.find_iter(text).map(|m| m.start()).collect()
    }

    /// Relies on regex::Regex::find_iter and regex::Match::start: the starts
    /// of successive non-overlapping matches, each on a character boundary.
    /// The field holds `CLASS_PATTERN` compiled, so the result depends on
    /// `text` alone.
    #[verifier::external_body]
    fn class_starts(&self, text: &str) -> (r: Vec<usize>)
        ensures
            r@ == class_match_starts(text@),
            candidate_starts(text.spec_bytes(), r@),
    {
        self.class_regex.find_iter(text).map(|m| m.start()).collect()
    }

    /// Compiles the boundary patterns; fails with a parse error naming the
    /// cause if one of them does not compile.
    pub fn new() -> (r: Result<Parser, AgentBoosterError>)
        ensures
            (r is Ok) == (pattern_compiles(FUNCTION_PATTERN@) && pattern_compiles(CLASS_PATTERN@)
                && pattern_compiles(METHOD_PATTERN@)),
    {
        let function_regex = match compile(FUNCTION_PATTERN) {
            Ok(re) => re,
            Err(e) => return Err(AgentBoosterError::ParseError(e.to_string())),
        };
        let class_regex = match compile(CLASS_PATTERN) {
            Ok(re) => re,
            Err(e) => return Err(AgentBoosterError::ParseError(e.to_string())),
        };
        let method_regex = match compile(METHOD_PATTERN) {
            Ok(re) => re,
            Err(e) => return Err(AgentBoosterError::ParseError(e.to_string())),
        };
        Ok(Parser { function_regex, class_regex, method_regex })
    }

    /// Wraps the text and its language; no structure is built.
    pub fn parse(&mut self, code: &str, language: Language) -> (r: Result<LiteTree, AgentBoosterError>)
        ensures
            r matches Ok(tree) && tree.code@ == code@ && tree.language == language,
            *final(self) == *old(self),
    {
        Ok(LiteTree { code: code.to_owned(), language })
    }

    /// The chunks of every function declaration whose block closes, in the
    /// order of the source, then those of every class declaration.
    pub fn extract_chunks(&self, tree: &LiteTree, code: &str) -> (r: Vec<CodeChunk>)
        ensures
            candidate_starts(code.spec_bytes(), function_match_starts(code@)),
            candidate_starts(code.spec_bytes(), class_match_starts(code@)),
            chunks_for(
                code.spec_bytes(),
                function_match_starts(code@),
                class_match_starts(code@),
                r@,
            ),
    {
        let function_starts = self.function_starts(code);
        let class_starts = self.class_starts(code);
        chunks_at(code, &function_starts, &class_starts)
    }

    /// The text from `start` through the brace that closes the first block
    /// opened at or after `start`; `None` where no such block closes.
    pub fn extract_block(&self, code: &str, start: usize) -> (r: Option<String>)
        requires
            start > code.spec_bytes().len() || is_char_boundary(code.spec_bytes(), start as int),
        ensures
            match r {
                Some(text) => {
                    &&& has_block(code.spec_bytes(), start as int)
                    &&& encode_utf8(text@) == code.spec_bytes().subrange(
                        start as int,
                        block_end(code.spec_bytes(), start as int) + 1,
                    )
                },
                None => !has_block(code.spec_bytes(), start as int),
            },
    {
        match block_at(code, start) {
            Some((_, text)) => Some(text),
            None => None,
        }
    }

    /// Whether parentheses, braces and brackets are each balanced in `code`;
    /// the language does not change the answer.
    pub fn validate_syntax(&self, code: &str, _language: Language) -> (r: Result<bool, AgentBoosterError>)
        ensures
            r == Ok::<bool, AgentBoosterError>(syntax_balanced(code@)),
    {
        let mut paren_depth: usize = 0;
        let mut brace_depth: usize = 0;
        let mut bracket_depth: usize = 0;
        let byte_len = code.as_bytes().len();
        proof {
            lemma_chars_fit_bytes(code@);
        }
        let ghost s = code@;
        for ch in it: code.chars()
            invariant
                it.seq() == s,
                s == code@,
                s.len() <= byte_len,
                paren_depth as int == delim_depth(s.take(it.index()), '(', ')'),
                brace_depth as int == delim_depth(s.take(it.index()), '{', '}'),
                bracket_depth as int == delim_depth(s.take(it.index()), '[', ']'),
                paren_depth <= it.index(),
                brace_depth <= it.index(),
                bracket_depth <= it.index(),
                never_below_zero(s.take(it.index()), '(', ')'),
                never_below_zero(s.take(it.index()), '{', '}'),
                never_below_zero(s.take(it.index()), '[', ']'),
        {
            let ghost i = it.index();
            proof {
                assert(s.take(i + 1).drop_last() =~= s.take(i));
                assert forall|k: int| 0 <= k <= i implies #[trigger] s.take(i + 1).take(k) == s.take(
                    i,
                ).take(k) by {
                    assert(s.take(i + 1).take(k) =~= s.take(i).take(k));
                }
                assert(s.take(i + 1).take(i + 1) =~= s.take(i + 1));
            }
            if ch == '(' {
                paren_depth = paren_depth + 1;
            } else if ch == ')' {
                if paren_depth == 0 {
                    proof {
                        lemma_negative_prefix(s, i + 1, '(', ')');
                    }
                    return Ok(false);
                }
                paren_depth = paren_depth - 1;
            } else if ch == '{' {
                brace_depth = brace_depth + 1;
            } else if ch == '}' {
                if brace_depth == 0 {
                    proof {
                        lemma_negative_prefix(s, i + 1, '{', '}');
                    }
                    return Ok(false);
                }
                brace_depth = brace_depth - 1;
            } else if ch == '[' {
                bracket_depth = bracket_depth + 1;
            } else if ch == ']' {
                if bracket_depth == 0 {
                    proof {
                        lemma_negative_prefix(s, i + 1, '[', ']');
                    }
                    return Ok(false);
                }
                bracket_depth = bracket_depth - 1;
            }
        }
        assert(s.take(s.len() as int) =~= s);
        Ok(paren_depth == 0 && brace_depth == 0 && bracket_depth == 0)
    }

    /// One chunk spanning the whole of `code`, tagged `program`; its end line
    /// is the number of lines in `code`.
    pub fn extract_full_file(&self, code: &str) -> (r: CodeChunk)
        ensures
            r.start_byte == 0,
            r.end_byte == code.spec_bytes().len(),
            r.code@ == code@,
            r.node_type@ == program_kind(),
            r.start_line == 0,
            r.end_line == line_count(code.spec_bytes()),
            r.parent_type is None,
    {
        let bytes = code.as_bytes();
        let len = bytes.len();
        let tag = "program";
        assert(tag@ == program_kind());
        assert(code.spec_bytes().take(len as int) =~= code.spec_bytes());
        CodeChunk {
            code: code.to_owned(),
            node_type: tag.to_owned(),
            start_byte: 0,
            end_byte: len,
            start_line: 0,
            end_line: count_lines(bytes, len),
            parent_type: None,
        }
    }
}

/// Each block span found from `starts` comes from one of them, and is the
/// block that it opens.
proof fn lemma_found_block(b: Seq<u8>, starts: Seq<usize>, i: int)
    requires
        0 <= i < found_blocks(b, starts).len(),
    ensures
        has_block(b, found_blocks(b, starts)[i].0),
        found_blocks(b, starts)[i].1 == block_end(b, found_blocks(b, starts)[i].0) + 1,
        exists|j: int| 0 <= j < starts.len() && starts[j] as int == found_blocks(b, starts)[i].0,
    decreases starts.len(),
{
    let rest = found_blocks(b, starts.drop_last());
    if i < rest.len() {
        lemma_found_block(b, starts.drop_last(), i);
        let j = choose|j: int|
            0 <= j < starts.drop_last().len() && starts.drop_last()[j] as int == rest[i].0;
        assert(starts[j] == starts.drop_last()[j]);
    } else {
        assert(starts[starts.len() - 1] == starts.last());
    }
}

/// Every chunk that extraction yields is the source text between its
/// offsets; the block it holds is balanced in braces from its opening brace
/// on, and the whole text is, where no closing brace comes between the
/// declaration's start and that opening brace.
pub proof fn law_chunk_is_source_and_balanced(
    b: Seq<u8>,
    fs: Seq<usize>,
    cs: Seq<usize>,
    r: Seq<CodeChunk>,
    i: int,
)
    requires
        chunks_for(b, fs, cs, r),
        0 <= i < r.len(),
    ensures
        r[i].start_byte < r[i].end_byte <= b.len(),
        encode_utf8(r[i].code@) == b.subrange(r[i].start_byte as int, r[i].end_byte as int),
        exists|o: int|
            first_open_at(b, r[i].start_byte as int, o) && o < r[i].end_byte && braces_balanced(
                b.subrange(o, r[i].end_byte as int),
            ),
        !closes_before_opening(b, r[i].start_byte as int) ==> braces_balanced(
            encode_utf8(r[i].code@),
        ),
{
    let f = found_blocks(b, fs);
    let c = found_blocks(b, cs);
    if i < f.len() {
        lemma_found_block(b, fs, i);
    } else {
        assert(r[f.len() + (i - f.len())] == r[i]);
        lemma_found_block(b, cs, i - f.len());
    }
    lemma_block_balanced(b, r[i].start_byte as int);
}

/// Where the function pattern matches once in `text` and the class pattern
/// not at all, and the matched declaration's block closes, extraction yields
/// exactly one chunk: tagged as a function, from the match's start through
/// the closing brace of its block.
pub proof fn law_single_function(text: Seq<char>, r: Seq<CodeChunk>)
    requires
        function_match_starts(text).len() == 1,
        class_match_starts(text).len() == 0,
        has_block(encode_utf8(text), function_match_starts(text)[0] as int),
        chunks_for(encode_utf8(text), function_match_starts(text), class_match_starts(text), r),
    ensures
        r.len() == 1,
        r[0].node_type@ == function_kind(),
        r[0].start_byte == function_match_starts(text)[0],
        r[0].end_byte == block_end(encode_utf8(text), function_match_starts(text)[0] as int) + 1,
        encode_utf8(r[0].code@) == encode_utf8(text).subrange(
            function_match_starts(text)[0] as int,
            block_end(encode_utf8(text), function_match_starts(text)[0] as int) + 1,
        ),
{
    let fs = function_match_starts(text);
    let cs = class_match_starts(text);
    assert(fs.drop_last() =~= Seq::<usize>::empty());
    assert(fs.last() == fs[0]);
    assert(cs =~= Seq::<usize>::empty());
    assert(found_blocks(encode_utf8(text), Seq::<usize>::empty()).len() == 0);
}

/// Where the class pattern matches once in `text` and the function pattern
/// not at all, and the matched declaration's block closes, extraction yields
/// exactly one chunk: tagged as a class, from the match's start through the
/// closing brace of its block.
pub proof fn law_single_class(text: Seq<char>, r: Seq<CodeChunk>)
    requires
        function_match_starts(text).len() == 0,
        class_match_starts(text).len() == 1,
        has_block(encode_utf8(text), class_match_starts(text)[0] as int),
        chunks_for(encode_utf8(text), function_match_starts(text), class_match_starts(text), r),
    ensures
        r.len() == 1,
        r[0].node_type@ == class_kind(),
        r[0].start_byte == class_match_starts(text)[0],
        r[0].end_byte == block_end(encode_utf8(text), class_match_starts(text)[0] as int) + 1,
        encode_utf8(r[0].code@) == encode_utf8(text).subrange(
            class_match_starts(text)[0] as int,
            block_end(encode_utf8(text), class_match_starts(text)[0] as int) + 1,
        ),
{
    let fs = function_match_starts(text);
    let cs = class_match_starts(text);
    assert(cs.drop_last() =~= Seq::<usize>::empty());
    assert(cs.last() == cs[0]);
    assert(fs =~= Seq::<usize>::empty());
    assert(found_blocks(encode_utf8(text), Seq::<usize>::empty()).len() == 0);
    assert(r[0int + 0int] == r[0]);
}

} // verus!
