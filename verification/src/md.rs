//! Markdown document handling: extracting fenced code blocks, splitting YAML
//! frontmatter, and interpreting blocks as typed cells.

use vstd::prelude::*;
use crate::cells::{
    BackingFileReference, CellTypes, CodeCell, LLMCodeGenCell, LLMPromptCell, SupportedLanguage,
    SupportedModelProviders, TemplateCell, TextRange,
};
use crate::text::{
    str_to_chars, chars_to_string, char_slice, trim_chars, trim_spec, find_char, find_fence,
    has_fence_at, first_index_of, lemma_first_index_of, lemma_first_index_unique,
    lemma_first_index_none, skip_spaces, skip_nonspaces, skip_spaces_exec, skip_nonspaces_exec,
    append_range, str_eq, clone_opt_string, byte_offset_of, byte_offset_exec, lemma_byte_offset_mono,
};

verus! {

/// One fenced code block of a document: its tag, its optional
/// parenthesized name, its body with the first line removed, and the byte
/// range of its content between the fences in the source text's UTF-8
/// encoding.
#[derive(Clone, PartialEq, Eq, Debug)]
pub struct MarkdownCodeBlock {
    pub tag: String,
    pub name: Option<String>,
    pub body: String,
    pub range: TextRange,
}

/// The mathematical view of one extracted code block.
pub ghost struct BlockView {
    pub tag: Seq<char>,
    pub name: Option<Seq<char>>,
    pub body: Seq<char>,
    pub start: int,
    pub end: int,
}

impl View for MarkdownCodeBlock {
    type V = BlockView;

    open spec fn view(&self) -> BlockView {
        BlockView {
            tag: self.tag@,
            name: match self.name {
                Some(n) => Some(n@),
                None => None,
            },
            body: self.body@,
            start: self.range.start as int,
            end: self.range.end as int,
        }
    }
}

/// A line with one trailing carriage return dropped, as `str::lines` yields
/// it.
pub open spec fn strip_cr(line: Seq<char>) -> Seq<char> {
    if line.len() > 0 && line.last() == '\r' {
        line.drop_last()
    } else {
        line
    }
}

/// The text's lines, each stripped of a trailing carriage return, rejoined
/// with single newlines — what collecting `str::lines` and joining with a
/// newline leaves of a text without a trailing newline.
pub open spec fn join_lines(s: Seq<char>) -> Seq<char>
    decreases s.len(),
    via join_lines_decreases
{
    match first_index_of(s, '\n') {
        None => strip_cr(s),
        Some(i) => strip_cr(s.take(i)) + seq!['\n'] + join_lines(s.skip(i + 1)),
    }
}

#[via_fn]
proof fn join_lines_decreases(s: Seq<char>) {
    lemma_first_index_of(s, '\n');
}

/// The first line of a code segment, stripped of a carriage return.
pub open spec fn first_line_spec(code: Seq<char>) -> Seq<char> {
    match first_index_of(code, '\n') {
        Some(i) => strip_cr(code.take(i)),
        None => strip_cr(code),
    }
}

/// The code segment's remaining lines, rejoined with single newlines.
pub open spec fn rest_lines_spec(code: Seq<char>) -> Seq<char> {
    match first_index_of(code, '\n') {
        Some(i) => join_lines(code.skip(i + 1)),
        None => Seq::empty(),
    }
}

/// The block's tag: the first white-space-separated token of the first
/// line, or empty when the line has none.
pub open spec fn tag_spec(code: Seq<char>) -> Seq<char> {
    let fl = first_line_spec(code);
    let a = skip_spaces(fl, 0);
    let b = skip_nonspaces(fl, a);
    fl.subrange(a, b)
}

/// The first line's second white-space-separated token, if it has one.
pub open spec fn name_token_spec(code: Seq<char>) -> Option<Seq<char>> {
    let fl = first_line_spec(code);
    let a = skip_spaces(fl, 0);
    let b = skip_nonspaces(fl, a);
    let c = skip_spaces(fl, b);
    if c < fl.len() {
        Some(fl.subrange(c, skip_nonspaces(fl, c)))
    } else {
        None
    }
}

/// The name a token denotes: its inside when wrapped in parentheses,
/// nothing otherwise.
pub open spec fn token_name_spec(tok: Seq<char>) -> Option<Seq<char>> {
    if tok.len() >= 1 && tok[0] == '(' {
        let r = tok.drop_first();
        if r.len() >= 1 && r.last() == ')' {
            Some(r.drop_last())
        } else {
            None
        }
    } else {
        None
    }
}

/// The block whose content lies between character positions `cs` and `ce`;
/// its recorded range holds the corresponding byte offsets of the source
/// text's UTF-8 encoding.
pub open spec fn block_at(s: Seq<char>, cs: int, ce: int) -> BlockView {
    let code = trim_spec(s.subrange(cs, ce));
    BlockView {
        tag: tag_spec(code),
        name: match name_token_spec(code) {
            Some(t) => token_name_spec(t),
            None => None,
        },
        body: rest_lines_spec(code),
        start: byte_offset_of(s, cs),
        end: byte_offset_of(s, ce),
    }
}

/// The first fence position at or after `i`, if any.
pub open spec fn fence_index(s: Seq<char>, i: int) -> Option<int>
    decreases s.len() + 3 - i,
{
    if i + 3 > s.len() {
        None
    } else if has_fence_at(s, i) {
        Some(i)
    } else {
        fence_index(s, i + 1)
    }
}

/// A found fence lies at or after the start of the search.
pub proof fn lemma_fence_index_ge(s: Seq<char>, i: int)
    ensures
        match fence_index(s, i) {
            Some(f) => f >= i && has_fence_at(s, f),
            None => true,
        },
    decreases s.len() + 3 - i,
{
    if i + 3 <= s.len() && !has_fence_at(s, i) {
        lemma_fence_index_ge(s, i + 1);
    }
}

/// When a first fence is characterized directly, `fence_index` names
/// exactly it.
pub proof fn lemma_fence_index_unique(s: Seq<char>, i: int, f: int)
    requires
        i <= f,
        has_fence_at(s, f),
        forall|k: int| i <= k < f ==> !has_fence_at(s, k),
    ensures
        fence_index(s, i) == Some(f),
    decreases s.len() + 3 - i,
{
    if i + 3 > s.len() {
        assert(f + 3 <= s.len());
        assert(false);
    } else if has_fence_at(s, i) {
        assert(f == i);
    } else {
        lemma_fence_index_unique(s, i + 1, f);
    }
}

/// When no fence opens at or after `i`, `fence_index` finds nothing.
pub proof fn lemma_fence_index_none(s: Seq<char>, i: int)
    requires
        forall|k: int| i <= k ==> !has_fence_at(s, k),
    ensures
        fence_index(s, i) is None,
    decreases s.len() + 3 - i,
{
    if i + 3 <= s.len() {
        assert(!has_fence_at(s, i));
        lemma_fence_index_none(s, i + 1);
    }
}

/// Every code block of the text from position `start` on: the content
/// between each successive pair of fences becomes one block, and scanning
/// resumes after the closing fence.
pub open spec fn extract_blocks_spec(s: Seq<char>, start: int) -> Seq<BlockView>
    decreases s.len() - start,
    via extract_blocks_decreases
{
    match fence_index(s, start) {
        None => Seq::empty(),
        Some(f1) => match fence_index(s, f1 + 3) {
            None => Seq::empty(),
            Some(f2) => seq![block_at(s, f1 + 3, f2)] + extract_blocks_spec(s, f2 + 3),
        },
    }
}

#[via_fn]
proof fn extract_blocks_decreases(s: Seq<char>, start: int) {
    lemma_fence_index_ge(s, start);
    match fence_index(s, start) {
        Some(f1) => {
            lemma_fence_index_ge(s, f1 + 3);
        },
        None => {},
    }
}

/// The views of a list of blocks.
pub open spec fn block_views(blocks: Seq<MarkdownCodeBlock>) -> Seq<BlockView> {
    blocks.map_values(|b: MarkdownCodeBlock| b@)
}

/// Extract every fenced code block of a document, in order: each block's
/// content is the trimmed text between a pair of three-backquote fences,
/// its first line giving the tag and an optional parenthesized name, the
/// remaining lines its body.
#[verifier::loop_isolation(false)]
#[verifier::rlimit(60)]
pub fn extract_code_blocks(body: &str) -> (r: Vec<MarkdownCodeBlock>)
    ensures
        block_views(r@) == extract_blocks_spec(body@, 0),
{
    let s = str_to_chars(body);
    let slen = s.len();
    let byte_vec = body.as_bytes_vec();
    let total_bytes = byte_vec.len();
    proof {
        assert(s@.take(slen as int) =~= body@);
        assert(byte_offset_of(s@, slen as int) == total_bytes as int);
    }
    let ghost full = extract_blocks_spec(s@, 0);
    let mut blocks: Vec<MarkdownCodeBlock> = Vec::new();
    let mut start: usize = 0;
    let mut done = false;
    proof {
        assert(block_views(blocks@) + extract_blocks_spec(s@, 0) =~= full);
    }
    while !done
        invariant
            start <= s@.len(),
            slen == s@.len(),
            block_views(blocks@) + extract_blocks_spec(s@, start as int) == full,
            done ==> block_views(blocks@) == full,
        decreases (if done { 0int } else { 1int }), s@.len() - start,
    {
        match find_fence(&s, start) {
            None => {
                proof {
                    assert forall|k: int| start <= k implies !has_fence_at(s@, k) by {
                        if k < s@.len() {
                        } else {
                            assert(k + 3 > s@.len());
                        }
                    }
                    lemma_fence_index_none(s@, start as int);
                    assert(extract_blocks_spec(s@, start as int) =~= Seq::<BlockView>::empty());
                    assert(block_views(blocks@) =~= full);
                }
                done = true;
            },
            Some(f1) => {
                let cs = f1 + 3;
                proof {
                    lemma_fence_index_unique(s@, start as int, f1 as int);
                }
                match find_fence(&s, cs) {
                    None => {
                        proof {
                            assert forall|k: int| cs <= k implies !has_fence_at(s@, k) by {
                                if k < s@.len() {
                                } else {
                                    assert(k + 3 > s@.len());
                                }
                            }
                            lemma_fence_index_none(s@, cs as int);
                            assert(extract_blocks_spec(s@, start as int)
                                =~= Seq::<BlockView>::empty());
                            assert(block_views(blocks@) =~= full);
                        }
                        done = true;
                    },
                    Some(f2) => {
                        proof {
                            lemma_fence_index_unique(s@, cs as int, f2 as int);
                            assert(extract_blocks_spec(s@, start as int) == seq![
                                block_at(s@, cs as int, f2 as int),
                            ] + extract_blocks_spec(s@, f2 as int + 3));
                        }
                        let content = char_slice(&s, cs, f2);
                        let code = trim_chars(&content);
                        let ghost code_view = trim_spec(s@.subrange(cs as int, f2 as int));
                        proof {
                            assert(code@ == code_view);
                            lemma_byte_offset_mono(s@, 0, slen as int);
                        }
                        let byte_start = byte_offset_exec(&s, cs);
                        let byte_end = byte_offset_exec(&s, f2);
                        let block = build_block(&code, byte_start, byte_end);
                        proof {
                            assert(block@ == block_at(s@, cs as int, f2 as int));
                        }
                        let ghost prev_blocks = blocks@;
                        blocks.push(block);
                        proof {
                            assert(block_views(blocks@) =~= block_views(prev_blocks) + seq![
                                block@,
                            ]);
                            assert(block_views(blocks@) + extract_blocks_spec(s@, f2 as int + 3)
                                =~= block_views(prev_blocks) + (seq![
                                block_at(s@, cs as int, f2 as int),
                            ] + extract_blocks_spec(s@, f2 as int + 3)));
                        }
                        proof {
                            assert(f2 as int + 3 <= slen as int);
                        }
                        start = f2 + 3;
                    },
                }
            },
        }
    }
    blocks
}

/// One block assembled from its trimmed content, recording the given byte
/// range.
#[verifier::loop_isolation(false)]
#[verifier::rlimit(60)]
fn build_block(code: &Vec<char>, byte_start: usize, byte_end: usize) -> (r: MarkdownCodeBlock)
    ensures
        r@ == (BlockView {
            tag: tag_spec(code@),
            name: (match name_token_spec(code@) {
                Some(t) => token_name_spec(t),
                None => None,
            }),
            body: rest_lines_spec(code@),
            start: byte_start as int,
            end: byte_end as int,
        }),
{
    let clen = code.len();
    let (fl_end, rest_start) = match find_char(code, 0, '\n') {
        Some(nl) => {
            proof {
                lemma_first_index_unique(code@, '\n', nl as int);
            }
            (nl, nl + 1)
        },
        None => {
            proof {
                lemma_first_index_none(code@, '\n');
            }
            (clen, clen)
        },
    };
    let fl_end2 = if fl_end > 0 && code[fl_end - 1] == '\r' {
        fl_end - 1
    } else {
        fl_end
    };
    let fl = char_slice(code, 0, fl_end2);
    proof {
        assert(fl@ =~= first_line_spec(code@)) by {
            match first_index_of(code@, '\n') {
                Some(i) => {
                    assert(code@.take(i) =~= code@.subrange(0, i));
                    if i > 0 && code@[i - 1] == '\r' {
                        assert(strip_cr(code@.take(i)) =~= code@.subrange(0, i - 1));
                    }
                },
                None => {
                    assert(code@.take(clen as int) =~= code@);
                    if clen > 0 && code@[clen as int - 1] == '\r' {
                        assert(strip_cr(code@) =~= code@.subrange(0, clen as int - 1));
                    } else {
                        assert(code@.subrange(0, clen as int) =~= code@);
                    }
                },
            }
        }
    }
    let a = skip_spaces_exec(&fl, 0);
    let b = skip_nonspaces_exec(&fl, a);
    let tag = chars_to_string(&char_slice(&fl, a, b));
    let c = skip_spaces_exec(&fl, b);
    let name: Option<String> = if c < fl.len() {
        let d = skip_nonspaces_exec(&fl, c);
        let tok = char_slice(&fl, c, d);
        if tok.len() >= 1 && tok[0] == '(' {
            let tlen = tok.len();
            if tlen >= 2 && tok[tlen - 1] == ')' {
                proof {
                    assert(tok@.drop_first().drop_last() =~= tok@.subrange(1, tlen as int - 1));
                }
                Some(chars_to_string(&char_slice(&tok, 1, tlen - 1)))
            } else {
                proof {
                    let rd = tok@.drop_first();
                    if rd.len() >= 1 {
                        assert(rd.last() == tok@[tlen as int - 1]);
                    }
                }
                None
            }
        } else {
            None
        }
    } else {
        None
    };
    let rest = join_rest(code, rest_start);
    proof {
        assert(rest@ == rest_lines_spec(code@)) by {
            match first_index_of(code@, '\n') {
                Some(i) => {},
                None => {
                    assert(code@.skip(clen as int) =~= Seq::<char>::empty());
                    assert(join_lines(Seq::<char>::empty()) =~= Seq::<char>::empty());
                },
            }
        }
    }
    MarkdownCodeBlock {
        tag,
        name,
        body: chars_to_string(&rest),
        range: TextRange { start: byte_start, end: byte_end },
    }
}

/// The lines of `code` from `pos` on, each stripped of a trailing carriage
/// return, rejoined with single newlines.
#[verifier::loop_isolation(false)]
#[verifier::rlimit(60)]
fn join_rest(code: &Vec<char>, pos: usize) -> (r: Vec<char>)
    requires
        pos <= code@.len(),
    ensures
        r@ == join_lines(code@.skip(pos as int)),
{
    let ghost target = join_lines(code@.skip(pos as int));
    let all = code.len();
    let mut out: Vec<char> = Vec::new();
    let mut p: usize = pos;
    let mut done = false;
    proof {
        assert(out@ + join_lines(code@.skip(pos as int)) =~= target);
    }
    while !done
        invariant
            pos <= p <= code@.len(),
            all == code@.len(),
            !done ==> out@ + join_lines(code@.skip(p as int)) == target,
            done ==> out@ == target,
        decreases (if done { 0int } else { 1int }), code@.len() - p,
    {
        let ghost piece = code@.skip(p as int);
        match find_char(code, p, '\n') {
            Some(j) => {
                proof {
                    assert forall|k: int| 0 <= k < j - p implies piece[k] != '\n' by {
                        assert(piece[k] == code@[p + k]);
                    }
                    assert(piece[j - p] == code@[j as int]);
                    lemma_first_index_unique(piece, '\n', j as int - p);
                }
                let seg_end = if j > p && code[j - 1] == '\r' {
                    j - 1
                } else {
                    j
                };
                proof {
                    assert(piece.take(j - p) =~= code@.subrange(p as int, j as int));
                    if j > p && code@[j as int - 1] == '\r' {
                        assert(strip_cr(piece.take(j - p)) =~= code@.subrange(
                            p as int,
                            j as int - 1,
                        ));
                    } else {
                        if piece.take(j - p).len() > 0 {
                            assert(piece.take(j - p).last() == code@[j as int - 1]);
                        }
                        assert(strip_cr(piece.take(j - p)) =~= code@.subrange(p as int, j as int));
                    }
                }
                let ghost out_prev = out@;
                append_range(&mut out, code, p, seg_end);
                out.push('\n');
                proof {
                    assert(piece.skip(j - p + 1) =~= code@.skip(j as int + 1));
                    assert(join_lines(piece) == strip_cr(piece.take(j - p)) + seq!['\n']
                        + join_lines(code@.skip(j as int + 1)));
                    assert(out@ =~= out_prev + strip_cr(piece.take(j - p)) + seq!['\n']);
                    assert(out@ + join_lines(code@.skip(j as int + 1)) =~= out_prev + join_lines(
                        piece,
                    ));
                    assert(j < all);
                }
                p = j + 1;
            },
            None => {
                proof {
                    assert forall|k: int| 0 <= k < piece.len() implies piece[k] != '\n' by {
                        assert(piece[k] == code@[p + k]);
                    }
                    lemma_first_index_none(piece, '\n');
                }
                let clen = code.len();
                let seg_end = if clen > p && code[clen - 1] == '\r' {
                    clen - 1
                } else {
                    clen
                };
                proof {
                    if clen > p && code@[clen as int - 1] == '\r' {
                        assert(piece.last() == code@[clen as int - 1]);
                        assert(strip_cr(piece) =~= code@.subrange(p as int, clen as int - 1));
                    } else {
                        if piece.len() > 0 {
                            assert(piece.last() == code@[clen as int - 1]);
                        }
                        assert(strip_cr(piece) =~= code@.subrange(p as int, clen as int));
                    }
                    assert(join_lines(piece) == strip_cr(piece));
                }
                let ghost out_prev = out@;
                append_range(&mut out, code, p, seg_end);
                proof {
                    assert(out@ =~= out_prev + join_lines(piece));
                }
                done = true;
            },
        }
    }
    out
}

/// Why a block could not be interpreted as a cell.
#[derive(Clone, PartialEq, Eq, Debug)]
pub enum InterpretError {
    /// The block's frontmatter opened but never closed.
    FrontmatterSplitError(String),
    /// The block's frontmatter is not valid YAML; holds the parser's message.
    YamlDeserializeError(String),
    /// A declared port is not a number.
    PortParseError,
}

/// Whether the text parses as a YAML document.
pub uninterp spec fn yaml_parses(s: Seq<char>) -> bool;

/// Relies on `serde_yaml::from_str::<Value>`: parses YAML text into its
/// generic value tree; whether it succeeds depends on the text alone.
#[verifier::external_body]
fn yaml_from_str(s: &str) -> (r: Result<serde_yaml::Value, serde_yaml::Error>)
    ensures
        r is Ok <==> yaml_parses(s@),
{
    serde_yaml::from_str(s)
}

/// Relies on `serde_yaml::Error`'s `Display` through `ToString`: the parse
/// error's message.
#[verifier::external_body]
fn yaml_error_message(e: &serde_yaml::Error) -> (r: String) {
    e.to_string()
}

/// The start and end of the first line at or after `pos` whose content,
/// stripped of a carriage return, is exactly `---`.
pub open spec fn marker_line(s: Seq<char>, pos: int) -> Option<(int, int)>
    decreases s.len() - pos,
    via marker_line_decreases
{
    if !(0 <= pos <= s.len()) {
        None
    } else {
        let line_end = match first_index_of(s.skip(pos), '\n') {
            Some(i) => pos + i,
            None => s.len() as int,
        };
        if strip_cr(s.subrange(pos, line_end)) == seq!['-', '-', '-'] {
            Some((pos, line_end))
        } else if line_end >= s.len() {
            None
        } else {
            marker_line(s, line_end + 1)
        }
    }
}

#[via_fn]
proof fn marker_line_decreases(s: Seq<char>, pos: int) {
    if 0 <= pos <= s.len() {
        lemma_first_index_of(s.skip(pos), '\n');
    }
}

/// How a document splits into YAML frontmatter and body: a document whose
/// first line is `---` carries frontmatter up to the next `---` line, and
/// its body is what follows that line; any other document is all body, with
/// empty frontmatter. A frontmatter opened but never closed yields nothing.
pub open spec fn split_frontmatter_spec(s: Seq<char>) -> Option<(Seq<char>, Seq<char>)> {
    let first_end = match first_index_of(s, '\n') {
        Some(i) => i,
        None => s.len() as int,
    };
    if strip_cr(s.take(first_end)) == seq!['-', '-', '-'] {
        if first_end >= s.len() {
            None
        } else {
            match marker_line(s, first_end + 1) {
                None => None,
                Some((p, q)) => Some(
                    (
                        s.subrange(first_end + 1, p),
                        if q >= s.len() {
                            Seq::empty()
                        } else {
                            s.skip(q + 1)
                        },
                    ),
                ),
            }
        }
    } else {
        Some((Seq::empty(), s))
    }
}

/// The first `---` line at or after `from`, as start and end positions.
#[verifier::loop_isolation(false)]
#[verifier::rlimit(60)]
fn find_marker_exec(v: &Vec<char>, from: usize) -> (r: Option<(usize, usize)>)
    requires
        from <= v@.len(),
    ensures
        match r {
            Some(pq) => marker_line(v@, from as int) == Some((pq.0 as int, pq.1 as int)) && from
                <= pq.0 <= pq.1 <= v@.len(),
            None => marker_line(v@, from as int) is None,
        },
{
    let vlen = v.len();
    let mut pos = from;
    let mut result: Option<(usize, usize)> = None;
    let mut done = false;
    while !done
        invariant
            from <= pos <= vlen,
            vlen == v@.len(),
            !done ==> marker_line(v@, from as int) == marker_line(v@, pos as int) && result
                is None,
            done ==> (match result {
                Some(pq) => marker_line(v@, from as int) == Some((pq.0 as int, pq.1 as int))
                    && from <= pq.0 <= pq.1 <= v@.len(),
                None => marker_line(v@, from as int) is None,
            }),
        decreases (if done { 0int } else { 1int }), vlen - pos,
    {
        let ghost piece = v@.skip(pos as int);
        let line_end = match find_char(v, pos, '\n') {
            Some(j) => {
                proof {
                    assert forall|k: int| 0 <= k < j - pos implies piece[k] != '\n' by {
                        assert(piece[k] == v@[pos + k]);
                    }
                    assert(piece[j - pos] == v@[j as int]);
                    lemma_first_index_unique(piece, '\n', j as int - pos);
                }
                j
            },
            None => {
                proof {
                    assert forall|k: int| 0 <= k < piece.len() implies piece[k] != '\n' by {
                        assert(piece[k] == v@[pos + k]);
                    }
                    lemma_first_index_none(piece, '\n');
                }
                vlen
            },
        };
        let le2 = if line_end > pos && v[line_end - 1] == '\r' {
            line_end - 1
        } else {
            line_end
        };
        let ghost line = v@.subrange(pos as int, line_end as int);
        proof {
            assert(strip_cr(line) =~= v@.subrange(pos as int, le2 as int)) by {
                if line_end > pos && v@[line_end as int - 1] == '\r' {
                    assert(line.last() == v@[line_end as int - 1]);
                    assert(line.drop_last() =~= v@.subrange(pos as int, line_end as int - 1));
                } else {
                    if line.len() > 0 {
                        assert(line.last() == v@[line_end as int - 1]);
                    }
                }
            }
        }
        let is_m = le2 - pos == 3 && v[pos] == '-' && v[pos + 1] == '-' && v[pos + 2] == '-';
        proof {
            let m = seq!['-', '-', '-'];
            if is_m {
                assert(strip_cr(line) =~= m);
            } else {
                if strip_cr(line) == m {
                    assert(strip_cr(line).len() == 3);
                    assert(le2 - pos == 3);
                    assert(v@.subrange(pos as int, le2 as int)[0] == v@[pos as int]);
                    assert(v@.subrange(pos as int, le2 as int)[1] == v@[pos as int + 1]);
                    assert(v@.subrange(pos as int, le2 as int)[2] == v@[pos as int + 2]);
                    assert(m[0] == '-' && m[1] == '-' && m[2] == '-');
                    assert(false);
                }
            }
        }
        if is_m {
            result = Some((pos, line_end));
            done = true;
        } else if line_end >= vlen {
            result = None;
            done = true;
        } else {
            pos = line_end + 1;
        }
    }
    result
}

/// Split a document into its YAML frontmatter and remaining body; a
/// frontmatter opened by a `---` first line but never closed is an error.
#[verifier::rlimit(60)]
pub fn split_frontmatter(text: &str) -> (r: Result<(String, String), InterpretError>)
    ensures
        match split_frontmatter_spec(text@) {
            Some(parts) => r matches Ok(p) && p.0@ == parts.0 && p.1@ == parts.1,
            None => r matches Err(InterpretError::FrontmatterSplitError(_)),
        },
{
    let v = str_to_chars(text);
    let vlen = v.len();
    let first_end = match find_char(&v, 0, '\n') {
        Some(i) => {
            proof {
                lemma_first_index_unique(v@, '\n', i as int);
            }
            i
        },
        None => {
            proof {
                lemma_first_index_none(v@, '\n');
            }
            vlen
        },
    };
    let fe2 = if first_end > 0 && v[first_end - 1] == '\r' {
        first_end - 1
    } else {
        first_end
    };
    proof {
        assert(strip_cr(v@.take(first_end as int)) =~= v@.subrange(0, fe2 as int)) by {
            assert(v@.take(first_end as int) =~= v@.subrange(0, first_end as int));
            if first_end > 0 && v@[first_end as int - 1] == '\r' {
                assert(v@.subrange(0, first_end as int).last() == v@[first_end as int - 1]);
                assert(v@.subrange(0, first_end as int).drop_last() =~= v@.subrange(
                    0,
                    first_end as int - 1,
                ));
            } else {
                if first_end > 0 {
                    assert(v@.subrange(0, first_end as int).last() == v@[first_end as int - 1]);
                }
            }
        }
    }
    let is_open = fe2 == 3 && v[0] == '-' && v[1] == '-' && v[2] == '-';
    proof {
        let m = seq!['-', '-', '-'];
        let fl = strip_cr(v@.take(first_end as int));
        if is_open {
            assert(fl =~= m);
        } else {
            if fl == m {
                assert(fl.len() == 3);
                assert(fe2 == 3);
                assert(v@.subrange(0, 3)[0] == v@[0]);
                assert(v@.subrange(0, 3)[1] == v@[1]);
                assert(v@.subrange(0, 3)[2] == v@[2]);
                assert(m[0] == '-' && m[1] == '-' && m[2] == '-');
                assert(false);
            }
        }
    }
    if !is_open {
        let body = chars_to_string(&v);
        return Ok((String::new(), body));
    }
    if first_end >= vlen {
        return Err(
            InterpretError::FrontmatterSplitError(
                String::from_str("frontmatter opened but the document ends on its first line"),
            ),
        );
    }
    match find_marker_exec(&v, first_end + 1) {
        None => Err(
            InterpretError::FrontmatterSplitError(
                String::from_str("frontmatter opened but never closed by a --- line"),
            ),
        ),
        Some((p, q)) => {
            let frontmatter = chars_to_string(&char_slice(&v, first_end + 1, p));
            let body = if q >= vlen {
                String::new()
            } else {
                let b = chars_to_string(&char_slice(&v, q + 1, vlen));
                proof {
                    assert(v@.subrange(q as int + 1, vlen as int) =~= v@.skip(q as int + 1));
                }
                b
            };
            Ok((frontmatter, body))
        },
    }
}

/// Whether the tag names a Python code cell.
pub open spec fn python_tag(tag: Seq<char>) -> bool {
    tag == "python"@ || tag == "py"@
}

/// Whether the tag names a JavaScript or TypeScript code cell.
pub open spec fn js_tag(tag: Seq<char>) -> bool {
    tag == "javascript"@ || tag == "js"@ || tag == "ts"@ || tag == "typescript"@
}

/// The backing-file reference a cell must carry: the given path with the
/// block's range when a path is given, nothing otherwise.
pub open spec fn backing_ok(
    b: Option<BackingFileReference>,
    file_path: Option<String>,
    range: TextRange,
) -> bool {
    match file_path {
        Some(p) => b matches Some(bref) && bref.path == p && bref.text_range == Some(range),
        None => b is None,
    }
}

/// What interpreting a block yields once its frontmatter split into `fm`
/// and `body`: by tag, the matching cell; `None` for an unknown tag; a YAML
/// error exactly when a prompt or code-generation cell's frontmatter does
/// not parse.
pub open spec fn interpreted_cell_ok(
    block: MarkdownCodeBlock,
    file_path: Option<String>,
    fm: Seq<char>,
    body: Seq<char>,
    r: Result<Option<CellTypes>, InterpretError>,
) -> bool {
    let tag = block.tag@;
    if python_tag(tag) || js_tag(tag) {
        r matches Ok(Some(CellTypes::Code(cell, range))) && range == block.range && cell.language
            == (if python_tag(tag) {
            SupportedLanguage::PyO3
        } else {
            SupportedLanguage::Deno
        }) && cell.name == block.name && cell.source_code@ == block.body@
            && cell.function_invocation is None && backing_ok(
            cell.backing_file_reference,
            file_path,
            block.range,
        )
    } else if tag == "prompt"@ {
        if yaml_parses(fm) {
            r matches Ok(
                Some(
                    CellTypes::Prompt(
                        LLMPromptCell::Chat {
                            backing_file_reference,
                            is_function_invocation,
                            configuration: _,
                            name,
                            provider,
                            complete_body,
                            req,
                        },
                        range,
                    ),
                ),
            ) && range == block.range && is_function_invocation == false && name == block.name
                && provider == SupportedModelProviders::OpenAI && complete_body@ == block.body@
                && req@ == body && backing_ok(backing_file_reference, file_path, block.range)
        } else {
            r matches Err(InterpretError::YamlDeserializeError(_))
        }
    } else if tag == "codegen"@ {
        if yaml_parses(fm) {
            r matches Ok(Some(CellTypes::CodeGen(cell, range))) && range == block.range
                && cell.function_invocation == false && cell.name == block.name && cell.provider
                == SupportedModelProviders::OpenAI && cell.complete_body@ == block.body@
                && cell.req@ == body && backing_ok(
                cell.backing_file_reference,
                file_path,
                block.range,
            )
        } else {
            r matches Err(InterpretError::YamlDeserializeError(_))
        }
    } else if tag == "html"@ || tag == "template"@ {
        r matches Ok(Some(CellTypes::Template(cell, range))) && range == block.range && cell.name
            == block.name && cell.body@ == block.body@ && backing_ok(
            cell.backing_file_reference,
            file_path,
            block.range,
        )
    } else {
        r matches Ok(None)
    }
}

/// Interpret one extracted block as a typed cell: code tags become code
/// cells carrying the whole body; `prompt` and `codegen` blocks parse their
/// frontmatter as YAML configuration and keep the remaining body as the
/// request; `html` and `template` become template cells; any other tag is
/// no cell. Errors are a frontmatter that never closes and, for prompt and
/// code-generation cells, frontmatter that is not valid YAML.
#[verifier::rlimit(60)]
pub fn interpret_markdown_code_block(block: &MarkdownCodeBlock, file_path: Option<String>) -> (r:
    Result<Option<CellTypes>, InterpretError>)
    ensures
        match split_frontmatter_spec(block.body@) {
            None => r matches Err(InterpretError::FrontmatterSplitError(_)),
            Some(parts) => interpreted_cell_ok(*block, file_path, parts.0, parts.1, r),
        },
{
    let parts = match split_frontmatter(block.body.as_str()) {
        Ok(p) => p,
        Err(e) => {
            return Err(e);
        },
    };
    let (frontmatter, body) = parts;
    let backing_file_reference = match &file_path {
        Some(p) => Some(
            BackingFileReference { path: p.clone(), text_range: Some(block.range) },
        ),
        None => None,
    };
    let tag = block.tag.as_str();
    if str_eq(tag, "python") || str_eq(tag, "py") || str_eq(tag, "javascript") || str_eq(tag, "js")
        || str_eq(tag, "ts") || str_eq(tag, "typescript") {
        let language = if str_eq(tag, "python") || str_eq(tag, "py") {
            SupportedLanguage::PyO3
        } else {
            SupportedLanguage::Deno
        };
        Ok(
            Some(
                CellTypes::Code(
                    CodeCell {
                        backing_file_reference,
                        name: clone_opt_string(&block.name),
                        language,
                        source_code: block.body.clone(),
                        function_invocation: None,
                    },
                    block.range,
                ),
            ),
        )
    } else if str_eq(tag, "prompt") {
        match yaml_from_str(frontmatter.as_str()) {
            Ok(configuration) => Ok(
                Some(
                    CellTypes::Prompt(
                        LLMPromptCell::Chat {
                            backing_file_reference,
                            is_function_invocation: false,
                            configuration,
                            name: clone_opt_string(&block.name),
                            provider: SupportedModelProviders::OpenAI,
                            complete_body: block.body.clone(),
                            req: body,
                        },
                        block.range,
                    ),
                ),
            ),
            Err(e) => Err(InterpretError::YamlDeserializeError(yaml_error_message(&e))),
        }
    } else if str_eq(tag, "codegen") {
        match yaml_from_str(frontmatter.as_str()) {
            Ok(configuration) => Ok(
                Some(
                    CellTypes::CodeGen(
                        LLMCodeGenCell {
                            backing_file_reference,
                            function_invocation: false,
                            configuration,
                            name: clone_opt_string(&block.name),
                            provider: SupportedModelProviders::OpenAI,
                            complete_body: block.body.clone(),
                            req: body,
                        },
                        block.range,
                    ),
                ),
            ),
            Err(e) => Err(InterpretError::YamlDeserializeError(yaml_error_message(&e))),
        }
    } else if str_eq(tag, "html") || str_eq(tag, "template") {
        Ok(
            Some(
                CellTypes::Template(
                    TemplateCell {
                        backing_file_reference,
                        name: clone_opt_string(&block.name),
                        body: block.body.clone(),
                    },
                    block.range,
                ),
            ),
        )
    } else {
        Ok(None)
    }
}

/// The number of newline characters of a text.
pub open spec fn newline_count(s: Seq<char>) -> int
    decreases s.len(),
{
    if s.len() == 0 {
        0
    } else {
        newline_count(s.drop_last()) + if s.last() == '\n' {
            1int
        } else {
            0int
        }
    }
}

/// How many lines `str::lines` yields of a text: one per newline, plus one
/// for a final line not ended by a newline.
pub open spec fn line_count_spec(s: Seq<char>) -> int {
    if s.len() == 0 {
        0
    } else if s.last() == '\n' {
        newline_count(s)
    } else {
        newline_count(s) + 1
    }
}

/// A text holds no more newlines than characters.
proof fn lemma_newline_count_le(s: Seq<char>)
    ensures
        0 <= newline_count(s) <= s.len(),
    decreases s.len(),
{
    if s.len() > 0 {
        lemma_newline_count_le(s.drop_last());
    }
}

/// The number of lines of the text.
#[verifier::loop_isolation(false)]
fn count_lines(v: &Vec<char>) -> (r: usize)
    ensures
        r as int == line_count_spec(v@),
{
    let mut count: usize = 0;
    let mut i: usize = 0;
    proof {
        assert(v@.take(0) =~= Seq::<char>::empty());
    }
    while i < v.len()
        invariant
            0 <= i <= v@.len(),
            count <= i,
            count as int == newline_count(v@.take(i as int)),
        decreases v@.len() - i,
    {
        proof {
            assert(v@.take(i as int + 1).drop_last() =~= v@.take(i as int));
            assert(v@.take(i as int + 1).last() == v@[i as int]);
        }
        if v[i] == '\n' {
            count = count + 1;
        }
        i = i + 1;
    }
    proof {
        assert(v@.take(v@.len() as int) =~= v@);
    }
    if v.len() == 0 {
        0
    } else if v[v.len() - 1] == '\n' {
        count
    } else {
        proof {
            lemma_newline_count_le(v@.drop_last());
            assert(newline_count(v@) == newline_count(v@.drop_last()));
        }
        count + 1
    }
}

/// A parsed document file: where it came from, its source text, its line
/// count, and every code block extracted from it.
#[derive(Debug)]
pub struct ParsedFile {
    pub filename: Option<String>,
    pub code: Option<String>,
    pub num_lines: usize,
    pub result: Vec<MarkdownCodeBlock>,
}

/// A parsed file assembled from a source text the host read.
pub fn parsed_file_from_source(filename: Option<String>, source: String) -> (r: ParsedFile)
    ensures
        r.filename == filename,
        r.code matches Some(c) && c@ == source@,
        r.num_lines as int == line_count_spec(source@),
        block_views(r.result@) == extract_blocks_spec(source@, 0),
{
    let result = extract_code_blocks(source.as_str());
    let chars = str_to_chars(source.as_str());
    let num_lines = count_lines(&chars);
    ParsedFile { filename, code: Some(source), num_lines, result }
}

/// Whether a file with this extension is parsed when scanning a folder.
pub fn should_load_extension(extension: &str) -> (r: bool)
    ensures
        r == (extension@ == "md"@ || extension@ == "py"@ || extension@ == "js"@ || extension@
            == "ts"@),
{
    str_eq(extension, "md") || str_eq(extension, "py") || str_eq(extension, "js") || str_eq(
        extension,
        "ts",
    )
}

} // verus!
