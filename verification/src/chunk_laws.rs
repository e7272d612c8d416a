//! Laws of the chunker: chunks come from disjoint line ranges in document
//! order, fenced blocks round-trip verbatim, unterminated trailing content is
//! dropped, and front matter and headings appear in no chunk.

use vstd::prelude::*;
use crate::contents::ScanState;
use crate::contents::chunks_of_lines;
use crate::contents::is_fence_line;
use crate::contents::is_heading_line;
use crate::contents::is_meta_line;
use crate::contents::newline;
use crate::contents::scan;
use crate::contents::scan_step;

verus! {

/// The text of `lines` as one piece, each line followed by a newline.
pub open spec fn join_lines(lines: Seq<Seq<char>>) -> Seq<char>
    decreases lines.len(),
{
    if lines.len() == 0 {
        Seq::empty()
    } else {
        lines[0] + newline() + join_lines(lines.drop_first())
    }
}

/// Joining one more line appends it and a newline.
pub proof fn lemma_join_snoc(s: Seq<Seq<char>>, x: Seq<char>)
    ensures
        join_lines(s.push(x)) == join_lines(s) + x + newline(),
    decreases s.len(),
{
    if s.len() == 0 {
        assert(s.push(x)[0] == x);
        assert(s.push(x).drop_first() =~= Seq::<Seq<char>>::empty());
        assert(join_lines(Seq::<Seq<char>>::empty()) == Seq::<char>::empty());
        assert(join_lines(s.push(x)) =~= join_lines(s) + x + newline());
    } else {
        assert(s.push(x)[0] == s[0]);
        assert(s.push(x).drop_first() =~= s.drop_first().push(x));
        lemma_join_snoc(s.drop_first(), x);
        assert(join_lines(s.push(x)) =~= join_lines(s) + x + newline());
    }
}

/// The line ranges of the chunks that scanning from `st` at position `j`
/// will emit; `s0` is where the chunk now being accumulated began.
pub open spec fn scan_spans(st: ScanState, s0: int, j: int, lines: Seq<Seq<char>>) -> Seq<
    (int, int),
>
    decreases lines.len() - j,
    when 0 <= j <= lines.len()
{
    if j >= lines.len() {
        Seq::empty()
    } else {
        let line = lines[j];
        match st {
            ScanState::Idle => {
                if is_fence_line(line) {
                    scan_spans(ScanState::InCodeBlock, j, j + 1, lines)
                } else if is_meta_line(line) {
                    scan_spans(ScanState::InFrontMatter, 0, j + 1, lines)
                } else if is_heading_line(line) || line.len() == 0 {
                    scan_spans(ScanState::Idle, 0, j + 1, lines)
                } else {
                    scan_spans(ScanState::InProse, j, j + 1, lines)
                }
            },
            ScanState::InCodeBlock => {
                if is_fence_line(line) {
                    seq![(s0, j + 1)] + scan_spans(ScanState::Idle, 0, j + 1, lines)
                } else {
                    scan_spans(ScanState::InCodeBlock, s0, j + 1, lines)
                }
            },
            ScanState::InFrontMatter => {
                if is_meta_line(line) {
                    scan_spans(ScanState::Idle, 0, j + 1, lines)
                } else {
                    scan_spans(ScanState::InFrontMatter, 0, j + 1, lines)
                }
            },
            ScanState::InProse => {
                if line.len() == 0 {
                    seq![(s0, j)] + scan_spans(ScanState::Idle, 0, j + 1, lines)
                } else {
                    scan_spans(ScanState::InProse, s0, j + 1, lines)
                }
            },
        }
    }
}

/// The line ranges of a whole document's chunks.
pub open spec fn document_spans(lines: Seq<Seq<char>>) -> Seq<(int, int)> {
    scan_spans(ScanState::Idle, 0, 0, lines)
}

/// The accumulated chunk text on entering position `j` in state `st`, when
/// the open chunk began at line `s0`.
pub open spec fn acc_of(st: ScanState, s0: int, j: int, lines: Seq<Seq<char>>) -> Seq<char> {
    match st {
        ScanState::InCodeBlock => join_lines(lines.subrange(s0, j)),
        ScanState::InProse => join_lines(lines.subrange(s0, j)),
        _ => Seq::empty(),
    }
}

/// A chunk's line range is a code block, opened by a fence line, or holds no
/// blank line.
pub open spec fn span_chunk_ok(lines: Seq<Seq<char>>, a: int, b: int) -> bool {
    is_fence_line(lines[a]) || (forall|t: int| a <= t < b ==> (#[trigger] lines[t]).len() != 0)
}

/// `spans` explains `chunks` over `lines`: one range per chunk, each range
/// nonempty, within bounds and starting at or after `lo`, ranges disjoint
/// and in document order, each chunk exactly the text of its range, and each
/// range a code block or free of blank lines.
pub open spec fn spans_cover_from(
    lines: Seq<Seq<char>>,
    spans: Seq<(int, int)>,
    chunks: Seq<Seq<char>>,
    lo: int,
) -> bool {
    &&& spans.len() == chunks.len()
    &&& (forall|k: int|
        0 <= k < spans.len() ==> lo <= (#[trigger] spans[k]).0 && spans[k].0 < spans[k].1
            <= lines.len())
    &&& (forall|k: int| 0 <= k < spans.len() - 1 ==> (#[trigger] spans[k]).1 <= spans[k + 1].0)
    &&& (forall|k: int|
        0 <= k < spans.len() ==> chunks[k] == join_lines(
            lines.subrange((#[trigger] spans[k]).0, spans[k].1),
        ))
    &&& (forall|k: int|
        0 <= k < spans.len() ==> span_chunk_ok(lines, (#[trigger] spans[k]).0, spans[k].1))
}

/// `spans` explains a whole document's chunks.
pub open spec fn spans_cover(
    lines: Seq<Seq<char>>,
    spans: Seq<(int, int)>,
    chunks: Seq<Seq<char>>,
) -> bool {
    spans_cover_from(lines, spans, chunks, 0)
}

proof fn lemma_scan_spans(lines: Seq<Seq<char>>, st: ScanState, s0: int, j: int)
    requires
        0 <= j <= lines.len(),
        st == ScanState::InCodeBlock ==> 0 <= s0 < j && is_fence_line(lines[s0]),
        st == ScanState::InProse ==> 0 <= s0 < j && (forall|t: int|
            s0 <= t < j ==> (#[trigger] lines[t]).len() != 0),
    ensures
        spans_cover_from(
            lines,
            scan_spans(st, s0, j, lines),
            scan(st, acc_of(st, s0, j, lines), lines.skip(j)).2,
            match st {
                ScanState::InCodeBlock => s0,
                ScanState::InProse => s0,
                _ => j,
            },
        ),
    decreases lines.len() - j,
{
    let acc = acc_of(st, s0, j, lines);
    let suffix = lines.skip(j);
    if j == lines.len() {
        assert(suffix.len() == 0);
        assert(scan(st, acc, suffix).2 == Seq::<Seq<char>>::empty());
    } else {
        let line = lines[j];
        assert(suffix.len() > 0);
        assert(suffix[0] == line);
        assert(suffix.drop_first() =~= lines.skip(j + 1));
        let first = scan_step(st, acc, line);
        let rest = scan(first.0, first.1, lines.skip(j + 1));
        assert(scan(st, acc, suffix).2 == first.2 + rest.2);
        match st {
            ScanState::Idle => {
                if is_fence_line(line) {
                    assert(lines.subrange(j, j + 1) =~= Seq::<Seq<char>>::empty().push(line));
                    lemma_join_snoc(Seq::empty(), line);
                    assert(acc_of(ScanState::InCodeBlock, j, j + 1, lines) =~= line + newline());
                    assert(first.1 == acc_of(ScanState::InCodeBlock, j, j + 1, lines));
                    lemma_scan_spans(lines, ScanState::InCodeBlock, j, j + 1);
                    assert(first.2 + rest.2 =~= rest.2);
                } else if is_meta_line(line) {
                    lemma_scan_spans(lines, ScanState::InFrontMatter, 0, j + 1);
                    assert(first.2 + rest.2 =~= rest.2);
                } else if is_heading_line(line) || line.len() == 0 {
                    lemma_scan_spans(lines, ScanState::Idle, 0, j + 1);
                    assert(first.2 + rest.2 =~= rest.2);
                } else {
                    assert(lines.subrange(j, j + 1) =~= Seq::<Seq<char>>::empty().push(line));
                    lemma_join_snoc(Seq::empty(), line);
                    assert(acc_of(ScanState::InProse, j, j + 1, lines) =~= line + newline());
                    assert(first.1 == acc_of(ScanState::InProse, j, j + 1, lines));
                    lemma_scan_spans(lines, ScanState::InProse, j, j + 1);
                    assert(first.2 + rest.2 =~= rest.2);
                }
            },
            ScanState::InCodeBlock => {
                assert(lines.subrange(s0, j + 1) =~= lines.subrange(s0, j).push(line));
                lemma_join_snoc(lines.subrange(s0, j), line);
                if is_fence_line(line) {
                    assert(first.2 =~= seq![join_lines(lines.subrange(s0, j + 1))]);
                    lemma_scan_spans(lines, ScanState::Idle, 0, j + 1);
                    let spans = seq![(s0, j + 1)] + scan_spans(ScanState::Idle, 0, j + 1, lines);
                    let chunks = first.2 + rest.2;
                    assert(spans[0] == (s0, j + 1));
                    assert(chunks[0] == join_lines(lines.subrange(s0, j + 1)));
                    assert forall|k: int| 0 <= k < spans.len() implies s0 <= (
                    #[trigger] spans[k]).0 && spans[k].0 < spans[k].1 <= lines.len() by {
                        if k > 0 {
                            assert(spans[k] == scan_spans(ScanState::Idle, 0, j + 1, lines)[k - 1]);
                        }
                    }
                    assert forall|k: int| 0 <= k < spans.len() - 1 implies (
                    #[trigger] spans[k]).1 <= spans[k + 1].0 by {
                        if k > 0 {
                            assert(spans[k] == scan_spans(ScanState::Idle, 0, j + 1, lines)[k - 1]);
                            assert(spans[k + 1] == scan_spans(ScanState::Idle, 0, j + 1, lines)[k]);
                        } else {
                            assert(spans[1] == scan_spans(ScanState::Idle, 0, j + 1, lines)[0]);
                        }
                    }
                    assert forall|k: int| 0 <= k < spans.len() implies chunks[k] == join_lines(
                        lines.subrange((#[trigger] spans[k]).0, spans[k].1),
                    ) by {
                        if k > 0 {
                            assert(spans[k] == scan_spans(ScanState::Idle, 0, j + 1, lines)[k - 1]);
                            assert(chunks[k] == rest.2[k - 1]);
                        }
                    }
                    assert forall|k: int| 0 <= k < spans.len() implies span_chunk_ok(
                        lines,
                        (#[trigger] spans[k]).0,
                        spans[k].1,
                    ) by {
                        if k > 0 {
                            assert(spans[k] == scan_spans(ScanState::Idle, 0, j + 1, lines)[k - 1]);
                        }
                    }
                } else {
                    assert(first.1 == acc_of(ScanState::InCodeBlock, s0, j + 1, lines));
                    lemma_scan_spans(lines, ScanState::InCodeBlock, s0, j + 1);
                    assert(first.2 + rest.2 =~= rest.2);
                }
            },
            ScanState::InFrontMatter => {
                if is_meta_line(line) {
                    lemma_scan_spans(lines, ScanState::Idle, 0, j + 1);
                } else {
                    lemma_scan_spans(lines, ScanState::InFrontMatter, 0, j + 1);
                }
                assert(first.2 + rest.2 =~= rest.2);
                assert forall|k: int| 0 <= k < scan_spans(st, s0, j, lines).len() implies j <= (
                #[trigger] scan_spans(st, s0, j, lines)[k]).0 by {}
            },
            ScanState::InProse => {
                if line.len() == 0 {
                    assert(first.2 =~= seq![join_lines(lines.subrange(s0, j))]);
                    lemma_scan_spans(lines, ScanState::Idle, 0, j + 1);
                    let spans = seq![(s0, j)] + scan_spans(ScanState::Idle, 0, j + 1, lines);
                    let chunks = first.2 + rest.2;
                    assert(spans[0] == (s0, j));
                    assert(chunks[0] == join_lines(lines.subrange(s0, j)));
                    assert(span_chunk_ok(lines, s0, j));
                    assert forall|k: int| 0 <= k < spans.len() implies s0 <= (
                    #[trigger] spans[k]).0 && spans[k].0 < spans[k].1 <= lines.len() by {
                        if k > 0 {
                            assert(spans[k] == scan_spans(ScanState::Idle, 0, j + 1, lines)[k - 1]);
                        }
                    }
                    assert forall|k: int| 0 <= k < spans.len() - 1 implies (
                    #[trigger] spans[k]).1 <= spans[k + 1].0 by {
                        if k > 0 {
                            assert(spans[k] == scan_spans(ScanState::Idle, 0, j + 1, lines)[k - 1]);
                            assert(spans[k + 1] == scan_spans(ScanState::Idle, 0, j + 1, lines)[k]);
                        } else {
                            assert(spans[1] == scan_spans(ScanState::Idle, 0, j + 1, lines)[0]);
                        }
                    }
                    assert forall|k: int| 0 <= k < spans.len() implies chunks[k] == join_lines(
                        lines.subrange((#[trigger] spans[k]).0, spans[k].1),
                    ) by {
                        if k > 0 {
                            assert(spans[k] == scan_spans(ScanState::Idle, 0, j + 1, lines)[k - 1]);
                            assert(chunks[k] == rest.2[k - 1]);
                        }
                    }
                    assert forall|k: int| 0 <= k < spans.len() implies span_chunk_ok(
                        lines,
                        (#[trigger] spans[k]).0,
                        spans[k].1,
                    ) by {
                        if k > 0 {
                            assert(spans[k] == scan_spans(ScanState::Idle, 0, j + 1, lines)[k - 1]);
                        }
                    }
                } else {
                    assert(lines.subrange(s0, j + 1) =~= lines.subrange(s0, j).push(line));
                    lemma_join_snoc(lines.subrange(s0, j), line);
                    assert(first.1 == acc_of(ScanState::InProse, s0, j + 1, lines));
                    lemma_scan_spans(lines, ScanState::InProse, s0, j + 1);
                    assert(first.2 + rest.2 =~= rest.2);
                }
            },
        }
    }
}

/// Chunks come in document order from disjoint line ranges: each chunk is
/// exactly the text of its range, the ranges advance through the document
/// without overlapping, and a prose chunk's range holds no blank line.
pub proof fn lemma_chunks_in_document_order(lines: Seq<Seq<char>>)
    ensures
        spans_cover(lines, document_spans(lines), chunks_of_lines(lines)),
{
    lemma_scan_spans(lines, ScanState::Idle, 0, 0);
    assert(lines.skip(0) =~= lines);
}

/// Scanning two line sequences one after the other is scanning their
/// concatenation: the second starts where the first left off, and the
/// emitted chunks concatenate.
pub proof fn lemma_scan_append(
    st: ScanState,
    acc: Seq<char>,
    l1: Seq<Seq<char>>,
    l2: Seq<Seq<char>>,
)
    ensures
        ({
            let m = scan(st, acc, l1);
            let r = scan(m.0, m.1, l2);
            scan(st, acc, l1 + l2) == (r.0, r.1, m.2 + r.2)
        }),
    decreases l1.len(),
{
    let m = scan(st, acc, l1);
    let r = scan(m.0, m.1, l2);
    if l1.len() == 0 {
        assert(l1 + l2 =~= l2);
        assert(m == (st, acc, Seq::<Seq<char>>::empty()));
        assert(m.2 + r.2 =~= r.2);
    } else {
        assert((l1 + l2)[0] == l1[0]);
        assert((l1 + l2).drop_first() =~= l1.drop_first() + l2);
        let first = scan_step(st, acc, l1[0]);
        lemma_scan_append(first.0, first.1, l1.drop_first(), l2);
        let m1 = scan(first.0, first.1, l1.drop_first());
        assert(first.2 + (m1.2 + r.2) =~= (first.2 + m1.2) + r.2);
    }
}

/// Scanning a single line is one step.
pub proof fn lemma_scan_one(st: ScanState, acc: Seq<char>, line: Seq<char>)
    ensures
        scan(st, acc, seq![line]).0 == scan_step(st, acc, line).0,
        scan(st, acc, seq![line]).1 == scan_step(st, acc, line).1,
        scan(st, acc, seq![line]).2 == scan_step(st, acc, line).2,
{
    assert(seq![line][0] == line);
    assert(seq![line].drop_first() =~= Seq::<Seq<char>>::empty());
    let first = scan_step(st, acc, line);
    assert(scan(first.0, first.1, seq![line].drop_first()) == (
        first.0,
        first.1,
        Seq::<Seq<char>>::empty(),
    ));
    assert(first.2 + Seq::<Seq<char>>::empty() =~= first.2);
}

/// Scanning from `Idle`, the accumulator does not matter: every step out of
/// `Idle` starts the accumulator afresh.
pub proof fn lemma_idle_acc_irrelevant(a1: Seq<char>, a2: Seq<char>, lines: Seq<Seq<char>>)
    ensures
        scan(ScanState::Idle, a1, lines).0 == scan(ScanState::Idle, a2, lines).0,
        scan(ScanState::Idle, a1, lines).2 == scan(ScanState::Idle, a2, lines).2,
{
    if lines.len() == 0 {
    } else {
        assert(scan_step(ScanState::Idle, a1, lines[0]) == scan_step(
            ScanState::Idle,
            a2,
            lines[0],
        ));
    }
}

/// Inside a code block, lines that never close the fence emit nothing and
/// leave the scanner inside the block.
proof fn lemma_code_never_emits(acc: Seq<char>, lines: Seq<Seq<char>>)
    requires
        forall|i: int| 0 <= i < lines.len() ==> !is_fence_line(#[trigger] lines[i]),
    ensures
        scan(ScanState::InCodeBlock, acc, lines).0 == ScanState::InCodeBlock,
        scan(ScanState::InCodeBlock, acc, lines).2 == Seq::<Seq<char>>::empty(),
    decreases lines.len(),
{
    if lines.len() == 0 {
    } else {
        let first = scan_step(ScanState::InCodeBlock, acc, lines[0]);
        lemma_code_never_emits(first.1, lines.drop_first());
        assert(first.2 + scan(first.0, first.1, lines.drop_first()).2
            =~= Seq::<Seq<char>>::empty());
    }
}

/// Inside a paragraph, lines that are never blank emit nothing and leave the
/// scanner inside the paragraph.
proof fn lemma_prose_never_emits(acc: Seq<char>, lines: Seq<Seq<char>>)
    requires
        forall|i: int| 0 <= i < lines.len() ==> (#[trigger] lines[i]).len() != 0,
    ensures
        scan(ScanState::InProse, acc, lines).0 == ScanState::InProse,
        scan(ScanState::InProse, acc, lines).2 == Seq::<Seq<char>>::empty(),
    decreases lines.len(),
{
    if lines.len() == 0 {
    } else {
        let first = scan_step(ScanState::InProse, acc, lines[0]);
        lemma_prose_never_emits(first.1, lines.drop_first());
        assert(first.2 + scan(first.0, first.1, lines.drop_first()).2
            =~= Seq::<Seq<char>>::empty());
    }
}

/// Inside a code block, lines of which exactly the last closes the fence
/// emit one chunk: the accumulated text followed by those lines.
proof fn lemma_code_run(acc: Seq<char>, lines: Seq<Seq<char>>)
    requires
        lines.len() >= 1,
        is_fence_line(lines[lines.len() - 1]),
        forall|i: int| 0 <= i < lines.len() - 1 ==> !is_fence_line(#[trigger] lines[i]),
    ensures
        scan(ScanState::InCodeBlock, acc, lines) == (
            ScanState::Idle,
            Seq::<char>::empty(),
            seq![acc + join_lines(lines)],
        ),
    decreases lines.len(),
{
    let first = scan_step(ScanState::InCodeBlock, acc, lines[0]);
    if lines.len() == 1 {
        assert(lines.drop_first() =~= Seq::<Seq<char>>::empty());
        assert(scan(first.0, first.1, lines.drop_first()) == (
            first.0,
            first.1,
            Seq::<Seq<char>>::empty(),
        ));
        assert(join_lines(lines.drop_first()) == Seq::<char>::empty());
        assert(acc + (lines[0] + newline() + Seq::<char>::empty()) =~= acc + lines[0] + newline());
        assert(first.2 + Seq::<Seq<char>>::empty() =~= first.2);
        assert(acc + join_lines(lines) =~= acc + lines[0] + newline());
        assert(scan(ScanState::InCodeBlock, acc, lines).2 =~= seq![acc + join_lines(lines)]);
    } else {
        assert(!is_fence_line(lines[0]));
        assert(lines.drop_first().len() == lines.len() - 1);
        assert(lines.drop_first()[lines.len() - 2] == lines[lines.len() - 1]);
        lemma_code_run(acc + lines[0] + newline(), lines.drop_first());
        assert(acc + lines[0] + newline() + join_lines(lines.drop_first()) =~= acc + join_lines(
            lines,
        ));
        assert(first.2 + seq![acc + lines[0] + newline() + join_lines(lines.drop_first())]
            =~= seq![acc + join_lines(lines)]);
    }
}

/// A document that is one fenced block, opened by its first line and closed
/// by its last, chunks to exactly one chunk: the whole block, fences
/// included, verbatim.
pub proof fn lemma_fenced_block_round_trip(lines: Seq<Seq<char>>)
    requires
        lines.len() >= 2,
        is_fence_line(lines[0]),
        is_fence_line(lines[lines.len() - 1]),
        forall|i: int| 0 < i < lines.len() - 1 ==> !is_fence_line(#[trigger] lines[i]),
    ensures
        chunks_of_lines(lines) == seq![join_lines(lines)],
{
    let first = scan_step(ScanState::Idle, Seq::empty(), lines[0]);
    assert(first.1 == lines[0] + newline());
    assert(forall|i: int|
        0 <= i < lines.drop_first().len() - 1 ==> !is_fence_line(
            #[trigger] lines.drop_first()[i],
        ));
    assert(lines.drop_first()[lines.len() - 2] == lines[lines.len() - 1]);
    lemma_code_run(lines[0] + newline(), lines.drop_first());
    assert(lines[0] + newline() + join_lines(lines.drop_first()) =~= join_lines(lines));
    assert(chunks_of_lines(lines) =~= seq![join_lines(lines)]);
}

/// No line holds a newline of its own.
pub open spec fn newline_free(lines: Seq<Seq<char>>) -> bool {
    forall|i: int, j: int|
        0 <= i < lines.len() && 0 <= j < lines[i].len() ==> #[trigger] lines[i][j] != '\n'
}

/// Splitting consumes a newline-free prefix into the current line.
proof fn lemma_lines_from_prefix(x: Seq<char>, rest: Seq<char>, cur: Seq<char>)
    requires
        forall|j: int| 0 <= j < x.len() ==> x[j] != '\n',
    ensures
        crate::contents::lines_from(x + rest, cur) == crate::contents::lines_from(rest, cur + x),
    decreases x.len(),
{
    if x.len() == 0 {
        assert(x + rest =~= rest);
        assert(cur + x =~= cur);
    } else {
        assert((x + rest)[0] == x[0]);
        assert((x + rest).len() > 0);
        assert((x + rest).drop_first() =~= x.drop_first() + rest);
        lemma_lines_from_prefix(x.drop_first(), rest, cur.push(x[0]));
        assert(cur.push(x[0]) + x.drop_first() =~= cur + x);
    }
}

/// Splitting the joined text of newline-free lines gives those lines back,
/// with one final empty line for the trailing newline.
pub proof fn lemma_lines_of_join(lines: Seq<Seq<char>>)
    requires
        newline_free(lines),
    ensures
        crate::contents::spec_lines(join_lines(lines)) == lines.push(Seq::<char>::empty()),
    decreases lines.len(),
{
    if lines.len() == 0 {
        assert(join_lines(lines) == Seq::<char>::empty());
        assert(crate::contents::lines_from(Seq::<char>::empty(), Seq::<char>::empty())
            == seq![Seq::<char>::empty()]);
        assert(seq![Seq::<char>::empty()] =~= lines.push(Seq::<char>::empty()));
    } else {
        let tail_text = join_lines(lines.drop_first());
        assert(join_lines(lines) == lines[0] + newline() + tail_text);
        assert(lines[0] + newline() + tail_text =~= lines[0] + (newline() + tail_text));
        lemma_lines_from_prefix(lines[0], newline() + tail_text, Seq::empty());
        assert(Seq::<char>::empty() + lines[0] =~= lines[0]);
        let after = newline() + tail_text;
        assert(after[0] == '\n');
        assert(after.drop_first() =~= tail_text);
        assert(crate::contents::lines_from(after, lines[0]) == seq![lines[0]]
            + crate::contents::spec_lines(tail_text));
        lemma_lines_of_join(lines.drop_first());
        assert(seq![lines[0]] + lines.drop_first().push(Seq::<char>::empty()) =~= lines.push(
            Seq::<char>::empty(),
        ));
    }
}

/// A document whose raw text is exactly a fenced block, each line ended by a
/// newline, chunks to one chunk equal to the whole text: the block
/// round-trips verbatim, fence lines included.
pub proof fn lemma_fenced_block_text_round_trip(lines: Seq<Seq<char>>)
    requires
        newline_free(lines),
        lines.len() >= 2,
        is_fence_line(lines[0]),
        is_fence_line(lines[lines.len() - 1]),
        forall|i: int| 0 < i < lines.len() - 1 ==> !is_fence_line(#[trigger] lines[i]),
    ensures
        crate::contents::spec_chunks(join_lines(lines)) == seq![join_lines(lines)],
{
    lemma_lines_of_join(lines);
    assert(lines.push(Seq::<char>::empty()) =~= lines + seq![Seq::<char>::empty()]);
    lemma_scan_append(ScanState::Idle, Seq::empty(), lines, seq![Seq::<char>::empty()]);
    // the block itself scans to one chunk and leaves the scanner idle
    let first = scan_step(ScanState::Idle, Seq::empty(), lines[0]);
    assert(lines.drop_first()[lines.len() - 2] == lines[lines.len() - 1]);
    lemma_code_run(lines[0] + newline(), lines.drop_first());
    assert(lines[0] + newline() + join_lines(lines.drop_first()) =~= join_lines(lines));
    let m = scan(ScanState::Idle, Seq::empty(), lines);
    assert(m.0 == ScanState::Idle);
    assert(m.2 =~= seq![join_lines(lines)]);
    // the final empty line emits nothing
    let empty_line = Seq::<char>::empty();
    lemma_scan_one(ScanState::Idle, m.1, empty_line);
    assert(!is_fence_line(empty_line) && !is_meta_line(empty_line) && !is_heading_line(
        empty_line,
    ));
    assert(scan(ScanState::Idle, m.1, seq![empty_line]).2 =~= Seq::<Seq<char>>::empty());
    assert(crate::contents::spec_chunks(join_lines(lines)) =~= seq![join_lines(lines)]);
}

/// A fenced block standing anywhere the scanner is between chunks
/// round-trips verbatim as one chunk of the surrounding document, the chunks
/// before and after it unchanged.
pub proof fn lemma_fenced_block_in_document(
    pre: Seq<Seq<char>>,
    block: Seq<Seq<char>>,
    post: Seq<Seq<char>>,
)
    requires
        scan(ScanState::Idle, Seq::empty(), pre).0 == ScanState::Idle,
        block.len() >= 2,
        is_fence_line(block[0]),
        is_fence_line(block[block.len() - 1]),
        forall|i: int| 0 < i < block.len() - 1 ==> !is_fence_line(#[trigger] block[i]),
    ensures
        chunks_of_lines(pre + block + post) == chunks_of_lines(pre) + seq![join_lines(block)]
            + chunks_of_lines(post),
{
    let m = scan(ScanState::Idle, Seq::empty(), pre);
    lemma_scan_append(ScanState::Idle, Seq::empty(), pre, block + post);
    assert(pre + block + post =~= pre + (block + post));
    lemma_scan_append(ScanState::Idle, m.1, block, post);
    // the block scans to one chunk from any accumulator: its first step
    // leaves Idle and restarts the accumulator
    let firstb = scan_step(ScanState::Idle, m.1, block[0]);
    assert(firstb.1 == block[0] + newline());
    assert(block.drop_first()[block.len() - 2] == block[block.len() - 1]);
    lemma_code_run(block[0] + newline(), block.drop_first());
    assert(block[0] + newline() + join_lines(block.drop_first()) =~= join_lines(block));
    assert(scan(ScanState::Idle, m.1, block).2 =~= seq![join_lines(block)]);
    assert(scan(ScanState::Idle, m.1, block).0 == ScanState::Idle);
    assert(scan(ScanState::Idle, m.1, block).1 =~= Seq::<char>::empty());
    assert(chunks_of_lines(pre + block + post) =~= chunks_of_lines(pre) + seq![join_lines(block)]
        + chunks_of_lines(post));
}

/// An unterminated trailing code block is dropped: a document that ends with
/// an opening fence that is never closed chunks exactly as the document
/// without that trailing content.
pub proof fn lemma_unterminated_code_dropped(pre: Seq<Seq<char>>, t: Seq<Seq<char>>)
    requires
        scan(ScanState::Idle, Seq::empty(), pre).0 == ScanState::Idle,
        t.len() >= 1,
        is_fence_line(t[0]),
        forall|i: int| 0 < i < t.len() ==> !is_fence_line(#[trigger] t[i]),
    ensures
        chunks_of_lines(pre + t) == chunks_of_lines(pre),
{
    let m = scan(ScanState::Idle, Seq::empty(), pre);
    lemma_scan_append(ScanState::Idle, Seq::empty(), pre, t);
    let first = scan_step(ScanState::Idle, m.1, t[0]);
    assert(forall|i: int|
        0 <= i < t.drop_first().len() ==> !is_fence_line(#[trigger] t.drop_first()[i]));
    lemma_code_never_emits(first.1, t.drop_first());
    assert(scan(ScanState::Idle, m.1, t).2 =~= Seq::<Seq<char>>::empty());
    assert(chunks_of_lines(pre + t) =~= chunks_of_lines(pre));
}

/// An unterminated trailing paragraph is dropped: a document that ends with
/// prose lines never followed by a blank line chunks exactly as the document
/// without that trailing content.
pub proof fn lemma_unterminated_prose_dropped(pre: Seq<Seq<char>>, t: Seq<Seq<char>>)
    requires
        scan(ScanState::Idle, Seq::empty(), pre).0 == ScanState::Idle,
        t.len() >= 1,
        !is_fence_line(t[0]),
        !is_meta_line(t[0]),
        !is_heading_line(t[0]),
        forall|i: int| 0 <= i < t.len() ==> (#[trigger] t[i]).len() != 0,
    ensures
        chunks_of_lines(pre + t) == chunks_of_lines(pre),
{
    let m = scan(ScanState::Idle, Seq::empty(), pre);
    lemma_scan_append(ScanState::Idle, Seq::empty(), pre, t);
    let first = scan_step(ScanState::Idle, m.1, t[0]);
    assert(forall|i: int|
        0 <= i < t.drop_first().len() ==> (#[trigger] t.drop_first()[i]).len() != 0);
    lemma_prose_never_emits(first.1, t.drop_first());
    assert(scan(ScanState::Idle, m.1, t).2 =~= Seq::<Seq<char>>::empty());
    assert(chunks_of_lines(pre + t) =~= chunks_of_lines(pre));
}

/// In front matter, lines that never close it emit nothing and leave the
/// scanner in front matter.
proof fn lemma_meta_never_emits(lines: Seq<Seq<char>>)
    requires
        forall|i: int| 0 <= i < lines.len() ==> !is_meta_line(#[trigger] lines[i]),
    ensures
        scan(ScanState::InFrontMatter, Seq::empty(), lines) == (
            ScanState::InFrontMatter,
            Seq::<char>::empty(),
            Seq::<Seq<char>>::empty(),
        ),
    decreases lines.len(),
{
    if lines.len() == 0 {
    } else {
        lemma_meta_never_emits(lines.drop_first());
        assert(scan(ScanState::InFrontMatter, Seq::empty(), lines).2
            =~= Seq::<Seq<char>>::empty());
    }
}

/// Front matter contributes nothing: a document that opens with a
/// front-matter section chunks exactly as the document without it.
pub proof fn lemma_front_matter_dropped(fm: Seq<Seq<char>>, rest: Seq<Seq<char>>)
    requires
        fm.len() >= 2,
        is_meta_line(fm[0]),
        is_meta_line(fm[fm.len() - 1]),
        forall|i: int| 0 < i < fm.len() - 1 ==> !is_meta_line(#[trigger] fm[i]),
    ensures
        chunks_of_lines(fm + rest) == chunks_of_lines(rest),
{
    assert(!is_fence_line(fm[0]));
    lemma_scan_append(ScanState::Idle, Seq::empty(), fm, rest);
    let first = scan_step(ScanState::Idle, Seq::empty(), fm[0]);
    assert(first.0 == ScanState::InFrontMatter);
    let mid = fm.drop_first().take(fm.len() - 2);
    let closing = fm[fm.len() - 1];
    assert(fm.drop_first() =~= mid.push(closing));
    assert(forall|i: int| 0 <= i < mid.len() ==> !is_meta_line(#[trigger] mid[i]));
    lemma_meta_never_emits(mid);
    lemma_scan_append(ScanState::InFrontMatter, Seq::empty(), mid, seq![closing]);
    assert(mid + seq![closing] =~= fm.drop_first());
    lemma_scan_one(ScanState::InFrontMatter, Seq::empty(), closing);
    assert(scan(ScanState::InFrontMatter, Seq::empty(), seq![closing]).0 == ScanState::Idle);
    assert(scan(ScanState::InFrontMatter, Seq::empty(), seq![closing]).2
        =~= Seq::<Seq<char>>::empty());
    assert(scan(ScanState::Idle, Seq::empty(), fm).2 =~= Seq::<Seq<char>>::empty());
    assert(scan(ScanState::Idle, Seq::empty(), fm).0 == ScanState::Idle);
    assert(scan(ScanState::Idle, Seq::empty(), fm).1 =~= Seq::<char>::empty());
    assert(chunks_of_lines(fm + rest) =~= chunks_of_lines(rest));
}

/// A heading line standing between chunks appears in no chunk: dropping it
/// leaves the document's chunks unchanged.
pub proof fn lemma_heading_dropped(pre: Seq<Seq<char>>, h: Seq<char>, post: Seq<Seq<char>>)
    requires
        scan(ScanState::Idle, Seq::empty(), pre).0 == ScanState::Idle,
        is_heading_line(h),
    ensures
        chunks_of_lines(pre + seq![h] + post) == chunks_of_lines(pre + post),
{
    assert(!is_fence_line(h));
    assert(!is_meta_line(h));
    let m = scan(ScanState::Idle, Seq::empty(), pre);
    lemma_scan_append(ScanState::Idle, Seq::empty(), pre, seq![h] + post);
    assert(pre + seq![h] + post =~= pre + (seq![h] + post));
    lemma_scan_append(ScanState::Idle, m.1, seq![h], post);
    lemma_scan_one(ScanState::Idle, m.1, h);
    assert(scan(ScanState::Idle, m.1, seq![h]).0 == ScanState::Idle);
    assert(scan(ScanState::Idle, m.1, seq![h]).1 =~= Seq::<char>::empty());
    assert(scan(ScanState::Idle, m.1, seq![h]).2 =~= Seq::<Seq<char>>::empty());
    lemma_scan_append(ScanState::Idle, Seq::empty(), pre, post);
    lemma_idle_acc_irrelevant(Seq::empty(), m.1, post);
    assert(chunks_of_lines(pre + seq![h] + post) =~= chunks_of_lines(pre + post));
}

/// The state the scanner reaches never depends on the accumulator: no
/// transition reads it to choose the next state.
proof fn lemma_scan_state_acc_independent(
    st: ScanState,
    a1: Seq<char>,
    a2: Seq<char>,
    lines: Seq<Seq<char>>,
)
    ensures
        scan(st, a1, lines).0 == scan(st, a2, lines).0,
    decreases lines.len(),
{
    if lines.len() == 0 {
    } else {
        let first1 = scan_step(st, a1, lines[0]);
        let first2 = scan_step(st, a2, lines[0]);
        assert(first1.0 == first2.0);
        lemma_scan_state_acc_independent(first1.0, first1.1, first2.1, lines.drop_first());
    }
}

/// The scanner's state on reaching line `i` of the document.
pub open spec fn state_at(lines: Seq<Seq<char>>, i: int) -> ScanState {
    scan(ScanState::Idle, Seq::empty(), lines.take(i)).0
}

proof fn lemma_spans_skip_idle_headings(
    lines: Seq<Seq<char>>,
    st: ScanState,
    s0: int,
    j: int,
    i: int,
)
    requires
        0 <= j <= i < lines.len(),
        is_heading_line(lines[i]),
        scan(st, Seq::empty(), lines.subrange(j, i)).0 == ScanState::Idle,
    ensures
        forall|k: int|
            0 <= k < scan_spans(st, s0, j, lines).len() ==> !((#[trigger] scan_spans(
                st,
                s0,
                j,
                lines,
            )[k]).0 <= i < scan_spans(st, s0, j, lines)[k].1),
    decreases i - j,
{
    let spans = scan_spans(st, s0, j, lines);
    if j == i {
        assert(lines.subrange(i, i) =~= Seq::<Seq<char>>::empty());
        assert(st == ScanState::Idle);
        assert(!is_fence_line(lines[i]));
        assert(!is_meta_line(lines[i]));
        let rest = scan_spans(ScanState::Idle, 0, i + 1, lines);
        assert(spans == rest);
        lemma_scan_spans(lines, ScanState::Idle, 0, i + 1);
        assert forall|k: int| 0 <= k < spans.len() implies !((#[trigger] spans[k]).0 <= i
            < spans[k].1) by {
            assert(i + 1 <= rest[k].0);
        }
    } else {
        let sub = lines.subrange(j, i);
        assert(sub.len() > 0);
        assert(sub[0] == lines[j]);
        assert(sub.drop_first() =~= lines.subrange(j + 1, i));
        let first = scan_step(st, Seq::empty(), sub[0]);
        lemma_scan_state_acc_independent(first.0, first.1, Seq::empty(), lines.subrange(j + 1, i));
        assert(scan(first.0, Seq::empty(), lines.subrange(j + 1, i)).0 == ScanState::Idle);
        let line = lines[j];
        // the position and start the recursion continues with, and whether
        // this step emits a chunk, whose range then ends at or before `i`
        let ghost (nst, ns0, emitted): (ScanState, int, Seq<(int, int)>) = match st {
            ScanState::Idle => {
                if is_fence_line(line) {
                    (ScanState::InCodeBlock, j, Seq::empty())
                } else if is_meta_line(line) {
                    (ScanState::InFrontMatter, 0, Seq::empty())
                } else if is_heading_line(line) || line.len() == 0 {
                    (ScanState::Idle, 0, Seq::empty())
                } else {
                    (ScanState::InProse, j, Seq::empty())
                }
            },
            ScanState::InCodeBlock => {
                if is_fence_line(line) {
                    (ScanState::Idle, 0, seq![(s0, j + 1)])
                } else {
                    (ScanState::InCodeBlock, s0, Seq::empty())
                }
            },
            ScanState::InFrontMatter => {
                if is_meta_line(line) {
                    (ScanState::Idle, 0, Seq::empty())
                } else {
                    (ScanState::InFrontMatter, 0, Seq::empty())
                }
            },
            ScanState::InProse => {
                if line.len() == 0 {
                    (ScanState::Idle, 0, seq![(s0, j)])
                } else {
                    (ScanState::InProse, s0, Seq::empty())
                }
            },
        };
        assert(first.0 == nst);
        lemma_spans_skip_idle_headings(lines, nst, ns0, j + 1, i);
        let rest = scan_spans(nst, ns0, j + 1, lines);
        assert(spans == emitted + rest);
        assert forall|k: int| 0 <= k < spans.len() implies !((#[trigger] spans[k]).0 <= i
            < spans[k].1) by {
            if k < emitted.len() {
                assert(spans[k].1 <= j + 1);
            } else {
                assert(spans[k] == rest[k - emitted.len()]);
            }
        }
    }
}

/// Heading lines met between chunks appear in no chunk: every position that
/// holds a heading line and that the scanner reaches in the `Idle` state lies
/// outside every chunk's line range. With `lemma_chunks_in_document_order`,
/// which gives each chunk as exactly the text of its range, no emitted chunk
/// contains any such heading line.
pub proof fn lemma_idle_headings_in_no_chunk(lines: Seq<Seq<char>>)
    ensures
        forall|i: int, k: int|
            #![trigger lines[i], document_spans(lines)[k]]
            0 <= i < lines.len() && is_heading_line(lines[i]) && state_at(lines, i)
                == ScanState::Idle && 0 <= k < document_spans(lines).len() ==> !(document_spans(
                lines,
            )[k].0 <= i < document_spans(lines)[k].1),
{
    assert forall|i: int, k: int|
        #![trigger lines[i], document_spans(lines)[k]]
        0 <= i < lines.len() && is_heading_line(lines[i]) && state_at(lines, i) == ScanState::Idle
            && 0 <= k < document_spans(lines).len() implies !(document_spans(lines)[k].0 <= i
        < document_spans(lines)[k].1) by {
        assert(lines.take(i) =~= lines.subrange(0, i));
        lemma_spans_skip_idle_headings(lines, ScanState::Idle, 0, 0, i);
    }
}

} // verus!
