//! Documents and the chunker: a line scanner that splits a document's text
//! into prose chunks (paragraphs) and verbatim fenced code blocks, skipping
//! headings and front matter.

use vstd::prelude::*;
use vstd::string::*;

verus! {

/// One source document: its corpus-relative path, its raw text, and the
/// chunks that `parse` extracts from the text.
pub struct File {
    pub path: String,
    pub contents: String,
    pub sentences: Vec<String>,
}

/// The states of the line scanner.
#[derive(Clone, Copy, PartialEq, Eq, Structural)]
pub enum ScanState {
    /// Between chunks.
    Idle,
    /// Inside a fenced code block.
    InCodeBlock,
    /// Inside a paragraph.
    InProse,
    /// Inside front matter.
    InFrontMatter,
}

pub open spec fn newline() -> Seq<char> {
    seq!['\n']
}

/// A line that opens or closes a fenced code block.
pub open spec fn is_fence_line(line: Seq<char>) -> bool {
    line.len() >= 3 && line[0] == '`' && line[1] == '`' && line[2] == '`'
}

/// A line that opens or closes front matter.
pub open spec fn is_meta_line(line: Seq<char>) -> bool {
    line.len() >= 3 && line[0] == '-' && line[1] == '-' && line[2] == '-'
}

/// A heading line.
pub open spec fn is_heading_line(line: Seq<char>) -> bool {
    line.len() >= 1 && line[0] == '#'
}

/// The lines of `text`, split on `'\n'` as a separator: `cur` is the part of
/// the current line read so far. A trailing newline yields a final empty line.
pub open spec fn lines_from(text: Seq<char>, cur: Seq<char>) -> Seq<Seq<char>>
    decreases text.len(),
{
    if text.len() == 0 {
        seq![cur]
    } else if text[0] == '\n' {
        seq![cur] + lines_from(text.drop_first(), Seq::empty())
    } else {
        lines_from(text.drop_first(), cur.push(text[0]))
    }
}

/// The lines of `text`, split on `'\n'`.
pub open spec fn spec_lines(text: Seq<char>) -> Seq<Seq<char>> {
    lines_from(text, Seq::empty())
}

/// One transition of the scanner: from state `st` with accumulated chunk text
/// `acc`, consuming `line`, to the next state, the next accumulator, and the
/// chunks emitted by this step (none or one).
pub open spec fn scan_step(st: ScanState, acc: Seq<char>, line: Seq<char>) -> (
    ScanState,
    Seq<char>,
    Seq<Seq<char>>,
) {
    match st {
        ScanState::Idle => {
            if is_fence_line(line) {
                (ScanState::InCodeBlock, line + newline(), Seq::empty())
            } else if is_meta_line(line) {
                (ScanState::InFrontMatter, Seq::empty(), Seq::empty())
            } else if is_heading_line(line) || line.len() == 0 {
                (ScanState::Idle, Seq::empty(), Seq::empty())
            } else {
                (ScanState::InProse, line + newline(), Seq::empty())
            }
        },
        ScanState::InCodeBlock => {
            if is_fence_line(line) {
                (ScanState::Idle, Seq::empty(), seq![acc + line + newline()])
            } else {
                (ScanState::InCodeBlock, acc + line + newline(), Seq::empty())
            }
        },
        ScanState::InFrontMatter => {
            if is_meta_line(line) {
                (ScanState::Idle, Seq::empty(), Seq::empty())
            } else {
                (ScanState::InFrontMatter, Seq::empty(), Seq::empty())
            }
        },
        ScanState::InProse => {
            if line.len() == 0 {
                (ScanState::Idle, Seq::empty(), seq![acc])
            } else {
                (ScanState::InProse, acc + line + newline(), Seq::empty())
            }
        },
    }
}

/// The scanner folded over `lines` from state `st` with accumulator `acc`:
/// the final state, the final accumulator, and all chunks emitted, in order.
/// An accumulator still open when the lines run out is not emitted.
pub open spec fn scan(st: ScanState, acc: Seq<char>, lines: Seq<Seq<char>>) -> (
    ScanState,
    Seq<char>,
    Seq<Seq<char>>,
)
    decreases lines.len(),
{
    if lines.len() == 0 {
        (st, acc, Seq::empty())
    } else {
        let first = scan_step(st, acc, lines[0]);
        let rest = scan(first.0, first.1, lines.drop_first());
        (rest.0, rest.1, first.2 + rest.2)
    }
}

/// The chunks of a document given as lines.
pub open spec fn chunks_of_lines(lines: Seq<Seq<char>>) -> Seq<Seq<char>> {
    scan(ScanState::Idle, Seq::empty(), lines).2
}

/// The chunks of a document given as raw text.
pub open spec fn spec_chunks(text: Seq<char>) -> Seq<Seq<char>> {
    chunks_of_lines(spec_lines(text))
}

/// Folding the scanner over `lines.push(line)` is folding it over `lines` and
/// then stepping once on `line`.
pub proof fn lemma_scan_snoc(st: ScanState, acc: Seq<char>, lines: Seq<Seq<char>>, line: Seq<char>)
    ensures
        ({
            let prev = scan(st, acc, lines);
            let stepped = scan_step(prev.0, prev.1, line);
            scan(st, acc, lines.push(line)) == (stepped.0, stepped.1, prev.2 + stepped.2)
        }),
    decreases lines.len(),
{
    let prev = scan(st, acc, lines);
    let stepped = scan_step(prev.0, prev.1, line);
    if lines.len() == 0 {
        let p = lines.push(line);
        assert(p[0] == line);
        assert(p.drop_first() =~= Seq::<Seq<char>>::empty());
        let first = scan_step(st, acc, line);
        assert(scan(first.0, first.1, Seq::<Seq<char>>::empty()) == (
            first.0,
            first.1,
            Seq::<Seq<char>>::empty(),
        ));
        assert(scan(st, acc, p) == (first.0, first.1, first.2 + Seq::<Seq<char>>::empty()));
        assert(first.2 + Seq::<Seq<char>>::empty() =~= first.2);
        assert(prev == (st, acc, Seq::<Seq<char>>::empty()));
        assert(prev.2 + stepped.2 =~= stepped.2);
        assert(scan(st, acc, p).2 == prev.2 + stepped.2);
    } else {
        let first = scan_step(st, acc, lines[0]);
        assert(lines.push(line)[0] == lines[0]);
        assert(lines.push(line).drop_first() =~= lines.drop_first().push(line));
        lemma_scan_snoc(first.0, first.1, lines.drop_first(), line);
        let prev1 = scan(first.0, first.1, lines.drop_first());
        let stepped1 = scan_step(prev1.0, prev1.1, line);
        assert(first.2 + (prev1.2 + stepped1.2) =~= (first.2 + prev1.2) + stepped1.2);
        assert(scan(st, acc, lines.push(line)).2 == prev.2 + stepped.2);
    }
}

/// Splits `text` into its lines, one `String` per line, on `'\n'` as a
/// separator. A trailing newline yields a final empty line.
pub fn split_lines(text: &str) -> (lines: Vec<String>)
    ensures
        lines@.map_values(|l: String| l@) == spec_lines(text@),
{
    let n = text.unicode_len();
    let mut lines: Vec<String> = Vec::new();
    let mut start: usize = 0;
    let mut i: usize = 0;
    proof {
        assert(text@.skip(0) =~= text@);
        assert(text@.subrange(0, 0) =~= Seq::<char>::empty());
        assert(lines@.map_values(|l: String| l@) + lines_from(text@, Seq::empty()) =~= lines_from(
            text@,
            Seq::empty(),
        ));
    }
    while i < n
        invariant
            start <= i <= n,
            n == text@.len(),
            spec_lines(text@) == lines@.map_values(|l: String| l@) + lines_from(
                text@.skip(i as int),
                text@.subrange(start as int, i as int),
            ),
        decreases n - i,
    {
        let ghost cur = text@.subrange(start as int, i as int);
        let ghost rest = text@.skip(i as int);
        proof {
            assert(rest.len() > 0);
            assert(rest[0] == text@[i as int]);
            assert(rest.drop_first() =~= text@.skip(i as int + 1));
        }
        let c = text.get_char(i);
        if c == '\n' {
            let line = text.substring_char(start, i).to_owned();
            proof {
                assert(line@ == cur);
                assert(lines_from(rest, cur) == seq![cur] + lines_from(
                    rest.drop_first(),
                    Seq::empty(),
                ));
                assert((lines@.push(line)).map_values(|l: String| l@) =~= lines@.map_values(
                    |l: String| l@,
                ) + seq![cur]);
                assert(lines@.map_values(|l: String| l@) + (seq![cur] + lines_from(
                    text@.skip(i as int + 1),
                    Seq::empty(),
                )) =~= (lines@.map_values(|l: String| l@) + seq![cur]) + lines_from(
                    text@.skip(i as int + 1),
                    Seq::empty(),
                ));
                assert(text@.subrange(i as int + 1, i as int + 1) =~= Seq::<char>::empty());
            }
            lines.push(line);
            start = i + 1;
        } else {
            proof {
                assert(lines_from(rest, cur) == lines_from(rest.drop_first(), cur.push(rest[0])));
                assert(cur.push(text@[i as int]) =~= text@.subrange(start as int, i as int + 1));
            }
        }
        i = i + 1;
    }
    let last = text.substring_char(start, n).to_owned();
    proof {
        assert(text@.skip(n as int).len() == 0);
        assert(lines_from(text@.skip(n as int), last@) == seq![last@]);
        assert((lines@.push(last)).map_values(|l: String| l@) =~= lines@.map_values(|l: String| l@)
            + seq![last@]);
    }
    lines.push(last);
    lines
}

fn starts_with_fence(line: &str) -> (b: bool)
    ensures
        b == is_fence_line(line@),
{
    let n = line.unicode_len();
    n >= 3 && line.get_char(0) == '`' && line.get_char(1) == '`' && line.get_char(2) == '`'
}

fn starts_with_meta(line: &str) -> (b: bool)
    ensures
        b == is_meta_line(line@),
{
    let n = line.unicode_len();
    n >= 3 && line.get_char(0) == '-' && line.get_char(1) == '-' && line.get_char(2) == '-'
}

fn starts_with_heading(line: &str) -> (b: bool)
    ensures
        b == is_heading_line(line@),
{
    let n = line.unicode_len();
    n >= 1 && line.get_char(0) == '#'
}

impl File {
    /// A document with the given path and raw text, not yet parsed.
    pub fn new(path: String, contents: String) -> (f: File)
        ensures
            f.path@ == path@,
            f.contents@ == contents@,
            f.sentences@.len() == 0,
    {
        File { path, contents, sentences: Vec::new() }
    }

    /// Splits the document's text into chunks: paragraphs, ended by a blank
    /// line, and fenced code blocks kept verbatim with their fences. Headings
    /// and front matter are skipped; a chunk still open at end of input is
    /// dropped.
    pub fn parse(&mut self)
        ensures
            final(self).path@ == old(self).path@,
            final(self).contents@ == old(self).contents@,
            final(self).sentences@.map_values(|s: String| s@) == spec_chunks(old(self).contents@),
    {
        let lines = split_lines(self.contents.as_str());
        let ghost lv: Seq<Seq<char>> = lines@.map_values(|l: String| l@);
        let mut chunks: Vec<String> = Vec::new();
        let mut state: ScanState = ScanState::Idle;
        let mut acc: String = String::new();
        let mut i: usize = 0;
        proof {
            assert(lv.take(0) =~= Seq::<Seq<char>>::empty());
        }
        while i < lines.len()
            invariant
                i <= lines@.len(),
                lv == lines@.map_values(|l: String| l@),
                scan(ScanState::Idle, Seq::empty(), lv.take(i as int)).0 == state,
                scan(ScanState::Idle, Seq::empty(), lv.take(i as int)).1 == acc@,
                scan(ScanState::Idle, Seq::empty(), lv.take(i as int)).2 == chunks@.map_values(
                    |s: String| s@,
                ),
            decreases lines@.len() - i,
        {
            let line: &String = &lines[i];
            let ghost prev = scan(ScanState::Idle, Seq::empty(), lv.take(i as int));
            proof {
                lemma_scan_snoc(ScanState::Idle, Seq::empty(), lv.take(i as int), lv[i as int]);
                assert(lv.take(i as int).push(lv[i as int]) =~= lv.take(i as int + 1));
                assert(lv[i as int] == line@);
            }
            let ghost stepped = scan_step(prev.0, prev.1, line@);
            match state {
                ScanState::Idle => {
                    if starts_with_fence(line.as_str()) {
                        state = ScanState::InCodeBlock;
                        acc = String::new();
                        acc.append(line.as_str());
                        acc.append("\n");
                        proof {
                            reveal_strlit("\n");
                            assert(acc@ =~= line@ + newline());
                        }
                    } else if starts_with_meta(line.as_str()) {
                        state = ScanState::InFrontMatter;
                        acc = String::new();
                    } else if starts_with_heading(line.as_str()) || line.as_str().is_empty() {
                        acc = String::new();
                    } else {
                        state = ScanState::InProse;
                        acc = String::new();
                        acc.append(line.as_str());
                        acc.append("\n");
                        proof {
                            reveal_strlit("\n");
                            assert(acc@ =~= line@ + newline());
                        }
                    }
                    proof {
                        assert(stepped.2.len() == 0);
                        assert(prev.2 + stepped.2 =~= prev.2);
                    }
                },
                ScanState::InCodeBlock => {
                    acc.append(line.as_str());
                    acc.append("\n");
                    proof {
                        reveal_strlit("\n");
                        assert(acc@ =~= prev.1 + line@ + newline());
                    }
                    if starts_with_fence(line.as_str()) {
                        proof {
                            assert(stepped.2 =~= seq![prev.1 + line@ + newline()]);
                            assert((chunks@.push(acc)).map_values(|s: String| s@) =~= chunks@
                                .map_values(|s: String| s@) + seq![acc@]);
                            assert(chunks@.map_values(|s: String| s@) + seq![acc@] =~= prev.2
                                + stepped.2);
                        }
                        chunks.push(acc);
                        acc = String::new();
                        state = ScanState::Idle;
                    } else {
                        proof {
                            assert(prev.2 + stepped.2 =~= prev.2);
                        }
                    }
                },
                ScanState::InFrontMatter => {
                    acc = String::new();
                    if starts_with_meta(line.as_str()) {
                        state = ScanState::Idle;
                    }
                    proof {
                        assert(prev.2 + stepped.2 =~= prev.2);
                    }
                },
                ScanState::InProse => {
                    if line.as_str().is_empty() {
                        proof {
                            assert(stepped.2 =~= seq![prev.1]);
                            assert((chunks@.push(acc)).map_values(|s: String| s@) =~= chunks@
                                .map_values(|s: String| s@) + seq![acc@]);
                            assert(chunks@.map_values(|s: String| s@) + seq![acc@] =~= prev.2
                                + stepped.2);
                        }
                        chunks.push(acc);
                        acc = String::new();
                        state = ScanState::Idle;
                    } else {
                        acc.append(line.as_str());
                        acc.append("\n");
                        proof {
                            reveal_strlit("\n");
                            assert(acc@ =~= prev.1 + line@ + newline());
                            assert(prev.2 + stepped.2 =~= prev.2);
                        }
                    }
                },
            }
            i = i + 1;
        }
        proof {
            assert(lv.take(lines@.len() as int) =~= lv);
        }
        self.sentences = chunks;
    }
}

} // verus!
