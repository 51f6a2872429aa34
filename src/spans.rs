//! Locating the line ranges of complete macro blocks in a buffer.
use vstd::prelude::*;

use crate::text::{contains_text, has_char, text_contains, text_starts_with};
use crate::{CLOSE, COMMENT, MACRO, OPEN};

verus! {

/// An inclusive range of line indices holding one macro block.
#[derive(Debug, PartialEq, Eq, Structural, Clone, Copy)]
pub struct Span {
    pub start: usize,
    pub end: usize,
}

impl Span {
    pub fn new(start: usize, end: usize) -> (r: Span)
        ensures
            r.start == start,
            r.end == end,
    {
        Span { start, end }
    }
}

/// The characters of each line of a buffer.
pub open spec fn lines_of(v: Seq<String>) -> Seq<Seq<char>> {
    v.map_values(|s: String| s@)
}

/// A line that the span finder skips.
pub open spec fn is_comment(line: Seq<char>) -> bool {
    COMMENT@.is_prefix_of(line)
}

/// A line that starts a macro block.
pub open spec fn has_macro(line: Seq<char>) -> bool {
    contains_text(line, MACRO@)
}

/// The state of the span finder between two lines.
pub struct ScanState {
    pub inside: bool,
    pub brackets: int,
    pub start: int,
    pub spans: Seq<Span>,
}

pub open spec fn initial_scan() -> ScanState {
    ScanState { inside: false, brackets: 0, start: 0, spans: Seq::empty() }
}

/// How the finder's state changes on line `i`: a comment line changes nothing;
/// a line with the macro token starts a block; inside a block a line with an
/// open brace counts one up, else one with a close brace one down; where the
/// count comes back to zero the block ends, and is kept unless it is one line.
pub open spec fn scan_step(st: ScanState, i: int, line: Seq<char>) -> ScanState {
    if is_comment(line) {
        st
    } else {
        let inside = st.inside || has_macro(line);
        let start = if has_macro(line) {
            i
        } else {
            st.start
        };
        if !inside {
            ScanState { start, ..st }
        } else {
            let brackets = if line.contains(OPEN) {
                st.brackets + 1
            } else if line.contains(CLOSE) {
                st.brackets - 1
            } else {
                st.brackets
            };
            if brackets == 0 {
                let spans = if start < i {
                    st.spans.push(Span { start: start as usize, end: i as usize })
                } else {
                    st.spans
                };
                ScanState { inside: false, brackets: 0, start, spans }
            } else {
                ScanState { inside: true, brackets, start, spans: st.spans }
            }
        }
    }
}

/// The finder's state after the first `n` lines.
pub open spec fn scan_lines(lines: Seq<Seq<char>>, n: nat) -> ScanState
    decreases n,
{
    if n == 0 || n > lines.len() {
        initial_scan()
    } else {
        scan_step(scan_lines(lines, (n - 1) as nat), n - 1, lines[n - 1])
    }
}

/// The complete macro blocks of a buffer, in order.
pub open spec fn find_spans(lines: Seq<Seq<char>>) -> Seq<Span> {
    scan_lines(lines, lines.len()).spans
}

/// Every span has at least two lines, lies within the buffer, and comes
/// strictly after the spans before it.
pub open spec fn spans_well_formed(spans: Seq<Span>, len: nat) -> bool {
    &&& forall|k: int| 0 <= k < spans.len() ==> #[trigger] spans[k].start < spans[k].end < len
    &&& forall|j: int, k: int|
        0 <= j < k < spans.len() ==> #[trigger] spans[j].end < #[trigger] spans[k].start
}

/// What holds of the finder's state after the first `n` lines.
pub open spec fn scan_invariant(lines: Seq<Seq<char>>, n: nat, st: ScanState) -> bool {
    &&& spans_well_formed(st.spans, n)
    &&& forall|k: int|
        0 <= k < st.spans.len() ==> !is_comment(lines[st.spans[k].start as int]) && has_macro(
            lines[st.spans[k].start as int],
        )
    &&& st.inside ==> {
        &&& 0 <= st.start < n
        &&& !is_comment(lines[st.start])
        &&& has_macro(lines[st.start])
        &&& forall|k: int| 0 <= k < st.spans.len() ==> st.spans[k].end < st.start
    }
    &&& !st.inside ==> st.brackets == 0
    &&& -n <= st.brackets <= n
}

proof fn lemma_scan_invariant(lines: Seq<Seq<char>>, n: nat)
    requires
        n <= lines.len() <= usize::MAX,
    ensures
        scan_invariant(lines, n, scan_lines(lines, n)),
    decreases n,
{
    if n > 0 {
        let i = n - 1;
        lemma_scan_invariant(lines, i as nat);
        let prev = scan_lines(lines, i as nat);
        let line = lines[i];
        let st = scan_lines(lines, n);
        assert(st == scan_step(prev, i, line));
        if !is_comment(line) && (prev.inside || has_macro(line)) {
            let start = if has_macro(line) {
                i
            } else {
                prev.start
            };
            assert(forall|k: int| 0 <= k < prev.spans.len() ==> prev.spans[k].end < start);
            if st.spans.len() > prev.spans.len() {
                let sp = Span { start: start as usize, end: i as usize };
                assert(st.spans == prev.spans.push(sp));
                assert forall|k: int| 0 <= k < st.spans.len() implies #[trigger] st.spans[k].start
                    < st.spans[k].end < n && !is_comment(lines[st.spans[k].start as int])
                    && has_macro(lines[st.spans[k].start as int]) by {
                    if k < prev.spans.len() {
                        assert(st.spans[k] == prev.spans[k]);
                    }
                }
                assert forall|j: int, k: int|
                    0 <= j < k < st.spans.len() implies #[trigger] st.spans[j].end
                    < #[trigger] st.spans[k].start by {
                    assert(st.spans[j] == prev.spans[j]);
                    if k < prev.spans.len() {
                        assert(st.spans[k] == prev.spans[k]);
                    }
                }
            }
        }
    }
}

/// The spans found lie within the buffer, each over at least two lines, in
/// ascending order and without overlap.
pub proof fn lemma_spans_contained(lines: Seq<Seq<char>>)
    requires
        lines.len() <= usize::MAX,
    ensures
        spans_well_formed(find_spans(lines), lines.len()),
{
    lemma_scan_invariant(lines, lines.len());
}

/// A line that begins with the comment marker leaves the finder's state as it
/// was, whatever tokens or braces it holds, and no span starts on it.
pub proof fn lemma_comment_lines_ignored(lines: Seq<Seq<char>>, i: int)
    requires
        0 <= i < lines.len() <= usize::MAX,
        is_comment(lines[i]),
    ensures
        scan_lines(lines, (i + 1) as nat) == scan_lines(lines, i as nat),
        forall|k: int|
            0 <= k < find_spans(lines).len() ==> #[trigger] find_spans(lines)[k].start != i,
{
    lemma_scan_invariant(lines, lines.len());
}

/// The features of a line that the span finder looks at.
pub open spec fn same_features(a: Seq<char>, b: Seq<char>) -> bool {
    &&& is_comment(a) == is_comment(b)
    &&& has_macro(a) == has_macro(b)
    &&& a.contains(OPEN) == b.contains(OPEN)
    &&& a.contains(CLOSE) == b.contains(CLOSE)
}

/// Two buffers whose lines agree in the features the finder looks at give
/// the same spans.
pub proof fn lemma_same_features_same_spans(a: Seq<Seq<char>>, b: Seq<Seq<char>>, n: nat)
    requires
        a.len() == b.len(),
        n <= a.len(),
        forall|i: int| 0 <= i < a.len() ==> same_features(#[trigger] a[i], b[i]),
    ensures
        scan_lines(a, n) == scan_lines(b, n),
    decreases n,
{
    if n > 0 {
        lemma_same_features_same_spans(a, b, (n - 1) as nat);
        assert(same_features(a[n - 1], b[n - 1]));
    }
}

/// Finds the complete macro blocks of the buffer.
pub fn find_macro(buf: &[String]) -> (spans: Vec<Span>)
    ensures
        spans@ == find_spans(lines_of(buf@)),
        spans_well_formed(spans@, buf@.len()),
{
    let ghost lines = lines_of(buf@);
    let mut spans: Vec<Span> = Vec::new();
    // The counter moves by at most one per line, up or down, so it stays
    // within the number of lines seen and never overflows an i128.
    let mut brackets: i128 = 0;
    let mut inside_macro = false;
    let mut span = Span::new(0, 0);
    let mut i: usize = 0;
    let n = buf.len();
    while i < n
        invariant
            i <= n,
            n == buf@.len(),
            lines.len() == n,
            lines == lines_of(buf@),
            scan_lines(lines, i as nat) == (ScanState {
                inside: inside_macro,
                brackets: brackets as int,
                start: span.start as int,
                spans: spans@,
            }),
            -(i as int) <= brackets <= i,
        decreases n - i,
    {
        proof {
            lemma_scan_invariant(lines, (i + 1) as nat);
        }
        let line = buf[i].as_str();
        if !text_starts_with(line, COMMENT) {
            if text_contains(line, MACRO) {
                inside_macro = true;
                span.start = i;
            }
            if inside_macro {
                if has_char(line, OPEN) {
                    brackets += 1;
                } else if has_char(line, CLOSE) {
                    brackets -= 1;
                }
                if brackets == 0 {
                    span.end = i;
                    if span.start < span.end {
                        spans.push(span);
                    }
                    inside_macro = false;
                }
            }
        }
        i += 1;
    }
    proof {
        lemma_spans_contained(lines);
    }
    spans
}

} // verus!
