//! Per-line brace balance, leading indentation, and the re-indentation of
//! every macro block of a buffer.
use vstd::prelude::*;

use crate::spans::{
    find_macro, find_spans, is_comment, lemma_same_features_same_spans, lemma_spans_contained,
    lines_of, same_features, spans_well_formed, Span,
};
use crate::text::{
    indented, is_ws, lemma_contains_trimmed, lemma_has_char_trimmed, lemma_trim_spaces,
    lemma_trim_trimmed, spaces, trim_leading, trim_ws,
};
use crate::{CLOSE, INDENT, MACRO, OPEN};

verus! {

/// The number of spaces in the run of spaces and tabs that starts the line.
pub open spec fn leading_spaces(s: Seq<char>) -> nat
    decreases s.len(),
{
    if s.len() > 0 && (s[0] == ' ' || s[0] == '\t') {
        (if s[0] == ' ' {
            1nat
        } else {
            0nat
        }) + leading_spaces(s.drop_first())
    } else {
        0
    }
}

/// The number of tabs in the run of spaces and tabs that starts the line.
pub open spec fn leading_tabs(s: Seq<char>) -> nat
    decreases s.len(),
{
    if s.len() > 0 && (s[0] == ' ' || s[0] == '\t') {
        (if s[0] == '\t' {
            1nat
        } else {
            0nat
        }) + leading_tabs(s.drop_first())
    } else {
        0
    }
}

/// After a left-to-right scan of `s`: whether it ends inside a string, and
/// how many open and close braces were seen outside strings. A double quote
/// toggles the string state; escapes are not recognised.
pub open spec fn brace_scan(s: Seq<char>) -> (bool, nat, nat)
    decreases s.len(),
{
    if s.len() == 0 {
        (false, 0, 0)
    } else {
        let prev = brace_scan(s.drop_last());
        let c = s.last();
        let in_string = if c == '"' {
            !prev.0
        } else {
            prev.0
        };
        if c == OPEN && !in_string {
            (in_string, prev.1 + 1, prev.2)
        } else if c == CLOSE && !in_string {
            (in_string, prev.1, prev.2 + 1)
        } else {
            (in_string, prev.1, prev.2)
        }
    }
}

/// 1 where the line opens more braces than it closes, -1 where it closes
/// more than it opens, 0 where they balance.
pub open spec fn balance_of(s: Seq<char>) -> i32 {
    let (_, opens, closes) = brace_scan(s);
    if opens > closes {
        1i32
    } else if closes > opens {
        -1i32
    } else {
        0i32
    }
}

/// A (trimmed) line that opens a nested block.
pub open spec fn opens_block(t: Seq<char>) -> bool {
    balance_of(t) == 1
}

/// A (trimmed) line that closes a block: not an opening line, and starting
/// with the close brace.
pub open spec fn closes_block(t: Seq<char>) -> bool {
    !opens_block(t) && t.len() > 0 && t[0] == CLOSE
}

/// The indent that applies after the trimmed line `t`, given the one before it.
pub open spec fn indent_after(cur: nat, t: Seq<char>) -> nat {
    if opens_block(t) {
        if cur + INDENT <= usize::MAX {
            (cur + INDENT) as nat
        } else {
            usize::MAX as nat
        }
    } else if closes_block(t) {
        if cur >= INDENT {
            (cur - INDENT) as nat
        } else {
            0
        }
    } else {
        cur
    }
}

/// The indent in force when line `i` of the block that starts at `start` is
/// reached: the block's first line keeps the spaces it had.
pub open spec fn indent_before(lines: Seq<Seq<char>>, start: int, i: int) -> nat
    decreases i - start,
{
    if i <= start {
        leading_spaces(lines[start])
    } else {
        indent_after(indent_before(lines, start, i - 1), trim_ws(lines[i - 1]))
    }
}

/// The indent of line `i` itself: an opening line sits at the level before
/// it, any other line at the level after it.
pub open spec fn line_indent(lines: Seq<Seq<char>>, start: int, i: int) -> nat {
    let t = trim_ws(lines[i]);
    if opens_block(t) {
        indent_before(lines, start, i)
    } else {
        indent_after(indent_before(lines, start, i), t)
    }
}

/// Line `i` of the block that starts at `start`, re-indented.
pub open spec fn fixed_line(lines: Seq<Seq<char>>, start: int, i: int) -> Seq<char> {
    spaces(line_indent(lines, start, i)) + trim_ws(lines[i])
}

/// The buffer with the lines of one span re-indented.
pub open spec fn fix_span(lines: Seq<Seq<char>>, sp: Span) -> Seq<Seq<char>> {
    Seq::new(
        lines.len(),
        |i: int|
            if sp.start <= i <= sp.end {
                fixed_line(lines, sp.start as int, i)
            } else {
                lines[i]
            },
    )
}

/// The buffer with the given spans re-indented one after the other.
pub open spec fn fix_spans(lines: Seq<Seq<char>>, spans: Seq<Span>) -> Seq<Seq<char>>
    decreases spans.len(),
{
    if spans.len() == 0 {
        lines
    } else {
        fix_span(fix_spans(lines, spans.drop_last()), spans.last())
    }
}

/// The buffer with every macro block re-indented.
pub open spec fn fixed_buffer(lines: Seq<Seq<char>>) -> Seq<Seq<char>> {
    fix_spans(lines, find_spans(lines))
}

/// The first line of every block has at most one leading tab.
pub open spec fn block_tabs_ok(lines: Seq<Seq<char>>) -> bool {
    forall|k: int|
        0 <= k < find_spans(lines).len() ==> leading_tabs(
            lines[#[trigger] find_spans(lines)[k].start as int],
        ) <= 1
}

/// The number of leading spaces of the line, where at most one tab stands
/// among them.
pub fn get_indent_level(line: &str) -> (r: usize)
    requires
        leading_tabs(line@) <= 1,
    ensures
        r == leading_spaces(line@),
{
    let n = line.unicode_len();
    let mut tabs: usize = 0;
    let mut spaces: usize = 0;
    let mut i: usize = 0;
    assert(line@.skip(0) =~= line@);
    while i < n && (line.get_char(i) == ' ' || line.get_char(i) == '\t')
        invariant
            i <= n,
            n == line@.len(),
            spaces + leading_spaces(line@.skip(i as int)) == leading_spaces(line@),
            tabs + leading_tabs(line@.skip(i as int)) == leading_tabs(line@),
            spaces <= i,
            tabs <= i,
        decreases n - i,
    {
        assert(line@.skip(i as int).drop_first() =~= line@.skip(i + 1));
        if line.get_char(i) == '\t' {
            tabs += 1;
        } else {
            spaces += 1;
        }
        i += 1;
    }
    assert(tabs <= 1);
    spaces
}

/// The number of tabs among the leading spaces and tabs of the line.
pub fn leading_tab_count(line: &str) -> (r: usize)
    ensures
        r == leading_tabs(line@),
{
    let n = line.unicode_len();
    let mut tabs: usize = 0;
    let mut i: usize = 0;
    assert(line@.skip(0) =~= line@);
    while i < n && (line.get_char(i) == ' ' || line.get_char(i) == '\t')
        invariant
            i <= n,
            n == line@.len(),
            tabs + leading_tabs(line@.skip(i as int)) == leading_tabs(line@),
            tabs <= i,
        decreases n - i,
    {
        assert(line@.skip(i as int).drop_first() =~= line@.skip(i + 1));
        if line.get_char(i) == '\t' {
            tabs += 1;
        }
        i += 1;
    }
    tabs
}

/// Whether the line opens (1), closes (-1) or balances (0) braces, counting
/// only braces outside double-quoted strings.
pub fn balance(line: &str) -> (r: i32)
    ensures
        r == balance_of(line@),
{
    let n = line.unicode_len();
    let mut open_count: usize = 0;
    let mut close_count: usize = 0;
    let mut inside_string = false;
    let mut i: usize = 0;
    assert(line@.take(0) =~= Seq::<char>::empty());
    while i < n
        invariant
            i <= n,
            n == line@.len(),
            brace_scan(line@.take(i as int)) == (inside_string, open_count as nat, close_count as nat),
            open_count <= i,
            close_count <= i,
        decreases n - i,
    {
        assert(line@.take(i + 1).drop_last() =~= line@.take(i as int));
        let c = line.get_char(i);
        if c == '"' {
            inside_string = !inside_string;
        }
        if c == OPEN && !inside_string {
            open_count += 1;
        } else if c == CLOSE && !inside_string {
            close_count += 1;
        }
        i += 1;
    }
    assert(line@.take(n as int) =~= line@);
    if open_count > close_count {
        1
    } else if close_count > open_count {
        -1
    } else {
        0
    }
}

/// Lines outside every given span are left as they were.
proof fn lemma_fix_spans_outside(lines: Seq<Seq<char>>, spans: Seq<Span>, i: int)
    requires
        0 <= i < lines.len(),
        forall|k: int|
            0 <= k < spans.len() ==> !(#[trigger] spans[k].start <= i <= spans[k].end),
    ensures
        fix_spans(lines, spans).len() == lines.len(),
        fix_spans(lines, spans)[i] == lines[i],
    decreases spans.len(),
{
    if spans.len() > 0 {
        let rest = spans.drop_last();
        assert forall|k: int|
            0 <= k < rest.len() implies !(#[trigger] rest[k].start <= i <= rest[k].end) by {
            assert(rest[k] == spans[k]);
        }
        lemma_fix_spans_outside(lines, rest, i);
        assert(spans.last() == spans[spans.len() - 1]);
    }
}

/// Re-indenting keeps the number of lines.
proof fn lemma_fix_spans_len(lines: Seq<Seq<char>>, spans: Seq<Span>)
    ensures
        fix_spans(lines, spans).len() == lines.len(),
    decreases spans.len(),
{
    if spans.len() > 0 {
        lemma_fix_spans_len(lines, spans.drop_last());
    }
}

/// Spaces put in front of a trimmed line are its leading spaces, and it then
/// has no leading tab.
proof fn lemma_leading_of_indented(n: nat, t: Seq<char>)
    requires
        t.len() > 0 ==> !is_ws(t[0]),
    ensures
        leading_spaces(spaces(n) + t) == n,
        leading_tabs(spaces(n) + t) == 0,
    decreases n,
{
    if n > 0 {
        assert((spaces(n) + t)[0] == ' ');
        assert((spaces(n) + t).drop_first() =~= spaces((n - 1) as nat) + t);
        lemma_leading_of_indented((n - 1) as nat, t);
    } else {
        assert(spaces(n) + t =~= t);
    }
}

/// The indents of a block depend only on the leading spaces of its first
/// line and on its lines once trimmed.
proof fn lemma_indent_agrees(a: Seq<Seq<char>>, b: Seq<Seq<char>>, start: int, i: int)
    requires
        0 <= start <= i < a.len(),
        i < b.len(),
        leading_spaces(a[start]) == leading_spaces(b[start]),
        forall|j: int| start <= j <= i ==> #[trigger] trim_ws(a[j]) == trim_ws(b[j]),
    ensures
        indent_before(a, start, i) == indent_before(b, start, i),
        fixed_line(a, start, i) == fixed_line(b, start, i),
    decreases i - start,
{
    if i > start {
        lemma_indent_agrees(a, b, start, i - 1);
        assert(trim_ws(a[i - 1]) == trim_ws(b[i - 1]));
    }
    assert(trim_ws(a[i]) == trim_ws(b[i]));
}

/// After the first `m` spans of a well-formed list are re-indented, a line of
/// one of them is that span's re-indented line of the original buffer.
proof fn lemma_fix_spans_inside(lines: Seq<Seq<char>>, spans: Seq<Span>, m: int, k: int, i: int)
    requires
        spans_well_formed(spans, lines.len()),
        0 <= k < m <= spans.len(),
        spans[k].start <= i <= spans[k].end,
    ensures
        fix_spans(lines, spans.take(m))[i] == fixed_line(lines, spans[k].start as int, i),
    decreases m,
{
    let prev = spans.take(m - 1);
    assert(spans.take(m).drop_last() =~= prev);
    assert(spans.take(m).last() == spans[m - 1]);
    lemma_fix_spans_len(lines, prev);
    let g = fix_spans(lines, prev);
    if k == m - 1 {
        let s = spans[k].start as int;
        assert forall|j: int| s <= j <= i implies #[trigger] g[j] == lines[j] by {
            assert forall|q: int| 0 <= q < prev.len() implies !(#[trigger] prev[q].start <= j
                <= prev[q].end) by {
                assert(spans[q].end < spans[k].start);
            }
            lemma_fix_spans_outside(lines, prev, j);
        }
        lemma_indent_agrees(g, lines, s, i);
    } else {
        assert(spans[k].end < spans[m - 1].start);
        lemma_fix_spans_inside(lines, spans, m - 1, k, i);
    }
}

/// The blocks whose re-indentation is stable: no line of a block is a
/// comment once trimmed, and no block starts on a closing line.
pub open spec fn blocks_stable(lines: Seq<Seq<char>>) -> bool {
    forall|k: int, i: int|
        0 <= k < find_spans(lines).len() && #[trigger] find_spans(lines)[k].start <= i
            <= find_spans(lines)[k].end ==> !is_comment(trim_ws(#[trigger] lines[i])) && (i
            == find_spans(lines)[k].start ==> !closes_block(trim_ws(lines[i])))
}

/// Re-indenting a buffer a second time changes nothing: the second pass finds
/// the same blocks, and their indents follow from the same trimmed lines.
/// This holds where no line of a block is a comment once trimmed and no block
/// starts on a closing line; either can move a block on the second pass.
pub proof fn lemma_fix_idempotent(lines: Seq<Seq<char>>)
    requires
        lines.len() <= usize::MAX,
        block_tabs_ok(lines),
        blocks_stable(lines),
    ensures
        find_spans(fixed_buffer(lines)) == find_spans(lines),
        block_tabs_ok(fixed_buffer(lines)),
        fixed_buffer(fixed_buffer(lines)) == fixed_buffer(lines),
{
    let spans = find_spans(lines);
    let f = fixed_buffer(lines);
    lemma_spans_contained(lines);
    lemma_fix_spans_len(lines, spans);
    assert(spans.take(spans.len() as int) =~= spans);
    reveal_strlit("html!");
    reveal_strlit("//");
    assert(MACRO@[0] == 'h');
    assert(crate::COMMENT@[0] == '/');
    // Inside a block a line becomes spaces before the same trimmed text.
    assert forall|k: int, i: int|
        #![trigger spans[k], f[i]]
        0 <= k < spans.len() && spans[k].start <= i <= spans[k].end implies f[i] == spaces(
            line_indent(lines, spans[k].start as int, i),
        ) + trim_ws(lines[i]) && trim_ws(f[i]) == trim_ws(lines[i]) by {
        lemma_fix_spans_inside(lines, spans, spans.len() as int, k, i);
        lemma_trim_spaces(line_indent(lines, spans[k].start as int, i), trim_ws(lines[i]));
        lemma_trim_trimmed(lines[i]);
    }
    assert forall|i: int| 0 <= i < lines.len() implies same_features(#[trigger] f[i], lines[i]) by {
        if exists|k: int| 0 <= k < spans.len() && #[trigger] spans[k].start <= i <= spans[k].end {
            let k = choose|k: int| 0 <= k < spans.len() && #[trigger] spans[k].start <= i <= spans[k].end;
            let c = line_indent(lines, spans[k].start as int, i);
            let t = trim_ws(lines[i]);
            assert(f[i] == spaces(c) + t);
            lemma_trim_trimmed(lines[i]);
            lemma_contains_trimmed(f[i], MACRO@);
            lemma_contains_trimmed(lines[i], MACRO@);
            lemma_has_char_trimmed(f[i], OPEN);
            lemma_has_char_trimmed(lines[i], OPEN);
            lemma_has_char_trimmed(f[i], CLOSE);
            lemma_has_char_trimmed(lines[i], CLOSE);
            assert(!is_comment(t));
            if lines[i].len() > 0 && is_ws(lines[i][0]) {
                if is_comment(lines[i]) {
                    assert(lines[i][0] == crate::COMMENT@[0]);
                }
            }
            if c > 0 {
                assert(f[i][0] == ' ');
                if is_comment(f[i]) {
                    assert(f[i][0] == crate::COMMENT@[0]);
                }
            } else {
                assert(f[i] =~= t);
            }
        } else {
            lemma_fix_spans_outside(lines, spans, i);
        }
    }
    lemma_same_features_same_spans(f, lines, f.len());
    // The second pass re-indents the same blocks from the same data.
    assert forall|k: int| 0 <= k < spans.len() implies leading_spaces(
        f[#[trigger] spans[k].start as int],
    ) == leading_spaces(lines[spans[k].start as int]) && leading_tabs(
        f[spans[k].start as int],
    ) == 0 by {
        let s = spans[k].start as int;
        lemma_trim_trimmed(lines[s]);
        lemma_leading_of_indented(line_indent(lines, s, s), trim_ws(lines[s]));
        assert(!closes_block(trim_ws(lines[s])));
    }
    assert forall|i: int| 0 <= i < f.len() implies #[trigger] fix_spans(f, spans)[i] == f[i] by {
        if exists|k: int| 0 <= k < spans.len() && #[trigger] spans[k].start <= i <= spans[k].end {
            let k = choose|k: int| 0 <= k < spans.len() && #[trigger] spans[k].start <= i <= spans[k].end;
            let s = spans[k].start as int;
            lemma_fix_spans_inside(f, spans, spans.len() as int, k, i);
            assert(leading_spaces(f[s]) == leading_spaces(lines[s]));
            assert forall|j: int| s <= j <= i implies #[trigger] trim_ws(f[j]) == trim_ws(
                lines[j],
            ) by {
                assert(trim_ws(f[j]) == trim_ws(lines[j]));
            }
            lemma_indent_agrees(f, lines, s, i);
            lemma_fix_spans_inside(lines, spans, spans.len() as int, k, i);
        } else {
            lemma_fix_spans_outside(f, spans, i);
        }
    }
    lemma_fix_spans_len(f, spans);
    assert(fix_spans(f, spans) =~= f);
}

/// A closing line sits one indent unit below the level before it, and at
/// zero, never below, where that level is less than one unit.
pub proof fn lemma_close_indent_saturates(lines: Seq<Seq<char>>, start: int, i: int)
    requires
        closes_block(trim_ws(lines[i])),
    ensures
        indent_before(lines, start, i) >= INDENT ==> line_indent(lines, start, i) == indent_before(
            lines,
            start,
            i,
        ) - INDENT,
        indent_before(lines, start, i) <= INDENT ==> line_indent(lines, start, i) == 0,
{
}

/// Why a buffer could not be re-indented.
#[derive(Debug, PartialEq, Eq, Structural, Clone, Copy)]
pub enum IndentError {
    /// The block starting on this line has more than one leading tab there.
    TabbedBlockStart { line: usize },
}

/// Re-indents every macro block of the buffer, or reports a block whose
/// first line has more than one leading tab and leaves the buffer as it was.
pub fn try_fix_indent(buf: &mut Vec<String>) -> (r: Result<(), IndentError>)
    ensures
        r is Ok <==> block_tabs_ok(lines_of(old(buf)@)),
        r is Ok ==> lines_of(final(buf)@) == fixed_buffer(lines_of(old(buf)@)),
        r matches Err(IndentError::TabbedBlockStart { line }) ==> {
            &&& final(buf)@ == old(buf)@
            &&& exists|k: int|
                0 <= k < find_spans(lines_of(old(buf)@)).len() && #[trigger] find_spans(
                    lines_of(old(buf)@),
                )[k].start == line && leading_tabs(lines_of(old(buf)@)[line as int]) > 1
        },
{
    let ghost lines = lines_of(buf@);
    let spans = find_macro(buf.as_slice());
    let mut k: usize = 0;
    while k < spans.len()
        invariant
            k <= spans@.len(),
            spans@ == find_spans(lines),
            spans_well_formed(spans@, lines.len()),
            lines == lines_of(buf@),
            forall|j: int|
                0 <= j < k ==> leading_tabs(lines[#[trigger] spans@[j].start as int]) <= 1,
        decreases spans@.len() - k,
    {
        let start = spans[k].start;
        assert(lines[start as int] == buf@[start as int]@);
        if leading_tab_count(buf[start].as_str()) > 1 {
            return Err(IndentError::TabbedBlockStart { line: start });
        }
        k += 1;
    }
    fix_indent(buf);
    Ok(())
}

/// Re-indents every macro block of the buffer in place.
pub fn fix_indent(buf: &mut Vec<String>)
    requires
        block_tabs_ok(lines_of(old(buf)@)),
    ensures
        lines_of(final(buf)@) == fixed_buffer(lines_of(old(buf)@)),
{
    let ghost lines = lines_of(buf@);
    let spans = find_macro(buf.as_slice());
    let n = buf.len();
    let mut k: usize = 0;
    assert(spans@.take(0) =~= Seq::<Span>::empty());
    while k < spans.len()
        invariant
            k <= spans@.len(),
            spans@ == find_spans(lines),
            spans_well_formed(spans@, lines.len()),
            block_tabs_ok(lines),
            buf@.len() == lines.len(),
            n == buf@.len(),
            lines_of(buf@) == fix_spans(lines, spans@.take(k as int)),
        decreases spans@.len() - k,
    {
        let span = spans[k];
        proof {
            assert forall|j: int|
                0 <= j < spans@.take(k as int).len() implies !(
                #[trigger] spans@.take(k as int)[j].start <= span.start <= spans@.take(
                    k as int,
                )[j].end) by {
                assert(spans@[j].end < spans@[k as int].start);
            }
            lemma_fix_spans_outside(lines, spans@.take(k as int), span.start as int);
            assert(lines_of(buf@)[span.start as int] == buf@[span.start as int]@);
        }
        let ghost before = lines_of(buf@);
        let mut current_indent = get_indent_level(buf[span.start].as_str());
        let mut i: usize = span.start;
        while i <= span.end
            invariant
                span.start <= i <= span.end + 1,
                span.end < buf@.len(),
                span.end < usize::MAX,
                buf@.len() == before.len(),
                current_indent == indent_before(before, span.start as int, i as int),
                forall|j: int|
                    0 <= j < before.len() ==> #[trigger] lines_of(buf@)[j] == if span.start <= j
                        < i {
                        fixed_line(before, span.start as int, j)
                    } else {
                        before[j]
                    },
            decreases span.end + 1 - i,
        {
            assert(lines_of(buf@)[i as int] == buf@[i as int]@);
            let new_line = {
                let t = trim_leading(buf[i].as_str());
                if balance(t) == 1 {
                    let l = indented(current_indent, t);
                    current_indent = current_indent.saturating_add(INDENT);
                    l
                } else if t.unicode_len() > 0 && t.get_char(0) == CLOSE {
                    current_indent = current_indent.saturating_sub(INDENT);
                    indented(current_indent, t)
                } else {
                    indented(current_indent, t)
                }
            };
            let ghost old_buf = buf@;
            buf[i] = new_line;
            proof {
                assert forall|j: int|
                    0 <= j < before.len() implies #[trigger] lines_of(buf@)[j] == if span.start
                        <= j < i + 1 {
                        fixed_line(before, span.start as int, j)
                    } else {
                        before[j]
                    } by {
                    if j != i {
                        assert(lines_of(buf@)[j] == lines_of(old_buf)[j]);
                    }
                }
            }
            i += 1;
        }
        proof {
            assert(spans@.take(k + 1).drop_last() =~= spans@.take(k as int));
            assert(lines_of(buf@) =~= fix_span(before, span));
        }
        k += 1;
    }
    assert(spans@.take(spans@.len() as int) =~= spans@);
}

} // verus!
