use vstd::prelude::*;
use vstd::string::*;
use vstd::utf8::*;
use crate::filter::Range;
use crate::filter::str_bytes;
use crate::filter::Candidate;
use crate::ui::Session;
use crate::ui::SessionView;

verus! {

/// Number of characters that the UTF-8 bytes `b` encode: the bytes that are
/// not continuation bytes.
pub open spec fn char_count(b: Seq<u8>) -> nat
    decreases b.len(),
{
    if b.len() == 0 {
        0
    } else {
        char_count(b.drop_last()) + if is_continuation_byte(b.last()) { 0nat } else { 1nat }
    }
}

pub open spec fn min_nat(a: nat, b: nat) -> nat {
    if a < b { a } else { b }
}

/// Length of the longest prefix of `b[i..]` (`count` characters already
/// taken) that ends on a character start and holds at most `w` characters.
pub open spec fn shrunk_from(b: Seq<u8>, i: int, count: nat, w: nat) -> int
    decreases b.len() - i,
{
    if i < 0 || i >= b.len() {
        b.len() as int
    } else if !is_continuation_byte(b[i]) && count == w {
        i
    } else {
        shrunk_from(b, i + 1, count + if is_continuation_byte(b[i]) { 0nat } else { 1nat }, w)
    }
}

/// Length of the longest prefix of `b` that holds at most `w` characters.
pub open spec fn shrunk_len(b: Seq<u8>, w: nat) -> int {
    shrunk_from(b, 0, 0, w)
}

/// Length of the longest prefix of the UTF-8 bytes `b` that holds at most
/// `width` characters.
pub fn shrink_len(b: &[u8], width: usize) -> (k: usize)
    ensures
        k <= b@.len(),
        k == shrunk_len(b@, width as nat),
        char_count(b@.take(k as int)) == min_nat(width as nat, char_count(b@)),
        k < b@.len() ==> !is_continuation_byte(b@[k as int]),
{
    let mut i: usize = 0;
    let mut count: usize = 0;
    while i < b.len()
        invariant
            i <= b@.len(),
            count <= width,
            count == char_count(b@.take(i as int)),
            shrunk_len(b@, width as nat) == shrunk_from(b@, i as int, count as nat, width as nat),
        decreases b@.len() - i,
    {
        let start = b[i] < 0x80 || b[i] > 0xbf;
        if start && count == width {
            proof {
                lemma_count_grows(b@, i as int, b@.len() as int);
                assert(b@.take(b@.len() as int) =~= b@);
            }
            return i;
        }
        proof {
            assert(b@.take(i + 1).drop_last() =~= b@.take(i as int));
        }
        if start {
            count = count + 1;
        }
        i = i + 1;
    }
    proof {
        assert(b@.take(i as int) =~= b@);
    }
    i
}

/// The longest prefix of `s` that holds at most `width` characters.
pub fn shrink_str(s: &str, width: usize) -> (r: &str)
    ensures
        str_bytes(r) == str_bytes(s).take(shrunk_len(str_bytes(s), width as nat)),
        char_count(str_bytes(r)) == min_nat(width as nat, char_count(str_bytes(s))),
        str_bytes(r).len() < str_bytes(s).len() ==> !is_continuation_byte(str_bytes(s)[str_bytes(r).len() as int]),
{
    let bytes = s.as_bytes();
    let k = shrink_len(bytes, width);
    if k < bytes.len() {
        proof {
            encode_utf8_valid_utf8(s@);
            is_char_boundary_iff_not_is_continuation_byte(bytes@, k as int);
        }
        let (head, _tail) = s.split_at(k);
        proof {
            assert(str_bytes(head) =~= bytes@.take(k as int));
        }
        head
    } else {
        proof {
            assert(bytes@.take(k as int) =~= bytes@);
        }
        s
    }
}

proof fn lemma_count_grows(b: Seq<u8>, i: int, j: int)
    requires
        0 <= i <= j <= b.len(),
    ensures
        char_count(b.take(i)) <= char_count(b.take(j)),
    decreases j - i,
{
    if i < j {
        lemma_count_grows(b, i, j - 1);
        assert(b.take(j).drop_last() =~= b.take(j - 1));
    }
}

/// Whether some range covers byte `i`; a range covers its start through its end.
pub open spec fn covered(ranges: Seq<Range>, i: int) -> bool {
    exists|k: int| 0 <= k < ranges.len() && ranges[k].start <= i <= #[trigger] ranges[k].end
}

/// `segs` cuts `0..stop` into consecutive non-empty spans, each flagged with
/// whether the ranges cover it, and no two neighbours flagged alike.
pub open spec fn splits(segs: Seq<(bool, Range)>, ranges: Seq<Range>, stop: int) -> bool {
    &&& (segs.len() == 0 <==> stop == 0)
    &&& segs.len() > 0 ==> segs[0].1.start == 0 && segs.last().1.end == stop
    &&& forall|k: int| 0 <= k < segs.len() ==> (#[trigger] segs[k]).1.start < segs[k].1.end
    &&& forall|k: int| 0 <= k < segs.len() - 1 ==> (#[trigger] segs[k]).1.end == segs[k + 1].1.start
    &&& forall|k: int| 0 <= k < segs.len() - 1 ==> (#[trigger] segs[k]).0 != segs[k + 1].0
    &&& forall|k: int, i: int| 0 <= k < segs.len() && segs[k].1.start <= i < segs[k].1.end
        ==> #[trigger] covered(ranges, i) == (#[trigger] segs[k]).0
}

fn is_covered(ranges: &[Range], i: usize) -> (r: bool)
    ensures
        r == covered(ranges@, i as int),
{
    let mut k: usize = 0;
    while k < ranges.len()
        invariant
            k <= ranges@.len(),
            forall|j: int| 0 <= j < k ==> !(ranges@[j].start <= i <= #[trigger] ranges@[j].end),
        decreases ranges@.len() - k,
    {
        if ranges[k].start <= i && i <= ranges[k].end {
            return true;
        }
        k = k + 1;
    }
    false
}

/// The spans of `0..n`: each byte joins the span before it when the ranges
/// cover both or neither, and opens a new span otherwise.
pub open spec fn runs(ranges: Seq<Range>, n: int) -> Seq<(bool, Range)>
    decreases n,
{
    if n <= 0 {
        seq![]
    } else {
        let r = runs(ranges, n - 1);
        let f = covered(ranges, n - 1);
        if r.len() > 0 && r.last().0 == f {
            r.update(r.len() - 1, (f, Range { start: r.last().1.start, end: n as usize }))
        } else {
            r.push((f, Range { start: (n - 1) as usize, end: n as usize }))
        }
    }
}

/// Cuts the first `stop` bytes of a path into highlighted and plain spans.
/// Ranges may overlap and come in any order.
#[verifier::rlimit(50)]
pub fn split_ranges(ranges: &[Range], stop: usize) -> (r: Vec<(bool, Range)>)
    ensures
        splits(r@, ranges@, stop as int),
        r@ == runs(ranges@, stop as int),
{
    let mut out: Vec<(bool, Range)> = Vec::new();
    let mut i: usize = 0;
    while i < stop
        invariant
            i <= stop,
            splits(out@, ranges@, i as int),
            out@ == runs(ranges@, i as int),
        decreases stop - i,
    {
        let flag = is_covered(ranges, i);
        let n = out.len();
        if n > 0 && out[n - 1].0 == flag {
            let last = out[n - 1];
            let ghost prev = out@;
            out.set(n - 1, (flag, Range { start: last.1.start, end: i + 1 }));
            proof {
                assert forall|k: int, j: int| 0 <= k < out@.len() && out@[k].1.start <= j < out@[k].1.end
                    implies #[trigger] covered(ranges@, j) == (#[trigger] out@[k]).0 by {
                    if k < n - 1 {
                        assert(out@[k] == prev[k]);
                    } else if j < i {
                        assert(prev[k].1.start <= j < prev[k].1.end);
                    }
                }
                assert forall|k: int| 0 <= k < out@.len() - 1 implies (#[trigger] out@[k]).1.end == out@[k + 1].1.start by {
                    assert(out@[k] == prev[k]);
                }
                assert forall|k: int| 0 <= k < out@.len() - 1 implies (#[trigger] out@[k]).0 != out@[k + 1].0 by {
                    assert(out@[k] == prev[k]);
                }
            }
        } else {
            let ghost prev = out@;
            out.push((flag, Range { start: i, end: i + 1 }));
            proof {
                assert forall|k: int, j: int| 0 <= k < out@.len() && out@[k].1.start <= j < out@[k].1.end
                    implies #[trigger] covered(ranges@, j) == (#[trigger] out@[k]).0 by {
                    if k < n {
                        assert(out@[k] == prev[k]);
                    }
                }
                assert forall|k: int| 0 <= k < out@.len() - 1 implies (#[trigger] out@[k]).1.end == out@[k + 1].1.start by {
                    assert(out@[k] == prev[k]);
                }
                assert forall|k: int| 0 <= k < out@.len() - 1 implies (#[trigger] out@[k]).0 != out@[k + 1].0 by {
                    assert(out@[k] == prev[k]);
                }
            }
        }
        i = i + 1;
    }
    out
}


/// The decimal digits of `n`.
pub open spec fn decimal(n: nat) -> Seq<u8>
    decreases n,
{
    if n < 10 {
        seq![(48 + n) as u8]
    } else {
        decimal(n / 10).push((48 + n % 10) as u8)
    }
}

/// The control sequence `ESC [ <n> <letter>`.
pub open spec fn csi(n: nat, letter: u8) -> Seq<u8> {
    seq![27u8, 91u8] + decimal(n) + seq![letter]
}

fn push_decimal(out: &mut Vec<u8>, n: usize)
    ensures
        final(out)@ == old(out)@ + decimal(n as nat),
    decreases n,
{
    if n >= 10 {
        push_decimal(out, n / 10);
    }
    out.push((48 + n % 10) as u8);
    proof {
        if n < 10 {
            assert(n % 10 == n);
        }
    }
}

/// Appends `ESC [ <num> <letter>`: cursor moves (`A` up, `B` down, `C`
/// right, `D` left, `G` to a column), line erasure (`K`) and text attributes (`m`).
pub fn push_escape(out: &mut Vec<u8>, num: usize, letter: u8)
    ensures
        final(out)@ == old(out)@ + csi(num as nat, letter),
{
    out.push(27);
    out.push(91);
    push_decimal(out, num);
    out.push(letter);
    proof {
        assert(final(out)@ =~= old(out)@ + csi(num as nat, letter));
    }
}

/// Height of the viewport: the lines asked for, at least one and at most one
/// less than the terminal's rows.
pub fn viewport_height(max_lines: usize, rows: usize) -> (r: usize)
    requires
        rows >= 2,
    ensures
        r == (if max_lines < 1 { 1 } else if max_lines > rows - 1 { (rows - 1) as usize } else { max_lines }),
{
    if max_lines < 1 {
        1
    } else if max_lines > rows - 1 {
        rows - 1
    } else {
        max_lines
    }
}

/// Blank columns left between the prompt and the `<shown>/<total>` count,
/// when `used` columns of `width` are taken; none when the line is full.
pub fn info_spacing(width: usize, used: usize) -> (r: usize)
    ensures
        r == (if width > used { (width - used) as usize } else { 0 }),
{
    if width > used {
        width - used
    } else {
        0
    }
}

/// Column offset of the edit caret: past the two-column prompt, but not
/// beyond the last column.
pub fn caret_offset(width: usize, cursor: usize) -> (r: usize)
    ensures
        r == (if width == 0 { 0 } else if cursor + 2 < width - 1 { cursor + 2 } else { (width - 1) as int }),
{
    if width == 0 {
        0
    } else if cursor < width - 1 && cursor + 2 < width - 1 {
        cursor + 2
    } else {
        width - 1
    }
}


/// The SGR sequence for an attribute code.
pub open spec fn sgr(code: u8) -> Seq<u8> {
    csi(code as nat, 109)
}

/// Erases the line: column 1, then erase the whole line.
pub open spec fn clear_line() -> Seq<u8> {
    csi(1, 71) + csi(2, 75)
}

/// The spans of `text`, each behind the colour it is drawn in: cyan when
/// flagged, the default colour otherwise.
pub open spec fn spans_bytes(segs: Seq<(bool, Range)>, text: Seq<u8>) -> Seq<u8>
    decreases segs.len(),
{
    if segs.len() == 0 {
        seq![]
    } else {
        let s = segs.last();
        spans_bytes(segs.drop_last(), text) + sgr(if s.0 { 36u8 } else { 39u8 }) + text.subrange(s.1.start as int, s.1.end as int)
    }
}

/// One candidate's row: reversed when selected, the path cut to `width`
/// characters with its matched spans in colour, attributes reset after.
pub open spec fn row_bytes(path: Seq<u8>, ranges: Seq<Range>, width: nat, selected: bool) -> Seq<u8> {
    let k = shrunk_len(path, width);
    let body = if ranges.len() == 0 {
        path.take(k)
    } else {
        spans_bytes(runs(ranges, k), path)
    };
    (if selected { sgr(7) } else { seq![] }) + body + sgr(0)
}

/// The first `n` rows of the viewport, each on a fresh, cleared line.
pub open spec fn rows_bytes(cands: Seq<Candidate>, width: nat, selected: int, n: int) -> Seq<u8>
    decreases n,
{
    if n <= 0 {
        seq![]
    } else {
        rows_bytes(cands, width, selected, n - 1) + csi(1, 66) + clear_line() + if n - 1 < cands.len() {
            row_bytes(cands[n - 1].path_bytes(), cands[n - 1].ranges@, width, n - 1 == selected)
        } else {
            seq![]
        }
    }
}

/// `<shown>/<total>`.
pub open spec fn count_text(shown: nat, total: nat) -> Seq<u8> {
    decimal(shown) + seq![47u8] + decimal(total)
}

/// A whole redraw: the rows, back up to the prompt line, `> ` and the query
/// cut to fit, the count right-aligned when there is room, then the caret.
pub open spec fn frame_bytes(s: SessionView, cands: Seq<Candidate>, total: nat, width: nat, height: nat) -> Seq<u8> {
    let info = count_text(cands.len(), total);
    let used = 2 + s.query.len() + info.len();
    let room = if width >= 2 { (width - 2) as nat } else { 0nat };
    let caret = if width == 0 { 0 } else if s.cursor + 2 < width - 1 { s.cursor + 2 } else { width - 1 };
    rows_bytes(cands, width, s.selected, height as int) + sgr(0) + csi(height, 65) + clear_line() + seq![62u8, 32u8]
        + s.query.take(shrunk_len(s.query, room)) + (if width > used { csi((width - used) as nat, 67) + info } else { seq![] })
        + csi(1, 71) + csi(caret as nat, 67)
}

fn push_bytes(out: &mut Vec<u8>, b: &[u8], start: usize, end: usize)
    requires
        start <= end <= b@.len(),
    ensures
        final(out)@ == old(out)@ + b@.subrange(start as int, end as int),
{
    let mut i: usize = start;
    while i < end
        invariant
            start <= i <= end <= b@.len(),
            out@ == old(out)@ + b@.subrange(start as int, i as int),
        decreases end - i,
    {
        out.push(b[i]);
        i = i + 1;
        proof {
            assert(out@ =~= old(out)@ + b@.subrange(start as int, i as int));
        }
    }
}

fn push_clear_line(out: &mut Vec<u8>)
    ensures
        final(out)@ == old(out)@ + clear_line(),
{
    push_escape(out, 1, 71);
    push_escape(out, 2, 75);
    proof {
        assert(final(out)@ =~= old(out)@ + clear_line());
    }
}

proof fn lemma_spans_within(segs: Seq<(bool, Range)>, ranges: Seq<Range>, stop: int, j: int)
    requires
        splits(segs, ranges, stop),
        0 <= j < segs.len(),
    ensures
        segs[j].1.start < segs[j].1.end <= stop,
    decreases segs.len() - j,
{
    if j < segs.len() - 1 {
        lemma_spans_within(segs, ranges, stop, j + 1);
        assert(segs[j].1.end == segs[j + 1].1.start);
    }
}

/// Appends one candidate's row.
fn draw_candidate(out: &mut Vec<u8>, candidate: &Candidate, width: usize, selected: bool)
    ensures
        final(out)@ == old(out)@ + row_bytes(candidate.path_bytes(), candidate.ranges@, width as nat, selected),
{
    let ghost base = out@;
    if selected {
        push_escape(out, 7, 109);
    }
    let ghost head = out@;
    let path = candidate.path.as_str().as_bytes();
    let k = shrink_len(path, width);
    if candidate.ranges.len() == 0 {
        push_bytes(out, path, 0, k);
    } else {
        let segs = split_ranges(candidate.ranges.as_slice(), k);
        let mut j: usize = 0;
        while j < segs.len()
            invariant
                path@ == candidate.path_bytes(),
                k <= path@.len(),
                splits(segs@, candidate.ranges@, k as int),
                j <= segs@.len(),
                out@ == head + spans_bytes(segs@.take(j as int), path@),
            decreases segs@.len() - j,
        {
            let seg = segs[j];
            proof {
                lemma_spans_within(segs@, candidate.ranges@, k as int, j as int);
                assert(segs@.take(j + 1).drop_last() =~= segs@.take(j as int));
            }
            push_escape(out, if seg.0 { 36 } else { 39 }, 109);
            push_bytes(out, path, seg.1.start, seg.1.end);
            j = j + 1;
            proof {
                assert(out@ =~= head + spans_bytes(segs@.take(j as int), path@));
            }
        }
        proof {
            assert(segs@.take(j as int) =~= segs@);
        }
    }
    push_escape(out, 0, 109);
    proof {
        assert(out@ =~= base + row_bytes(candidate.path_bytes(), candidate.ranges@, width as nat, selected));
    }
}

/// The bytes that redraw the viewport and the prompt, for `filtered` out of
/// `total` candidates on a terminal `width` columns wide.
pub fn frame(session: &Session, filtered: &[Candidate], total: usize, width: usize, height: usize) -> (r: Vec<u8>)
    ensures
        r@ == frame_bytes(session.view(), filtered@, total as nat, width as nat, height as nat),
{
    let mut out: Vec<u8> = Vec::new();
    let mut line: usize = 0;
    while line < height
        invariant
            line <= height,
            out@ == rows_bytes(filtered@, width as nat, session.selected as int, line as int),
        decreases height - line,
    {
        push_escape(&mut out, 1, 66);
        push_clear_line(&mut out);
        if line < filtered.len() {
            draw_candidate(&mut out, &filtered[line], width, line == session.selected);
        }
        line = line + 1;
        proof {
            assert(out@ =~= rows_bytes(filtered@, width as nat, session.selected as int, line as int));
        }
    }
    push_escape(&mut out, 0, 109);
    push_escape(&mut out, height, 65);
    push_clear_line(&mut out);
    out.push(62);
    out.push(32);
    let query = session.query.as_slice();
    let room: usize = if width >= 2 { width - 2 } else { 0 };
    let k = shrink_len(query, room);
    push_bytes(&mut out, query, 0, k);
    let mut info: Vec<u8> = Vec::new();
    push_decimal(&mut info, filtered.len());
    info.push(47);
    push_decimal(&mut info, total);
    proof {
        assert(info@ =~= count_text(filtered@.len(), total as nat));
    }
    let qlen = query.len();
    if qlen < width && info.len() < width - qlen && 2 < width - qlen - info.len() {
        push_escape(&mut out, width - qlen - info.len() - 2, 67);
        let n = info.len();
        push_bytes(&mut out, info.as_slice(), 0, n);
        proof {
            assert(info@.subrange(0, n as int) =~= info@);
        }
    }
    push_escape(&mut out, 1, 71);
    push_escape(&mut out, caret_offset(width, session.cursor), 67);
    proof {
        assert(query@.take(k as int) =~= query@.subrange(0, k as int));
        assert(out@ =~= frame_bytes(session.view(), filtered@, total as nat, width as nat, height as nat));
    }
    out
}

} // verus!
