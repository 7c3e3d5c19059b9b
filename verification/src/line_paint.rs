//! How one line of a source tab is styled: the highlight runs, cut around
//! a ⌘-hovered token that gets an underline, with find hits washed behind
//! them, and the pieces the line is laid out in.

use vstd::prelude::*;
use std::ops::Range;
use crate::msbuild::{HighlightKind, Token};
use vstd::string::StringSliceAdditionalSpecFns;
use vstd::utf8::is_char_boundary;

verus! {

/// The style of a stretch of a line: its highlight colour (none where no
/// run covers it), whether it is underlined, whether a find hit washes it.
#[derive(Clone, Copy, PartialEq, Eq, Debug, Structural)]
pub struct RunStyle {
    pub kind: Option<HighlightKind>,
    pub underlined: bool,
    pub washed: bool,
}

pub open spec fn min_of(a: usize, b: usize) -> usize {
    if a < b {
        a
    } else {
        b
    }
}

pub open spec fn max_of(a: usize, b: usize) -> usize {
    if a < b {
        b
    } else {
        a
    }
}

/// `a - b`, or 0 when `b` is the larger.
pub open spec fn less(a: usize, b: usize) -> usize {
    if a < b {
        0
    } else {
        (a - b) as usize
    }
}

/// A token's range made relative to a line starting at `line_start` and
/// clamped to the line's length.
pub fn underline_span(token: Range<usize>, line_start: usize, text_len: usize) -> (r: Range<usize>)
    ensures
        r.start == min_of(less(token.start, line_start), text_len),
        r.end == min_of(less(token.end, line_start), text_len),
{
    let s = token.start.saturating_sub(line_start);
    let e = token.end.saturating_sub(line_start);
    (if s < text_len { s } else { text_len })..(if e < text_len { e } else { text_len })
}

/// `style` over `r`, or nothing when `r` is empty.
pub open spec fn nonempty(r: Range<usize>, style: RunStyle) -> Seq<(Range<usize>, RunStyle)> {
    if r.start < r.end {
        seq![(r, style)]
    } else {
        seq![]
    }
}

pub open spec fn plain(kind: HighlightKind) -> RunStyle {
    RunStyle { kind: Some(kind), underlined: false, washed: false }
}

/// One highlight run, cut where the underline begins and ends inside it.
pub open spec fn run_pieces(run: (Range<usize>, HighlightKind), underline: Option<Range<usize>>) -> Seq<
    (Range<usize>, RunStyle),
> {
    let (r, kind) = run;
    match underline {
        Some(u) => if u.start < r.end && u.end > r.start {
            nonempty(r.start..max_of(u.start, r.start), plain(kind)) + nonempty(
                max_of(u.start, r.start)..min_of(u.end, r.end),
                RunStyle { kind: Some(kind), underlined: true, washed: false },
            ) + nonempty(min_of(u.end, r.end)..r.end, plain(kind))
        } else {
            nonempty(r, plain(kind))
        },
        None => nonempty(r, plain(kind)),
    }
}

/// Every run cut around the underline, in order.
pub open spec fn split_all(runs: Seq<(Range<usize>, HighlightKind)>, underline: Option<Range<usize>>) -> Seq<
    (Range<usize>, RunStyle),
>
    decreases runs.len(),
{
    if runs.len() == 0 {
        seq![]
    } else {
        split_all(runs.drop_last(), underline) + run_pieces(runs.last(), underline)
    }
}

fn push_nonempty(out: &mut Vec<(Range<usize>, RunStyle)>, r: Range<usize>, style: RunStyle)
    ensures
        final(out)@ == old(out)@ + nonempty(r, style),
{
    if r.start < r.end {
        out.push((r, style));
    }
}

/// The line's highlight runs with the underlined token's stretch marked.
pub fn split_underline(runs: &[(Range<usize>, HighlightKind)], underline: Option<Range<usize>>) -> (r: Vec<
    (Range<usize>, RunStyle),
>)
    ensures
        r@ == split_all(runs@, underline),
{
    let mut out: Vec<(Range<usize>, RunStyle)> = Vec::new();
    let mut i: usize = 0;
    while i < runs.len()
        invariant
            i <= runs@.len(),
            out@ == split_all(runs@.take(i as int), underline),
        decreases runs.len() - i,
    {
        let r = runs[i].0.start..runs[i].0.end;
        let kind = runs[i].1;
        assert(runs@.take(i + 1).drop_last() =~= runs@.take(i as int));
        let style = RunStyle { kind: Some(kind), underlined: false, washed: false };
        match &underline {
            Some(u) => {
                if u.start < r.end && u.end > r.start {
                    let a = if u.start > r.start { u.start } else { r.start };
                    let b = if u.end < r.end { u.end } else { r.end };
                    push_nonempty(&mut out, r.start..a, style);
                    push_nonempty(&mut out, a..b, RunStyle { kind: Some(kind), underlined: true, washed: false });
                    push_nonempty(&mut out, b..r.end, style);
                } else {
                    push_nonempty(&mut out, r, style);
                }
            },
            None => {
                push_nonempty(&mut out, r, style);
            },
        }
        i += 1;
    }
    assert(runs@.take(runs@.len() as int) =~= runs@);
    out
}

/// Stretches that are each nonempty and follow on one from the next.
pub open spec fn consecutive<X>(runs: Seq<(Range<usize>, X)>) -> bool {
    &&& forall|i: int| 0 <= i < runs.len() ==> (#[trigger] runs[i]).0.start < runs[i].0.end
    &&& forall|i: int| 0 <= i < runs.len() - 1 ==> (#[trigger] runs[i]).0.end == runs[i + 1].0.start
}

proof fn lemma_consecutive_concat<X>(a: Seq<(Range<usize>, X)>, b: Seq<(Range<usize>, X)>)
    requires
        consecutive(a),
        consecutive(b),
        a.len() > 0 && b.len() > 0 ==> a.last().0.end == b[0].0.start,
    ensures
        consecutive(a + b),
{
    assert forall|i: int| 0 <= i < (a + b).len() - 1 implies (#[trigger] (a + b)[i]).0.end == (a + b)[i + 1].0.start by {
        if i < a.len() - 1 {
        } else if i == a.len() - 1 {
        } else {
            assert((a + b)[i] == b[i - a.len()]);
            assert((a + b)[i + 1] == b[i + 1 - a.len()]);
        }
    }
}

proof fn lemma_run_pieces(run: (Range<usize>, HighlightKind), underline: Option<Range<usize>>)
    requires
        run.0.start < run.0.end,
        underline matches Some(u) ==> u.start <= u.end,
    ensures
        consecutive(run_pieces(run, underline)),
        run_pieces(run, underline).len() > 0,
        run_pieces(run, underline)[0].0.start == run.0.start,
        run_pieces(run, underline).last().0.end == run.0.end,
{
    let (r, kind) = run;
    if let Some(u) = underline {
        if u.start < r.end && u.end > r.start {
            let a = nonempty(r.start..max_of(u.start, r.start), plain(kind));
            let b = nonempty(
                max_of(u.start, r.start)..min_of(u.end, r.end),
                RunStyle { kind: Some(kind), underlined: true, washed: false },
            );
            let c = nonempty(min_of(u.end, r.end)..r.end, plain(kind));
            lemma_consecutive_concat(a, b);
            lemma_consecutive_concat(a + b, c);
            assert(run_pieces(run, underline) == a + b + c);
        }
    }
}

/// Cutting runs around an underline keeps them a partition of the same
/// stretch: the pieces are nonempty, follow on one from the next, start
/// where the first run starts and end where the last run ends.
pub proof fn lemma_split_keeps_partition(runs: Seq<(Range<usize>, HighlightKind)>, underline: Option<Range<usize>>)
    requires
        consecutive(runs),
        underline matches Some(u) ==> u.start <= u.end,
    ensures
        consecutive(split_all(runs, underline)),
        split_all(runs, underline).len() == 0 <==> runs.len() == 0,
        runs.len() > 0 ==> split_all(runs, underline)[0].0.start == runs[0].0.start,
        runs.len() > 0 ==> split_all(runs, underline).last().0.end == runs.last().0.end,
    decreases runs.len(),
{
    if runs.len() > 0 {
        let init = runs.drop_last();
        assert(consecutive(init)) by {
            assert forall|i: int| 0 <= i < init.len() - 1 implies (#[trigger] init[i]).0.end == init[i + 1].0.start by {
                assert(init[i] == runs[i] && init[i + 1] == runs[i + 1]);
            }
            assert forall|i: int| 0 <= i < init.len() implies (#[trigger] init[i]).0.start < init[i].0.end by {
                assert(init[i] == runs[i]);
            }
        }
        lemma_split_keeps_partition(init, underline);
        assert(runs.last() == runs[runs.len() - 1]);
        lemma_run_pieces(runs.last(), underline);
        if init.len() > 0 {
            assert(init.last() == runs[runs.len() - 2]);
        }
        lemma_consecutive_concat(split_all(init, underline), run_pieces(runs.last(), underline));
    }
}

/// The part of each styled stretch that falls inside `piece`, made
/// relative to the piece's start.
pub open spec fn clipped(runs: Seq<(Range<usize>, RunStyle)>, piece: Range<usize>) -> Seq<(Range<usize>, RunStyle)>
    decreases runs.len(),
{
    if runs.len() == 0 {
        seq![]
    } else {
        let (r, style) = runs.last();
        let a = max_of(r.start, piece.start);
        let b = min_of(r.end, piece.end);
        clipped(runs.drop_last(), piece) + if a < b {
            seq![((a - piece.start) as usize..(b - piece.start) as usize, style)]
        } else {
            seq![]
        }
    }
}

/// A piece's styles, moved back to line positions, lie inside the piece
/// and inside a run of the line's styles, and keep that run's style: the
/// re-basing loses no position and invents no style.
pub proof fn lemma_clipped_in_place(runs: Seq<(Range<usize>, RunStyle)>, piece: Range<usize>)
    ensures
        forall|k: int|
            0 <= k < clipped(runs, piece).len() ==> {
                let c = #[trigger] clipped(runs, piece)[k];
                &&& c.0.start < c.0.end
                &&& piece.start + c.0.end <= piece.end
                &&& exists|j: int|
                    0 <= j < runs.len() && runs[j].0.start <= piece.start + c.0.start && piece.start + c.0.end
                        <= runs[j].0.end && runs[j].1 == c.1
            },
    decreases runs.len(),
{
    if runs.len() > 0 {
        let init = runs.drop_last();
        lemma_clipped_in_place(init, piece);
        let out = clipped(runs, piece);
        let before = clipped(init, piece);
        assert forall|k: int| 0 <= k < out.len() implies {
            let c = #[trigger] out[k];
            &&& c.0.start < c.0.end
            &&& piece.start + c.0.end <= piece.end
            &&& exists|j: int|
                0 <= j < runs.len() && runs[j].0.start <= piece.start + c.0.start && piece.start + c.0.end
                    <= runs[j].0.end && runs[j].1 == c.1
        } by {
            if k < before.len() {
                assert(out[k] == before[k]);
                let c = before[k];
                let j = choose|j: int|
                    0 <= j < init.len() && init[j].0.start <= piece.start + c.0.start && piece.start + c.0.end
                        <= init[j].0.end && init[j].1 == c.1;
                assert(runs[j] == init[j]);
            } else {
                assert(runs[runs.len() - 1] == runs.last());
            }
        }
    }
}

/// The styles of one piece of a line, relative to where the piece starts.
pub fn clip_to_piece(runs: &[(Range<usize>, RunStyle)], piece: Range<usize>) -> (r: Vec<(Range<usize>, RunStyle)>)
    ensures
        r@ == clipped(runs@, piece),
{
    let mut out: Vec<(Range<usize>, RunStyle)> = Vec::new();
    let mut i: usize = 0;
    while i < runs.len()
        invariant
            i <= runs@.len(),
            out@ == clipped(runs@.take(i as int), piece),
        decreases runs.len() - i,
    {
        assert(runs@.take(i + 1).drop_last() =~= runs@.take(i as int));
        let r = runs[i].0.start..runs[i].0.end;
        let a = if r.start > piece.start { r.start } else { piece.start };
        let b = if r.end < piece.end { r.end } else { piece.end };
        if a < b {
            out.push(((a - piece.start)..(b - piece.start), runs[i].1));
        }
        i += 1;
    }
    assert(runs@.take(runs@.len() as int) =~= runs@);
    out
}

/// Find hit `m` made relative to a line starting at `line_start`, clamped
/// to the line's `len` bytes.
pub open spec fn wash_of(m: Range<usize>, line_start: usize, len: nat) -> Range<usize> {
    less(m.start, line_start)..min_of(less(m.end, line_start), len as usize)
}

/// Whether find hit `m` gets a wash on the line whose text is `b`, starting
/// at `line_start`: it reaches into the line, is not the current hit (the
/// selection marks that one), and covers whole characters of it.
pub open spec fn washed_hit(m: Range<usize>, current: Option<Range<usize>>, line_start: usize, b: Seq<u8>) -> bool {
    let w = wash_of(m, line_start, b.len());
    &&& m.end > line_start
    &&& m.start < line_start + b.len()
    &&& current != Some(m)
    &&& w.start < w.end
    &&& is_char_boundary(b, w.start as int)
    &&& is_char_boundary(b, w.end as int)
}

/// The washes of a line: one per washed hit, in order.
pub open spec fn washes_of(
    matches: Seq<Range<usize>>,
    current: Option<Range<usize>>,
    line_start: usize,
    b: Seq<u8>,
) -> Seq<Range<usize>>
    decreases matches.len(),
{
    if matches.len() == 0 {
        seq![]
    } else {
        washes_of(matches.drop_last(), current, line_start, b) + if washed_hit(
            matches.last(),
            current,
            line_start,
            b,
        ) {
            seq![wash_of(matches.last(), line_start, b.len())]
        } else {
            seq![]
        }
    }
}

proof fn lemma_washes_unchanged(
    matches: Seq<Range<usize>>,
    current: Option<Range<usize>>,
    line_start: usize,
    b: Seq<u8>,
    i: int,
    j: int,
)
    requires
        0 <= i <= j <= matches.len(),
        forall|k: int| i <= k < j ==> !washed_hit(#[trigger] matches[k], current, line_start, b),
    ensures
        washes_of(matches.take(j), current, line_start, b) == washes_of(matches.take(i), current, line_start, b),
    decreases j - i,
{
    if j > i {
        assert(matches.take(j).drop_last() =~= matches.take(j - 1));
        assert(matches.take(j).last() == matches[j - 1]);
        lemma_washes_unchanged(matches, current, line_start, b, i, j - 1);
    }
}

/// The find hits washed behind a line's text, relative to the line; the
/// hits are in order, as the search finds them.
pub fn line_washes(matches: &[Range<usize>], current: Option<Range<usize>>, line_start: usize, text: &str) -> (r: Vec<
    Range<usize>,
>)
    requires
        forall|i: int, j: int|
            0 <= i <= j < matches@.len() ==> matches@[i].start <= matches@[j].start && matches@[i].end
                <= matches@[j].end,
        line_start + text.spec_bytes().len() <= usize::MAX,
    ensures
        r@ == washes_of(matches@, current, line_start, text.spec_bytes()),
{
    let ghost ms = matches@;
    let ghost b = text.spec_bytes();
    let len = text.as_bytes().len();
    let limit = line_start + len;
    let mut lo: usize = 0;
    let mut hi: usize = matches.len();
    while lo < hi
        invariant
            lo <= hi <= ms.len(),
            ms == matches@,
            forall|i: int, j: int| 0 <= i <= j < ms.len() ==> ms[i].start <= ms[j].start && ms[i].end <= ms[j].end,
            forall|k: int| 0 <= k < lo ==> (#[trigger] ms[k]).end <= line_start,
            forall|k: int| hi <= k < ms.len() ==> (#[trigger] ms[k]).end > line_start,
        decreases hi - lo,
    {
        let mid = lo + (hi - lo) / 2;
        if matches[mid].end <= line_start {
            lo = mid + 1;
        } else {
            hi = mid;
        }
    }
    proof {
        lemma_washes_unchanged(ms, current, line_start, b, 0, lo as int);
        assert(ms.take(0) =~= seq![]);
    }
    let mut out: Vec<Range<usize>> = Vec::new();
    let mut i: usize = lo;
    while i < matches.len() && matches[i].start < limit
        invariant
            lo <= i <= ms.len(),
            ms == matches@,
            b == text.spec_bytes(),
            len == b.len(),
            limit == line_start + len,
            forall|k: int| lo <= k < ms.len() ==> (#[trigger] ms[k]).end > line_start,
            out@ == washes_of(ms.take(i as int), current, line_start, b),
        decreases ms.len() - i,
    {
        let m = &matches[i];
        assert(ms.take(i + 1).drop_last() =~= ms.take(i as int));
        let is_current = match &current {
            Some(c) => c.start == m.start && c.end == m.end,
            None => false,
        };
        let s = m.start.saturating_sub(line_start);
        let e0 = m.end - line_start;
        let e = if e0 < len { e0 } else { len };
        if !is_current && s < e && text.is_char_boundary(s) && text.is_char_boundary(e) {
            out.push(s..e);
        }
        proof {
            if current is Some && !is_current {
                assert(current->0 != ms[i as int]);
            }
        }
        i += 1;
    }
    proof {
        assert forall|k: int| i <= k < ms.len() implies !washed_hit(#[trigger] ms[k], current, line_start, b) by {
            assert(ms[i as int].start <= ms[k].start);
        }
        lemma_washes_unchanged(ms, current, line_start, b, i as int, ms.len() as int);
        assert(ms.take(ms.len() as int) =~= ms);
    }
    out
}

/// Where a line is cut so that runs and washes meet only at edges: the
/// line's ends and every run's and wash's ends.
pub open spec fn cut_set(runs: Seq<(Range<usize>, RunStyle)>, washes: Seq<Range<usize>>, len: usize) -> Set<usize> {
    set![0usize, len] + Set::new(
        |p: usize| exists|i: int| 0 <= i < runs.len() && (runs[i].0.start == p || runs[i].0.end == p),
    ) + Set::new(|p: usize| exists|i: int| 0 <= i < washes.len() && (washes[i].start == p || washes[i].end == p))
}

/// The style of the first run that covers `[a, b)`, if any.
pub open spec fn first_cover(runs: Seq<(Range<usize>, RunStyle)>, a: usize, b: usize) -> Option<RunStyle>
    decreases runs.len(),
{
    if runs.len() == 0 {
        None
    } else if runs[0].0.start <= a && b <= runs[0].0.end {
        Some(runs[0].1)
    } else {
        first_cover(runs.drop_first(), a, b)
    }
}

/// The style of `[a, b)` once washes are laid over the runs: the first
/// covering run's style (none where no run covers it), washed where a wash
/// covers it.
pub open spec fn style_at(runs: Seq<(Range<usize>, RunStyle)>, washes: Seq<Range<usize>>, a: usize, b: usize) -> RunStyle {
    let base = match first_cover(runs, a, b) {
        Some(s) => s,
        None => RunStyle { kind: None, underlined: false, washed: false },
    };
    if exists|i: int| 0 <= i < washes.len() && washes[i].start <= a && b <= washes[i].end {
        RunStyle { washed: true, ..base }
    } else {
        base
    }
}

pub open spec fn increasing(s: Seq<usize>) -> bool {
    forall|i: int, j: int| 0 <= i < j < s.len() ==> s[i] < s[j]
}

/// Adds `p` to the increasing `cuts`, keeping them increasing.
fn add_cut(cuts: &mut Vec<usize>, p: usize)
    requires
        increasing(old(cuts)@),
    ensures
        increasing(final(cuts)@),
        final(cuts)@.to_set() == old(cuts)@.to_set().insert(p),
{
    let mut pos: usize = 0;
    while pos < cuts.len() && cuts[pos] < p
        invariant
            pos <= cuts@.len(),
            increasing(cuts@),
            forall|k: int| 0 <= k < pos ==> cuts@[k] < p,
        decreases cuts.len() - pos,
    {
        pos += 1;
    }
    if pos < cuts.len() && cuts[pos] == p {
        assert(cuts@.to_set() =~= cuts@.to_set().insert(p)) by {
            assert(cuts@.contains(p)) by {
                assert(cuts@[pos as int] == p);
            }
        }
        return;
    }
    let ghost before = cuts@;
    cuts.insert(pos, p);
    assert(cuts@.to_set() =~= before.to_set().insert(p)) by {
        assert forall|x: usize| cuts@.contains(x) implies before.to_set().insert(p).contains(x) by {
            let k = choose|k: int| 0 <= k < cuts@.len() && cuts@[k] == x;
            if k < pos {
                assert(before[k] == x);
            } else if k > pos {
                assert(before[k - 1] == x);
            }
        }
        assert forall|x: usize| before.to_set().insert(p).contains(x) implies cuts@.contains(x) by {
            if x == p {
                assert(cuts@[pos as int] == p);
            } else {
                let k = choose|k: int| 0 <= k < before.len() && before[k] == x;
                if k < pos {
                    assert(cuts@[k] == x);
                } else {
                    assert(cuts@[k + 1] == x);
                }
            }
        }
    }
}

/// The first covering run's style, found by scanning the runs.
fn find_cover(runs: &[(Range<usize>, RunStyle)], a: usize, b: usize) -> (r: Option<RunStyle>)
    ensures
        r == first_cover(runs@, a, b),
{
    let mut i: usize = 0;
    assert(runs@.skip(0) =~= runs@);
    while i < runs.len()
        invariant
            i <= runs@.len(),
            first_cover(runs@, a, b) == first_cover(runs@.skip(i as int), a, b),
        decreases runs.len() - i,
    {
        assert(runs@.skip(i as int)[0] == runs@[i as int]);
        if runs[i].0.start <= a && b <= runs[i].0.end {
            return Some(runs[i].1);
        }
        assert(runs@.skip(i as int).drop_first() =~= runs@.skip(i + 1));
        i += 1;
    }
    None
}

/// Whether some wash covers `[a, b)`.
fn washed_over(washes: &[Range<usize>], a: usize, b: usize) -> (r: bool)
    ensures
        r == exists|i: int| 0 <= i < washes@.len() && washes@[i].start <= a && b <= washes@[i].end,
{
    let mut i: usize = 0;
    while i < washes.len()
        invariant
            i <= washes@.len(),
            forall|k: int| 0 <= k < i ==> !(washes@[k].start <= a && b <= washes@[k].end),
        decreases washes.len() - i,
    {
        if washes[i].start <= a && b <= washes[i].end {
            return true;
        }
        i += 1;
    }
    false
}

/// Lays the washes over the runs of a line `len` bytes long: the line is
/// cut at every edge of either, and each stretch between two cuts takes the
/// style of the first run over it, washed where a wash is over it.
#[verifier::spinoff_prover]
pub fn overlay_washes(runs: &[(Range<usize>, RunStyle)], washes: &[Range<usize>], len: usize) -> (r: Vec<
    (Range<usize>, RunStyle),
>)
    ensures
        forall|i: int|
            0 <= i < r@.len() ==> (#[trigger] r@[i]).0.start < r@[i].0.end && r@[i].1 == style_at(
                runs@,
                washes@,
                r@[i].0.start,
                r@[i].0.end,
            ),
        forall|i: int| 0 <= i < r@.len() - 1 ==> (#[trigger] r@[i]).0.end == r@[i + 1].0.start,
        forall|p: usize|
            cut_set(runs@, washes@, len).contains(p) <==> ((exists|i: int|
                0 <= i < r@.len() && (#[trigger] r@[i]).0.start == p) || (r@.len() > 0 && p == r@.last().0.end)
                || (r@.len() == 0 && p == 0)),
{
    let ghost all = cut_set(runs@, washes@, len);
    let mut cuts: Vec<usize> = Vec::new();
    add_cut(&mut cuts, 0);
    add_cut(&mut cuts, len);
    assert(cuts@.to_set() =~= set![0usize, len]);
    let mut i: usize = 0;
    while i < runs.len()
        invariant
            i <= runs@.len(),
            increasing(cuts@),
            cuts@.to_set() =~= set![0usize, len] + Set::new(
                |p: usize| exists|k: int| 0 <= k < i && (runs@[k].0.start == p || runs@[k].0.end == p),
            ),
        decreases runs.len() - i,
    {
        let ghost before = cuts@.to_set();
        add_cut(&mut cuts, runs[i].0.start);
        add_cut(&mut cuts, runs[i].0.end);
        assert forall|p: usize|
            #![trigger cuts@.to_set().contains(p)]
            cuts@.to_set().contains(p) == (set![0usize, len] + Set::new(
                |p: usize| exists|k: int| 0 <= k < i + 1 && (runs@[k].0.start == p || runs@[k].0.end == p),
            )).contains(p) by {
            if before.contains(p) && p != runs@[i as int].0.start && p != runs@[i as int].0.end && p != 0 && p != len {
                let k = choose|k: int| 0 <= k < i && (runs@[k].0.start == p || runs@[k].0.end == p);
            }
        }
        i += 1;
    }
    let ghost with_runs = cuts@.to_set();
    let mut i: usize = 0;
    while i < washes.len()
        invariant
            i <= washes@.len(),
            increasing(cuts@),
            with_runs =~= set![0usize, len] + Set::new(
                |p: usize| exists|k: int| 0 <= k < runs@.len() && (runs@[k].0.start == p || runs@[k].0.end == p),
            ),
            cuts@.to_set() =~= with_runs + Set::new(
                |p: usize| exists|k: int| 0 <= k < i && (washes@[k].start == p || washes@[k].end == p),
            ),
        decreases washes.len() - i,
    {
        let ghost before = cuts@.to_set();
        add_cut(&mut cuts, washes[i].start);
        add_cut(&mut cuts, washes[i].end);
        assert forall|p: usize|
            #![trigger cuts@.to_set().contains(p)]
            cuts@.to_set().contains(p) == (with_runs + Set::new(
                |p: usize| exists|k: int| 0 <= k < i + 1 && (washes@[k].start == p || washes@[k].end == p),
            )).contains(p) by {
            if before.contains(p) && p != washes@[i as int].start && p != washes@[i as int].end && !with_runs.contains(p) {
                let k = choose|k: int| 0 <= k < i && (washes@[k].start == p || washes@[k].end == p);
            }
        }
        i += 1;
    }
    assert(cuts@.to_set() =~= all);
    assert(cuts@.len() > 0) by {
        assert(all.contains(0usize));
        assert(cuts@.to_set().contains(0usize));
    }
    let mut out: Vec<(Range<usize>, RunStyle)> = Vec::new();
    let mut k: usize = 0;
    while k < cuts.len() - 1
        invariant
            increasing(cuts@),
            cuts@.to_set() == all,
            cuts@.len() > 0,
            k + 1 <= cuts@.len(),
            out@.len() == k,
            forall|m: int|
                0 <= m < k ==> (#[trigger] out@[m]).0 == (cuts@[m]..cuts@[m + 1]) && out@[m].1 == style_at(
                    runs@,
                    washes@,
                    cuts@[m],
                    cuts@[m + 1],
                ),
        decreases cuts.len() - k,
    {
        let a = cuts[k];
        let b = cuts[k + 1];
        let base = match find_cover(runs, a, b) {
            Some(s) => s,
            None => RunStyle { kind: None, underlined: false, washed: false },
        };
        let style = if washed_over(washes, a, b) {
            RunStyle { washed: true, ..base }
        } else {
            base
        };
        out.push((a..b, style));
        k += 1;
    }
    proof {
        assert forall|p: usize|
            all.contains(p) <==> ((exists|i: int| 0 <= i < out@.len() && (#[trigger] out@[i]).0.start == p) || (
            out@.len() > 0 && p == out@.last().0.end) || (out@.len() == 0 && p == 0)) by {
            if all.contains(p) {
                assert(cuts@.contains(p));
                let m = choose|m: int| 0 <= m < cuts@.len() && cuts@[m] == p;
                if m < out@.len() {
                    assert(out@[m].0.start == p);
                } else if out@.len() == 0 {
                    assert(cuts@.contains(0usize)) by {
                        assert(all.contains(0usize));
                    }
                    let z = choose|z: int| 0 <= z < cuts@.len() && cuts@[z] == 0usize;
                    assert(z == 0 && m == 0);
                }
            }
            if exists|i: int| 0 <= i < out@.len() && (#[trigger] out@[i]).0.start == p {
                let i = choose|i: int| 0 <= i < out@.len() && (#[trigger] out@[i]).0.start == p;
                assert(cuts@[i] == p);
                assert(cuts@.contains(p));
            }
            if out@.len() > 0 && p == out@.last().0.end {
                assert(cuts@[out@.len() as int] == p);
                assert(cuts@.contains(p));
            }
            if out@.len() == 0 && p == 0 {
                assert(all.contains(0usize));
            }
        }
    }
    out
}

/// The tokens lying wholly on a line of `len` bytes starting at
/// `line_start`, each with its range relative to the line.
pub open spec fn tokens_on(tokens: Seq<Token>, line_start: usize, len: usize) -> Seq<(Range<usize>, Token)>
    decreases tokens.len(),
{
    if tokens.len() == 0 {
        seq![]
    } else {
        let t = tokens.last();
        tokens_on(tokens.drop_last(), line_start, len) + if t.range.start >= line_start && t.range.end
            <= line_start + len {
            seq![((t.range.start - line_start) as usize..(t.range.end - line_start) as usize, t)]
        } else {
            seq![]
        }
    }
}

pub fn line_tokens(tokens: &[Token], line_start: usize, len: usize) -> (r: Vec<(Range<usize>, Token)>)
    requires
        line_start + len <= usize::MAX,
        forall|k: int| 0 <= k < tokens@.len() ==> (#[trigger] tokens@[k]).range.start <= tokens@[k].range.end,
    ensures
        r@ == tokens_on(tokens@, line_start, len),
{
    let mut out: Vec<(Range<usize>, Token)> = Vec::new();
    let mut i: usize = 0;
    while i < tokens.len()
        invariant
            i <= tokens@.len(),
            line_start + len <= usize::MAX,
            forall|k: int| 0 <= k < tokens@.len() ==> (#[trigger] tokens@[k]).range.start <= tokens@[k].range.end,
            out@ == tokens_on(tokens@.take(i as int), line_start, len),
        decreases tokens.len() - i,
    {
        assert(tokens@.take(i + 1).drop_last() =~= tokens@.take(i as int));
        let t = &tokens[i];
        if t.range.start >= line_start && t.range.end <= line_start + len {
            out.push(((t.range.start - line_start)..(t.range.end - line_start), t.clone()));
        }
        i += 1;
    }
    assert(tokens@.take(tokens@.len() as int) =~= tokens@);
    out
}

/// The line's tokens lying wholly in `piece`.
pub open spec fn in_piece(tokens: Seq<(Range<usize>, Token)>, piece: Range<usize>) -> Seq<(Range<usize>, Token)>
    decreases tokens.len(),
{
    if tokens.len() == 0 {
        seq![]
    } else {
        let e = tokens.last();
        in_piece(tokens.drop_last(), piece) + if e.0.start >= piece.start && e.0.end <= piece.end {
            seq![e]
        } else {
            seq![]
        }
    }
}

/// What one piece of a line answers clicks with: its tokens, and their
/// ranges relative to the piece.
#[verifier::spinoff_prover]
pub fn piece_tokens(tokens: &[(Range<usize>, Token)], piece: Range<usize>) -> (r: (Vec<Token>, Vec<Range<usize>>))
    requires
        forall|k: int| 0 <= k < tokens@.len() ==> (#[trigger] tokens@[k]).0.start <= tokens@[k].0.end,
    ensures
        r.0@.len() == r.1@.len(),
        r.0@.len() == in_piece(tokens@, piece).len(),
        forall|k: int|
            0 <= k < r.0@.len() ==> (#[trigger] r.0@[k]) == in_piece(tokens@, piece)[k].1 && r.1@[k] == (
            (in_piece(tokens@, piece)[k].0.start - piece.start) as usize..(in_piece(tokens@, piece)[k].0.end
                - piece.start) as usize),
{
    let mut ts: Vec<Token> = Vec::new();
    let mut rs: Vec<Range<usize>> = Vec::new();
    let mut i: usize = 0;
    while i < tokens.len()
        invariant
            i <= tokens@.len(),
            ts@.len() == rs@.len(),
            forall|k: int| 0 <= k < tokens@.len() ==> (#[trigger] tokens@[k]).0.start <= tokens@[k].0.end,
            ts@.len() == in_piece(tokens@.take(i as int), piece).len(),
            forall|k: int|
                0 <= k < ts@.len() ==> (#[trigger] ts@[k]) == in_piece(tokens@.take(i as int), piece)[k].1 && rs@[k]
                    == ((in_piece(tokens@.take(i as int), piece)[k].0.start - piece.start) as usize..(in_piece(
                    tokens@.take(i as int),
                    piece,
                )[k].0.end - piece.start) as usize),
        decreases tokens.len() - i,
    {
        assert(tokens@.take(i + 1).drop_last() =~= tokens@.take(i as int));
        let ghost before = in_piece(tokens@.take(i as int), piece);
        let e = &tokens[i];
        if e.0.start >= piece.start && e.0.end <= piece.end {
            assert(in_piece(tokens@.take(i + 1), piece) == before.push(tokens@[i as int]));
            ts.push(e.1.clone());
            rs.push((e.0.start - piece.start)..(e.0.end - piece.start));
        } else {
            assert(in_piece(tokens@.take(i + 1), piece) =~= before);
        }
        i += 1;
    }
    assert(tokens@.take(tokens@.len() as int) =~= tokens@);
    (ts, rs)
}

} // verus!
