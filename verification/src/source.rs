//! The source pane's find bar and selection: the matches of a query in a
//! document, which match is current as the user steps through them, and a
//! selection's byte range.

use vstd::prelude::*;
use vstd::string::StringSliceAdditionalSpecFns;
use vstd::utf8::is_char_boundary;
use std::ops::Range;
use vstd::string::StringExecFns;
use crate::text::{text_eq, texts};
use crate::model::{append_decimal, decimal, SemanticLocation, SemanticSkippedImport, SemanticSymbol};
use vstd::string::StrSliceExecFns;
use vstd::utf8::{decode_utf8, encode_utf8};
use crate::msbuild::lex::{ascii_edge, line_starts, line_starts_of, slice_text, text_fits};
use crate::msbuild::{Navigation, Preference, Token, TokenKind};
use crate::msbuild::tokens::Span;

verus! {

/// A selection in one tab's text, as byte offsets. `anchor` is where the
/// drag started, `head` where it is now; either may be the larger.
#[derive(Clone, PartialEq, Debug)]
pub struct Selection {
    pub tab: String,
    pub anchor: usize,
    pub head: usize,
}

impl Selection {
    pub fn range(&self) -> (r: Range<usize>)
        ensures
            r.start == (if self.anchor <= self.head { self.anchor } else { self.head }),
            r.end == (if self.anchor <= self.head { self.head } else { self.anchor }),
    {
        if self.anchor <= self.head {
            self.anchor..self.head
        } else {
            self.head..self.anchor
        }
    }

    pub fn is_empty(&self) -> (r: bool)
        ensures
            r == (self.anchor == self.head),
    {
        self.anchor == self.head
    }
}

/// No search shows more matches than this.
pub const MATCH_LIMIT: usize = 20_000;

/// `b` with an ASCII capital lowered.
pub open spec fn fold_byte(b: u8) -> u8 {
    if 65 <= b <= 90 {
        (b + 32) as u8
    } else {
        b
    }
}

/// Whether `a` and `b` are equal but for the case of ASCII letters.
pub open spec fn equal_folded(a: Seq<u8>, b: Seq<u8>) -> bool {
    a.len() == b.len() && forall|k: int| 0 <= k < a.len() ==> fold_byte(#[trigger] a[k]) == fold_byte(b[k])
}

/// Whether `q` is found in `t` at `i`: ignoring ASCII case and only between
/// characters when `fold` is set, byte for byte otherwise.
pub open spec fn found_at(t: Seq<u8>, q: Seq<u8>, i: int, fold: bool) -> bool {
    let w = t.subrange(i, i + q.len());
    if fold {
        equal_folded(w, q) && is_char_boundary(t, i) && is_char_boundary(t, i + q.len())
    } else {
        w == q
    }
}

/// The matches of `q` in `t` from `i` on, left to right and not
/// overlapping, at most `budget` of them.
pub open spec fn matches_from(t: Seq<u8>, q: Seq<u8>, i: int, budget: nat, fold: bool) -> Seq<(int, int)>
    decreases t.len() - i,
{
    if budget == 0 || q.len() == 0 || i < 0 || i + q.len() > t.len() {
        seq![]
    } else if found_at(t, q, i, fold) {
        seq![(i, i + q.len())] + matches_from(t, q, i + q.len(), (budget - 1) as nat, fold)
    } else {
        matches_from(t, q, i + 1, budget, fold)
    }
}

/// The find bar's matches of `query` in `text`, as byte ranges: an ASCII
/// query matches ignoring case, any other exactly.
pub open spec fn matches_of(text: &str, query: &str) -> Seq<(int, int)> {
    if query@.len() == 0 {
        seq![]
    } else {
        matches_from(text.spec_bytes(), query.spec_bytes(), 0, MATCH_LIMIT as nat, vstd::string::is_ascii(query))
    }
}

pub open spec fn spans(r: Seq<Range<usize>>) -> Seq<(int, int)> {
    r.map_values(|x: Range<usize>| (x.start as int, x.end as int))
}

/// Whether `q` is found in `t` at `i`.
fn found(text: &str, t: &[u8], q: &[u8], i: usize, fold: bool) -> (r: bool)
    requires
        t@ == text.spec_bytes(),
        i + q@.len() <= t@.len(),
    ensures
        r == found_at(t@, q@, i as int, fold),
{
    let n = t.len();
    let mut k: usize = 0;
    while k < q.len()
        invariant
            n == t@.len(),
            i + q@.len() <= t@.len(),
            k <= q@.len(),
            forall|m: int| #![trigger q@[m]]
                0 <= m < k ==> (if fold {
                    fold_byte(t@[i + m]) == fold_byte(q@[m])
                } else {
                    t@[i + m] == q@[m]
                }),
        decreases q.len() - k,
    {
        let a = t[i + k];
        let b = q[k];
        let same = if fold {
            let la = if 65 <= a && a <= 90 {
                a + 32
            } else {
                a
            };
            let lb = if 65 <= b && b <= 90 {
                b + 32
            } else {
                b
            };
            la == lb
        } else {
            a == b
        };
        if !same {
            assert(t@.subrange(i as int, i + q@.len())[k as int] == t@[i + k]);
            return false;
        }
        k += 1;
    }
    let ghost w = t@.subrange(i as int, i + q@.len());
    if fold {
        assert forall|m: int| 0 <= m < w.len() implies fold_byte(#[trigger] w[m]) == fold_byte(q@[m]) by {
            assert(w[m] == t@[i + m]);
        }
        text.is_char_boundary(i) && text.is_char_boundary(i + q.len())
    } else {
        assert(w =~= q@);
        true
    }
}

/// The find bar's matches of `query` in `text`.
pub fn find_matches(text: &str, query: &str) -> (r: Vec<Range<usize>>)
    ensures
        spans(r@) == matches_of(text, query),
{
    let mut out: Vec<Range<usize>> = Vec::new();
    if query.is_empty() {
        assert(spans(out@) =~= seq![]);
        return out;
    }
    let fold = query.is_ascii();
    let t = text.as_bytes();
    let q = query.as_bytes();
    assert(q@.len() > 0) by {
        vstd::utf8::encode_utf8_decode_utf8(query@);
    }
    let ghost full = matches_of(text, query);
    let mut i: usize = 0;
    let n = t.len();
    while q.len() <= n && i <= n - q.len() && out.len() < MATCH_LIMIT
        invariant
            n == t@.len(),
            t@ == text.spec_bytes(),
            q@ == query.spec_bytes(),
            q@.len() > 0,
            query@.len() > 0,
            fold == vstd::string::is_ascii(query),
            i <= t@.len(),
            out@.len() <= MATCH_LIMIT,
            full == matches_of(text, query),
            full == spans(out@) + matches_from(t@, q@, i as int, (MATCH_LIMIT - out@.len()) as nat, fold),
        decreases t.len() - i,
    {
        let ghost before = out@;
        if found(text, t, q, i, fold) {
            out.push(i..i + q.len());
            assert(spans(out@) =~= spans(before) + seq![(i as int, i + q@.len())]);
            i += q.len();
        } else {
            i += 1;
        }
    }
    assert(matches_from(t@, q@, i as int, (MATCH_LIMIT - out@.len()) as nat, fold) =~= seq![]);
    out
}

/// The match to make current after a search: the first starting at or
/// after `anchor`, or else the first; none when there are none.
pub open spec fn current_after(starts: Seq<int>, anchor: int) -> Option<int> {
    if starts.len() == 0 {
        None
    } else if exists|i: int| 0 <= i < starts.len() && starts[i] >= anchor {
        Some(choose|i: int| 0 <= i < starts.len() && starts[i] >= anchor && forall|j: int| 0 <= j < i ==> starts[j] < anchor)
    } else {
        Some(0)
    }
}

pub fn first_match_from(matches: &Vec<Range<usize>>, anchor: usize) -> (r: Option<usize>)
    ensures
        r matches Some(i) ==> current_after(spans(matches@).map_values(|s: (int, int)| s.0), anchor as int) == Some(
            i as int,
        ),
        r is None ==> current_after(spans(matches@).map_values(|s: (int, int)| s.0), anchor as int) is None,
{
    let ghost starts = spans(matches@).map_values(|s: (int, int)| s.0);
    if matches.len() == 0 {
        return None;
    }
    let mut i: usize = 0;
    while i < matches.len()
        invariant
            starts == spans(matches@).map_values(|s: (int, int)| s.0),
            starts.len() == matches@.len(),
            i <= matches@.len(),
            forall|j: int| 0 <= j < i ==> starts[j] < anchor,
        decreases matches.len() - i,
    {
        assert(starts[i as int] == matches@[i as int].start);
        if matches[i].start >= anchor {
            proof {
                let k = choose|k: int| 0 <= k < starts.len() && starts[k] >= anchor && forall|j: int| 0 <= j < k ==> starts[j] < anchor;
                if k < i {
                } else if k > i {
                    assert(starts[i as int] < anchor);
                }
            }
            return Some(i);
        }
        i += 1;
    }
    Some(0)
}

/// The match after stepping `delta` from `current` among `n`, wrapping
/// around; from no current match, any step lands on the first.
pub open spec fn stepped(current: Option<usize>, delta: int, n: int) -> Option<int> {
    if n == 0 {
        None
    } else {
        let c = match current {
            Some(c) => c as int,
            None => -delta,
        };
        Some((c + delta) % n)
    }
}

/// With no current match, any step lands on the first match.
pub proof fn lemma_first_step_lands_on_first(delta: int, n: int)
    requires
        n > 0,
    ensures
        stepped(None, delta, n) == Some(0int),
{
    vstd::arithmetic::div_mod::lemma_small_mod(0, n as nat);
}

/// Stepping back undoes a step.
pub proof fn lemma_step_back_undoes_step(c: usize, delta: int, n: usize)
    requires
        c < n,
    ensures
        stepped(Some(c), delta, n as int) matches Some(m) && stepped(Some(m as usize), -delta, n as int) == Some(
            c as int,
        ),
{
    let n = n as int;
    let x = c + delta;
    let m = x % n;
    let q = x / n;
    vstd::arithmetic::div_mod::lemma_fundamental_div_mod(x, n);
    assert(0 <= m < n);
    assert((m as usize) as int == m);
    assert(m - delta == n * (-q) + c) by (nonlinear_arith)
        requires
            x == n * q + m,
            x == c + delta,
    ;
    vstd::arithmetic::div_mod::lemma_mod_multiples_vanish(-q, c as int, n);
    vstd::arithmetic::div_mod::lemma_small_mod(c as nat, n as nat);
}

pub fn step_match(current: Option<usize>, delta: isize, n: usize) -> (r: Option<usize>)
    requires
        2 * n <= isize::MAX,
        current matches Some(c) ==> c < n,
        current matches Some(c) ==> c + delta <= isize::MAX,
        current is None ==> delta != isize::MIN,
    ensures
        r matches Some(i) ==> stepped(current, delta as int, n as int) == Some(i as int),
        r is None ==> stepped(current, delta as int, n as int) is None,
{
    if n == 0 {
        return None;
    }
    let m = n as isize;
    let c: isize = match current {
        Some(c) => c as isize,
        None => -delta,
    };
    let x = c + delta;
    let r = x % m;
    assert(-m < r < m);
    assert(x >= 0 ==> r as int == (x as int) % (m as int));
    assert(x < 0 ==> r <= 0);
    assert(x < 0 ==> r as int == -((-(x as int)) % (m as int)));
    let shifted = r + m;
    let wrapped = shifted % m;
    proof {
        let xi = x as int;
        let mi = m as int;
        if x < 0 {
            let q = (-xi) / mi;
            vstd::arithmetic::div_mod::lemma_fundamental_div_mod(-xi, mi);
            assert(mi * (q + 1) == mi * q + mi) by (nonlinear_arith);
            assert(shifted as int == mi * (q + 1) + xi);
            vstd::arithmetic::div_mod::lemma_mod_multiples_vanish(q + 1, xi, mi);
        } else {
            assert((shifted as int) % mi == xi % mi) by (nonlinear_arith)
                requires
                    mi > 0,
                    xi >= 0,
                    r as int == xi % mi,
                    shifted as int == r as int + mi,
            {
            }
        }
    }
    Some(wrapped as usize)
}

/// One step of the find bar (Enter or ⌘G forward, ⇧⌘G back). With no
/// matches nothing changes. Otherwise the current match moves `delta`
/// along, wrapping around, and, while the find bar's tab is still open, the
/// selection becomes that match: anchored at its start, its head at its end.
pub fn find_step(
    current: &mut Option<usize>,
    selection: &mut Option<Selection>,
    tab: &str,
    tab_open: bool,
    matches: &[Range<usize>],
    delta: isize,
)
    requires
        2 * matches@.len() <= isize::MAX,
        *old(current) matches Some(c) ==> c < matches@.len() && c + delta <= isize::MAX,
        *old(current) is None ==> delta != isize::MIN,
    ensures
        matches@.len() == 0 ==> *final(current) == *old(current) && *final(selection) == *old(selection),
        matches@.len() > 0 ==> (*final(current) matches Some(i) && stepped(
            *old(current),
            delta as int,
            matches@.len() as int,
        ) == Some(i as int) && i < matches@.len() && (if tab_open {
            *final(selection) matches Some(s) && s.tab@ == tab@ && s.anchor == matches@[i as int].start
                && s.head == matches@[i as int].end
        } else {
            *final(selection) == *old(selection)
        })),
{
    let n = matches.len();
    if n == 0 {
        return;
    }
    let stepped_to = step_match(*current, delta, n);
    match stepped_to {
        Some(i) => {
            proof {
                vstd::arithmetic::div_mod::lemma_mod_bound(
                    (match *old(current) {
                        Some(c) => c as int,
                        None => -delta,
                    }) + delta,
                    n as int,
                );
            }
            *current = Some(i);
            if tab_open {
                *selection = Some(Selection { tab: tab.to_string(), anchor: matches[i].start, head: matches[i].end });
            }
        },
        None => {},
    }
}

/// Where following a navigation target goes.
#[derive(Debug, PartialEq)]
pub enum Destination {
    /// Open an embedded file at a 1-based line.
    Open { path: String, line: usize },
    /// Select a node of the build tree.
    Reveal(String),
    /// Nowhere; tell the user why.
    Message(String),
}

pub ghost enum Goal {
    Open { path: Seq<char>, line: int },
    Reveal(Seq<char>),
    Message(Seq<char>),
}

pub open spec fn goal_of(d: Destination) -> Goal {
    match d {
        Destination::Open { path, line } => Goal::Open { path: path@, line: line as int },
        Destination::Reveal(id) => Goal::Reveal(id@),
        Destination::Message(m) => Goal::Message(m@),
    }
}

/// An available file opens at its line (the first when none is given); a
/// node is revealed; anything else is explained.
pub open spec fn destination_of(l: SemanticLocation) -> Goal {
    match l.path {
        Some(p) if l.available => Goal::Open {
            path: p@,
            line: match l.line {
                Some(n) => n as int,
                None => 1,
            },
        },
        _ => match l.node_id {
            Some(id) => Goal::Reveal(id@),
            None => match l.path {
                Some(p) => Goal::Message("'"@ + p@ + "' is not embedded in this binlog."@),
                None => Goal::Message("This destination is not available."@),
            },
        },
    }
}

pub fn destination(location: &SemanticLocation) -> (r: Destination)
    ensures
        goal_of(r) == destination_of(*location),
{
    if location.available {
        if let Some(p) = &location.path {
            let line = match location.line {
                Some(n) => n,
                None => 1,
            };
            return Destination::Open { path: p.clone(), line };
        }
    }
    if let Some(id) = &location.node_id {
        return Destination::Reveal(id.clone());
    }
    match &location.path {
        Some(p) => {
            let mut m = String::from_str("'");
            m.append(p.as_str());
            m.append("' is not embedded in this binlog.");
            Destination::Message(m)
        },
        None => Destination::Message(String::from_str("This destination is not available.")),
    }
}

/// The row to show for a 1-based line, kept within the document; none for
/// no line or line 0.
pub open spec fn goto_row_of(line: Option<usize>, line_count: int) -> Option<int> {
    match line {
        Some(l) if l >= 1 => {
            let last = if line_count > 0 {
                line_count - 1
            } else {
                0
            };
            Some(if l - 1 < last {
                l - 1
            } else {
                last
            })
        },
        _ => None,
    }
}

pub fn goto_row(line: Option<usize>, line_count: usize) -> (r: Option<usize>)
    ensures
        r matches Some(x) ==> goto_row_of(line, line_count as int) == Some(x as int),
        r is None ==> goto_row_of(line, line_count as int) is None,
{
    match line {
        Some(l) => if l >= 1 {
            let last = if line_count > 0 {
                line_count - 1
            } else {
                0
            };
            Some(
                if l - 1 < last {
                    l - 1
                } else {
                    last
                },
            )
        } else {
            None
        },
        None => None,
    }
}

/// The tab strip's selection after tab `ix` closes, `tabs_left` tabs
/// remaining: 0 is the Details tab and `i + 1` the source tab `i`. Closing
/// the selected tab selects the one that took its place, or the new last;
/// a selection after it moves down by one.
pub open spec fn selected_after_close_of(selected: int, ix: int, tabs_left: int) -> int {
    if selected == ix + 1 {
        if ix < tabs_left {
            ix + 1
        } else {
            tabs_left
        }
    } else if selected > ix + 1 {
        selected - 1
    } else {
        selected
    }
}

pub fn selected_after_close(selected: usize, ix: usize, tabs_left: usize) -> (r: usize)
    requires
        ix < usize::MAX,
    ensures
        r == selected_after_close_of(selected as int, ix as int, tabs_left as int),
{
    if selected == ix + 1 {
        if ix < tabs_left {
            ix + 1
        } else {
            tabs_left
        }
    } else if selected > ix + 1 {
        selected - 1
    } else {
        selected
    }
}

/// What a document tab shows: an embedded file, or a preprocessed project.
#[derive(Clone, Copy, PartialEq, Eq, Debug, Structural)]
pub enum TabKind {
    File,
    Preprocessed,
}

/// A tab's id: its kind and its path, so a file opens in one tab only.
pub fn tab_id(kind: TabKind, path: &str) -> (r: String)
    ensures
        r@ == (if kind == TabKind::File {
            "file:"@
        } else {
            "pre:"@
        }) + path@,
{
    let mut id = if kind == TabKind::File {
        String::from_str("file:")
    } else {
        String::from_str("pre:")
    };
    id.append(path);
    id
}

/// The byte spans of a text's lines: from each line start to the line
/// break that ends it, the last to the end of the text.
pub open spec fn line_spans(b: Seq<u8>) -> Seq<(int, int)> {
    let starts = line_starts_of(b);
    Seq::new(
        starts.len(),
        |i: int|
            (
                starts[i] as int,
                if i + 1 < starts.len() {
                    starts[i + 1] - 1
                } else {
                    b.len() as int
                },
            ),
    )
}

pub fn line_ranges(text: &str) -> (r: Vec<Range<usize>>)
    requires
        text_fits(text.spec_bytes().len() as int),
    ensures
        spans(r@) == line_spans(text.spec_bytes()),
{
    let starts = line_starts(text);
    let n = text.as_bytes().len();
    let ghost b = text.spec_bytes();
    proof {
        crate::msbuild::tokens::lemma_line_starts_increasing(b);
        lemma_line_starts_shape(b);
    }
    let mut out: Vec<Range<usize>> = Vec::new();
    let mut i: usize = 0;
    while i < starts.len()
        invariant
            starts@ == line_starts_of(b),
            n == b.len(),
            i <= starts@.len(),
            starts@.len() > 0,
            starts@[0] == 0,
            forall|k: int| 0 < k < starts@.len() ==> 0 < #[trigger] starts@[k] <= n,
            crate::msbuild::lex::strictly_increasing(starts@),
            spans(out@) == line_spans(b).take(i as int),
        decreases starts.len() - i,
    {
        let end = if i + 1 < starts.len() {
            starts[i + 1] - 1
        } else {
            n
        };
        let ghost before = out@;
        out.push(starts[i]..end);
        assert(out@ == before.push(starts@[i as int]..end));
        assert(line_spans(b)[i as int] == (starts@[i as int] as int, end as int));
        assert(spans(out@) =~= line_spans(b).take(i + 1)) by {
            assert(spans(before).len() == i);
            assert(out@.len() == i + 1);
            assert forall|k: int| 0 <= k < i + 1 implies #[trigger] spans(out@)[k] == line_spans(b).take(i + 1)[k] by {
                assert(out@[k] == if k < i { before[k] } else { starts@[i as int]..end });
                if k < i {
                    assert(spans(before)[k] == line_spans(b).take(i as int)[k]);
                }
            }
        }
        i += 1;
    }
    assert(line_spans(b).take(starts@.len() as int) =~= line_spans(b));
    out
}

/// Where line starts sit: the first at 0, the others just after a line
/// break, so never past the end.
proof fn lemma_line_starts_shape(b: Seq<u8>)
    requires
        b.len() <= usize::MAX,
    ensures
        line_starts_of(b).len() > 0,
        line_starts_of(b)[0] == 0,
        forall|k: int| 0 < k < line_starts_of(b).len() ==> 0 < #[trigger] line_starts_of(b)[k] <= b.len() && b[
            line_starts_of(b)[k] - 1] == 0x0a,
    decreases b.len(),
{
    if b.len() > 0 {
        lemma_line_starts_shape(b.drop_last());
        let s = line_starts_of(b);
        let t = line_starts_of(b.drop_last());
        assert forall|k: int| 0 < k < s.len() implies 0 < #[trigger] s[k] <= b.len() && b[s[k] - 1] == 0x0a by {
            if b.last() == 0x0a {
                assert(s == t.push(b.len() as usize));
            } else {
                assert(s == t);
            }
            if k < t.len() {
                assert(s[k] == t[k]);
                assert(b.drop_last()[t[k] - 1] == b[t[k] - 1]);
            }
        }
    }
}

/// Where the line in `[start, end)` ends once its trailing carriage
/// returns are dropped.
pub open spec fn end_before_returns(b: Seq<u8>, start: int, end: int) -> int
    decreases end - start,
{
    if start < end && b[end - 1] == 0x0d {
        end_before_returns(b, start, end - 1)
    } else {
        end
    }
}

/// The text of the line in `range`, without trailing carriage returns.
pub fn line_text(text: &str, range: Range<usize>) -> (r: String)
    requires
        range.start <= range.end <= text.spec_bytes().len(),
        ascii_edge(text.spec_bytes(), range.start as int),
        ascii_edge(text.spec_bytes(), range.end as int),
    ensures
        encode_utf8(r@) == text.spec_bytes().subrange(
            range.start as int,
            end_before_returns(text.spec_bytes(), range.start as int, range.end as int),
        ),
{
    let b = text.as_bytes();
    let mut end = range.end;
    while end > range.start && b[end - 1] == 0x0d
        invariant
            b@ == text.spec_bytes(),
            range.start <= end <= range.end <= b@.len(),
            ascii_edge(b@, end as int),
            end_before_returns(b@, range.start as int, end as int) == end_before_returns(
                b@,
                range.start as int,
                range.end as int,
            ),
        decreases end,
    {
        end -= 1;
    }
    slice_text(text, range.start, end)
}

/// The last line of greatest width: where the widest row is.
pub open spec fn widest_of(widths: Seq<int>) -> int
    decreases widths.len(),
{
    if widths.len() == 0 {
        0
    } else {
        let k = widest_of(widths.drop_last());
        if widths.len() == 1 || widths.last() >= widths[k] {
            widths.len() - 1
        } else {
            k
        }
    }
}

proof fn lemma_widest_in_range(widths: Seq<int>)
    ensures
        widths.len() > 0 ==> 0 <= widest_of(widths) < widths.len(),
    decreases widths.len(),
{
    if widths.len() > 0 {
        lemma_widest_in_range(widths.drop_last());
    }
}

/// How many characters each line shows once its trailing carriage
/// returns are dropped.
pub open spec fn line_widths(b: Seq<u8>, lines: Seq<Range<usize>>) -> Seq<int> {
    Seq::new(
        lines.len(),
        |i: int|
            decode_utf8(
                b.subrange(
                    lines[i].start as int,
                    end_before_returns(b, lines[i].start as int, lines[i].end as int),
                ),
            ).len() as int,
    )
}

/// The line of `text` whose characters, trailing carriage returns dropped,
/// are the most; the last of them on a tie, and 0 when there is no line.
pub fn widest_line(text: &str, lines: &Vec<Range<usize>>) -> (r: usize)
    requires
        forall|i: int|
            0 <= i < lines@.len() ==> (#[trigger] lines@[i]).start <= lines@[i].end
                <= text.spec_bytes().len() && ascii_edge(text.spec_bytes(), lines@[i].start as int)
                && ascii_edge(text.spec_bytes(), lines@[i].end as int),
    ensures
        r == widest_of(line_widths(text.spec_bytes(), lines@)),
{
    let ghost b = text.spec_bytes();
    let ghost all = line_widths(b, lines@);
    let mut best: usize = 0;
    let mut best_width: usize = 0;
    let mut i: usize = 0;
    while i < lines.len()
        invariant
            b == text.spec_bytes(),
            all == line_widths(b, lines@),
            i <= lines@.len(),
            forall|i: int|
                0 <= i < lines@.len() ==> (#[trigger] lines@[i]).start <= lines@[i].end <= b.len()
                    && ascii_edge(b, lines@[i].start as int) && ascii_edge(b, lines@[i].end as int),
            best == widest_of(all.take(i as int)),
            i > 0 ==> best < i && best_width == all[best as int],
        decreases lines.len() - i,
    {
        let line = line_text(text, lines[i].start..lines[i].end);
        let width = line.as_str().unicode_len();
        proof {
            vstd::utf8::encode_utf8_decode_utf8(line@);
            lemma_widest_in_range(all.take(i as int));
            assert(all.take(i + 1).drop_last() =~= all.take(i as int));
        }
        if i == 0 || width >= best_width {
            best = i;
            best_width = width;
        }
        i += 1;
    }
    assert(all.take(lines@.len() as int) =~= all);
    best
}

/// What a command-click on a token sets off.
pub enum Activation {
    /// Follow the token's import: the index already knows where it leads.
    FollowImport,
    /// Ask the session what the symbol is, then go where the preference
    /// points.
    Resolve { kind: String, preference: Preference },
    /// Nothing: a symbol with no evaluation to ask about.
    Nothing,
}

/// The decision behind a command-click: imports are followed at once,
/// symbols are resolved against the file's evaluation (a target definition
/// goes to where the target ran), and without an evaluation nothing happens.
pub fn activation(token: &Token, has_evaluation: bool) -> (r: Activation)
    ensures
        match token.kind {
            TokenKind::ImportPath | TokenKind::SdkReference => r is FollowImport,
            _ => if !has_evaluation {
                r is Nothing
            } else {
                r matches Activation::Resolve { kind, preference } && kind@ == (match token.kind {
                    TokenKind::Property => "property"@,
                    TokenKind::Item => "item"@,
                    _ => "target"@,
                }) && preference == (if token.kind == TokenKind::TargetDefinition {
                    Preference::Executions
                } else {
                    Preference::Definitions
                })
            },
        },
{
    match token.symbol_kind() {
        None => Activation::FollowImport,
        Some(kind) => {
            if !has_evaluation {
                Activation::Nothing
            } else {
                let preference = if token.kind == TokenKind::TargetDefinition {
                    Preference::Executions
                } else {
                    Preference::Definitions
                };
                Activation::Resolve { kind: kind.to_string(), preference }
            }
        },
    }
}

/// What the quick-info popup shows.
pub enum QuickBody {
    /// The resolved symbol.
    Symbol(SemanticSymbol),
    /// Where an import leads.
    Imports(Vec<SemanticLocation>),
    /// The imports on that line that were skipped.
    SkippedImports(Vec<SemanticSkippedImport>),
    /// Why there is nothing to show.
    Unavailable(String),
}

/// The popup for an import token: where it leads; failing that, the imports
/// the build skipped on its line; failing that, why there is nothing.
pub fn import_quick_body(navigation: Navigation, skipped: Vec<SemanticSkippedImport>) -> (r: QuickBody)
    ensures
        match navigation {
            Navigation::Open(location) => r matches QuickBody::Imports(v) && v@ == seq![location],
            Navigation::Choose(locations) => r matches QuickBody::Imports(v) && v@ == locations@,
            Navigation::Unavailable(reason) => if skipped@.len() == 0 {
                r matches QuickBody::Unavailable(m) && m@ == reason@
            } else {
                r matches QuickBody::SkippedImports(v) && v@ == skipped@
            },
        },
{
    match navigation {
        Navigation::Open(location) => QuickBody::Imports(vec![location]),
        Navigation::Choose(locations) => QuickBody::Imports(locations),
        Navigation::Unavailable(reason) => {
            if skipped.len() == 0 {
                QuickBody::Unavailable(reason)
            } else {
                QuickBody::SkippedImports(skipped)
            }
        },
    }
}

/// The popup for a symbol once the session answered: the symbol, or the
/// error's words.
pub fn symbol_quick_body(answer: Result<SemanticSymbol, String>) -> (r: QuickBody)
    ensures
        match answer {
            Ok(symbol) => r == QuickBody::Symbol(symbol),
            Err(message) => r matches QuickBody::Unavailable(m) && m@ == message@,
        },
{
    match answer {
        Ok(symbol) => QuickBody::Symbol(symbol),
        Err(message) => QuickBody::Unavailable(message),
    }
}

/// The popup for a symbol token when the file has no evaluation to ask.
pub fn no_evaluation_body() -> (r: QuickBody)
    ensures
        r matches QuickBody::Unavailable(m) && m@ == "No evaluation context for this file."@,
{
    QuickBody::Unavailable(String::from_str("No evaluation context for this file."))
}

/// The line holding byte `offset` of a text whose lines start at the
/// given ranges' starts: the last line starting at or before it, else the
/// first.
pub fn row_of_offset(lines: &[Range<usize>], offset: usize) -> (r: usize)
    requires
        forall|i: int, j: int| 0 <= i <= j < lines@.len() ==> lines@[i].start <= lines@[j].start,
    ensures
        lines@.len() == 0 ==> r == 0,
        lines@.len() > 0 ==> r < lines@.len(),
        r == 0 || lines@[r as int].start <= offset,
        forall|k: int| r < k < lines@.len() ==> offset < (#[trigger] lines@[k]).start,
{
    let mut lo: usize = 0;
    let mut hi: usize = lines.len();
    while lo < hi
        invariant
            lo <= hi <= lines@.len(),
            forall|i: int, j: int| 0 <= i <= j < lines@.len() ==> lines@[i].start <= lines@[j].start,
            forall|k: int| 0 <= k < lo ==> (#[trigger] lines@[k]).start <= offset,
            forall|k: int| hi <= k < lines@.len() ==> offset < (#[trigger] lines@[k]).start,
        decreases hi - lo,
    {
        let mid = lo + (hi - lo) / 2;
        if lines[mid].start <= offset {
            lo = mid + 1;
        } else {
            hi = mid;
        }
    }
    if lo == 0 {
        0
    } else {
        lo - 1
    }
}

/// Where the character at `column` of `line` starts, in bytes; the line's
/// length when the column is past its end.
pub fn byte_of_column(line: &str, column: usize) -> (r: usize)
    ensures
        r == encode_utf8(line@.take(if column < line@.len() { column as int } else { line@.len() as int })).len(),
{
    let cs = crate::text::chars_of(line);
    let ghost s = line@;
    let total = line.as_bytes().len();
    let mut byte: usize = 0;
    let mut i: usize = 0;
    assert(s.take(0) =~= seq![]);
    while i < cs.len() && i < column
        invariant
            cs@ == s,
            s == line@,
            total == encode_utf8(s).len(),
            i <= s.len(),
            i <= column,
            byte == encode_utf8(s.take(i as int)).len(),
        decreases cs.len() - i,
    {
        let c = cs[i];
        let w = crate::files::utf8_width(c);
        proof {
            assert(s.take(i + 1) =~= s.take(i as int).push(c));
            crate::files::lemma_encode_push(s.take(i as int), c);
            assert(s =~= s.take(i + 1) + s.skip(i + 1));
            crate::files::lemma_encode_concat(s.take(i + 1), s.skip(i + 1));
        }
        byte = byte + w;
        i += 1;
    }
    assert(s.take(s.len() as int) =~= s);
    byte
}

/// The find bar's count: nothing for an empty query, an alarm when nothing
/// matches, else which match is current, or how many there are.
pub fn find_status(query_empty: bool, n: usize, current: Option<usize>) -> (r: (String, bool))
    ensures
        n == 0 && query_empty ==> r.0@ == Seq::<char>::empty() && !r.1,
        n == 0 && !query_empty ==> r.0@ == "No matches"@ && r.1,
        n > 0 ==> !r.1 && r.0@ == match current {
            Some(i) => decimal((i + 1) as nat) + " of "@ + decimal(n as nat),
            None => decimal(n as nat) + " matches"@,
        },
{
    if n == 0 {
        if query_empty {
            (String::new(), false)
        } else {
            (String::from_str("No matches"), true)
        }
    } else {
        let mut s = String::new();
        match current {
            Some(i) => {
                append_decimal(&mut s, i as u128 + 1);
                s.append(" of ");
                append_decimal(&mut s, n as u128);
            },
            None => {
                append_decimal(&mut s, n as u128);
                s.append(" matches");
            },
        }
        (s, false)
    }
}

/// The source well's open tabs by id, and which is selected: 0 for the
/// Details tab, `i + 1` for tab `i`.
pub struct TabStrip {
    ids: Vec<String>,
    selected: usize,
}

/// The tab strip as the contracts see it.
pub ghost struct Strip {
    pub ids: Seq<Seq<char>>,
    pub selected: int,
}

/// Where `id` is among `ids`, if anywhere.
pub open spec fn tab_index(ids: Seq<Seq<char>>, id: Seq<char>) -> Option<int> {
    if ids.contains(id) {
        Some(ids.index_of(id))
    } else {
        None
    }
}

/// The strip once the tab `id` is opened: an open tab with that id is
/// selected again; otherwise the tab is added at the end and selected.
pub open spec fn after_open(s: Strip, id: Seq<char>) -> Strip {
    match tab_index(s.ids, id) {
        Some(k) => Strip { ids: s.ids, selected: k + 1 },
        None => Strip { ids: s.ids.push(id), selected: s.ids.len() + 1int },
    }
}

/// The strip once tab `ix` is closed.
pub open spec fn after_close(s: Strip, ix: int) -> Strip {
    if 0 <= ix < s.ids.len() {
        Strip { ids: s.ids.remove(ix), selected: selected_after_close_of(s.selected, ix, s.ids.len() - 1) }
    } else {
        s
    }
}

/// Each tab's id is its own and the selection names a tab or Details.
pub open spec fn strip_ok(s: Strip) -> bool {
    &&& s.ids.no_duplicates()
    &&& 0 <= s.selected <= s.ids.len()
}

impl TabStrip {
    pub closed spec fn view(&self) -> Strip {
        Strip { ids: texts(self.ids@), selected: self.selected as int }
    }

    #[verifier::type_invariant]
    closed spec fn well_kept(self) -> bool {
        strip_ok(self.view())
    }

    pub fn new() -> (r: Self)
        ensures
            r.view() == (Strip { ids: seq![], selected: 0 }),
    {
        let r = TabStrip { ids: Vec::new(), selected: 0 };
        assert(texts(r.ids@) =~= seq![]);
        r
    }

    pub fn selected(&self) -> (r: usize)
        ensures
            r == self.view().selected,
    {
        self.selected
    }

    pub fn len(&self) -> (r: usize)
        ensures
            r == self.view().ids.len(),
    {
        self.ids.len()
    }

    /// Every strip keeps its tabs distinct and its selection in range.
    pub fn is_well_kept(&self) -> (r: bool)
        ensures
            r,
            strip_ok(self.view()),
    {
        proof {
            use_type_invariant(self);
        }
        true
    }

    /// Where the tab with `id` is, if open.
    pub fn position(&self, id: &str) -> (r: Option<usize>)
        ensures
            r matches Some(k) ==> tab_index(self.view().ids, id@) == Some(k as int),
            r is None ==> tab_index(self.view().ids, id@) is None,
    {
        proof {
            use_type_invariant(self);
        }
        let ghost v = texts(self.ids@);
        let mut i: usize = 0;
        while i < self.ids.len()
            invariant
                i <= self.ids@.len(),
                v == texts(self.ids@),
                v.no_duplicates(),
                forall|k: int| 0 <= k < i ==> v[k] != id@,
            decreases self.ids.len() - i,
        {
            if text_eq(self.ids[i].as_str(), id) {
                proof {
                    assert(v[i as int] == id@);
                    assert(v.contains(id@));
                    let m = v.index_of(id@);
                    assert(v[m] == id@);
                    if m < i {
                    } else if m > i {
                        assert(v.no_duplicates());
                    }
                }
                return Some(i);
            }
            i += 1;
        }
        proof {
            if v.contains(id@) {
                let m = choose|m: int| 0 <= m < v.len() && v[m] == id@;
            }
        }
        None
    }

    /// Opens the tab `id`, or selects it again when it is already open so
    /// a file shows in one tab only; returns its index.
    pub fn open(&mut self, id: String) -> (r: usize)
        requires
            old(self).view().ids.len() < usize::MAX,
        ensures
            final(self).view() == after_open(old(self).view(), id@),
            r + 1 == final(self).view().selected,
    {
        proof {
            use_type_invariant(&*self);
        }
        match self.position(id.as_str()) {
            Some(k) => {
                self.selected = k + 1;
                k
            },
            None => {
                let ghost before = texts(self.ids@);
                let mut taken = TabStrip::new();
                std::mem::swap(&mut taken, self);
                let TabStrip { mut ids, selected: _ } = taken;
                let n = ids.len();
                ids.push(id);
                proof {
                    assert(texts(ids@) =~= before.push(id@));
                    assert(!before.contains(id@));
                    assert(before.push(id@).no_duplicates()) by {
                        assert forall|a: int, b: int|
                            0 <= a < b < before.len() + 1 implies before.push(id@)[a] != before.push(id@)[b] by {
                            if b == before.len() {
                                assert(before[a] == before.push(id@)[a]);
                            }
                        }
                    }
                }
                *self = TabStrip { ids, selected: n + 1 };
                n
            },
        }
    }

    /// Closes tab `ix`; the selection follows as `selected_after_close_of`
    /// says. Nothing happens when there is no such tab.
    pub fn close(&mut self, ix: usize) -> (closed: bool)
        ensures
            final(self).view() == after_close(old(self).view(), ix as int),
            closed == (ix < old(self).view().ids.len()),
    {
        proof {
            use_type_invariant(&*self);
        }
        if ix >= self.ids.len() {
            return false;
        }
        let ghost before = texts(self.ids@);
        let selected = selected_after_close(self.selected, ix, self.ids.len() - 1);
        let mut taken = TabStrip::new();
        std::mem::swap(&mut taken, self);
        let TabStrip { mut ids, selected: _ } = taken;
        ids.remove(ix);
        proof {
            assert(texts(ids@) =~= before.remove(ix as int));
            assert(before.remove(ix as int).no_duplicates()) by {
                assert forall|a: int, b: int|
                    0 <= a < b < before.len() - 1 implies before.remove(ix as int)[a] != before.remove(
                        ix as int,
                    )[b] by {
                    let a2 = if a < ix { a } else { a + 1 };
                    let b2 = if b < ix { b } else { b + 1 };
                    assert(before.remove(ix as int)[a] == before[a2]);
                    assert(before.remove(ix as int)[b] == before[b2]);
                }
            }
        }
        *self = TabStrip { ids, selected };
        true
    }
}

/// Opening a tab that is already open changes nothing but the selection:
/// opening the same id twice leaves one tab, selected.
pub proof fn lemma_open_twice(s: Strip, id: Seq<char>)
    requires
        strip_ok(s),
    ensures
        after_open(after_open(s, id), id) == after_open(s, id),
        after_open(s, id).ids.filter(|x: Seq<char>| x == id).len() == 1,
{
    let t = after_open(s, id);
    if s.ids.contains(id) {
        assert(t.ids == s.ids);
    } else {
        assert(t.ids[s.ids.len() as int] == id);
        assert(t.ids.contains(id));
        assert(t.ids.index_of(id) == s.ids.len()) by {
            let m = t.ids.index_of(id);
            if m < s.ids.len() {
                assert(s.ids[m] == id);
            }
        }
    }
    lemma_one_match(t.ids, id);
}

proof fn lemma_one_match(ids: Seq<Seq<char>>, id: Seq<char>)
    requires
        ids.no_duplicates(),
        ids.contains(id),
    ensures
        ids.filter(|x: Seq<char>| x == id).len() == 1,
    decreases ids.len(),
{
    reveal(Seq::filter);
    let f = |x: Seq<char>| x == id;
    let init = ids.drop_last();
    assert(init.no_duplicates()) by {
        assert forall|a: int, b: int| 0 <= a < b < init.len() implies init[a] != init[b] by {
            assert(init[a] == ids[a] && init[b] == ids[b]);
        }
    }
    if ids.last() == id {
        assert(!init.contains(id)) by {
            if init.contains(id) {
                let m = choose|m: int| 0 <= m < init.len() && init[m] == id;
                assert(ids[m] == ids[ids.len() - 1]);
            }
        }
        lemma_no_match(init, id);
    } else {
        let m = choose|m: int| 0 <= m < ids.len() && ids[m] == id;
        assert(init[m] == id);
        lemma_one_match(init, id);
    }
}

proof fn lemma_no_match(ids: Seq<Seq<char>>, id: Seq<char>)
    requires
        !ids.contains(id),
    ensures
        ids.filter(|x: Seq<char>| x == id).len() == 0,
    decreases ids.len(),
{
    reveal(Seq::filter);
    if ids.len() > 0 {
        assert(ids.drop_last().len() < ids.len());
        if ids.drop_last().contains(id) {
            let m = choose|m: int| 0 <= m < ids.drop_last().len() && ids.drop_last()[m] == id;
            assert(ids[m] == id);
        }
        assert(ids.last() != id) by {
            assert(ids[ids.len() - 1] == ids.last());
        }
        lemma_no_match(ids.drop_last(), id);
    }
}

/// Every open and close keeps the strip's tabs distinct and its selection
/// in range.
pub proof fn lemma_strip_stays_ok(s: Strip, id: Seq<char>, ix: int)
    requires
        strip_ok(s),
    ensures
        strip_ok(after_open(s, id)),
        strip_ok(after_close(s, ix)),
{
    if !s.ids.contains(id) {
        assert forall|a: int, b: int|
            0 <= a < b < s.ids.len() + 1 implies s.ids.push(id)[a] != s.ids.push(id)[b] by {
            if b == s.ids.len() {
                assert(s.ids[a] == s.ids.push(id)[a]);
            }
        }
    }
    if 0 <= ix < s.ids.len() {
        assert forall|a: int, b: int| 0 <= a < b < s.ids.len() - 1 implies s.ids.remove(ix)[a] != s.ids.remove(ix)[b] by {
            let a2 = if a < ix { a } else { a + 1 };
            let b2 = if b < ix { b } else { b + 1 };
            assert(s.ids.remove(ix)[a] == s.ids[a2]);
            assert(s.ids.remove(ix)[b] == s.ids[b2]);
        }
    }
}

/// Quick info lists at most this many locations.
pub const MAX_LOCATIONS: usize = 20;

/// `one` for a single item, else `before`, the count and `after`.
pub open spec fn counted(n: nat, one: Seq<char>, before: Seq<char>, after: Seq<char>) -> Seq<char> {
    if n == 1 {
        one
    } else {
        before + decimal(n) + after
    }
}

fn counted_text(n: usize, one: &str, before: &str, after: &str) -> (r: String)
    ensures
        r@ == counted(n as nat, one@, before@, after@),
{
    if n == 1 {
        one.to_string()
    } else {
        let mut s = before.to_string();
        append_decimal(&mut s, n as u128);
        s.append(after);
        s
    }
}

/// The caption over a symbol's definitions.
pub fn definitions_title(n: usize) -> (r: String)
    ensures
        r@ == counted(n as nat, "Defined in"@, "Defined in "@, " places"@),
{
    counted_text(n, "Defined in", "Defined in ", " places")
}

/// The caption over a target's runs.
pub fn executions_title(n: usize) -> (r: String)
    ensures
        r@ == counted(n as nat, "Ran once"@, "Ran "@, " times"@),
{
    counted_text(n, "Ran once", "Ran ", " times")
}

/// The caption over where an import leads.
pub fn imports_title(n: usize) -> (r: String)
    ensures
        r@ == counted(n as nat, "Imports"@, "Imports "@, " files"@),
{
    counted_text(n, "Imports", "Imports ", " files")
}

/// The line under a location list longer than the popup shows.
pub fn more_locations(n: usize) -> (r: Option<String>)
    ensures
        n <= MAX_LOCATIONS ==> r is None,
        n > MAX_LOCATIONS ==> (r matches Some(s) && s@ == "…and "@ + decimal((n - MAX_LOCATIONS) as nat)
            + " more"@),
{
    if n <= MAX_LOCATIONS {
        None
    } else {
        let mut s = String::from_str("…and ");
        append_decimal(&mut s, (n - MAX_LOCATIONS) as u128);
        s.append(" more");
        Some(s)
    }
}

/// How often the file was evaluated, shown beside the evaluation picker
/// when there is more than one: a project file is evaluated, a shared file
/// is imported by each evaluation.
pub fn evaluation_count(total: usize, is_project_file: bool) -> (r: Option<String>)
    ensures
        total <= 1 ==> r is None,
        total > 1 ==> (r matches Some(s) && s@ == (if is_project_file {
            "evaluated "@ + decimal(total as nat) + " times"@
        } else {
            "imported by "@ + decimal(total as nat) + " evaluations"@
        })),
{
    if total <= 1 {
        return None;
    }
    let mut s = if is_project_file {
        String::from_str("evaluated ")
    } else {
        String::from_str("imported by ")
    };
    append_decimal(&mut s, total as u128);
    if is_project_file {
        s.append(" times");
    } else {
        s.append(" evaluations");
    }
    Some(s)
}

/// A press in tab `tab` at byte `offset` starts an empty selection there.
pub fn begin_selection(tab: &str, offset: usize) -> (r: Selection)
    ensures
        r.tab@ == tab@,
        r.anchor == offset,
        r.head == offset,
{
    Selection { tab: tab.to_string(), anchor: offset, head: offset }
}

/// A drag to byte `offset` moves the selection's head there; true when it
/// moved.
pub fn extend_selection(selection: &mut Option<Selection>, offset: usize) -> (moved: bool)
    ensures
        match *old(selection) {
            Some(s) => if s.head != offset {
                moved && ((*final(selection)) matches Some(t) && t.tab == s.tab && t.anchor == s.anchor && t.head == offset)
            } else {
                !moved && *final(selection) == *old(selection)
            },
            None => !moved && (*final(selection)) is None,
        },
{
    match selection {
        Some(s) => {
            if s.head != offset {
                s.head = offset;
                true
            } else {
                false
            }
        },
        None => false,
    }
}

/// A click is not a drag: the empty selection its press anchored is let go.
pub fn drop_empty_selection(selection: &mut Option<Selection>)
    ensures
        match *old(selection) {
            Some(s) => if s.anchor == s.head {
                (*final(selection)) is None
            } else {
                *final(selection) == *old(selection)
            },
            None => (*final(selection)) is None,
        },
{
    let empty = match selection {
        Some(s) => s.is_empty(),
        None => false,
    };
    if empty {
        *selection = None;
    }
}

/// The text a selection covers in `text`, none when it is empty.
pub fn selected_text(text: &str, selection: &Selection) -> (r: Option<String>)
    requires
        selection.anchor <= text.spec_bytes().len(),
        selection.head <= text.spec_bytes().len(),
        is_char_boundary(text.spec_bytes(), selection.anchor as int),
        is_char_boundary(text.spec_bytes(), selection.head as int),
    ensures
        selection.anchor == selection.head ==> r is None,
        selection.anchor != selection.head ==> (r matches Some(t) && encode_utf8(t@) == text.spec_bytes().subrange(
            if selection.anchor <= selection.head { selection.anchor as int } else { selection.head as int },
            if selection.anchor <= selection.head { selection.head as int } else { selection.anchor as int },
        )),
{
    if selection.is_empty() {
        return None;
    }
    let range = selection.range();
    let (head, _) = text.split_at(range.end);
    proof {
        assert(is_char_boundary(head.spec_bytes(), range.start as int)) by {
            assert(head.spec_bytes() =~= text.spec_bytes().subrange(0, range.end as int));
            vstd::utf8::encode_utf8_valid_utf8(text@);
            vstd::utf8::encode_utf8_valid_utf8(head@);
            lemma_boundary_in_prefix(text.spec_bytes(), range.start as int, range.end as int);
        }
    }
    let (_, middle) = head.split_at(range.start);
    Some(middle.to_string())
}

proof fn lemma_boundary_in_prefix(b: Seq<u8>, s: int, e: int)
    requires
        vstd::utf8::valid_utf8(b),
        vstd::utf8::valid_utf8(b.subrange(0, e)),
        0 <= s <= e <= b.len(),
        is_char_boundary(b, s),
    ensures
        is_char_boundary(b.subrange(0, e), s),
{
    let p = b.subrange(0, e);
    if s == e {
        vstd::utf8::is_char_boundary_start_end_of_seq(p);
    } else if s > 0 {
        vstd::utf8::is_char_boundary_iff_not_is_continuation_byte(b, s);
        vstd::utf8::is_char_boundary_iff_not_is_continuation_byte(p, s);
        assert(p[s] == b[s]);
    }
}

/// Where following a navigation leads.
pub enum Follow {
    /// One place: go there.
    Go(Destination),
    /// Several: let the user choose.
    Choose(Vec<SemanticLocation>),
    /// Nowhere: say why.
    Message(String),
}

/// Following a navigation: a single location is gone to, several are
/// offered to choose from, none is explained.
pub fn follow(navigation: Navigation) -> (r: Follow)
    ensures
        match navigation {
            Navigation::Open(l) => (r matches Follow::Go(d) && goal_of(d) == destination_of(l)),
            Navigation::Choose(ls) => (r matches Follow::Choose(v) && v@ == ls@),
            Navigation::Unavailable(m) => (r matches Follow::Message(t) && t@ == m@),
        },
{
    match navigation {
        Navigation::Open(l) => Follow::Go(destination(&l)),
        Navigation::Choose(ls) => Follow::Choose(ls),
        Navigation::Unavailable(m) => Follow::Message(m),
    }
}

/// The token under the pointer, in a tab's line.
pub struct Hover {
    pub tab: String,
    pub line: usize,
    pub token: Token,
}

/// What identifies a hover: the tab, the line and the token (its kind,
/// name, range and line).
pub open spec fn hover_key(h: Hover) -> (Seq<char>, usize, Span, Seq<char>, usize) {
    (h.tab@, h.line, h.token.span(), h.token.name@, h.token.line)
}

pub open spec fn hover_keys(h: Option<Hover>) -> Option<(Seq<char>, usize, Span, Seq<char>, usize)> {
    match h {
        Some(x) => Some(hover_key(x)),
        None => None,
    }
}

/// What the quick-info popup does when the pointer moves.
#[derive(Clone, Copy, PartialEq, Eq, Debug, Structural)]
pub enum HoverAction {
    /// Still over the same token.
    Unchanged,
    /// Over a new token; `schedule` when its popup should follow after the
    /// hover delay (a pinned popup stays instead).
    Show { schedule: bool },
    /// Off every token; `close` when an unpinned popup goes with it.
    Leave { close: bool },
}

fn same_hover(a: &Hover, b: &Hover) -> (r: bool)
    ensures
        r == (hover_key(*a) == hover_key(*b)),
{
    text_eq(a.tab.as_str(), b.tab.as_str()) && a.line == b.line && a.token.kind == b.token.kind
        && a.token.range.start == b.token.range.start && a.token.range.end == b.token.range.end
        && text_eq(a.token.name.as_str(), b.token.name.as_str()) && a.token.line == b.token.line
}

/// The popup's response to the hover moving from `current` to `next`.
pub open spec fn hover_response(current: Option<Hover>, next: Option<Hover>, pinned: Option<bool>) -> HoverAction {
    if hover_keys(current) == hover_keys(next) {
        HoverAction::Unchanged
    } else if next is Some {
        HoverAction::Show { schedule: pinned != Some(true) }
    } else {
        HoverAction::Leave { close: pinned == Some(false) }
    }
}

/// The popup's response to the hover moving from `current` to `next`, with
/// `pinned` telling whether a popup is up and pinned: a pinned popup is
/// never dismissed or replaced by hovering.
pub fn hover_action(current: &Option<Hover>, next: &Option<Hover>, pinned: Option<bool>) -> (r: HoverAction)
    ensures
        r == hover_response(*current, *next, pinned),
        pinned == Some(true) ==> (r == (HoverAction::Unchanged) || r == (HoverAction::Show { schedule: false })
            || r == (HoverAction::Leave { close: false })),
{
    let same = match (current, next) {
        (Some(a), Some(b)) => same_hover(a, b),
        (None, None) => true,
        _ => false,
    };
    if same {
        return HoverAction::Unchanged;
    }
    let is_pinned = match pinned {
        Some(p) => p,
        None => false,
    };
    match next {
        Some(_) => HoverAction::Show { schedule: !is_pinned },
        None => HoverAction::Leave { close: pinned.is_some() && !is_pinned },
    }
}

/// Where a refreshed search looks for its current match from: the start of
/// the match that was current in this tab, else the start of this tab's
/// selection, else the top.
pub fn find_anchor(current_start: Option<usize>, selection_start: Option<usize>) -> (r: usize)
    ensures
        r == match current_start {
            Some(c) => c,
            None => match selection_start {
                Some(s) => s,
                None => 0,
            },
        },
{
    match current_start {
        Some(c) => c,
        None => match selection_start {
            Some(s) => s,
            None => 0,
        },
    }
}

} // verus!
