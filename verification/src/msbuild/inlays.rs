//! End-of-element notes for skipped imports: each note is anchored to the
//! line of the element's closing `>` (several records can share one
//! element: `Project="a;b"` skips twice).

use std::collections::HashMap;
use vstd::prelude::*;
use vstd::string::{StringExecFns, StringSliceAdditionalSpecFns};
use crate::model::{annotation_of, SemanticSkippedImport};
use super::lex::{count_at_or_before, lemma_line_counts_newlines, line_at, line_starts, line_starts_of, newlines_before, strictly_increasing, text_fits, DQUOTE, GT, LT, NL, SQUOTE};
use super::tokens::{lemma_line_starts_increasing, line_of};

verus! {

broadcast use vstd::std_specs::hash::group_hash_axioms;

/// The byte offset of 1-based `line` and `column`, given the line starts;
/// a column past the end of its line falls back to the line's start.
pub open spec fn offset_of(line: usize, column: usize, starts: Seq<usize>, n: int) -> Option<int> {
    if line < 1 || line > starts.len() {
        None
    } else {
        let start = starts[line - 1] as int;
        if column <= 1 {
            Some(start)
        } else {
            let line_end = if line < starts.len() {
                starts[line as int] as int
            } else {
                n
            };
            if start + column - 1 < line_end {
                Some(start + column - 1)
            } else {
                Some(start)
            }
        }
    }
}

/// The first `<` at or after `i`, unless a line break comes first.
pub open spec fn tag_open_from(b: Seq<u8>, i: int) -> Option<int>
    decreases b.len() - i,
{
    if i < 0 || i >= b.len() {
        None
    } else if b[i] == LT {
        Some(i)
    } else if b[i] == NL {
        None
    } else {
        tag_open_from(b, i + 1)
    }
}

/// One past the first `>` at or after `i` outside quotes; `quote` is the
/// quote open at `i`, if any.
pub open spec fn tag_close_from(b: Seq<u8>, i: int, quote: Option<u8>) -> Option<int>
    decreases b.len() - i,
{
    if i < 0 || i >= b.len() {
        None
    } else {
        match quote {
            Some(q) => if b[i] == q {
                tag_close_from(b, i + 1, None)
            } else {
                tag_close_from(b, i + 1, Some(q))
            },
            None => if b[i] == DQUOTE || b[i] == SQUOTE {
                tag_close_from(b, i + 1, Some(b[i]))
            } else if b[i] == GT {
                Some(i + 1)
            } else {
                tag_close_from(b, i + 1, None)
            },
        }
    }
}

/// One past the `>` closing the element that starts on the line at `start`.
pub open spec fn tag_end(b: Seq<u8>, start: int) -> Option<int> {
    match tag_open_from(b, start) {
        Some(i) => tag_close_from(b, i, None),
        None => None,
    }
}

/// The 0-based line a skipped import's note is anchored to: the line of
/// the `>` that closes its element.
pub open spec fn anchor_line(b: Seq<u8>, r: SemanticSkippedImport) -> Option<int> {
    if r.line == 0 {
        None
    } else {
        match offset_of(r.line, r.column, line_starts_of(b), b.len() as int) {
            None => None,
            Some(start) => match tag_end(b, start) {
                None => None,
                Some(anchor) => Some(line_of(b, anchor - 1) - 1),
            },
        }
    }
}

/// The distinct notes anchored to `line`, in record order.
pub open spec fn notes_on(b: Seq<u8>, records: Seq<SemanticSkippedImport>, line: int) -> Seq<Seq<char>>
    decreases records.len(),
{
    if records.len() == 0 {
        seq![]
    } else {
        let prev = notes_on(b, records.drop_last(), line);
        let r = records.last();
        if anchor_line(b, r) == Some(line) && !prev.contains(annotation_of(r)) {
            prev.push(annotation_of(r))
        } else {
            prev
        }
    }
}

/// `parts` joined by `sep`.
pub open spec fn join(parts: Seq<Seq<char>>, sep: Seq<char>) -> Seq<char>
    decreases parts.len(),
{
    if parts.len() == 0 {
        seq![]
    } else if parts.len() == 1 {
        parts[0]
    } else {
        join(parts.drop_last(), sep) + sep + parts.last()
    }
}

pub fn offset_for(line: usize, column: usize, starts: &[usize], b: &[u8]) -> (r: Option<usize>)
    requires
        forall|k: int| 0 <= k < starts@.len() ==> #[trigger] starts@[k] <= b@.len(),
    ensures
        r matches Some(o) ==> offset_of(line, column, starts@, b@.len() as int) == Some(o as int),
        r is None ==> offset_of(line, column, starts@, b@.len() as int) is None,
{
    if line < 1 || line > starts.len() {
        return None;
    }
    let start = starts[line - 1];
    if column <= 1 {
        return Some(start);
    }
    let line_end = if line < starts.len() {
        starts[line]
    } else {
        b.len()
    };
    if line_end > start && column - 1 < line_end - start {
        Some(start + (column - 1))
    } else {
        Some(start)
    }
}

pub fn end_of_tag(b: &[u8], start: usize) -> (r: Option<usize>)
    ensures
        r matches Some(e) ==> tag_end(b@, start as int) == Some(e as int),
        r is None ==> tag_end(b@, start as int) is None,
        r matches Some(e) ==> 0 < e <= b@.len(),
{
    let mut i = start;
    if i >= b.len() {
        return None;
    }
    while i < b.len() && b[i] != LT
        invariant
            start <= i <= b@.len(),
            tag_open_from(b@, i as int) == tag_open_from(b@, start as int),
        decreases b.len() - i,
    {
        if b[i] == NL {
            return None;
        }
        i += 1;
    }
    if i >= b.len() {
        return None;
    }
    let ghost target = tag_close_from(b@, i as int, None);
    let mut delimiter: Option<u8> = None;
    while i < b.len()
        invariant
            i <= b@.len(),
            tag_close_from(b@, i as int, delimiter) == target,
            target == tag_end(b@, start as int),
        decreases b.len() - i,
    {
        let c = b[i];
        match delimiter {
            Some(open) => {
                if c == open {
                    delimiter = None;
                }
            },
            None => {
                if c == DQUOTE || c == SQUOTE {
                    delimiter = Some(c);
                } else if c == GT {
                    return Some(i + 1);
                }
            },
        }
        i += 1;
    }
    None
}

proof fn lemma_count_positive(s: Seq<usize>, o: int)
    requires
        s.len() > 0,
        s[0] <= o,
    ensures
        count_at_or_before(s, o) >= 1,
    decreases s.len(),
{
    if s.len() > 1 {
        lemma_count_positive(s.drop_last(), o);
    }
}

proof fn lemma_push_contains(s: Seq<usize>, x: usize)
    ensures
        forall|l: usize| #[trigger] s.push(x).contains(l) <==> (s.contains(l) || l == x),
{
    assert forall|l: usize| #[trigger] s.push(x).contains(l) <==> (s.contains(l) || l == x) by {
        let q = s.push(x);
        if q.contains(l) && l != x {
            let w = choose|w: int| 0 <= w < q.len() && #[trigger] q[w] == l;
            assert(s[w] == l);
        }
        if s.contains(l) {
            let w = choose|w: int| 0 <= w < s.len() && #[trigger] s[w] == l;
            assert(q[w] == l);
        }
        if l == x {
            assert(q[s.len() as int] == l);
        }
    }
}

fn contains_text(notes: &Vec<String>, note: &String) -> (r: bool)
    ensures
        r == notes@.map_values(|s: String| s@).contains(note@),
{
    let ghost v = notes@.map_values(|s: String| s@);
    let mut k: usize = 0;
    while k < notes.len()
        invariant
            k <= notes@.len(),
            v == notes@.map_values(|s: String| s@),
            forall|x: int| 0 <= x < k ==> v[x] != note@,
        decreases notes.len() - k,
    {
        if notes[k].eq(note) {
            assert(v[k as int] == note@);
            return true;
        }
        k += 1;
    }
    false
}

fn join_notes(notes: &Vec<String>) -> (r: String)
    ensures
        r@ == join(notes@.map_values(|s: String| s@), " · "@),
{
    let ghost v = notes@.map_values(|s: String| s@);
    let mut r = String::new();
    let mut k: usize = 0;
    while k < notes.len()
        invariant
            k <= notes@.len(),
            v == notes@.map_values(|s: String| s@),
            r@ == join(v.subrange(0, k as int), " · "@),
        decreases notes.len() - k,
    {
        assert(v.subrange(0, k + 1).drop_last() =~= v.subrange(0, k as int));
        if k > 0 {
            r.append(" · ");
        }
        r.append(notes[k].as_str());
        k += 1;
    }
    assert(v.subrange(0, v.len() as int) =~= v);
    r
}

/// Notes keyed by 0-based line: the distinct annotations of the skipped
/// imports anchored there, in record order, joined by ` · `.
pub fn import_annotations(text: &str, skipped: &[SemanticSkippedImport]) -> (notes: HashMap<usize, String>)
    requires
        text_fits(text.spec_bytes().len() as int),
    ensures
        forall|line: usize| #[trigger]
            notes@.contains_key(line) <==> notes_on(text.spec_bytes(), skipped@, line as int).len() > 0,
        forall|line: usize| #[trigger]
            notes@.contains_key(line) ==> notes@[line]@ == join(notes_on(text.spec_bytes(), skipped@, line as int), " · "@),
{
    let b = text.as_bytes();
    let starts = line_starts(text);
    proof {
        lemma_line_starts_increasing(b@);
    }
    let mut by_line: HashMap<usize, Vec<String>> = HashMap::new();
    let mut lines: Vec<usize> = Vec::new();
    let mut k: usize = 0;
    while k < skipped.len()
        invariant
            b@ == text.spec_bytes(),
            text_fits(b@.len() as int),
            starts@ == line_starts_of(b@),
            strictly_increasing(starts@),
            starts@.len() > 0 && starts@[0] == 0,
            forall|x: int| 0 <= x < starts@.len() ==> #[trigger] starts@[x] <= b@.len(),
            k <= skipped@.len(),
            forall|l: usize| #[trigger]
                by_line@.contains_key(l) <==> notes_on(b@, skipped@.subrange(0, k as int), l as int).len() > 0,
            forall|l: usize| #[trigger]
                by_line@.contains_key(l) ==> by_line@[l]@.map_values(|s: String| s@) == notes_on(
                    b@,
                    skipped@.subrange(0, k as int),
                    l as int,
                ),
            forall|l: usize| #[trigger] by_line@.contains_key(l) <==> lines@.contains(l),
        decreases skipped.len() - k,
    {
        let ghost prev = skipped@.subrange(0, k as int);
        let ghost next = skipped@.subrange(0, k + 1);
        assert(next.drop_last() =~= prev);
        let record = &skipped[k];
        assert(next.last() == *record);
        if record.line > 0 {
            if let Some(start) = offset_for(record.line, record.column, starts.as_slice(), b) {
                if let Some(anchor) = end_of_tag(b, start) {
                    let at = line_at(anchor - 1, starts.as_slice());
                    proof {
                        lemma_count_positive(starts@, anchor - 1);
                    }
                    let line = if at > 0 {
                        at - 1
                    } else {
                        0
                    };
                    assert(anchor_line(b@, *record) == Some(line as int));
                    let note = record.annotation();
                    let mut group = match by_line.remove(&line) {
                        Some(g) => g,
                        None => {
                            proof {
                                lemma_push_contains(lines@, line);
                            }
                            lines.push(line);
                            Vec::new()
                        },
                    };
                    let ghost old_group = group@.map_values(|s: String| s@);
                    if !contains_text(&group, &note) {
                        group.push(note);
                        assert(group@.map_values(|s: String| s@) =~= old_group.push(annotation_of(*record)));
                    }
                    by_line.insert(line, group);
                }
            }
        }
        k += 1;
    }
    assert(skipped@.subrange(0, skipped@.len() as int) =~= skipped@);
    let mut notes: HashMap<usize, String> = HashMap::new();
    let mut j: usize = 0;
    while j < lines.len()
        invariant
            j <= lines@.len(),
            forall|l: usize| #[trigger] notes@.contains_key(l) <==> lines@.subrange(0, j as int).contains(l),
            forall|l: usize| #[trigger]
                notes@.contains_key(l) ==> by_line@.contains_key(l) && notes@[l]@ == join(
                    by_line@[l]@.map_values(|s: String| s@),
                    " · "@,
                ),
            forall|l: usize| #[trigger] by_line@.contains_key(l) <==> lines@.contains(l),
        decreases lines.len() - j,
    {
        let line = lines[j];
        assert(lines@.contains(line));
        match by_line.get(&line) {
            Some(group) => {
                let joined = join_notes(group);
                notes.insert(line, joined);
            },
            None => {},
        }
        assert(lines@.subrange(0, j + 1) =~= lines@.subrange(0, j as int).push(line));
        assert forall|l: usize| lines@.subrange(0, j + 1).contains(l) <==> (lines@.subrange(0, j as int).contains(l) || l == line) by {
            let p = lines@.subrange(0, j as int);
            let q = lines@.subrange(0, j + 1);
            if q.contains(l) && l != line {
                let w = choose|w: int| 0 <= w < q.len() && #[trigger] q[w] == l;
                assert(p[w] == l);
            }
            if p.contains(l) {
                let w = choose|w: int| 0 <= w < p.len() && #[trigger] p[w] == l;
                assert(q[w] == l);
            }
            if l == line {
                assert(q[j as int] == l);
            }
        }
        j += 1;
    }
    assert(lines@.subrange(0, lines@.len() as int) =~= lines@);
    assert forall|line: usize| #[trigger] notes@.contains_key(line) <==> notes_on(b@, skipped@, line as int).len() > 0 by {
        assert(notes@.contains_key(line) <==> lines@.contains(line));
        assert(by_line@.contains_key(line) <==> lines@.contains(line));
    }
    notes
}


// ----- where a note sits -----

proof fn lemma_tag_open_from(b: Seq<u8>, i: int)
    ensures
        tag_open_from(b, i) matches Some(o) ==> i <= o < b.len() && b[o] == LT,
    decreases b.len() - i,
{
    if 0 <= i < b.len() && b[i] != LT && b[i] != NL {
        lemma_tag_open_from(b, i + 1);
    }
}

proof fn lemma_tag_close_from(b: Seq<u8>, i: int, quote: Option<u8>)
    ensures
        tag_close_from(b, i, quote) matches Some(a) ==> i < a <= b.len() && b[a - 1] == GT,
    decreases b.len() - i,
{
    if 0 <= i < b.len() {
        match quote {
            Some(q) => if b[i] == q {
                lemma_tag_close_from(b, i + 1, None);
            } else {
                lemma_tag_close_from(b, i + 1, Some(q));
            },
            None => if b[i] == DQUOTE || b[i] == SQUOTE {
                lemma_tag_close_from(b, i + 1, Some(b[i]));
            } else if b[i] == GT {
            } else {
                lemma_tag_close_from(b, i + 1, None);
            },
        }
    }
}

/// A skipped import's note sits on the 0-based line of the `>` that closes
/// its element, not on the line the record names: with the element found
/// from the record's position, the note's line is the number of line
/// breaks before that `>`, which comes at or after the position.
pub proof fn lemma_note_sits_where_the_element_closes(b: Seq<u8>, r: SemanticSkippedImport, start: int, anchor: int)
    requires
        b.len() <= usize::MAX,
        r.line > 0,
        offset_of(r.line, r.column, line_starts_of(b), b.len() as int) == Some(start),
        tag_end(b, start) == Some(anchor),
    ensures
        start <= anchor - 1 < b.len(),
        b[anchor - 1] == GT,
        anchor_line(b, r) == Some(newlines_before(b, anchor - 1) as int),
{
    lemma_tag_open_from(b, start);
    let o = tag_open_from(b, start)->0;
    lemma_tag_close_from(b, o, None);
    lemma_line_counts_newlines(b, anchor - 1);
}

/// Every skipped import whose element is found gets its note under the
/// line of the element's closing `>`: the number of line breaks before it.
pub proof fn lemma_each_note_on_its_closing_line(
    b: Seq<u8>,
    records: Seq<SemanticSkippedImport>,
    x: int,
    start: int,
    anchor: int,
)
    requires
        b.len() <= usize::MAX,
        0 <= x < records.len(),
        records[x].line > 0,
        offset_of(records[x].line, records[x].column, line_starts_of(b), b.len() as int) == Some(start),
        tag_end(b, start) == Some(anchor),
    ensures
        notes_on(b, records, newlines_before(b, anchor - 1) as int).contains(annotation_of(records[x])),
    decreases records.len(),
{
    lemma_note_sits_where_the_element_closes(b, records[x], start, anchor);
    let line = newlines_before(b, anchor - 1) as int;
    let prev = notes_on(b, records.drop_last(), line);
    if x < records.len() - 1 {
        assert(records.drop_last()[x] == records[x]);
        lemma_each_note_on_its_closing_line(b, records.drop_last(), x, start, anchor);
        let w = choose|w: int| 0 <= w < prev.len() && prev[w] == annotation_of(records[x]);
        let cur = notes_on(b, records, line);
        if cur != prev {
            assert(cur == prev.push(annotation_of(records.last())));
            assert(cur[w] == prev[w]);
        }
        assert(cur[w] == annotation_of(records[x]));
    } else {
        let cur = notes_on(b, records, line);
        assert(records.last() == records[x]);
        if prev.contains(annotation_of(records[x])) {
            assert(cur == prev);
        } else {
            assert(cur == prev.push(annotation_of(records[x])));
            assert(cur[prev.len() as int] == annotation_of(records[x]));
        }
    }
}

} // verus!
