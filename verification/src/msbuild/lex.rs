//! Byte-level helpers shared by the highlighter and the tokenizer.

use vstd::prelude::*;
use vstd::string::StringSliceAdditionalSpecFns;
use vstd::utf8::{
    is_char_boundary, is_char_boundary_iff_not_is_continuation_byte,
    is_char_boundary_start_end_of_seq, is_continuation_byte, length_of_first_scalar,
    pop_first_scalar, valid_utf8, encode_utf8, encode_utf8_valid_utf8, valid_utf8_split,
};

verus! {

pub const TAB: u8 = 0x09;
pub const NL: u8 = 0x0a;
pub const CR: u8 = 0x0d;
pub const SPACE: u8 = 0x20;
pub const BANG: u8 = 0x21;
pub const DQUOTE: u8 = 0x22;
pub const HASH: u8 = 0x23;
pub const DOLLAR: u8 = 0x24;
pub const PERCENT: u8 = 0x25;
pub const AMP: u8 = 0x26;
pub const SQUOTE: u8 = 0x27;
pub const LPAREN: u8 = 0x28;
pub const RPAREN: u8 = 0x29;
pub const DASH: u8 = 0x2d;
pub const DOT: u8 = 0x2e;
pub const SLASH: u8 = 0x2f;
pub const COLON: u8 = 0x3a;
pub const SEMI: u8 = 0x3b;
pub const LT: u8 = 0x3c;
pub const EQ: u8 = 0x3d;
pub const GT: u8 = 0x3e;
pub const QUESTION: u8 = 0x3f;
pub const AT: u8 = 0x40;
pub const BACKSLASH: u8 = 0x5c;
pub const UNDERSCORE: u8 = 0x5f;

/// The largest text the scanners accept: no allocation exceeds `isize::MAX`
/// bytes, so every offset plus a small constant still fits in a `usize`.
pub open spec fn text_fits(n: int) -> bool {
    n <= isize::MAX
}

pub open spec fn is_ws_byte(c: u8) -> bool {
    c == 0x20 || c == 0x09 || c == 0x0a || c == 0x0d
}

pub open spec fn is_alnum_byte(c: u8) -> bool {
    (0x30 <= c <= 0x39) || (0x41 <= c <= 0x5a) || (0x61 <= c <= 0x7a)
}

pub open spec fn is_identifier_byte(c: u8) -> bool {
    is_alnum_byte(c) || c == 0x5f
}

pub open spec fn is_name_byte(c: u8) -> bool {
    is_alnum_byte(c) || c == 0x5f || c == 0x2d || c == 0x2e || c == 0x3a
}

pub fn is_ws(c: u8) -> (r: bool)
    ensures
        r == is_ws_byte(c),
{
    c == SPACE || c == TAB || c == NL || c == CR
}

fn is_alnum(c: u8) -> (r: bool)
    ensures
        r == is_alnum_byte(c),
{
    (0x30 <= c && c <= 0x39) || (0x41 <= c && c <= 0x5a) || (0x61 <= c && c <= 0x7a)
}

pub fn is_identifier_char(c: u8) -> (r: bool)
    ensures
        r == is_identifier_byte(c),
{
    is_alnum(c) || c == UNDERSCORE
}

pub fn is_name_char(c: u8) -> (r: bool)
    ensures
        r == is_name_byte(c),
{
    is_alnum(c) || c == UNDERSCORE || c == DASH || c == DOT || c == COLON
}

/// The offsets at which lines start: 0, and one past every `\n`.
pub open spec fn line_starts_of(b: Seq<u8>) -> Seq<usize>
    decreases b.len(),
{
    if b.len() == 0 {
        seq![0usize]
    } else if b.last() == 0x0a {
        line_starts_of(b.drop_last()).push(b.len() as usize)
    } else {
        line_starts_of(b.drop_last())
    }
}

/// The number of `\n` bytes before offset `o`.
pub open spec fn newlines_before(b: Seq<u8>, o: int) -> nat
    decreases o,
{
    if o <= 0 || b.len() == 0 {
        0
    } else if o > b.len() {
        newlines_before(b, b.len() as int)
    } else if b[o - 1] == 0x0a {
        newlines_before(b, o - 1) + 1
    } else {
        newlines_before(b, o - 1)
    }
}

/// How many of `starts` are at or before `offset`.
pub open spec fn count_at_or_before(starts: Seq<usize>, offset: int) -> nat
    decreases starts.len(),
{
    if starts.len() == 0 {
        0
    } else if starts.last() <= offset {
        count_at_or_before(starts.drop_last(), offset) + 1
    } else {
        count_at_or_before(starts.drop_last(), offset)
    }
}

pub open spec fn strictly_increasing(s: Seq<usize>) -> bool {
    forall|i: int, j: int| 0 <= i < j < s.len() ==> s[i] < s[j]
}

proof fn lemma_count_partition(s: Seq<usize>, offset: int, lo: int)
    requires
        0 <= lo <= s.len(),
        forall|k: int| 0 <= k < lo ==> s[k] <= offset,
        forall|k: int| lo <= k < s.len() ==> s[k] > offset,
    ensures
        count_at_or_before(s, offset) == lo,
    decreases s.len(),
{
    if s.len() > 0 {
        let t = s.drop_last();
        if lo == s.len() {
            lemma_count_partition(t, offset, lo - 1);
        } else {
            lemma_count_partition(t, offset, lo);
        }
    }
}

proof fn lemma_count_push(s: Seq<usize>, v: usize, offset: int)
    ensures
        count_at_or_before(s.push(v), offset) == count_at_or_before(s, offset) + if v <= offset {
            1nat
        } else {
            0nat
        },
{
    assert(s.push(v).drop_last() =~= s);
}

proof fn lemma_count_all(s: Seq<usize>, offset: int)
    requires
        forall|k: int| 0 <= k < s.len() ==> s[k] <= offset,
    ensures
        count_at_or_before(s, offset) == s.len(),
{
    lemma_count_partition(s, offset, s.len() as int);
}

proof fn lemma_starts_within(b: Seq<u8>)
    requires
        b.len() <= usize::MAX,
    ensures
        forall|k: int| 0 <= k < line_starts_of(b).len() ==> line_starts_of(b)[k] <= b.len(),
        line_starts_of(b).len() > 0,
        line_starts_of(b)[0] == 0,
    decreases b.len(),
{
    if b.len() > 0 {
        let t = b.drop_last();
        lemma_starts_within(t);
        if b.last() == 0x0a {
            assert forall|k: int| 0 <= k < line_starts_of(b).len() implies line_starts_of(b)[k] <= b.len() by {
                if k < line_starts_of(t).len() {
                    assert(line_starts_of(b)[k] == line_starts_of(t)[k]);
                }
            }
        }
    }
}

proof fn lemma_newlines_prefix(b: Seq<u8>, o: int)
    requires
        b.len() > 0,
        0 <= o < b.len(),
    ensures
        newlines_before(b, o) == newlines_before(b.drop_last(), o),
    decreases o,
{
    if o > 0 {
        lemma_newlines_prefix(b, o - 1);
    }
}

/// The line `line_at` finds for an offset in a text is one more than the
/// number of `\n` bytes before the offset.
pub proof fn lemma_line_counts_newlines(b: Seq<u8>, offset: int)
    requires
        b.len() <= usize::MAX,
        0 <= offset <= b.len(),
    ensures
        count_at_or_before(line_starts_of(b), offset) == 1 + newlines_before(b, offset),
    decreases b.len(),
{
    if b.len() == 0 {
        assert(seq![0usize].drop_last() =~= Seq::<usize>::empty());
        assert(line_starts_of(b) == seq![0usize]);
        assert(seq![0usize].last() == 0usize);
        assert(count_at_or_before(Seq::<usize>::empty(), offset) == 0);
        assert(count_at_or_before(seq![0usize], offset) == 1);
    } else {
        let t = b.drop_last();
        let n = b.len() as int;
        lemma_starts_within(t);
        let ls = line_starts_of(b);
        let lt = line_starts_of(t);
        let nl: nat = if b.last() == 0x0a { 1 } else { 0 };
        assert(ls == (if b.last() == 0x0a { lt.push(n as usize) } else { lt }));
        if offset < n {
            lemma_line_counts_newlines(t, offset);
            lemma_newlines_prefix(b, offset);
            if b.last() == 0x0a {
                lemma_count_push(lt, n as usize, offset);
            }
            assert(count_at_or_before(ls, offset) == count_at_or_before(lt, offset));
        } else {
            lemma_line_counts_newlines(t, n - 1);
            lemma_count_all(lt, n - 1);
            lemma_count_all(lt, n);
            lemma_newlines_prefix(b, n - 1);
            if b.last() == 0x0a {
                lemma_count_push(lt, n as usize, offset);
            }
            assert(count_at_or_before(ls, offset) == count_at_or_before(lt, n - 1) + nl);
            assert(b[n - 1] == b.last());
            assert(newlines_before(b, n) == newlines_before(b, n - 1) + nl);
        }
    }
}

/// The line `line_at` finds is 1-based and brackets the offset: its start
/// is at or before it, and the next line's start, if any, after it.
pub proof fn lemma_line_brackets(starts: Seq<usize>, offset: int)
    requires
        strictly_increasing(starts),
        starts.len() > 0,
        starts[0] == 0,
        offset >= 0,
    ensures
        ({
            let line = count_at_or_before(starts, offset) as int;
            &&& 1 <= line <= starts.len()
            &&& starts[line - 1] <= offset
            &&& (line == starts.len() || offset < starts[line])
        }),
{
    lemma_count_splits(starts, offset);
}

proof fn lemma_count_splits(s: Seq<usize>, offset: int)
    requires
        strictly_increasing(s),
    ensures
        count_at_or_before(s, offset) <= s.len(),
        forall|k: int| 0 <= k < count_at_or_before(s, offset) ==> s[k] <= offset,
        forall|k: int| count_at_or_before(s, offset) <= k < s.len() ==> s[k] > offset,
    decreases s.len(),
{
    if s.len() > 0 {
        let t = s.drop_last();
        assert(strictly_increasing(t)) by {
            assert forall|i: int, j: int| 0 <= i < j < t.len() implies t[i] < t[j] by {
                assert(t[i] == s[i] && t[j] == s[j]);
            }
        }
        lemma_count_splits(t, offset);
        assert(s.last() == s[s.len() - 1]);
        if s.last() <= offset {
            assert forall|k: int| 0 <= k < t.len() implies t[k] <= offset by {
                assert(t[k] == s[k] && s[k] < s[s.len() - 1]);
            }
            lemma_count_all(t, offset);
            assert(count_at_or_before(s, offset) == s.len());
            assert forall|k: int| 0 <= k < s.len() implies s[k] <= offset by {
                if k < t.len() {
                    assert(t[k] == s[k]);
                }
            }
        } else {
            assert(count_at_or_before(s, offset) == count_at_or_before(t, offset));
            assert forall|k: int| 0 <= k < count_at_or_before(s, offset) implies s[k] <= offset by {
                assert(t[k] == s[k]);
            }
            assert forall|k: int| count_at_or_before(s, offset) <= k < s.len() implies s[k] > offset by {
                if k < t.len() {
                    assert(t[k] == s[k]);
                }
            }
        }
    }
}

/// The start offset of every line of `text`: 0, then one past each `\n`.
pub fn line_starts(text: &str) -> (starts: Vec<usize>)
    requires
        text_fits(text.spec_bytes().len() as int),
    ensures
        starts@ == line_starts_of(text.spec_bytes()),
{
    let b = text.as_bytes();
    let mut starts: Vec<usize> = Vec::new();
    starts.push(0);
    let mut i: usize = 0;
    while i < b.len()
        invariant
            b@ == text.spec_bytes(),
            text_fits(b@.len() as int),
            0 <= i <= b@.len(),
            starts@ == line_starts_of(b@.subrange(0, i as int)),
        decreases b.len() - i,
    {
        assert(b@.subrange(0, i + 1).drop_last() =~= b@.subrange(0, i as int));
        if b[i] == NL {
            starts.push(i + 1);
        }
        i = i + 1;
    }
    assert(b@.subrange(0, b@.len() as int) =~= b@);
    starts
}

/// The 1-based line holding `offset`, given the sorted start offsets of
/// the lines: the number of line starts at or before `offset`.
pub fn line_at(offset: usize, line_starts: &[usize]) -> (line: usize)
    ensures
        line <= line_starts@.len(),
        strictly_increasing(line_starts@) ==> line == count_at_or_before(line_starts@, offset as int),
        strictly_increasing(line_starts@) && line_starts@.len() > 0 && line_starts@[0] == 0 ==> 1 <= line
            && line_starts@[line - 1] <= offset && (line == line_starts@.len() || offset < line_starts@[line as int]),
{
    let mut lo: usize = 0;
    let mut hi: usize = line_starts.len();
    while lo < hi
        invariant
            0 <= lo <= hi <= line_starts@.len(),
            strictly_increasing(line_starts@) ==> forall|k: int| 0 <= k < lo ==> line_starts@[k] <= offset,
            strictly_increasing(line_starts@) ==> forall|k: int|
                hi <= k < line_starts@.len() ==> line_starts@[k] > offset,
        decreases hi - lo,
    {
        let mid = lo + (hi - lo) / 2;
        if line_starts[mid] <= offset {
            lo = mid + 1;
        } else {
            hi = mid;
        }
    }
    proof {
        if strictly_increasing(line_starts@) {
            lemma_count_partition(line_starts@, offset as int, lo as int);
            if line_starts@.len() > 0 && line_starts@[0] == 0 {
                lemma_line_brackets(line_starts@, offset as int);
            }
        }
    }
    lo
}


// ----- delimited regions: comments, entities, expressions -----

/// `<!--` at `i` (the caller has seen the `<`).
pub open spec fn comment_start_at(b: Seq<u8>, i: int) -> bool {
    i + 3 < b.len() && b[i + 1] == BANG && b[i + 2] == DASH && b[i + 3] == DASH
}

/// One past the first `-->` at or after `i`, or the end of the text.
pub open spec fn comment_close_from(b: Seq<u8>, i: int) -> int
    decreases b.len() - i,
{
    if i + 2 < b.len() {
        if b[i] == DASH && b[i + 1] == DASH && b[i + 2] == GT {
            i + 3
        } else {
            comment_close_from(b, i + 1)
        }
    } else {
        b.len() as int
    }
}

/// Where a comment opened at `start` ends: its `-->` is searched from
/// after the `<!--`.
pub open spec fn comment_end(b: Seq<u8>, start: int) -> int {
    comment_close_from(b, start + 4)
}

pub open spec fn entity_end_from(b: Seq<u8>, start: int, i: int) -> Option<int>
    decreases b.len() - i,
{
    if 0 <= i < b.len() && i - start < 12 {
        if b[i] == SEMI {
            Some(i + 1)
        } else if !is_name_byte(b[i]) && b[i] != HASH {
            None
        } else {
            entity_end_from(b, start, i + 1)
        }
    } else {
        None
    }
}

/// `&name;` or `&#123;` at `start`: one past the `;`, found within the
/// next eleven bytes over name characters and `#`.
pub open spec fn entity_end(b: Seq<u8>, start: int) -> Option<int> {
    entity_end_from(b, start, start + 1)
}

pub open spec fn expression_end_from(b: Seq<u8>, start: int, limit: int, i: int, depth: int) -> Option<int>
    decreases limit - i,
{
    if 0 <= i < limit && i < b.len() && i - start < 500 {
        let c = b[i];
        if c == NL || c == LT {
            None
        } else if c == LPAREN {
            expression_end_from(b, start, limit, i + 1, depth + 1)
        } else if c == RPAREN {
            if depth - 1 == 0 {
                Some(i + 1)
            } else {
                expression_end_from(b, start, limit, i + 1, depth - 1)
            }
        } else {
            expression_end_from(b, start, limit, i + 1, depth)
        }
    } else {
        None
    }
}

pub open spec fn is_expression_prefix(c: u8) -> bool {
    c == DOLLAR || c == AT || c == PERCENT
}

/// `$(…)`, `@(…)` or `%(…)` at `start`, parentheses balanced, ending before
/// `limit`: one past the closing `)`. A line break or `<` first, or 500
/// bytes without closing, means there is none.
pub open spec fn expression_end(b: Seq<u8>, start: int, limit: int) -> Option<int> {
    if start + 2 >= limit || start < 0 || start + 1 >= b.len() {
        None
    } else if !is_expression_prefix(b[start]) || b[start + 1] != LPAREN {
        None
    } else {
        expression_end_from(b, start, limit, start + 2, 1)
    }
}

/// The first `c` at or after `i`, or the end of the text.
pub open spec fn index_from(b: Seq<u8>, c: u8, i: int) -> int
    decreases b.len() - i,
{
    if i < 0 || i >= b.len() {
        b.len() as int
    } else if b[i] == c {
        i
    } else {
        index_from(b, c, i + 1)
    }
}

pub proof fn lemma_comment_close_bounds(b: Seq<u8>, i: int)
    requires
        0 <= i,
    ensures
        comment_close_from(b, i) == b.len() || (i + 3 <= comment_close_from(b, i) <= b.len()),
    decreases b.len() - i,
{
    if i + 2 < b.len() && !(b[i] == DASH && b[i + 1] == DASH && b[i + 2] == GT) {
        lemma_comment_close_bounds(b, i + 1);
    }
}

pub proof fn lemma_entity_end_bounds(b: Seq<u8>, start: int, i: int)
    requires
        start < i,
    ensures
        entity_end_from(b, start, i) matches Some(e) ==> i < e <= b.len(),
    decreases b.len() - i,
{
    if 0 <= i < b.len() && i - start < 12 && b[i] != SEMI && (is_name_byte(b[i]) || b[i] == HASH) {
        lemma_entity_end_bounds(b, start, i + 1);
    }
}

pub proof fn lemma_expression_end_bounds(b: Seq<u8>, start: int, limit: int, i: int, depth: int)
    ensures
        expression_end_from(b, start, limit, i, depth) matches Some(e) ==> i < e <= limit && e <= b.len(),
    decreases limit - i,
{
    if 0 <= i < limit && i < b.len() && i - start < 500 {
        let c = b[i];
        if c == NL || c == LT {
        } else if c == LPAREN {
            lemma_expression_end_bounds(b, start, limit, i + 1, depth + 1);
        } else if c == RPAREN {
            if depth - 1 != 0 {
                lemma_expression_end_bounds(b, start, limit, i + 1, depth - 1);
            }
        } else {
            lemma_expression_end_bounds(b, start, limit, i + 1, depth);
        }
    }
}

pub proof fn lemma_expression_bounds(b: Seq<u8>, start: int, limit: int)
    ensures
        expression_end(b, start, limit) matches Some(e) ==> start + 2 < e <= limit && e <= b.len(),
{
    if expression_end(b, start, limit) is Some {
        lemma_expression_end_bounds(b, start, limit, start + 2, 1);
    }
}

pub proof fn lemma_index_from_bounds(b: Seq<u8>, c: u8, i: int)
    requires
        0 <= i,
    ensures
        i <= b.len() ==> i <= index_from(b, c, i),
        index_from(b, c, i) <= b.len(),
        index_from(b, c, i) < b.len() ==> b[index_from(b, c, i)] == c,
    decreases b.len() - i,
{
    if i < b.len() && b[i] != c {
        lemma_index_from_bounds(b, c, i + 1);
    }
}

pub fn is_comment_start(b: &[u8], i: usize) -> (r: bool)
    requires
        text_fits(b@.len() as int),
    ensures
        r == comment_start_at(b@, i as int),
{
    i < b.len() && b.len() - i > 3 && b[i + 1] == BANG && b[i + 2] == DASH && b[i + 3] == DASH
}

pub fn end_of_comment(b: &[u8], start: usize) -> (end: usize)
    requires
        start < b@.len(),
        text_fits(b@.len() as int),
    ensures
        end == comment_end(b@, start as int),
        start < end <= b@.len(),
{
    let n = b.len();
    let mut i = start + 4;
    proof {
        lemma_comment_close_bounds(b@, i as int);
    }
    while i + 2 < n
        invariant
            n == b@.len(),
            text_fits(n as int),
            start + 4 <= i <= n + 3,
            comment_close_from(b@, i as int) == comment_end(b@, start as int),
        decreases n - i,
    {
        if b[i] == DASH && b[i + 1] == DASH && b[i + 2] == GT {
            return i + 3;
        }
        i += 1;
    }
    n
}

pub fn end_of_entity(b: &[u8], start: usize) -> (end: Option<usize>)
    requires
        start < b@.len(),
        text_fits(b@.len() as int),
    ensures
        end matches Some(e) ==> entity_end(b@, start as int) == Some(e as int),
        end is None ==> entity_end(b@, start as int) is None,
        end matches Some(e) ==> start < e <= b@.len(),
{
    let n = b.len();
    let mut i = start + 1;
    proof {
        lemma_entity_end_bounds(b@, start as int, i as int);
    }
    while i < n && i - start < 12
        invariant
            n == b@.len(),
            start < i <= n,
            entity_end_from(b@, start as int, i as int) == entity_end(b@, start as int),
        decreases n - i,
    {
        if b[i] == SEMI {
            return Some(i + 1);
        }
        if !is_name_char(b[i]) && b[i] != HASH {
            return None;
        }
        i += 1;
    }
    None
}

pub fn end_of_expression(b: &[u8], start: usize, limit: usize) -> (end: Option<usize>)
    requires
        start < limit <= b@.len(),
        text_fits(b@.len() as int),
    ensures
        end matches Some(e) ==> expression_end(b@, start as int, limit as int) == Some(e as int),
        end is None ==> expression_end(b@, start as int, limit as int) is None,
        end matches Some(e) ==> start + 2 < e <= limit,
{
    proof {
        lemma_expression_bounds(b@, start as int, limit as int);
    }
    if start + 2 >= limit {
        return None;
    }
    let prefix = b[start];
    if prefix != DOLLAR && prefix != AT && prefix != PERCENT {
        return None;
    }
    if b[start + 1] != LPAREN {
        return None;
    }
    let mut depth: usize = 1;
    let mut i = start + 2;
    while i < limit && i - start < 500
        invariant
            limit <= b@.len(),
            text_fits(b@.len() as int),
            start + 2 <= i,
            1 <= depth <= i - start,
            expression_end_from(b@, start as int, limit as int, i as int, depth as int)
                == expression_end(b@, start as int, limit as int),
        decreases limit - i,
    {
        let c = b[i];
        if c == NL || c == LT {
            return None;
        }
        if c == LPAREN {
            depth += 1;
        } else if c == RPAREN {
            depth -= 1;
            if depth == 0 {
                return Some(i + 1);
            }
        }
        i += 1;
    }
    None
}

pub fn index_of(b: &[u8], c: u8, start: usize) -> (ix: usize)
    ensures
        ix == index_from(b@, c, start as int),
        start <= b@.len() ==> start <= ix,
        ix <= b@.len(),
{
    proof {
        lemma_index_from_bounds(b@, c, start as int);
    }
    if start >= b.len() {
        return b.len();
    }
    let mut i = start;
    while i < b.len() && b[i] != c
        invariant
            start <= i <= b@.len(),
            index_from(b@, c, i as int) == index_from(b@, c, start as int),
        decreases b.len() - i,
    {
        i += 1;
    }
    i
}

// ----- slicing the text at ASCII delimiters -----

/// `p` sits at the end of the text, on an ASCII byte, or just after one:
/// every offset the scanners cut at is of this kind.
pub open spec fn ascii_edge(b: Seq<u8>, p: int) -> bool {
    ||| p == 0
    ||| p == b.len()
    ||| 0 <= p < b.len() && b[p] < 0x80
    ||| 0 < p < b.len() && b[p - 1] < 0x80
}

/// In UTF-8 a continuation byte never follows an ASCII byte.
pub proof fn lemma_no_continuation_after_ascii(b: Seq<u8>, p: int)
    requires
        valid_utf8(b),
        0 < p < b.len(),
        b[p - 1] < 0x80,
    ensures
        !is_continuation_byte(b[p]),
    decreases b.len(),
{
    reveal_with_fuel(valid_utf8, 2);
    let l = length_of_first_scalar(b);
    let rest = pop_first_scalar(b);
    assert(rest.len() == b.len() - l);
    if p < l {
        assert(b[p - 1] >= 0x80);
    } else if p == l {
        assert(rest[0] == b[p]);
    } else {
        assert(rest[p - l - 1] == b[p - 1]);
        assert(rest[p - l] == b[p]);
        lemma_no_continuation_after_ascii(rest, p - l);
    }
}

/// Offsets at ASCII edges are char boundaries of valid UTF-8.
pub proof fn lemma_ascii_edge_is_boundary(b: Seq<u8>, p: int)
    requires
        valid_utf8(b),
        ascii_edge(b, p),
    ensures
        is_char_boundary(b, p),
{
    if p == 0 || p == b.len() {
        is_char_boundary_start_end_of_seq(b);
    } else {
        if !(b[p] < 0x80) {
            lemma_no_continuation_after_ascii(b, p);
        }
        is_char_boundary_iff_not_is_continuation_byte(b, p);
    }
}

/// The text between two byte offsets at ASCII edges, as an owned string.
pub fn slice_text(text: &str, start: usize, end: usize) -> (s: String)
    requires
        start <= end <= text.spec_bytes().len(),
        ascii_edge(text.spec_bytes(), start as int),
        ascii_edge(text.spec_bytes(), end as int),
    ensures
        encode_utf8(s@) == text.spec_bytes().subrange(start as int, end as int),
{
    let ghost b = text.spec_bytes();
    proof {
        encode_utf8_valid_utf8(text@);
        lemma_ascii_edge_is_boundary(b, start as int);
        valid_utf8_split(b, start as int);
    }
    let (_, rest) = text.split_at(start);
    let ghost r = rest.spec_bytes();
    proof {
        assert(r =~= b.subrange(start as int, b.len() as int));
        let p = end - start;
        if p > 0 {
            assert(r[p - 1] == b[end - 1]);
            if p < r.len() {
                assert(r[p as int] == b[end as int]);
            }
            assert(ascii_edge(r, p as int));
            lemma_ascii_edge_is_boundary(r, p as int);
        }
    }
    let (name, _) = rest.split_at(end - start);
    proof {
        assert(name.spec_bytes() =~= b.subrange(start as int, end as int));
    }
    name.to_owned()
}

} // verus!
