//! Syntax highlighting: one kind per byte, a later paint (an expression
//! inside an attribute value) overwriting an earlier one.

use std::ops::Range;
use vstd::prelude::*;
use vstd::string::StringSliceAdditionalSpecFns;
use super::lex::{
    comment_end, comment_start_at, end_of_comment, end_of_entity, end_of_expression, entity_end,
    expression_end, index_from, index_of, is_comment_start, is_name_byte, is_name_char, is_ws,
    is_ws_byte, lemma_comment_close_bounds, lemma_entity_end_bounds, lemma_expression_bounds,
    lemma_index_from_bounds, is_expression_prefix, text_fits, AMP, AT, BANG, DOLLAR, DQUOTE, EQ, GT, LT, PERCENT,
    QUESTION, SLASH, SQUOTE,
};

verus! {

#[derive(Clone, Copy, PartialEq, Eq, Debug, Structural)]
pub enum HighlightKind {
    Text,
    Punctuation,
    ElementName,
    AttributeName,
    AttributeValue,
    Comment,
    Entity,
    Expression,
}

/// The byte each kind is stored as.
pub open spec fn code_of(kind: HighlightKind) -> u8 {
    match kind {
        HighlightKind::Text => 0,
        HighlightKind::Punctuation => 1,
        HighlightKind::ElementName => 2,
        HighlightKind::AttributeName => 3,
        HighlightKind::AttributeValue => 4,
        HighlightKind::Comment => 5,
        HighlightKind::Entity => 6,
        HighlightKind::Expression => 7,
    }
}

/// The kind a stored byte stands for; anything unknown reads as text.
pub open spec fn kind_of_code(v: u8) -> HighlightKind {
    if v == 1 {
        HighlightKind::Punctuation
    } else if v == 2 {
        HighlightKind::ElementName
    } else if v == 3 {
        HighlightKind::AttributeName
    } else if v == 4 {
        HighlightKind::AttributeValue
    } else if v == 5 {
        HighlightKind::Comment
    } else if v == 6 {
        HighlightKind::Entity
    } else if v == 7 {
        HighlightKind::Expression
    } else {
        HighlightKind::Text
    }
}

impl HighlightKind {
    /// The byte this kind is stored as; reading it back gives the kind.
    pub fn code(self) -> (r: u8)
        ensures
            r == code_of(self),
            r <= 7,
            kind_of_code(r) == self,
    {
        match self {
            HighlightKind::Text => 0,
            HighlightKind::Punctuation => 1,
            HighlightKind::ElementName => 2,
            HighlightKind::AttributeName => 3,
            HighlightKind::AttributeValue => 4,
            HighlightKind::Comment => 5,
            HighlightKind::Entity => 6,
            HighlightKind::Expression => 7,
        }
    }

    /// The kind a stored byte stands for: 0 and anything above 7 read as
    /// text, and a known byte gives back the kind stored as it.
    pub fn from_u8(v: u8) -> (r: Self)
        ensures
            r == kind_of_code(v),
            v == 0 || v > 7 ==> r == HighlightKind::Text,
            v <= 7 ==> code_of(r) == v,
    {
        match v {
            1 => Self::Punctuation,
            2 => Self::ElementName,
            3 => Self::AttributeName,
            4 => Self::AttributeValue,
            5 => Self::Comment,
            6 => Self::Entity,
            7 => Self::Expression,
            _ => Self::Text,
        }
    }
}

// ----- the scan, as functions over the byte sequence -----

/// `k` with the bytes in `[start, end)` set to `kind`.
pub open spec fn paint(k: Seq<u8>, kind: HighlightKind, start: int, end: int) -> Seq<u8> {
    Seq::new(k.len(), |j: int| if start <= j < end { code_of(kind) } else { k[j] })
}

/// The first offset at or after `i` that is not a name character.
pub open spec fn skip_names(b: Seq<u8>, i: int) -> int
    decreases b.len() - i,
{
    if 0 <= i < b.len() && is_name_byte(b[i]) {
        skip_names(b, i + 1)
    } else {
        i
    }
}

/// The first offset at or after `i` that is not whitespace.
pub open spec fn skip_ws(b: Seq<u8>, i: int) -> int
    decreases b.len() - i,
{
    if 0 <= i < b.len() && is_ws_byte(b[i]) {
        skip_ws(b, i + 1)
    } else {
        i
    }
}

/// The end of an attribute value opened by `delimiter`: the closing
/// delimiter, a `<`, or the end of the text.
pub open spec fn value_end(b: Seq<u8>, i: int, delimiter: u8) -> int
    decreases b.len() - i,
{
    if 0 <= i < b.len() && b[i] != delimiter && b[i] != LT {
        value_end(b, i + 1, delimiter)
    } else {
        i
    }
}

/// Paints every expression that starts in `[j, limit)` and ends by `limit`.
pub open spec fn paint_expressions(b: Seq<u8>, j: int, limit: int, k: Seq<u8>) -> Seq<u8>
    decreases limit - j,
{
    if j < limit {
        match expression_end(b, j, limit) {
            Some(e) => {
                proof {
                    lemma_expression_bounds(b, j, limit);
                }
                paint_expressions(b, e, limit, paint(k, HighlightKind::Expression, j, e))
            },
            None => paint_expressions(b, j + 1, limit, k),
        }
    } else {
        k
    }
}

/// The attributes of a tag from `i` on, up to and including its `>`:
/// where the scan resumes, and the kinds painted.
pub open spec fn tag_attributes(b: Seq<u8>, i: int, k: Seq<u8>) -> (int, Seq<u8>)
    decreases b.len() - i,
{
    if i < 0 || i >= b.len() {
        (b.len() as int, k)
    } else if b[i] == GT {
        (i + 1, paint(k, HighlightKind::Punctuation, i, i + 1))
    } else if is_ws_byte(b[i]) {
        tag_attributes(b, i + 1, k)
    } else if b[i] == SLASH {
        tag_attributes(b, i + 1, paint(k, HighlightKind::Punctuation, i, i + 1))
    } else {
        let attr_end = skip_names(b, i);
        proof {
            lemma_skip_names_bounds(b, i);
        }
        if attr_end == i {
            tag_attributes(b, i + 1, k)
        } else {
            let k1 = paint(k, HighlightKind::AttributeName, i, attr_end);
            let j = skip_ws(b, attr_end);
            proof {
                lemma_skip_ws_bounds(b, attr_end);
            }
            if j >= b.len() || b[j] != EQ {
                tag_attributes(b, j, k1)
            } else {
                let k2 = paint(k1, HighlightKind::Punctuation, j, j + 1);
                let m = skip_ws(b, j + 1);
                proof {
                    lemma_skip_ws_bounds(b, j + 1);
                }
                if m >= b.len() || (b[m] != DQUOTE && b[m] != SQUOTE) {
                    tag_attributes(b, m, k2)
                } else {
                    let d = b[m];
                    let k3 = paint(k2, HighlightKind::Punctuation, m, m + 1);
                    let vs = m + 1;
                    let ve = value_end(b, vs, d);
                    proof {
                        lemma_value_end_bounds(b, vs, d);
                    }
                    let k4 = if ve > vs {
                        paint_expressions(b, vs, ve, paint(k3, HighlightKind::AttributeValue, vs, ve))
                    } else {
                        k3
                    };
                    if ve < b.len() && b[ve] == d {
                        tag_attributes(b, ve + 1, paint(k4, HighlightKind::Punctuation, ve, ve + 1))
                    } else {
                        tag_attributes(b, ve, k4)
                    }
                }
            }
        }
    }
}

/// A tag opened by the `<` at `start`: its `<` or `</`, element name and
/// attributes.
pub open spec fn tag_highlight(b: Seq<u8>, start: int, k: Seq<u8>) -> (int, Seq<u8>) {
    let i = if start + 1 < b.len() && b[start + 1] == SLASH {
        start + 2
    } else {
        start + 1
    };
    let k1 = paint(k, HighlightKind::Punctuation, start, i);
    let name_end = skip_names(b, i);
    let k2 = paint(k1, HighlightKind::ElementName, i, name_end);
    tag_attributes(b, name_end, k2)
}

/// The scan from `i` on, given the kinds painted so far.
pub open spec fn scan_from(b: Seq<u8>, i: int, k: Seq<u8>) -> Seq<u8>
    decreases b.len() - i,
{
    if i < 0 || i >= b.len() {
        k
    } else if b[i] == LT {
        if comment_start_at(b, i) {
            let e = comment_end(b, i);
            proof {
                lemma_comment_close_bounds(b, i + 4);
            }
            scan_from(b, e, paint(k, HighlightKind::Comment, i, e))
        } else if i + 1 < b.len() && (b[i + 1] == BANG || b[i + 1] == QUESTION) {
            let ix = index_from(b, GT, i);
            proof {
                lemma_index_from_bounds(b, GT, i);
            }
            let e = if ix + 1 < b.len() {
                ix + 1
            } else {
                b.len() as int
            };
            scan_from(b, e, paint(k, HighlightKind::Punctuation, i, e))
        } else {
            let (e, k1) = tag_highlight(b, i, k);
            proof {
                lemma_tag_highlight_advances(b, i, k);
            }
            scan_from(b, e, k1)
        }
    } else if b[i] == AMP && entity_end(b, i) is Some {
        let e = entity_end(b, i)->0;
        proof {
            lemma_entity_end_bounds(b, i, i + 1);
        }
        scan_from(b, e, paint(k, HighlightKind::Entity, i, e))
    } else if expression_end(b, i, b.len() as int) is Some {
        let e = expression_end(b, i, b.len() as int)->0;
        proof {
            lemma_expression_bounds(b, i, b.len() as int);
        }
        scan_from(b, e, paint(k, HighlightKind::Expression, i, e))
    } else {
        scan_from(b, i + 1, k)
    }
}

/// The kind of every byte of `b`, as stored codes.
pub open spec fn highlight_codes(b: Seq<u8>) -> Seq<u8> {
    scan_from(b, 0, Seq::new(b.len(), |j: int| 0u8))
}

pub proof fn lemma_skip_names_bounds(b: Seq<u8>, i: int)
    ensures
        i <= skip_names(b, i),
        0 <= i <= b.len() ==> skip_names(b, i) <= b.len(),
    decreases b.len() - i,
{
    if 0 <= i < b.len() && is_name_byte(b[i]) {
        lemma_skip_names_bounds(b, i + 1);
    }
}

pub proof fn lemma_skip_ws_bounds(b: Seq<u8>, i: int)
    ensures
        i <= skip_ws(b, i),
        0 <= i <= b.len() ==> skip_ws(b, i) <= b.len(),
    decreases b.len() - i,
{
    if 0 <= i < b.len() && is_ws_byte(b[i]) {
        lemma_skip_ws_bounds(b, i + 1);
    }
}

pub proof fn lemma_value_end_bounds(b: Seq<u8>, i: int, delimiter: u8)
    ensures
        i <= value_end(b, i, delimiter),
        0 <= i <= b.len() ==> value_end(b, i, delimiter) <= b.len(),
    decreases b.len() - i,
{
    if 0 <= i < b.len() && b[i] != delimiter && b[i] != LT {
        lemma_value_end_bounds(b, i + 1, delimiter);
    }
}

pub proof fn lemma_tag_attributes_advances(b: Seq<u8>, i: int, k: Seq<u8>)
    requires
        0 <= i,
    ensures
        i < tag_attributes(b, i, k).0 || tag_attributes(b, i, k).0 == b.len(),
        tag_attributes(b, i, k).0 <= b.len(),
    decreases b.len() - i,
{
    if i < 0 || i >= b.len() {
    } else if b[i] == GT {
    } else if is_ws_byte(b[i]) {
        lemma_tag_attributes_advances(b, i + 1, k);
    } else if b[i] == SLASH {
        lemma_tag_attributes_advances(b, i + 1, paint(k, HighlightKind::Punctuation, i, i + 1));
    } else {
        let attr_end = skip_names(b, i);
        lemma_skip_names_bounds(b, i);
        if attr_end == i {
            lemma_tag_attributes_advances(b, i + 1, k);
        } else {
            let k1 = paint(k, HighlightKind::AttributeName, i, attr_end);
            let j = skip_ws(b, attr_end);
            lemma_skip_ws_bounds(b, attr_end);
            if j >= b.len() || b[j] != EQ {
                lemma_tag_attributes_advances(b, j, k1);
            } else {
                let k2 = paint(k1, HighlightKind::Punctuation, j, j + 1);
                let m = skip_ws(b, j + 1);
                lemma_skip_ws_bounds(b, j + 1);
                if m >= b.len() || (b[m] != DQUOTE && b[m] != SQUOTE) {
                    lemma_tag_attributes_advances(b, m, k2);
                } else {
                    let d = b[m];
                    let k3 = paint(k2, HighlightKind::Punctuation, m, m + 1);
                    let vs = m + 1;
                    let ve = value_end(b, vs, d);
                    lemma_value_end_bounds(b, vs, d);
                    let k4 = if ve > vs {
                        paint_expressions(b, vs, ve, paint(k3, HighlightKind::AttributeValue, vs, ve))
                    } else {
                        k3
                    };
                    if ve < b.len() && b[ve] == d {
                        lemma_tag_attributes_advances(b, ve + 1, paint(k4, HighlightKind::Punctuation, ve, ve + 1));
                    } else {
                        lemma_tag_attributes_advances(b, ve, k4);
                    }
                }
            }
        }
    }
}

pub proof fn lemma_tag_highlight_advances(b: Seq<u8>, start: int, k: Seq<u8>)
    requires
        0 <= start < b.len(),
    ensures
        start < tag_highlight(b, start, k).0 <= b.len(),
{
    let i = if start + 1 < b.len() && b[start + 1] == SLASH {
        start + 2
    } else {
        start + 1
    };
    let k1 = paint(k, HighlightKind::Punctuation, start, i);
    lemma_skip_names_bounds(b, i);
    let name_end = skip_names(b, i);
    lemma_tag_attributes_advances(b, name_end, paint(k1, HighlightKind::ElementName, i, name_end));
}

// ----- what the scan leaves alone, and what it paints as an element name -----

/// `k2` is `k`, of the same length, with nothing before `i` changed.
pub open spec fn same_below(k: Seq<u8>, k2: Seq<u8>, i: int) -> bool {
    &&& k2.len() == k.len()
    &&& forall|x: int| 0 <= x < i && x < k.len() ==> k2[x] == k[x]
}

proof fn lemma_paint_expressions_frame(b: Seq<u8>, j: int, limit: int, k: Seq<u8>)
    requires
        0 <= j,
    ensures
        same_below(k, paint_expressions(b, j, limit, k), j),
    decreases limit - j,
{
    if j < limit {
        match expression_end(b, j, limit) {
            Some(e) => {
                lemma_expression_bounds(b, j, limit);
                let k1 = paint(k, HighlightKind::Expression, j, e);
                lemma_paint_expressions_frame(b, e, limit, k1);
            },
            None => {
                lemma_paint_expressions_frame(b, j + 1, limit, k);
            },
        }
    }
}

proof fn lemma_tag_attributes_frame(b: Seq<u8>, i: int, k: Seq<u8>)
    requires
        0 <= i,
    ensures
        same_below(k, tag_attributes(b, i, k).1, i),
    decreases b.len() - i,
{
    if i < 0 || i >= b.len() {
    } else if b[i] == GT {
    } else if is_ws_byte(b[i]) {
        lemma_tag_attributes_frame(b, i + 1, k);
    } else if b[i] == SLASH {
        lemma_tag_attributes_frame(b, i + 1, paint(k, HighlightKind::Punctuation, i, i + 1));
    } else {
        let attr_end = skip_names(b, i);
        lemma_skip_names_bounds(b, i);
        if attr_end == i {
            lemma_tag_attributes_frame(b, i + 1, k);
        } else {
            let k1 = paint(k, HighlightKind::AttributeName, i, attr_end);
            let j = skip_ws(b, attr_end);
            lemma_skip_ws_bounds(b, attr_end);
            if j >= b.len() || b[j] != EQ {
                lemma_tag_attributes_frame(b, j, k1);
            } else {
                let k2 = paint(k1, HighlightKind::Punctuation, j, j + 1);
                let m = skip_ws(b, j + 1);
                lemma_skip_ws_bounds(b, j + 1);
                if m >= b.len() || (b[m] != DQUOTE && b[m] != SQUOTE) {
                    lemma_tag_attributes_frame(b, m, k2);
                } else {
                    let d = b[m];
                    let k3 = paint(k2, HighlightKind::Punctuation, m, m + 1);
                    let vs = m + 1;
                    let ve = value_end(b, vs, d);
                    lemma_value_end_bounds(b, vs, d);
                    let k4 = if ve > vs {
                        lemma_paint_expressions_frame(b, vs, ve, paint(k3, HighlightKind::AttributeValue, vs, ve));
                        paint_expressions(b, vs, ve, paint(k3, HighlightKind::AttributeValue, vs, ve))
                    } else {
                        k3
                    };
                    assert(same_below(k, k4, i));
                    if ve < b.len() && b[ve] == d {
                        lemma_tag_attributes_frame(b, ve + 1, paint(k4, HighlightKind::Punctuation, ve, ve + 1));
                    } else {
                        lemma_tag_attributes_frame(b, ve, k4);
                    }
                }
            }
        }
    }
}

proof fn lemma_tag_highlight_frame(b: Seq<u8>, start: int, k: Seq<u8>)
    requires
        0 <= start,
    ensures
        same_below(k, tag_highlight(b, start, k).1, start),
{
    let i = if start + 1 < b.len() && b[start + 1] == SLASH {
        start + 2
    } else {
        start + 1
    };
    let k1 = paint(k, HighlightKind::Punctuation, start, i);
    lemma_skip_names_bounds(b, i);
    let name_end = skip_names(b, i);
    let k2 = paint(k1, HighlightKind::ElementName, i, name_end);
    lemma_tag_attributes_frame(b, name_end, k2);
}

/// The scan from `i` on never repaints a byte before `i`.
pub proof fn lemma_scan_keeps_what_is_behind(b: Seq<u8>, i: int, k: Seq<u8>)
    requires
        0 <= i,
    ensures
        same_below(k, scan_from(b, i, k), i),
    decreases b.len() - i,
{
    if i < 0 || i >= b.len() {
    } else if b[i] == LT {
        if comment_start_at(b, i) {
            let e = comment_end(b, i);
            lemma_comment_close_bounds(b, i + 4);
            lemma_scan_keeps_what_is_behind(b, e, paint(k, HighlightKind::Comment, i, e));
        } else if i + 1 < b.len() && (b[i + 1] == BANG || b[i + 1] == QUESTION) {
            let ix = index_from(b, GT, i);
            lemma_index_from_bounds(b, GT, i);
            let e = if ix + 1 < b.len() {
                ix + 1
            } else {
                b.len() as int
            };
            lemma_scan_keeps_what_is_behind(b, e, paint(k, HighlightKind::Punctuation, i, e));
        } else {
            let (e, k1) = tag_highlight(b, i, k);
            lemma_tag_highlight_advances(b, i, k);
            lemma_tag_highlight_frame(b, i, k);
            lemma_scan_keeps_what_is_behind(b, e, k1);
        }
    } else if b[i] == AMP && entity_end(b, i) is Some {
        let e = entity_end(b, i)->0;
        lemma_entity_end_bounds(b, i, i + 1);
        lemma_scan_keeps_what_is_behind(b, e, paint(k, HighlightKind::Entity, i, e));
    } else if expression_end(b, i, b.len() as int) is Some {
        let e = expression_end(b, i, b.len() as int)->0;
        lemma_expression_bounds(b, i, b.len() as int);
        lemma_scan_keeps_what_is_behind(b, e, paint(k, HighlightKind::Expression, i, e));
    } else {
        lemma_scan_keeps_what_is_behind(b, i + 1, k);
    }
}

proof fn lemma_skip_names_past(b: Seq<u8>, s: int, j: int)
    requires
        0 <= s <= j < b.len(),
        forall|m: int| s <= m <= j ==> is_name_byte(#[trigger] b[m]),
    ensures
        j < skip_names(b, s),
    decreases j - s,
{
    assert(is_name_byte(b[s]));
    lemma_skip_names_bounds(b, s + 1);
    if s < j {
        lemma_skip_names_past(b, s + 1, j);
    }
}

/// The first name after a tag's `<`, or after the `</` of a closing tag,
/// is the element name: wherever the scan meets such a tag, the `<` (and
/// the `/` of a closing tag) is punctuation and every byte of the name
/// after it is painted as an element name, whatever follows in the text.
pub proof fn lemma_tag_name_is_element_name(b: Seq<u8>, i: int, k: Seq<u8>, j: int)
    requires
        0 <= i,
        i + 1 < b.len(),
        b[i] == LT,
        b[i + 1] != BANG,
        b[i + 1] != QUESTION,
        k.len() == b.len(),
        (if b[i + 1] == SLASH { i + 2 } else { i + 1 }) <= j < b.len(),
        forall|m: int| (if b[i + 1] == SLASH { i + 2 } else { i + 1 }) <= m <= j ==> is_name_byte(#[trigger] b[m]),
    ensures
        scan_from(b, i, k)[j] == code_of(HighlightKind::ElementName),
        scan_from(b, i, k)[i] == code_of(HighlightKind::Punctuation),
        b[i + 1] == SLASH ==> scan_from(b, i, k)[i + 1] == code_of(HighlightKind::Punctuation),
{
    let s = if b[i + 1] == SLASH {
        i + 2
    } else {
        i + 1
    };
    assert(!comment_start_at(b, i));
    let k1 = paint(k, HighlightKind::Punctuation, i, s);
    lemma_skip_names_past(b, s, j);
    lemma_skip_names_bounds(b, s);
    let name_end = skip_names(b, s);
    let k2 = paint(k1, HighlightKind::ElementName, s, name_end);
    lemma_tag_attributes_frame(b, name_end, k2);
    lemma_tag_attributes_advances(b, name_end, k2);
    let (e, k3) = tag_highlight(b, i, k);
    assert(k3 == tag_attributes(b, name_end, k2).1);
    assert(e == tag_attributes(b, name_end, k2).0);
    assert(j < e);
    lemma_scan_keeps_what_is_behind(b, e, k3);
    assert(scan_from(b, i, k) == scan_from(b, e, k3));
    assert(k3[j] == k2[j]);
    assert(k3[i] == k2[i]);
}

/// A text that opens with a tag, `<Name` or `</Name`, has that name
/// painted as an element name from the first byte after the `<` or `</`.
pub proof fn lemma_leading_tag_name(b: Seq<u8>, j: int)
    requires
        1 < b.len(),
        b[0] == LT,
        b[1] != BANG,
        b[1] != QUESTION,
        (if b[1] == SLASH { 2int } else { 1int }) <= j < b.len(),
        forall|m: int| (if b[1] == SLASH { 2int } else { 1int }) <= m <= j ==> is_name_byte(#[trigger] b[m]),
    ensures
        highlight_codes(b)[j] == code_of(HighlightKind::ElementName),
        highlight_codes(b)[0] == code_of(HighlightKind::Punctuation),
        b[1] == SLASH ==> highlight_codes(b)[1] == code_of(HighlightKind::Punctuation),
{
    lemma_tag_name_is_element_name(b, 0, Seq::new(b.len(), |x: int| 0u8), j);
}

// ----- executable scan -----

/// One kind per byte: cheap to build, trivial to slice per line, and a
/// later paint (an expression inside a string) simply overwrites.
pub struct Highlights {
    kinds: Vec<u8>,
}

impl View for Highlights {
    type V = Seq<u8>;

    closed spec fn view(&self) -> Seq<u8> {
        self.kinds@
    }
}

impl Highlights {
    /// Every stored byte is the code of some kind.
    #[verifier::type_invariant]
    closed spec fn codes_valid(self) -> bool {
        forall|j: int| 0 <= j < self.kinds@.len() ==> self.kinds@[j] < 8
    }
}

pub open spec fn all_codes_valid(k: Seq<u8>) -> bool {
    forall|j: int| 0 <= j < k.len() ==> k[j] < 8
}

fn paint_exec(kinds: &mut Vec<u8>, kind: HighlightKind, start: usize, end: usize)
    requires
        all_codes_valid(old(kinds)@),
    ensures
        final(kinds)@ == paint(old(kinds)@, kind, start as int, end as int),
        final(kinds)@.len() == old(kinds)@.len(),
        all_codes_valid(final(kinds)@),
{
    let n = kinds.len();
    let stop = if end < n { end } else { n };
    let code = kind.code();
    let mut j = start;
    while j < stop
        invariant
            kinds@.len() == n,
            n == old(kinds)@.len(),
            stop <= n,
            stop == (if end < n { end } else { n }),
            start <= j,
            j <= stop || j == start,
            all_codes_valid(kinds@),
            code == code_of(kind),
            forall|x: int|
                0 <= x < n ==> #[trigger] kinds@[x] == (if start <= x < j { code } else { old(kinds)@[x] }),
        decreases stop - j,
    {
        kinds.set(j, code);
        j += 1;
    }
    assert(kinds@ =~= paint(old(kinds)@, kind, start as int, end as int));
}

pub(crate) fn skip_name_chars(b: &[u8], i: usize) -> (r: usize)
    requires
        i <= b@.len(),
    ensures
        r == skip_names(b@, i as int),
        i <= r <= b@.len(),
{
    let mut j = i;
    while j < b.len() && is_name_char(b[j])
        invariant
            i <= j <= b@.len(),
            skip_names(b@, j as int) == skip_names(b@, i as int),
        decreases b.len() - j,
    {
        j += 1;
    }
    j
}

pub(crate) fn skip_whitespace(b: &[u8], i: usize) -> (r: usize)
    requires
        i <= b@.len(),
    ensures
        r == skip_ws(b@, i as int),
        i <= r <= b@.len(),
{
    let mut j = i;
    while j < b.len() && is_ws(b[j])
        invariant
            i <= j <= b@.len(),
            skip_ws(b@, j as int) == skip_ws(b@, i as int),
        decreases b.len() - j,
    {
        j += 1;
    }
    j
}

pub(crate) fn find_value_end(b: &[u8], i: usize, delimiter: u8) -> (r: usize)
    requires
        i <= b@.len(),
    ensures
        r == value_end(b@, i as int, delimiter),
        i <= r <= b@.len(),
        r < b@.len() ==> b@[r as int] == delimiter || b@[r as int] == LT,
{
    let mut j = i;
    while j < b.len() && b[j] != delimiter && b[j] != LT
        invariant
            i <= j <= b@.len(),
            value_end(b@, j as int, delimiter) == value_end(b@, i as int, delimiter),
        decreases b.len() - j,
    {
        j += 1;
    }
    j
}

fn paint_value_expressions(b: &[u8], kinds: &mut Vec<u8>, start: usize, limit: usize)
    requires
        start <= limit <= b@.len(),
        text_fits(b@.len() as int),
        all_codes_valid(old(kinds)@),
    ensures
        final(kinds)@ == paint_expressions(b@, start as int, limit as int, old(kinds)@),
        final(kinds)@.len() == old(kinds)@.len(),
        all_codes_valid(final(kinds)@),
{
    let mut j = start;
    while j < limit
        invariant
            start <= j <= limit <= b@.len(),
            text_fits(b@.len() as int),
            all_codes_valid(kinds@),
            kinds@.len() == old(kinds)@.len(),
            paint_expressions(b@, j as int, limit as int, kinds@)
                == paint_expressions(b@, start as int, limit as int, old(kinds)@),
        decreases limit - j,
    {
        match end_of_expression(b, j, limit) {
            Some(end) => {
                paint_exec(kinds, HighlightKind::Expression, j, end);
                j = end;
            },
            None => {
                j += 1;
            },
        }
    }
}

fn scan_tag_highlight(b: &[u8], start: usize, kinds: &mut Vec<u8>) -> (next: usize)
    requires
        start < b@.len(),
        text_fits(b@.len() as int),
        all_codes_valid(old(kinds)@),
    ensures
        (next as int, final(kinds)@) == tag_highlight(b@, start as int, old(kinds)@),
        final(kinds)@.len() == old(kinds)@.len(),
        all_codes_valid(final(kinds)@),
{
    let n = b.len();
    let mut i = start + 1;
    if i < n && b[i] == SLASH {
        i += 1;
    }
    paint_exec(kinds, HighlightKind::Punctuation, start, i);
    let name_start = i;
    i = skip_name_chars(b, i);
    paint_exec(kinds, HighlightKind::ElementName, name_start, i);
    let ghost target = tag_highlight(b@, start as int, old(kinds)@);
    while i < n && b[i] != GT
        invariant
            n == b@.len(),
            text_fits(n as int),
            i <= n,
            all_codes_valid(kinds@),
            kinds@.len() == old(kinds)@.len(),
            tag_attributes(b@, i as int, kinds@) == target,
        decreases n - i,
    {
        if is_ws(b[i]) {
            i += 1;
            continue;
        }
        if b[i] == SLASH {
            paint_exec(kinds, HighlightKind::Punctuation, i, i + 1);
            i += 1;
            continue;
        }
        let attr_start = i;
        i = skip_name_chars(b, i);
        if i == attr_start {
            i += 1;
            continue;
        }
        paint_exec(kinds, HighlightKind::AttributeName, attr_start, i);
        i = skip_whitespace(b, i);
        if i >= n || b[i] != EQ {
            continue;
        }
        paint_exec(kinds, HighlightKind::Punctuation, i, i + 1);
        i = skip_whitespace(b, i + 1);
        if i >= n || (b[i] != DQUOTE && b[i] != SQUOTE) {
            continue;
        }
        let delimiter = b[i];
        paint_exec(kinds, HighlightKind::Punctuation, i, i + 1);
        i += 1;
        let value_start = i;
        i = find_value_end(b, i, delimiter);
        if i > value_start {
            paint_exec(kinds, HighlightKind::AttributeValue, value_start, i);
            paint_value_expressions(b, kinds, value_start, i);
        }
        if i < n && b[i] == delimiter {
            paint_exec(kinds, HighlightKind::Punctuation, i, i + 1);
            i += 1;
        }
    }
    if i < n {
        paint_exec(kinds, HighlightKind::Punctuation, i, i + 1);
        return i + 1;
    }
    n
}

impl Highlights {
    /// The highlight kind of every byte of `text`.
    pub fn scan(text: &str) -> (h: Highlights)
        requires
            text_fits(text.spec_bytes().len() as int),
        ensures
            h@ == highlight_codes(text.spec_bytes()),
            h@.len() == text.spec_bytes().len(),
            all_codes_valid(h@),
    {
        let b = text.as_bytes();
        let n = b.len();
        let mut kinds: Vec<u8> = Vec::new();
        let mut z: usize = 0;
        while z < n
            invariant
                z <= n,
                kinds@ =~= Seq::new(z as nat, |j: int| 0u8),
            decreases n - z,
        {
            kinds.push(0);
            z += 1;
        }
        let ghost target = highlight_codes(b@);
        let mut i: usize = 0;
        while i < n
            invariant
                n == b@.len(),
                b@ == text.spec_bytes(),
                text_fits(n as int),
                i <= n,
                kinds@.len() == n,
                all_codes_valid(kinds@),
                scan_from(b@, i as int, kinds@) == target,
            decreases n - i,
        {
            let c = b[i];
            if c == LT {
                if is_comment_start(b, i) {
                    let end = end_of_comment(b, i);
                    paint_exec(&mut kinds, HighlightKind::Comment, i, end);
                    i = end;
                    continue;
                }
                if i + 1 < n && (b[i + 1] == BANG || b[i + 1] == QUESTION) {
                    let ix = index_of(b, GT, i);
                    let end = if ix + 1 < n {
                        ix + 1
                    } else {
                        n
                    };
                    paint_exec(&mut kinds, HighlightKind::Punctuation, i, end);
                    i = end;
                    continue;
                }
                proof {
                    lemma_tag_highlight_advances(b@, i as int, kinds@);
                }
                i = scan_tag_highlight(b, i, &mut kinds);
                continue;
            }
            if c == AMP {
                if let Some(end) = end_of_entity(b, i) {
                    paint_exec(&mut kinds, HighlightKind::Entity, i, end);
                    i = end;
                    continue;
                }
            }
            if let Some(end) = end_of_expression(b, i, n) {
                paint_exec(&mut kinds, HighlightKind::Expression, i, end);
                i = end;
                continue;
            }
            i += 1;
        }
        Highlights { kinds }
    }
}

/// `runs` cuts `s` into maximal stretches of one kind, in order.
pub open spec fn is_run_partition(runs: Seq<(Range<usize>, HighlightKind)>, s: Seq<u8>) -> bool {
    &&& (runs.len() == 0 <==> s.len() == 0)
    &&& runs.len() > 0 ==> runs[0].0.start == 0 && runs.last().0.end == s.len()
    &&& forall|r: int| 0 <= r < runs.len() ==> (#[trigger] runs[r]).0.start < runs[r].0.end && runs[r].0.end <= s.len()
    &&& forall|r: int| 0 <= r < runs.len() - 1 ==> runs[r].0.end == #[trigger] runs[r + 1].0.start
    &&& forall|r: int, j: int|
        0 <= r < runs.len() && runs[r].0.start <= j < runs[r].0.end ==> #[trigger] s[j] == code_of(
            #[trigger] runs[r].1,
        )
    &&& forall|r: int| 0 <= r < runs.len() - 1 ==> runs[r].1 != #[trigger] runs[r + 1].1
}

/// The stored kinds of `k` within `[start, end)`, each bound clamped to
/// the length.
pub open spec fn clamped_slice(k: Seq<u8>, start: int, end: int) -> Seq<u8> {
    let lo = if start < k.len() { start } else { k.len() as int };
    let hi = if end < k.len() { end } else { k.len() as int };
    k.subrange(lo, hi)
}

/// Every kind reads back as itself from the byte it is stored as.
pub proof fn lemma_kind_round_trip(kind: HighlightKind)
    ensures
        kind_of_code(code_of(kind)) == kind,
{
}

/// Bytes that are not among the five known codes read as plain text.
pub proof fn lemma_unknown_code_reads_as_text(v: u8)
    requires
        v == 0 || v > 7,
    ensures
        kind_of_code(v) == HighlightKind::Text,
{
}

/// Text with no `<`, `&`, `$`, `@` or `%` is plain text throughout: nothing
/// in it opens a tag, a comment, an entity or an expression.
pub proof fn lemma_plain_text_stays_text(b: Seq<u8>)
    requires
        forall|j: int|
            0 <= j < b.len() ==> #[trigger] b[j] != LT && b[j] != AMP && b[j] != DOLLAR && b[j] != AT && b[j]
                != PERCENT,
    ensures
        highlight_codes(b) == Seq::new(b.len(), |j: int| 0u8),
{
    lemma_plain_scan(b, 0, Seq::new(b.len(), |j: int| 0u8));
}

proof fn lemma_plain_scan(b: Seq<u8>, i: int, k: Seq<u8>)
    requires
        0 <= i,
        forall|j: int|
            0 <= j < b.len() ==> #[trigger] b[j] != LT && b[j] != AMP && b[j] != DOLLAR && b[j] != AT && b[j]
                != PERCENT,
    ensures
        scan_from(b, i, k) == k,
    decreases b.len() - i,
{
    if i < b.len() {
        assert(b[i] != LT && b[i] != AMP);
        assert(!is_expression_prefix(b[i]));
        assert(expression_end(b, i, b.len() as int) is None);
        lemma_plain_scan(b, i + 1, k);
    }
}

proof fn lemma_code_round_trip(v: u8)
    requires
        v < 8,
    ensures
        code_of(kind_of_code(v)) == v,
{
}

impl Highlights {
    /// Runs of one kind within `range`, as ranges relative to `range.start`.
    pub fn runs(&self, range: Range<usize>) -> (out: Vec<(Range<usize>, HighlightKind)>)
        requires
            (if range.start < self@.len() { range.start as int } else { self@.len() as int }) <= (
            if range.end < self@.len() { range.end as int } else { self@.len() as int }),
        ensures
            is_run_partition(out@, clamped_slice(self@, range.start as int, range.end as int)),
    {
        proof {
            use_type_invariant(self);
        }
        let n = self.kinds.len();
        let lo = if range.start < n {
            range.start
        } else {
            n
        };
        let hi = if range.end < n {
            range.end
        } else {
            n
        };
        let ghost s = self@.subrange(lo as int, hi as int);
        let len = hi - lo;
        let mut out: Vec<(Range<usize>, HighlightKind)> = Vec::new();
        let mut start: usize = 0;
        while start < len
            invariant
                lo <= hi <= n,
                n == self.kinds@.len(),
                len == hi - lo,
                s == self.kinds@.subrange(lo as int, hi as int),
                all_codes_valid(self.kinds@),
                start <= len,
                out@.len() == 0 <==> start == 0,
                out@.len() > 0 ==> out@[0].0.start == 0 && out@.last().0.end == start,
                forall|r: int| 0 <= r < out@.len() ==> (#[trigger] out@[r]).0.start < out@[r].0.end && out@[r].0.end <= start,
                forall|r: int| 0 <= r < out@.len() - 1 ==> out@[r].0.end == #[trigger] out@[r + 1].0.start,
                forall|r: int, j: int|
                    0 <= r < out@.len() && out@[r].0.start <= j < out@[r].0.end ==> #[trigger] s[j]
                        == code_of(#[trigger] out@[r].1),
                forall|r: int| 0 <= r < out@.len() - 1 ==> out@[r].1 != #[trigger] out@[r + 1].1,
                out@.len() > 0 && start < len ==> s[start as int] != code_of(out@.last().1),
            decreases len - start,
        {
            let kind = self.kinds[lo + start];
            let mut end = start + 1;
            while end < len && self.kinds[lo + end] == kind
                invariant
                    lo <= hi <= n,
                    n == self.kinds@.len(),
                    len == hi - lo,
                    s == self.kinds@.subrange(lo as int, hi as int),
                    start < end <= len,
                    kind == s[start as int],
                    forall|j: int| start <= j < end ==> s[j] == kind,
                decreases len - end,
            {
                end += 1;
            }
            proof {
                lemma_code_round_trip(kind);
            }
            let k = HighlightKind::from_u8(kind);
            out.push((start..end, k));
            start = end;
        }
        out
    }
}

} // verus!
