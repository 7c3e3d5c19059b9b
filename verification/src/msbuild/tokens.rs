//! Navigable tokens: `$(Property)`, `@(Item)`, target names and
//! references, Import paths and Sdk attributes.

use std::ops::Range;
use vstd::prelude::*;
use vstd::string::{StringExecFns, StringSliceAdditionalSpecFns};
use vstd::utf8::encode_utf8;
use super::highlight::{find_value_end, skip_name_chars, skip_whitespace, lemma_skip_names_bounds, lemma_skip_ws_bounds, lemma_value_end_bounds, skip_names, skip_ws, value_end};
use super::lex::{
    ascii_edge, is_identifier_char, is_name_byte, is_name_char, is_ws, line_at, line_starts, slice_text, is_comment_start,
    end_of_comment, index_of, comment_end, comment_start_at, count_at_or_before, index_from, is_identifier_byte,
    is_ws_byte, lemma_comment_close_bounds, lemma_index_from_bounds, line_starts_of, strictly_increasing, text_fits,
    BANG, DOLLAR, DQUOTE, EQ, GT, LPAREN, LT, QUESTION, SEMI, SLASH, SQUOTE, AT,
};

verus! {

#[derive(Clone, Copy, PartialEq, Eq, Debug, Structural)]
pub enum TokenKind {
    /// `$(Name)` — including the identifier part of `$(Name.Method())`.
    Property,
    /// `@(Name)`.
    Item,
    /// The `Name` attribute value of a `<Target>` element.
    TargetDefinition,
    /// One entry of DependsOnTargets / BeforeTargets / AfterTargets / …
    TargetReference,
    /// The `Project` attribute value of an `<Import>` element.
    ImportPath,
    /// An `Sdk="..."` attribute: its imports are logged with no line.
    SdkReference,
}

/// A token as the scan finds it: its kind and the byte range it covers.
pub type Span = (TokenKind, int, int);

// ----- element and attribute names, compared ASCII-case-insensitively -----

pub open spec fn ascii_lower(c: u8) -> u8 {
    if 0x41 <= c <= 0x5a {
        (c + 0x20) as u8
    } else {
        c
    }
}

/// `b[start..end]`, lowercased, is `word`.
pub open spec fn lower_eq(b: Seq<u8>, start: int, end: int, word: Seq<u8>) -> bool {
    &&& 0 <= start <= end <= b.len()
    &&& end - start == word.len()
    &&& forall|j: int| 0 <= j < word.len() ==> ascii_lower(#[trigger] b[start + j]) == word[j]
}

pub open spec fn word_target() -> Seq<u8> {
    seq![0x74u8, 0x61, 0x72, 0x67, 0x65, 0x74]
}

pub open spec fn word_import() -> Seq<u8> {
    seq![0x69u8, 0x6d, 0x70, 0x6f, 0x72, 0x74]
}

pub open spec fn word_project() -> Seq<u8> {
    seq![0x70u8, 0x72, 0x6f, 0x6a, 0x65, 0x63, 0x74]
}

pub open spec fn word_sdk() -> Seq<u8> {
    seq![0x73u8, 0x64, 0x6b]
}

pub open spec fn word_name() -> Seq<u8> {
    seq![0x6eu8, 0x61, 0x6d, 0x65]
}

pub open spec fn word_targets() -> Seq<u8> {
    word_target().push(0x73)
}

/// `prefix` followed by `targets`.
pub open spec fn targets_after(prefix: Seq<u8>) -> Seq<u8> {
    prefix + word_targets()
}

/// DependsOnTargets, BeforeTargets, AfterTargets, InitialTargets,
/// DefaultTargets and Targets: the attributes whose value is a `;` list of
/// target names.
pub open spec fn is_target_list(b: Seq<u8>, start: int, end: int) -> bool {
    ||| lower_eq(b, start, end, targets_after(seq![0x64u8, 0x65, 0x70, 0x65, 0x6e, 0x64, 0x73, 0x6f, 0x6e]))
    ||| lower_eq(b, start, end, targets_after(seq![0x62u8, 0x65, 0x66, 0x6f, 0x72, 0x65]))
    ||| lower_eq(b, start, end, targets_after(seq![0x61u8, 0x66, 0x74, 0x65, 0x72]))
    ||| lower_eq(b, start, end, targets_after(seq![0x69u8, 0x6e, 0x69, 0x74, 0x69, 0x61, 0x6c]))
    ||| lower_eq(b, start, end, targets_after(seq![0x64u8, 0x65, 0x66, 0x61, 0x75, 0x6c, 0x74]))
    ||| lower_eq(b, start, end, word_targets())
}

#[derive(Clone, Copy, PartialEq, Eq, Structural)]
pub enum Element {
    Target,
    Import,
    Project,
    Sdk,
    Other,
}

#[derive(Clone, Copy, PartialEq, Eq, Structural)]
pub enum Attribute {
    Name,
    Project,
    Sdk,
    TargetList,
    Other,
}

pub open spec fn element_class(b: Seq<u8>, start: int, end: int) -> Element {
    if lower_eq(b, start, end, word_target()) {
        Element::Target
    } else if lower_eq(b, start, end, word_import()) {
        Element::Import
    } else if lower_eq(b, start, end, word_project()) {
        Element::Project
    } else if lower_eq(b, start, end, word_sdk()) {
        Element::Sdk
    } else {
        Element::Other
    }
}

pub open spec fn attribute_class(b: Seq<u8>, start: int, end: int) -> Attribute {
    if lower_eq(b, start, end, word_name()) {
        Attribute::Name
    } else if is_target_list(b, start, end) {
        Attribute::TargetList
    } else if lower_eq(b, start, end, word_project()) {
        Attribute::Project
    } else if lower_eq(b, start, end, word_sdk()) {
        Attribute::Sdk
    } else {
        Attribute::Other
    }
}

/// The link kind of a whole attribute value: `Import Project=` is an
/// import path; `Import Sdk=`, `Project Sdk=` and `Sdk Name=` name an SDK.
pub open spec fn import_kind_of(element: Element, attribute: Attribute) -> Option<TokenKind> {
    match (element, attribute) {
        (Element::Import, Attribute::Project) => Some(TokenKind::ImportPath),
        (Element::Import, Attribute::Sdk) => Some(TokenKind::SdkReference),
        (Element::Project, Attribute::Sdk) => Some(TokenKind::SdkReference),
        (Element::Sdk, Attribute::Name) => Some(TokenKind::SdkReference),
        _ => None,
    }
}

// ----- the token scan, as functions over the byte sequence -----

pub open spec fn skip_identifiers(b: Seq<u8>, i: int, limit: int) -> int
    decreases limit - i,
{
    if 0 <= i < limit && i < b.len() && is_identifier_byte(b[i]) {
        skip_identifiers(b, i + 1, limit)
    } else {
        i
    }
}

/// `$(Name` / `@(Name` at `offset`, ending before `limit`: a token over
/// just the name.
pub open spec fn expression_token_at(b: Seq<u8>, offset: int, limit: int) -> Option<Span> {
    if offset < 0 || offset + 2 >= limit || offset + 1 >= b.len() {
        None
    } else if (b[offset] != DOLLAR && b[offset] != AT) || b[offset + 1] != LPAREN {
        None
    } else {
        let e = skip_identifiers(b, offset + 2, limit);
        if e == offset + 2 {
            None
        } else {
            Some(
                (
                    if b[offset] == DOLLAR {
                        TokenKind::Property
                    } else {
                        TokenKind::Item
                    },
                    offset + 2,
                    e,
                ),
            )
        }
    }
}

/// The expression tokens in `[i, end)`, left to right.
pub open spec fn attribute_expressions(b: Seq<u8>, i: int, end: int) -> Seq<Span>
    decreases end - i,
{
    if i < end {
        match expression_token_at(b, i, end) {
            Some(t) => {
                proof {
                    lemma_expression_token_bounds(b, i, end);
                }
                seq![t] + attribute_expressions(b, t.2, end)
            },
            None => attribute_expressions(b, i + 1, end),
        }
    } else {
        seq![]
    }
}

pub open spec fn trim_front(b: Seq<u8>, from: int, to: int) -> int
    decreases to - from,
{
    if 0 <= from < to && from < b.len() && is_ws_byte(b[from]) {
        trim_front(b, from + 1, to)
    } else {
        from
    }
}

pub open spec fn trim_back(b: Seq<u8>, from: int, to: int) -> int
    decreases to - from,
{
    if 0 <= from < to && to <= b.len() && is_ws_byte(b[to - 1]) {
        trim_back(b, from, to - 1)
    } else {
        to
    }
}

pub open spec fn overlaps_any(spans: Seq<Span>, from: int, to: int) -> bool {
    exists|k: int| 0 <= k < spans.len() && #[trigger] spans[k].1 < to && spans[k].2 > from
}

/// The target names of a `;` list, each trimmed, skipping empty entries
/// and entries that overlap an expression: the segment that began at
/// `segment` and the rest, scanning from `i` up to `end`.
pub open spec fn target_references(b: Seq<u8>, end: int, expressions: Seq<Span>, segment: int, i: int) -> Seq<Span>
    decreases end + 1 - i,
{
    if i < 0 || i > end {
        seq![]
    } else if i == end || b[i] == SEMI {
        let from = trim_front(b, segment, i);
        let to = trim_back(b, from, i);
        let rest = target_references(b, end, expressions, i + 1, i + 1);
        if to > from && !overlaps_any(expressions, from, to) {
            seq![(TokenKind::TargetReference, from, to)] + rest
        } else {
            rest
        }
    } else {
        target_references(b, end, expressions, segment, i + 1)
    }
}

/// Two start-ordered token lists merged by start, the first list's token
/// first on a tie.
pub open spec fn merge_by_start(a: Seq<Span>, c: Seq<Span>) -> Seq<Span>
    decreases a.len() + c.len(),
{
    if a.len() == 0 {
        c
    } else if c.len() == 0 {
        a
    } else if a[0].1 <= c[0].1 {
        seq![a[0]] + merge_by_start(a.drop_first(), c)
    } else {
        seq![c[0]] + merge_by_start(a, c.drop_first())
    }
}

/// The tokens of one attribute value `[start, end)`.
pub open spec fn attribute_tokens(b: Seq<u8>, element: Element, attribute: Attribute, start: int, end: int) -> Seq<Span> {
    if end <= start {
        seq![]
    } else {
        let expressions = attribute_expressions(b, start, end);
        if element == Element::Target && attribute == Attribute::Name && expressions.len() == 0 {
            seq![(TokenKind::TargetDefinition, start, end)]
        } else if attribute == Attribute::TargetList {
            merge_by_start(expressions, target_references(b, end, expressions, start, start))
        } else if import_kind_of(element, attribute) is Some {
            seq![(import_kind_of(element, attribute)->0, start, end)]
        } else {
            expressions
        }
    }
}

/// The attributes of a tag from `i` on: where the scan resumes, and the
/// tokens found.
pub open spec fn tag_attribute_tokens(b: Seq<u8>, element: Element, i: int) -> (int, Seq<Span>)
    decreases b.len() - i,
{
    if i < 0 || i >= b.len() {
        (b.len() as int, seq![])
    } else if b[i] == GT {
        (i + 1, seq![])
    } else if is_ws_byte(b[i]) || b[i] == SLASH {
        tag_attribute_tokens(b, element, i + 1)
    } else {
        let attr_end = skip_names(b, i);
        proof {
            lemma_skip_names_bounds(b, i);
        }
        if attr_end == i {
            tag_attribute_tokens(b, element, i + 1)
        } else {
            let attribute = attribute_class(b, i, attr_end);
            let j = skip_ws(b, attr_end);
            proof {
                lemma_skip_ws_bounds(b, attr_end);
            }
            if j >= b.len() || b[j] != EQ {
                tag_attribute_tokens(b, element, j)
            } else {
                let m = skip_ws(b, j + 1);
                proof {
                    lemma_skip_ws_bounds(b, j + 1);
                }
                if m >= b.len() || (b[m] != DQUOTE && b[m] != SQUOTE) {
                    tag_attribute_tokens(b, element, m)
                } else {
                    let d = b[m];
                    let vs = m + 1;
                    let ve = value_end(b, vs, d);
                    proof {
                        lemma_value_end_bounds(b, vs, d);
                    }
                    let next = if ve < b.len() && b[ve] == d {
                        ve + 1
                    } else {
                        ve
                    };
                    let rest = tag_attribute_tokens(b, element, next);
                    (rest.0, attribute_tokens(b, element, attribute, vs, ve) + rest.1)
                }
            }
        }
    }
}

/// A tag opened by the `<` at `start`.
pub open spec fn tag_tokens(b: Seq<u8>, start: int) -> (int, Seq<Span>) {
    let i = if start + 1 < b.len() && b[start + 1] == SLASH {
        start + 2
    } else {
        start + 1
    };
    let name_end = skip_names(b, i);
    tag_attribute_tokens(b, element_class(b, i, name_end), name_end)
}

/// The tokens from `i` on.
pub open spec fn tokens_from(b: Seq<u8>, i: int) -> Seq<Span>
    decreases b.len() - i,
{
    if i < 0 || i >= b.len() {
        seq![]
    } else if b[i] == LT {
        if comment_start_at(b, i) {
            proof {
                lemma_comment_close_bounds(b, i + 4);
            }
            tokens_from(b, comment_end(b, i))
        } else if i + 1 < b.len() && (b[i + 1] == BANG || b[i + 1] == QUESTION) {
            proof {
                lemma_index_from_bounds(b, GT, i);
            }
            let e = index_from(b, GT, i) + 1;
            tokens_from(b, if e < b.len() { e } else { b.len() as int })
        } else {
            proof {
                lemma_tag_tokens_advance(b, i);
            }
            let (e, t) = tag_tokens(b, i);
            t + tokens_from(b, e)
        }
    } else {
        match expression_token_at(b, i, b.len() as int) {
            Some(t) => {
                proof {
                    lemma_expression_token_bounds(b, i, b.len() as int);
                }
                seq![t] + tokens_from(b, t.2)
            },
            None => tokens_from(b, i + 1),
        }
    }
}

/// The navigable tokens of a text, in source order.
pub open spec fn token_spans(b: Seq<u8>) -> Seq<Span> {
    tokens_from(b, 0)
}

/// Text with no `<`, `$` or `@` has no navigable token: tokens come only
/// from tags and from `$(` and `@(` references.
pub proof fn lemma_no_tags_no_tokens(b: Seq<u8>)
    requires
        forall|j: int| 0 <= j < b.len() ==> #[trigger] b[j] != LT && b[j] != DOLLAR && b[j] != AT,
    ensures
        token_spans(b) == Seq::<Span>::empty(),
{
    lemma_no_tokens_from(b, 0);
}

proof fn lemma_no_tokens_from(b: Seq<u8>, i: int)
    requires
        0 <= i,
        forall|j: int| 0 <= j < b.len() ==> #[trigger] b[j] != LT && b[j] != DOLLAR && b[j] != AT,
    ensures
        tokens_from(b, i) == Seq::<Span>::empty(),
    decreases b.len() - i,
{
    if i < b.len() {
        assert(b[i] != LT && b[i] != DOLLAR && b[i] != AT);
        assert(expression_token_at(b, i, b.len() as int) is None);
        lemma_no_tokens_from(b, i + 1);
    }
}

/// The 1-based line of byte offset `o`: how many lines start at or before it.
pub open spec fn line_of(b: Seq<u8>, o: int) -> nat {
    count_at_or_before(line_starts_of(b), o)
}

// ----- target lists -----

/// The lowercased names of the six attributes whose value is a `;` list of
/// targets: dependsontargets, beforetargets, aftertargets, initialtargets,
/// defaulttargets and targets.
pub open spec fn is_target_list_word(w: Seq<u8>) -> bool {
    ||| w == seq![0x64u8, 0x65, 0x70, 0x65, 0x6e, 0x64, 0x73, 0x6f, 0x6e, 0x74, 0x61, 0x72, 0x67, 0x65, 0x74, 0x73]
    ||| w == seq![0x62u8, 0x65, 0x66, 0x6f, 0x72, 0x65, 0x74, 0x61, 0x72, 0x67, 0x65, 0x74, 0x73]
    ||| w == seq![0x61u8, 0x66, 0x74, 0x65, 0x72, 0x74, 0x61, 0x72, 0x67, 0x65, 0x74, 0x73]
    ||| w == seq![0x69u8, 0x6e, 0x69, 0x74, 0x69, 0x61, 0x6c, 0x74, 0x61, 0x72, 0x67, 0x65, 0x74, 0x73]
    ||| w == seq![0x64u8, 0x65, 0x66, 0x61, 0x75, 0x6c, 0x74, 0x74, 0x61, 0x72, 0x67, 0x65, 0x74, 0x73]
    ||| w == seq![0x74u8, 0x61, 0x72, 0x67, 0x65, 0x74, 0x73]
}

/// Each of the six target-list attribute names, in any ASCII case, is read
/// as a target list.
pub proof fn lemma_target_list_attributes(b: Seq<u8>, start: int, end: int, w: Seq<u8>)
    requires
        is_target_list_word(w),
        lower_eq(b, start, end, w),
    ensures
        attribute_class(b, start, end) == Attribute::TargetList,
{
    assert(targets_after(seq![0x64u8, 0x65, 0x70, 0x65, 0x6e, 0x64, 0x73, 0x6f, 0x6e]) =~= seq![
        0x64u8, 0x65, 0x70, 0x65, 0x6e, 0x64, 0x73, 0x6f, 0x6e, 0x74, 0x61, 0x72, 0x67, 0x65, 0x74, 0x73
    ]);
    assert(targets_after(seq![0x62u8, 0x65, 0x66, 0x6f, 0x72, 0x65]) =~= seq![
        0x62u8, 0x65, 0x66, 0x6f, 0x72, 0x65, 0x74, 0x61, 0x72, 0x67, 0x65, 0x74, 0x73
    ]);
    assert(targets_after(seq![0x61u8, 0x66, 0x74, 0x65, 0x72]) =~= seq![
        0x61u8, 0x66, 0x74, 0x65, 0x72, 0x74, 0x61, 0x72, 0x67, 0x65, 0x74, 0x73
    ]);
    assert(targets_after(seq![0x69u8, 0x6e, 0x69, 0x74, 0x69, 0x61, 0x6c]) =~= seq![
        0x69u8, 0x6e, 0x69, 0x74, 0x69, 0x61, 0x6c, 0x74, 0x61, 0x72, 0x67, 0x65, 0x74, 0x73
    ]);
    assert(targets_after(seq![0x64u8, 0x65, 0x66, 0x61, 0x75, 0x6c, 0x74]) =~= seq![
        0x64u8, 0x65, 0x66, 0x61, 0x75, 0x6c, 0x74, 0x74, 0x61, 0x72, 0x67, 0x65, 0x74, 0x73
    ]);
    assert(word_targets() =~= seq![0x74u8, 0x61, 0x72, 0x67, 0x65, 0x74, 0x73]);
    assert(!lower_eq(b, start, end, word_name()));
}

proof fn lemma_no_expressions(b: Seq<u8>, i: int, end: int)
    requires
        0 <= i,
        end <= b.len(),
        forall|m: int| i <= m < end ==> is_name_byte(#[trigger] b[m]),
    ensures
        attribute_expressions(b, i, end) == Seq::<Span>::empty(),
    decreases end - i,
{
    if i < end {
        assert(is_name_byte(b[i]));
        assert(expression_token_at(b, i, end) is None);
        lemma_no_expressions(b, i + 1, end);
    }
}

proof fn lemma_references_run_to_end(b: Seq<u8>, end: int, expressions: Seq<Span>, segment: int, i: int)
    requires
        0 <= i <= end,
        end <= b.len(),
        forall|m: int| i <= m < end ==> is_name_byte(#[trigger] b[m]),
    ensures
        target_references(b, end, expressions, segment, i) == target_references(b, end, expressions, segment, end),
    decreases end - i,
{
    if i < end {
        assert(is_name_byte(b[i]));
        lemma_references_run_to_end(b, end, expressions, segment, i + 1);
    }
}

/// A target list holding one plain name (name characters only: no `;`,
/// no blank, no `$(` or `@(`) is one target reference over the whole value.
pub proof fn lemma_single_target_reference(b: Seq<u8>, element: Element, start: int, end: int)
    requires
        0 <= start < end <= b.len(),
        forall|m: int| start <= m < end ==> is_name_byte(#[trigger] b[m]),
    ensures
        attribute_tokens(b, element, Attribute::TargetList, start, end) == seq![(TokenKind::TargetReference, start, end)],
{
    lemma_no_expressions(b, start, end);
    let ex = attribute_expressions(b, start, end);
    lemma_references_run_to_end(b, end, ex, start, start);
    assert(is_name_byte(b[start]));
    assert(is_name_byte(b[end - 1]));
    assert(trim_front(b, start, end) == start);
    assert(trim_back(b, start, end) == end);
    assert(target_references(b, end, ex, end + 1, end + 1) == Seq::<Span>::empty());
    assert(!overlaps_any(ex, start, end));
    let refs = target_references(b, end, ex, start, start);
    assert(refs =~= seq![(TokenKind::TargetReference, start, end)]);
    assert(merge_by_start(ex, refs) == refs);
}

proof fn lemma_skip_names_to(b: Seq<u8>, i: int, q: int)
    requires
        0 <= i <= q < b.len(),
        forall|m: int| i <= m < q ==> is_name_byte(#[trigger] b[m]),
        !is_name_byte(b[q]),
    ensures
        skip_names(b, i) == q,
    decreases q - i,
{
    if i < q {
        assert(is_name_byte(b[i]));
        lemma_skip_names_to(b, i + 1, q);
    }
}

proof fn lemma_value_runs_to(b: Seq<u8>, i: int, ve: int)
    requires
        0 <= i <= ve < b.len(),
        forall|m: int| i <= m < ve ==> is_name_byte(#[trigger] b[m]),
        b[ve] == DQUOTE,
    ensures
        value_end(b, i, DQUOTE) == ve,
    decreases ve - i,
{
    if i < ve {
        assert(is_name_byte(b[i]));
        lemma_value_runs_to(b, i + 1, ve);
    }
}

/// In a tag, a target-list attribute (any of the six names, in any ASCII
/// case) whose double-quoted value is one plain name yields a target
/// reference over that name, ahead of the tokens of the attributes after
/// it: `AfterTargets="Build"` makes `Build` a navigable target.
pub proof fn lemma_target_list_attribute_references(b: Seq<u8>, element: Element, i: int, w: Seq<u8>, ve: int)
    requires
        0 <= i,
        is_target_list_word(w),
        lower_eq(b, i, i + w.len(), w),
        i + w.len() + 2 < ve < b.len(),
        b[i + w.len()] == EQ,
        b[i + w.len() + 1] == DQUOTE,
        forall|m: int| i + w.len() + 2 <= m < ve ==> is_name_byte(#[trigger] b[m]),
        b[ve] == DQUOTE,
    ensures
        tag_attribute_tokens(b, element, i).1.len() > 0,
        tag_attribute_tokens(b, element, i).1[0] == (TokenKind::TargetReference, i + w.len() + 2, ve),
{
    let q = i + w.len();
    assert(w.len() > 0);
    assert forall|x: int| 0 <= x < w.len() implies 0x61 <= #[trigger] w[x] <= 0x7a by {
        if w == seq![0x64u8, 0x65, 0x70, 0x65, 0x6e, 0x64, 0x73, 0x6f, 0x6e, 0x74, 0x61, 0x72, 0x67, 0x65, 0x74, 0x73] {
        } else if w == seq![0x62u8, 0x65, 0x66, 0x6f, 0x72, 0x65, 0x74, 0x61, 0x72, 0x67, 0x65, 0x74, 0x73] {
        } else if w == seq![0x61u8, 0x66, 0x74, 0x65, 0x72, 0x74, 0x61, 0x72, 0x67, 0x65, 0x74, 0x73] {
        } else if w == seq![0x69u8, 0x6e, 0x69, 0x74, 0x69, 0x61, 0x6c, 0x74, 0x61, 0x72, 0x67, 0x65, 0x74, 0x73] {
        } else if w == seq![0x64u8, 0x65, 0x66, 0x61, 0x75, 0x6c, 0x74, 0x74, 0x61, 0x72, 0x67, 0x65, 0x74, 0x73] {
        } else {
        }
    }
    assert forall|m: int| i <= m < q implies is_name_byte(#[trigger] b[m]) by {
        assert(ascii_lower(b[i + (m - i)]) == w[m - i]);
    }
    lemma_skip_names_to(b, i, q);
    lemma_target_list_attributes(b, i, q, w);
    assert(is_name_byte(b[i]));
    assert(skip_ws(b, q) == q);
    assert(skip_ws(b, q + 1) == q + 1);
    lemma_value_runs_to(b, q + 2, ve);
    lemma_single_target_reference(b, element, q + 2, ve);
    let rest = tag_attribute_tokens(b, element, ve + 1);
    assert(tag_attribute_tokens(b, element, i).1 == seq![(TokenKind::TargetReference, q + 2, ve)] + rest.1);
}

// ----- bounds -----

pub proof fn lemma_skip_identifiers_bounds(b: Seq<u8>, i: int, limit: int)
    ensures
        i <= skip_identifiers(b, i, limit),
        i <= limit ==> skip_identifiers(b, i, limit) <= limit,
    decreases limit - i,
{
    if 0 <= i < limit && i < b.len() && is_identifier_byte(b[i]) {
        lemma_skip_identifiers_bounds(b, i + 1, limit);
    }
}

pub proof fn lemma_expression_token_bounds(b: Seq<u8>, offset: int, limit: int)
    ensures
        expression_token_at(b, offset, limit) matches Some(t) ==> t.1 == offset + 2 && offset + 2 < t.2 <= limit,
{
    lemma_skip_identifiers_bounds(b, offset + 2, limit);
}

pub proof fn lemma_tag_attribute_tokens_advance(b: Seq<u8>, element: Element, i: int)
    requires
        0 <= i,
    ensures
        i < tag_attribute_tokens(b, element, i).0 || tag_attribute_tokens(b, element, i).0 == b.len(),
        tag_attribute_tokens(b, element, i).0 <= b.len(),
    decreases b.len() - i,
{
    if i < 0 || i >= b.len() {
    } else if b[i] == GT {
    } else if is_ws_byte(b[i]) || b[i] == SLASH {
        lemma_tag_attribute_tokens_advance(b, element, i + 1);
    } else {
        let attr_end = skip_names(b, i);
        lemma_skip_names_bounds(b, i);
        if attr_end == i {
            lemma_tag_attribute_tokens_advance(b, element, i + 1);
        } else {
            let j = skip_ws(b, attr_end);
            lemma_skip_ws_bounds(b, attr_end);
            if j >= b.len() || b[j] != EQ {
                lemma_tag_attribute_tokens_advance(b, element, j);
            } else {
                let m = skip_ws(b, j + 1);
                lemma_skip_ws_bounds(b, j + 1);
                if m >= b.len() || (b[m] != DQUOTE && b[m] != SQUOTE) {
                    lemma_tag_attribute_tokens_advance(b, element, m);
                } else {
                    let d = b[m];
                    let vs = m + 1;
                    let ve = value_end(b, vs, d);
                    lemma_value_end_bounds(b, vs, d);
                    let next = if ve < b.len() && b[ve] == d {
                        ve + 1
                    } else {
                        ve
                    };
                    lemma_tag_attribute_tokens_advance(b, element, next);
                }
            }
        }
    }
}

pub proof fn lemma_tag_tokens_advance(b: Seq<u8>, start: int)
    requires
        0 <= start < b.len(),
    ensures
        start < tag_tokens(b, start).0 <= b.len(),
{
    let i = if start + 1 < b.len() && b[start + 1] == SLASH {
        start + 2
    } else {
        start + 1
    };
    lemma_skip_names_bounds(b, i);
    let name_end = skip_names(b, i);
    lemma_tag_attribute_tokens_advance(b, element_class(b, i, name_end), name_end);
}

// ----- order: tokens come sorted and never overlap -----

/// Each span is non-empty, and each ends at or before the next starts.
pub open spec fn sorted_disjoint(s: Seq<Span>) -> bool {
    &&& forall|k: int| 0 <= k < s.len() ==> (#[trigger] s[k]).1 < s[k].2
    &&& forall|i: int, j: int| 0 <= i < j < s.len() ==> (#[trigger] s[i]).2 <= (#[trigger] s[j]).1
}

/// Every span lies within `[lo, hi]`.
pub open spec fn within(s: Seq<Span>, lo: int, hi: int) -> bool {
    forall|k: int| 0 <= k < s.len() ==> lo <= (#[trigger] s[k]).1 && s[k].2 <= hi
}

/// No span of `a` overlaps a span of `c`.
pub open spec fn apart(a: Seq<Span>, c: Seq<Span>) -> bool {
    forall|i: int, j: int|
        0 <= i < a.len() && 0 <= j < c.len() ==> (#[trigger] a[i]).2 <= (#[trigger] c[j]).1 || c[j].2 <= a[i].1
}

pub open spec fn all_hold(s: Seq<Span>, p: spec_fn(Span) -> bool) -> bool {
    forall|k: int| 0 <= k < s.len() ==> p(#[trigger] s[k])
}

pub proof fn lemma_merge_keeps(a: Seq<Span>, c: Seq<Span>, p: spec_fn(Span) -> bool)
    requires
        all_hold(a, p),
        all_hold(c, p),
    ensures
        all_hold(merge_by_start(a, c), p),
        merge_by_start(a, c).len() == a.len() + c.len(),
    decreases a.len() + c.len(),
{
    if a.len() == 0 || c.len() == 0 {
    } else if a[0].1 <= c[0].1 {
        lemma_merge_keeps(a.drop_first(), c, p);
        let m = merge_by_start(a, c);
        assert forall|k: int| 0 <= k < m.len() implies p(#[trigger] m[k]) by {
            if k > 0 {
                assert(m[k] == merge_by_start(a.drop_first(), c)[k - 1]);
            }
        }
    } else {
        lemma_merge_keeps(a, c.drop_first(), p);
        let m = merge_by_start(a, c);
        assert forall|k: int| 0 <= k < m.len() implies p(#[trigger] m[k]) by {
            if k > 0 {
                assert(m[k] == merge_by_start(a, c.drop_first())[k - 1]);
            }
        }
    }
}

pub proof fn lemma_merge_sorted(a: Seq<Span>, c: Seq<Span>)
    requires
        sorted_disjoint(a),
        sorted_disjoint(c),
        apart(a, c),
    ensures
        sorted_disjoint(merge_by_start(a, c)),
    decreases a.len() + c.len(),
{
    if a.len() == 0 || c.len() == 0 {
    } else if a[0].1 <= c[0].1 {
        let a1 = a.drop_first();
        lemma_merge_sorted(a1, c);
        let head = a[0];
        let p = |x: Span| head.2 <= x.1 && x.1 < x.2;
        assert forall|k: int| 0 <= k < c.len() implies p(#[trigger] c[k]) by {
            assert(a[0].2 <= c[k].1 || c[k].2 <= a[0].1);
            if k > 0 {
                assert(c[0].2 <= c[k].1);
            }
        }
        assert forall|k: int| 0 <= k < a1.len() implies p(#[trigger] a1[k]) by {
            assert(a1[k] == a[k + 1]);
        }
        lemma_merge_keeps(a1, c, p);
        let rest = merge_by_start(a1, c);
        let m = merge_by_start(a, c);
        assert(m == seq![head] + rest);
        assert forall|i: int, j: int| 0 <= i < j < m.len() implies (#[trigger] m[i]).2 <= (#[trigger] m[j]).1 by {
            if i == 0 {
                assert(m[j] == rest[j - 1]);
                assert(p(rest[j - 1]));
            } else {
                assert(m[i] == rest[i - 1]);
                assert(m[j] == rest[j - 1]);
            }
        }
        assert forall|k: int| 0 <= k < m.len() implies (#[trigger] m[k]).1 < m[k].2 by {
            if k > 0 {
                assert(m[k] == rest[k - 1]);
            }
        }
    } else {
        let c1 = c.drop_first();
        lemma_merge_sorted(a, c1);
        let head = c[0];
        let p = |x: Span| head.2 <= x.1 && x.1 < x.2;
        assert forall|k: int| 0 <= k < a.len() implies p(#[trigger] a[k]) by {
            assert(a[k].2 <= c[0].1 || c[0].2 <= a[k].1);
            if k > 0 {
                assert(a[0].2 <= a[k].1);
            }
        }
        assert forall|k: int| 0 <= k < c1.len() implies p(#[trigger] c1[k]) by {
            assert(c1[k] == c[k + 1]);
        }
        lemma_merge_keeps(a, c1, p);
        let rest = merge_by_start(a, c1);
        let m = merge_by_start(a, c);
        assert(m == seq![head] + rest);
        assert forall|i: int, j: int| 0 <= i < j < m.len() implies (#[trigger] m[i]).2 <= (#[trigger] m[j]).1 by {
            if i == 0 {
                assert(m[j] == rest[j - 1]);
                assert(p(rest[j - 1]));
            } else {
                assert(m[i] == rest[i - 1]);
                assert(m[j] == rest[j - 1]);
            }
        }
        assert forall|k: int| 0 <= k < m.len() implies (#[trigger] m[k]).1 < m[k].2 by {
            if k > 0 {
                assert(m[k] == rest[k - 1]);
            }
        }
    }
}

pub proof fn lemma_line_starts_increasing(b: Seq<u8>)
    requires
        text_fits(b.len() as int),
    ensures
        strictly_increasing(line_starts_of(b)),
        line_starts_of(b).len() > 0,
        line_starts_of(b)[0] == 0,
        forall|k: int| 0 <= k < line_starts_of(b).len() ==> #[trigger] line_starts_of(b)[k] <= b.len(),
    decreases b.len(),
{
    if b.len() > 0 {
        let t = b.drop_last();
        lemma_line_starts_increasing(t);
        let s0 = line_starts_of(t);
        if b.last() == 0x0a {
            let s1 = s0.push(b.len() as usize);
            assert forall|i: int, j: int| 0 <= i < j < s1.len() implies s1[i] < s1[j] by {
                if j == s1.len() - 1 {
                    assert(s1[i] == s0[i]);
                    assert(s0[i] <= t.len());
                }
            }
        }
    }
}

// ----- tokens -----

#[derive(Debug, PartialEq)]
pub struct Token {
    pub kind: TokenKind,
    pub name: String,
    pub range: Range<usize>,
    /// 1-based.
    pub line: usize,
}

impl Clone for Token {
    fn clone(&self) -> (t: Self)
        ensures
            t == *self,
    {
        Token { kind: self.kind, name: self.name.clone(), range: self.range.start..self.range.end, line: self.line }
    }
}

impl Token {
    pub open spec fn span(&self) -> Span {
        (self.kind, self.range.start as int, self.range.end as int)
    }
}

pub open spec fn spans_of(ts: Seq<Token>) -> Seq<Span> {
    ts.map_values(|t: Token| t.span())
}

/// `t` is a token of the text whose bytes are `b`: its name is the text
/// over its range and its line is the line its range starts on.
pub open spec fn token_in(t: Token, b: Seq<u8>) -> bool {
    &&& t.range.start <= t.range.end <= b.len()
    &&& encode_utf8(t.name@) == b.subrange(t.range.start as int, t.range.end as int)
    &&& t.line == line_of(b, t.range.start as int)
}

pub open spec fn all_tokens_in(ts: Seq<Token>, b: Seq<u8>) -> bool {
    forall|k: int| 0 <= k < ts.len() ==> token_in(#[trigger] ts[k], b)
}

/// What the scanners share: the text, its bytes and its line starts.
pub open spec fn scan_context(text: &str, b: &[u8], starts: &[usize]) -> bool {
    &&& b@ == text.spec_bytes()
    &&& starts@ == line_starts_of(b@)
    &&& text_fits(b@.len() as int)
}

fn make_token(text: &str, b: &[u8], starts: &[usize], kind: TokenKind, start: usize, end: usize) -> (t: Token)
    requires
        scan_context(text, b, starts),
        start <= end <= b@.len(),
        ascii_edge(b@, start as int),
        ascii_edge(b@, end as int),
    ensures
        t.span() == (kind, start as int, end as int),
        token_in(t, b@),
{
    proof {
        lemma_line_starts_increasing(b@);
    }
    let name = slice_text(text, start, end);
    let line = line_at(start, starts);
    Token { kind, name, range: start..end, line }
}

fn expression_token(text: &str, b: &[u8], offset: usize, limit: usize, starts: &[usize]) -> (t: Option<Token>)
    requires
        scan_context(text, b, starts),
        offset < limit <= b@.len(),
    ensures
        t matches Some(t) ==> expression_token_at(b@, offset as int, limit as int) == Some(t.span()) && token_in(t, b@),
        t is None ==> expression_token_at(b@, offset as int, limit as int) is None,
{
    proof {
        lemma_expression_token_bounds(b@, offset as int, limit as int);
    }
    if limit - offset <= 2 {
        return None;
    }
    let prefix = b[offset];
    if prefix != DOLLAR && prefix != AT {
        return None;
    }
    if b[offset + 1] != LPAREN {
        return None;
    }
    let mut i = offset + 2;
    while i < limit && is_identifier_char(b[i])
        invariant
            offset + 2 <= i <= limit <= b@.len(),
            skip_identifiers(b@, i as int, limit as int) == skip_identifiers(b@, offset + 2, limit as int),
            i > offset + 2 ==> is_identifier_byte(b@[i - 1]),
        decreases limit - i,
    {
        i += 1;
    }
    if i == offset + 2 {
        return None;
    }
    let kind = if prefix == DOLLAR {
        TokenKind::Property
    } else {
        TokenKind::Item
    };
    Some(make_token(text, b, starts, kind, offset + 2, i))
}

/// Whether `b[start..end]`, lowercased, is `word`.
fn lower_equals(b: &[u8], start: usize, end: usize, word: &[u8]) -> (r: bool)
    requires
        start <= end <= b@.len(),
    ensures
        r == lower_eq(b@, start as int, end as int, word@),
{
    if end - start != word.len() {
        return false;
    }
    let mut j: usize = 0;
    while j < word.len()
        invariant
            start <= end <= b@.len(),
            end - start == word@.len(),
            j <= word@.len(),
            forall|x: int| 0 <= x < j ==> ascii_lower(#[trigger] b@[start + x]) == word@[x],
        decreases word.len() - j,
    {
        let c = b[start + j];
        let lower = if 0x41 <= c && c <= 0x5a {
            c + 0x20
        } else {
            c
        };
        if lower != word[j] {
            return false;
        }
        j += 1;
    }
    true
}

fn classify_element(b: &[u8], start: usize, end: usize) -> (e: Element)
    requires
        start <= end <= b@.len(),
    ensures
        e == element_class(b@, start as int, end as int),
{
    let target: [u8; 6] = [0x74, 0x61, 0x72, 0x67, 0x65, 0x74];
    let import: [u8; 6] = [0x69, 0x6d, 0x70, 0x6f, 0x72, 0x74];
    let project: [u8; 7] = [0x70, 0x72, 0x6f, 0x6a, 0x65, 0x63, 0x74];
    let sdk: [u8; 3] = [0x73, 0x64, 0x6b];
    assert(target@ =~= word_target());
    assert(import@ =~= word_import());
    assert(project@ =~= word_project());
    assert(sdk@ =~= word_sdk());
    if lower_equals(b, start, end, &target) {
        Element::Target
    } else if lower_equals(b, start, end, &import) {
        Element::Import
    } else if lower_equals(b, start, end, &project) {
        Element::Project
    } else if lower_equals(b, start, end, &sdk) {
        Element::Sdk
    } else {
        Element::Other
    }
}

fn classify_attribute(b: &[u8], start: usize, end: usize) -> (a: Attribute)
    requires
        start <= end <= b@.len(),
    ensures
        a == attribute_class(b@, start as int, end as int),
{
    let name: [u8; 4] = [0x6e, 0x61, 0x6d, 0x65];
    let depends: [u8; 16] = [0x64, 0x65, 0x70, 0x65, 0x6e, 0x64, 0x73, 0x6f, 0x6e, 0x74, 0x61, 0x72, 0x67, 0x65, 0x74, 0x73];
    let before: [u8; 13] = [0x62, 0x65, 0x66, 0x6f, 0x72, 0x65, 0x74, 0x61, 0x72, 0x67, 0x65, 0x74, 0x73];
    let after: [u8; 12] = [0x61, 0x66, 0x74, 0x65, 0x72, 0x74, 0x61, 0x72, 0x67, 0x65, 0x74, 0x73];
    let initial: [u8; 14] = [0x69, 0x6e, 0x69, 0x74, 0x69, 0x61, 0x6c, 0x74, 0x61, 0x72, 0x67, 0x65, 0x74, 0x73];
    let default: [u8; 14] = [0x64, 0x65, 0x66, 0x61, 0x75, 0x6c, 0x74, 0x74, 0x61, 0x72, 0x67, 0x65, 0x74, 0x73];
    let targets: [u8; 7] = [0x74, 0x61, 0x72, 0x67, 0x65, 0x74, 0x73];
    let project: [u8; 7] = [0x70, 0x72, 0x6f, 0x6a, 0x65, 0x63, 0x74];
    let sdk: [u8; 3] = [0x73, 0x64, 0x6b];
    assert(name@ =~= word_name());
    assert(depends@ =~= targets_after(seq![0x64u8, 0x65, 0x70, 0x65, 0x6e, 0x64, 0x73, 0x6f, 0x6e]));
    assert(before@ =~= targets_after(seq![0x62u8, 0x65, 0x66, 0x6f, 0x72, 0x65]));
    assert(after@ =~= targets_after(seq![0x61u8, 0x66, 0x74, 0x65, 0x72]));
    assert(initial@ =~= targets_after(seq![0x69u8, 0x6e, 0x69, 0x74, 0x69, 0x61, 0x6c]));
    assert(default@ =~= targets_after(seq![0x64u8, 0x65, 0x66, 0x61, 0x75, 0x6c, 0x74]));
    assert(targets@ =~= word_targets());
    assert(project@ =~= word_project());
    assert(sdk@ =~= word_sdk());
    if lower_equals(b, start, end, &name) {
        Attribute::Name
    } else if lower_equals(b, start, end, &depends) || lower_equals(b, start, end, &before)
        || lower_equals(b, start, end, &after) || lower_equals(b, start, end, &initial)
        || lower_equals(b, start, end, &default) || lower_equals(b, start, end, &targets) {
        Attribute::TargetList
    } else if lower_equals(b, start, end, &project) {
        Attribute::Project
    } else if lower_equals(b, start, end, &sdk) {
        Attribute::Sdk
    } else {
        Attribute::Other
    }
}

fn import_kind(element: Element, attribute: Attribute) -> (k: Option<TokenKind>)
    ensures
        k == import_kind_of(element, attribute),
{
    match (element, attribute) {
        (Element::Import, Attribute::Project) => Some(TokenKind::ImportPath),
        (Element::Import, Attribute::Sdk) | (Element::Project, Attribute::Sdk) | (Element::Sdk, Attribute::Name) => Some(
            TokenKind::SdkReference,
        ),
        _ => None,
    }
}

fn overlaps_expression(expressions: &Vec<Token>, from: usize, to: usize) -> (r: bool)
    ensures
        r == overlaps_any(spans_of(expressions@), from as int, to as int),
{
    let ghost sp = spans_of(expressions@);
    let mut k: usize = 0;
    while k < expressions.len()
        invariant
            k <= expressions@.len(),
            sp == spans_of(expressions@),
            forall|x: int| 0 <= x < k ==> !(#[trigger] sp[x].1 < to && sp[x].2 > from),
        decreases expressions.len() - k,
    {
        let e = &expressions[k];
        assert(sp[k as int] == e.span());
        if e.range.start < to && e.range.end > from {
            assert(sp[k as int].1 < to && sp[k as int].2 > from);
            return true;
        }
        k += 1;
    }
    false
}

/// The target names of the `;` list in `[start, end)`.
fn append_target_references(
    text: &str,
    b: &[u8],
    starts: &[usize],
    start: usize,
    end: usize,
    expressions: &Vec<Token>,
) -> (refs: Vec<Token>)
    requires
        scan_context(text, b, starts),
        0 < start <= end <= b@.len(),
        b@[start - 1] < 0x80,
        ascii_edge(b@, end as int),
    ensures
        spans_of(refs@) == target_references(b@, end as int, spans_of(expressions@), start as int, start as int),
        all_tokens_in(refs@, b@),
        sorted_disjoint(spans_of(refs@)),
        within(spans_of(refs@), start as int, end as int),
        forall|k: int|
            0 <= k < refs@.len() ==> !overlaps_any(
                spans_of(expressions@),
                (#[trigger] refs@[k]).range.start as int,
                refs@[k].range.end as int,
            ),
{
    let ghost ex = spans_of(expressions@);
    let ghost target = target_references(b@, end as int, ex, start as int, start as int);
    let mut refs: Vec<Token> = Vec::new();
    let mut segment_start = start;
    let mut i = start;
    while i <= end
        invariant
            scan_context(text, b, starts),
            0 < start <= segment_start <= i,
            i <= end + 1,
            end <= b@.len(),
            ascii_edge(b@, end as int),
            segment_start == start || segment_start > end || b@[segment_start - 1] == SEMI,
            b@[start - 1] < 0x80,
            ex == spans_of(expressions@),
            spans_of(refs@) + target_references(b@, end as int, ex, segment_start as int, i as int) == target,
            all_tokens_in(refs@, b@),
            sorted_disjoint(spans_of(refs@)),
            within(spans_of(refs@), start as int, end as int),
            forall|k: int| 0 <= k < refs@.len() ==> (#[trigger] refs@[k]).range.end <= segment_start,
            forall|k: int|
                0 <= k < refs@.len() ==> !overlaps_any(
                    ex,
                    (#[trigger] refs@[k]).range.start as int,
                    refs@[k].range.end as int,
                ),
        decreases end + 1 - i,
    {
        if i == end || b[i] == SEMI {
            let mut from = segment_start;
            let mut to = i;
            while from < to && is_ws(b[from])
                invariant
                    segment_start <= from <= to == i,
                    i <= end <= b@.len(),
                    trim_front(b@, from as int, to as int) == trim_front(b@, segment_start as int, i as int),
                    from == segment_start || is_ws_byte(b@[from - 1]),
                decreases to - from,
            {
                from += 1;
            }
            while to > from && is_ws(b[to - 1])
                invariant
                    segment_start <= from <= to <= i,
                    i <= end <= b@.len(),
                    trim_back(b@, from as int, to as int) == trim_back(b@, from as int, i as int),
                    to == i || is_ws_byte(b@[to as int]),
                decreases to - from,
            {
                to -= 1;
            }
            let ghost before = spans_of(refs@);
            let ghost rest = target_references(b@, end as int, ex, i + 1, i + 1);
            if to > from && !overlaps_expression(expressions, from, to) {
                let t = make_token(text, b, starts, TokenKind::TargetReference, from, to);
                refs.push(t);
                assert(spans_of(refs@) =~= before.push(t.span()));
                assert(seq![t.span()] + rest == target_references(b@, end as int, ex, segment_start as int, i as int));
                assert(spans_of(refs@) + rest =~= before + (seq![t.span()] + rest));
            }
            segment_start = i + 1;
        }
        i += 1;
    }
    refs
}

/// The tokens of `a` and `c` merged by start, `a`'s first on a tie.
fn merge_tokens(a: Vec<Token>, c: Vec<Token>) -> (m: Vec<Token>)
    ensures
        spans_of(m@) == merge_by_start(spans_of(a@), spans_of(c@)),
        forall|k: int| 0 <= k < m@.len() ==> (exists|i: int| 0 <= i < a@.len() && a@[i] == #[trigger] m@[k])
            || (exists|j: int| 0 <= j < c@.len() && c@[j] == m@[k]),
{
    let mut a = a;
    let mut c = c;
    let ghost a0 = a@;
    let ghost c0 = c@;
    let mut m: Vec<Token> = Vec::new();
    while a.len() > 0 && c.len() > 0
        invariant
            spans_of(m@) + merge_by_start(spans_of(a@), spans_of(c@)) == merge_by_start(spans_of(a0), spans_of(c0)),
            forall|k: int| 0 <= k < m@.len() ==> (exists|i: int| 0 <= i < a0.len() && a0[i] == #[trigger] m@[k])
                || (exists|j: int| 0 <= j < c0.len() && c0[j] == m@[k]),
            forall|k: int| 0 <= k < a@.len() ==> exists|i: int| 0 <= i < a0.len() && a0[i] == #[trigger] a@[k],
            forall|k: int| 0 <= k < c@.len() ==> exists|j: int| 0 <= j < c0.len() && c0[j] == #[trigger] c@[k],
        decreases a.len() + c.len(),
    {
        let ghost sa = spans_of(a@);
        let ghost sc = spans_of(c@);
        let ghost before = spans_of(m@);
        if a[0].range.start <= c[0].range.start {
            let t = a.remove(0);
            assert(spans_of(a@) =~= sa.drop_first());
            m.push(t);
            assert(spans_of(m@) =~= before.push(sa[0]));
            assert(spans_of(m@) + merge_by_start(spans_of(a@), sc) =~= before + merge_by_start(sa, sc));
        } else {
            let t = c.remove(0);
            assert(spans_of(c@) =~= sc.drop_first());
            m.push(t);
            assert(spans_of(m@) =~= before.push(sc[0]));
            assert(spans_of(m@) + merge_by_start(sa, spans_of(c@)) =~= before + merge_by_start(sa, sc));
        }
    }
    let ghost before = spans_of(m@);
    let ghost sa = spans_of(a@);
    let ghost sc = spans_of(c@);
    let ghost ma = m@;
    m.append(&mut a);
    m.append(&mut c);
    assert(spans_of(m@) =~= before + merge_by_start(sa, sc));
    assert forall|k: int| 0 <= k < m@.len() implies (exists|i: int| 0 <= i < a0.len() && a0[i] == #[trigger] m@[k])
        || (exists|j: int| 0 <= j < c0.len() && c0[j] == m@[k]) by {
        if k >= ma.len() && k < ma.len() + a@.len() {
            assert(m@[k] == a@[k - ma.len()]);
        }
    }
    m
}

/// The tokens of one attribute value `[start, end)`, sorted by start.
fn scan_attribute_value(
    text: &str,
    b: &[u8],
    element: Element,
    attribute: Attribute,
    start: usize,
    end: usize,
    starts: &[usize],
) -> (local: Vec<Token>)
    requires
        scan_context(text, b, starts),
        0 < start <= end <= b@.len(),
        b@[start - 1] < 0x80,
        ascii_edge(b@, end as int),
    ensures
        spans_of(local@) == attribute_tokens(b@, element, attribute, start as int, end as int),
        all_tokens_in(local@, b@),
        sorted_disjoint(spans_of(local@)),
        within(spans_of(local@), start as int, end as int),
{
    let mut local: Vec<Token> = Vec::new();
    if end <= start {
        return local;
    }
    let ghost exprs = attribute_expressions(b@, start as int, end as int);
    let mut i = start;
    while i < end
        invariant
            scan_context(text, b, starts),
            start <= i <= end <= b@.len(),
            spans_of(local@) + attribute_expressions(b@, i as int, end as int) == exprs,
            all_tokens_in(local@, b@),
            sorted_disjoint(spans_of(local@)),
            within(spans_of(local@), start as int, i as int),
        decreases end - i,
    {
        let ghost before = spans_of(local@);
        match expression_token(text, b, i, end, starts) {
            Some(t) => {
                proof {
                    lemma_expression_token_bounds(b@, i as int, end as int);
                }
                i = t.range.end;
                local.push(t);
                assert(spans_of(local@) =~= before.push(t.span()));
                assert(spans_of(local@) + attribute_expressions(b@, i as int, end as int) =~= before + (seq![t.span()]
                    + attribute_expressions(b@, i as int, end as int)));
            },
            None => {
                i += 1;
            },
        }
    }
    assert(spans_of(local@) =~= exprs);
    let has_expression = local.len() > 0;
    if element == Element::Target && attribute == Attribute::Name && !has_expression {
        local.push(make_token(text, b, starts, TokenKind::TargetDefinition, start, end));
        assert(spans_of(local@) =~= seq![(TokenKind::TargetDefinition, start as int, end as int)]);
    } else if attribute == Attribute::TargetList {
        let refs = append_target_references(text, b, starts, start, end, &local);
        let ghost se = spans_of(local@);
        let ghost sr = spans_of(refs@);
        proof {
            assert forall|x: int, y: int| 0 <= x < se.len() && 0 <= y < sr.len() implies (#[trigger] se[x]).2 <= (
            #[trigger] sr[y]).1 || sr[y].2 <= se[x].1 by {
                assert(sr[y] == refs@[y].span());
                assert(!overlaps_any(se, refs@[y].range.start as int, refs@[y].range.end as int));
                assert(!(se[x].1 < sr[y].2 && se[x].2 > sr[y].1));
            }
            lemma_merge_sorted(se, sr);
            let p = |x: Span| start <= x.1 && x.2 <= end;
            lemma_merge_keeps(se, sr, p);
        }
        let ghost le = local@;
        let ghost lr = refs@;
        local = merge_tokens(local, refs);
        proof {
            let m = spans_of(local@);
            let p = |x: Span| start <= x.1 && x.2 <= end;
            assert forall|k: int| 0 <= k < m.len() implies start <= (#[trigger] m[k]).1 && m[k].2 <= end by {
                assert(p(merge_by_start(se, sr)[k]));
            }
            assert forall|k: int| 0 <= k < local@.len() implies token_in(#[trigger] local@[k], b@) by {
                if exists|x: int| 0 <= x < le.len() && le[x] == local@[k] {
                    let x = choose|x: int| 0 <= x < le.len() && le[x] == local@[k];
                    assert(token_in(le[x], b@));
                } else {
                    let y = choose|y: int| 0 <= y < lr.len() && lr[y] == local@[k];
                    assert(token_in(lr[y], b@));
                }
            }
        }
    } else if let Some(kind) = import_kind(element, attribute) {
        // The whole attribute is one link; the recorded edge already names
        // the file any `$(...)` inside it expanded to.
        local.clear();
        local.push(make_token(text, b, starts, kind, start, end));
        assert(spans_of(local@) =~= seq![(kind, start as int, end as int)]);
    }
    local
}

pub proof fn lemma_concat_sorted(a: Seq<Span>, c: Seq<Span>, lo: int, mid: int, hi: int)
    requires
        sorted_disjoint(a),
        sorted_disjoint(c),
        within(a, lo, mid),
        within(c, mid, hi),
        lo <= mid <= hi,
    ensures
        sorted_disjoint(a + c),
        within(a + c, lo, hi),
{
    let s = a + c;
    assert forall|i: int, j: int| 0 <= i < j < s.len() implies (#[trigger] s[i]).2 <= (#[trigger] s[j]).1 by {
        if j < a.len() {
        } else if i < a.len() {
            assert(s[i] == a[i]);
            assert(s[j] == c[j - a.len()]);
        } else {
            assert(s[i] == c[i - a.len()]);
            assert(s[j] == c[j - a.len()]);
        }
    }
    assert forall|k: int| 0 <= k < s.len() implies (#[trigger] s[k]).1 < s[k].2 && lo <= s[k].1 && s[k].2 <= hi by {
        if k < a.len() {
            assert(s[k] == a[k]);
        } else {
            assert(s[k] == c[k - a.len()]);
        }
    }
}

pub proof fn lemma_spans_append(a: Seq<Token>, c: Seq<Token>)
    ensures
        spans_of(a + c) == spans_of(a) + spans_of(c),
{
    assert(spans_of(a + c) =~= spans_of(a) + spans_of(c));
}

/// The tokens of the tag opened by the `<` at `start`, and where the scan
/// resumes after it.
fn scan_tag_tokens(text: &str, b: &[u8], start: usize, starts: &[usize]) -> (r: (usize, Vec<Token>))
    requires
        scan_context(text, b, starts),
        start < b@.len(),
    ensures
        r.0 == tag_tokens(b@, start as int).0,
        spans_of(r.1@) == tag_tokens(b@, start as int).1,
        all_tokens_in(r.1@, b@),
        sorted_disjoint(spans_of(r.1@)),
        within(spans_of(r.1@), start as int, r.0 as int),
        start < r.0 <= b@.len(),
{
    proof {
        lemma_tag_tokens_advance(b@, start as int);
    }
    let n = b.len();
    let mut i = start + 1;
    if i < n && b[i] == SLASH {
        i += 1;
    }
    let name_start = i;
    i = skip_name_chars(b, i);
    let element = classify_element(b, name_start, i);
    let ghost target = tag_tokens(b@, start as int);
    let mut tokens: Vec<Token> = Vec::new();
    while i < n && b[i] != GT
        invariant
            scan_context(text, b, starts),
            n == b@.len(),
            start < i <= n,
            tag_attribute_tokens(b@, element, i as int).0 == target.0,
            spans_of(tokens@) + tag_attribute_tokens(b@, element, i as int).1 == target.1,
            all_tokens_in(tokens@, b@),
            sorted_disjoint(spans_of(tokens@)),
            within(spans_of(tokens@), start as int, i as int),
        decreases n - i,
    {
        if is_ws(b[i]) || b[i] == SLASH {
            i += 1;
            continue;
        }
        let attr_start = i;
        i = skip_name_chars(b, i);
        if i == attr_start {
            i += 1;
            continue;
        }
        let attribute = classify_attribute(b, attr_start, i);
        i = skip_whitespace(b, i);
        if i >= n || b[i] != EQ {
            continue;
        }
        i = skip_whitespace(b, i + 1);
        if i >= n || (b[i] != DQUOTE && b[i] != SQUOTE) {
            continue;
        }
        let delimiter = b[i];
        i += 1;
        let value_start = i;
        i = find_value_end(b, i, delimiter);
        let value_end_at = i;
        if i < n && b[i] == delimiter {
            i += 1;
        }
        let ghost before = tokens@;
        let mut local = scan_attribute_value(text, b, element, attribute, value_start, value_end_at, starts);
        let ghost added = local@;
        proof {
            lemma_concat_sorted(spans_of(before), spans_of(added), start as int, value_start as int, i as int);
            lemma_spans_append(before, added);
        }
        tokens.append(&mut local);
        proof {
            assert(tokens@ == before + added);
            assert forall|k: int| 0 <= k < tokens@.len() implies token_in(#[trigger] tokens@[k], b@) by {
                if k < before.len() {
                    assert(tokens@[k] == before[k]);
                } else {
                    assert(tokens@[k] == added[k - before.len()]);
                }
            }
            assert(spans_of(tokens@) + tag_attribute_tokens(b@, element, i as int).1 =~= spans_of(before) + (spans_of(added)
                + tag_attribute_tokens(b@, element, i as int).1));
        }
    }
    if i < n {
        (i + 1, tokens)
    } else {
        (n, tokens)
    }
}

/// The navigable tokens of `text`, in order of their start.
pub fn tokenize(text: &str) -> (tokens: Vec<Token>)
    requires
        text_fits(text.spec_bytes().len() as int),
    ensures
        spans_of(tokens@) == token_spans(text.spec_bytes()),
        all_tokens_in(tokens@, text.spec_bytes()),
        sorted_disjoint(spans_of(tokens@)),
{
    let b = text.as_bytes();
    let starts = line_starts(text);
    let starts = starts.as_slice();
    let n = b.len();
    let ghost target = token_spans(b@);
    let mut tokens: Vec<Token> = Vec::new();
    let mut i: usize = 0;
    while i < n
        invariant
            scan_context(text, b, starts),
            n == b@.len(),
            i <= n,
            spans_of(tokens@) + tokens_from(b@, i as int) == target,
            all_tokens_in(tokens@, b@),
            sorted_disjoint(spans_of(tokens@)),
            within(spans_of(tokens@), 0, i as int),
        decreases n - i,
    {
        if b[i] == LT {
            if is_comment_start(b, i) {
                i = end_of_comment(b, i);
                continue;
            }
            if i + 1 < n && (b[i + 1] == BANG || b[i + 1] == QUESTION) {
                let ix = index_of(b, GT, i);
                i = if ix + 1 < n {
                    ix + 1
                } else {
                    n
                };
                continue;
            }
            let (next, mut found) = scan_tag_tokens(text, b, i, starts);
            let ghost before = tokens@;
            let ghost added = found@;
            proof {
                lemma_concat_sorted(spans_of(before), spans_of(added), 0, i as int, next as int);
                lemma_spans_append(before, added);
            }
            tokens.append(&mut found);
            proof {
                assert(tokens@ == before + added);
                assert forall|k: int| 0 <= k < tokens@.len() implies token_in(#[trigger] tokens@[k], b@) by {
                    if k < before.len() {
                        assert(tokens@[k] == before[k]);
                    } else {
                        assert(tokens@[k] == added[k - before.len()]);
                    }
                }
                assert(spans_of(tokens@) + tokens_from(b@, next as int) =~= spans_of(before) + (spans_of(added)
                    + tokens_from(b@, next as int)));
            }
            i = next;
            continue;
        }
        let ghost before = tokens@;
        match expression_token(text, b, i, n, starts) {
            Some(t) => {
                proof {
                    lemma_expression_token_bounds(b@, i as int, n as int);
                    lemma_concat_sorted(spans_of(before), seq![t.span()], 0, i as int, t.range.end as int);
                }
                i = t.range.end;
                tokens.push(t);
                proof {
                    assert(spans_of(tokens@) =~= spans_of(before) + seq![t.span()]);
                    assert(spans_of(tokens@) + tokens_from(b@, i as int) =~= spans_of(before) + (seq![t.span()]
                        + tokens_from(b@, i as int)));
                }
            },
            None => {
                i += 1;
            },
        }
    }
    // Already in order of start: no sort needed.
    tokens
}

impl Token {
    /// The token as written, e.g. `$(OutputPath)` or `Target Build`.
    pub fn title(&self) -> (s: String)
        ensures
            s@ == match self.kind {
                TokenKind::Property => "$("@ + self.name@ + ")"@,
                TokenKind::Item => "@("@ + self.name@ + ")"@,
                TokenKind::TargetDefinition | TokenKind::TargetReference => "Target "@ + self.name@,
                TokenKind::ImportPath | TokenKind::SdkReference => self.name@,
            },
    {
        match self.kind {
            TokenKind::Property => {
                let mut s = String::from_str("$(");
                s.append(self.name.as_str());
                s.append(")");
                s
            },
            TokenKind::Item => {
                let mut s = String::from_str("@(");
                s.append(self.name.as_str());
                s.append(")");
                s
            },
            TokenKind::TargetDefinition | TokenKind::TargetReference => {
                let mut s = String::from_str("Target ");
                s.append(self.name.as_str());
                s
            },
            TokenKind::ImportPath | TokenKind::SdkReference => self.name.clone(),
        }
    }

    /// The engine's symbol kind, or None for tokens that resolve locally
    /// from the recorded import edges.
    pub fn symbol_kind(&self) -> (k: Option<&'static str>)
        ensures
            match self.kind {
                TokenKind::Property => k matches Some(s) && s@ == "property"@,
                TokenKind::Item => k matches Some(s) && s@ == "item"@,
                TokenKind::TargetDefinition | TokenKind::TargetReference => k matches Some(s) && s@ == "target"@,
                TokenKind::ImportPath | TokenKind::SdkReference => k is None,
            },
    {
        match self.kind {
            TokenKind::Property => Some("property"),
            TokenKind::Item => Some("item"),
            TokenKind::TargetDefinition | TokenKind::TargetReference => Some("target"),
            TokenKind::ImportPath | TokenKind::SdkReference => None,
        }
    }
}

} // verus!
