//! The semantic index: tokens joined to the build's recorded import edges,
//! and where a Cmd-click on a token goes.

use std::collections::HashMap;
use vstd::prelude::*;
use vstd::string::{StringExecFns, StringSliceAdditionalSpecFns};
use vstd::utf8::encode_utf8;
use crate::model::{explanation_of, is_reachable_location, SemanticFile, SemanticImport, SemanticLocation, SemanticSkippedImport, SemanticSymbol};
use super::lex::{slice_text, text_fits, BACKSLASH, SLASH};
use super::tokens::{all_tokens_in, line_of, sorted_disjoint, spans_of, token_in, token_spans, tokenize, Span, Token, TokenKind};

verus! {

broadcast use vstd::std_specs::hash::group_hash_axioms;

/// The recorded imports whose `<Import>` sits on `line`, in order.
pub open spec fn imports_on(imports: Seq<SemanticImport>, line: usize) -> Seq<SemanticImport>
    decreases imports.len(),
{
    if imports.len() == 0 {
        seq![]
    } else if imports.last().line == line {
        imports_on(imports.drop_last(), line).push(imports.last())
    } else {
        imports_on(imports.drop_last(), line)
    }
}

/// The skipped imports recorded on `line`, in order.
pub open spec fn skipped_on(skipped: Seq<SemanticSkippedImport>, line: usize) -> Seq<SemanticSkippedImport>
    decreases skipped.len(),
{
    if skipped.len() == 0 {
        seq![]
    } else if skipped.last().line == line {
        skipped_on(skipped.drop_last(), line).push(skipped.last())
    } else {
        skipped_on(skipped.drop_last(), line)
    }
}

/// Imports logged with no line: those an `Sdk` attribute brings in.
pub open spec fn implicit_imports_of(f: SemanticFile) -> Seq<SemanticImport> {
    imports_on(f.imports@, 0)
}

/// Something was recorded, imported or skipped, on 1-based `line`.
pub open spec fn has_edges_on(f: SemanticFile, line: usize) -> bool {
    line > 0 && (imports_on(f.imports@, line).len() > 0 || skipped_on(f.skipped_imports@, line).len() > 0)
}

/// The index keeps a token unless it is an import link with nothing
/// recorded behind it.
pub open spec fn keeps(f: SemanticFile, kind: TokenKind, line: usize) -> bool {
    match kind {
        TokenKind::ImportPath => has_edges_on(f, line),
        TokenKind::SdkReference => has_edges_on(f, line) || implicit_imports_of(f).len() > 0,
        _ => true,
    }
}

/// The spans the index keeps, in order.
pub open spec fn kept_spans(f: SemanticFile, b: Seq<u8>, s: Seq<Span>) -> Seq<Span>
    decreases s.len(),
{
    if s.len() == 0 {
        seq![]
    } else if keeps(f, s.last().0, line_of(b, s.last().1) as usize) {
        kept_spans(f, b, s.drop_last()).push(s.last())
    } else {
        kept_spans(f, b, s.drop_last())
    }
}

proof fn lemma_kept_sorted(f: SemanticFile, b: Seq<u8>, s: Seq<Span>)
    requires
        sorted_disjoint(s),
    ensures
        sorted_disjoint(kept_spans(f, b, s)),
        forall|k: int| 0 <= k < kept_spans(f, b, s).len() ==> s.contains(#[trigger] kept_spans(f, b, s)[k]),
    decreases s.len(),
{
    if s.len() > 0 {
        let t = s.drop_last();
        assert(sorted_disjoint(t)) by {
            assert forall|k: int| 0 <= k < t.len() implies (#[trigger] t[k]).1 < t[k].2 by {
                assert(t[k] == s[k]);
            }
            assert forall|i: int, j: int| 0 <= i < j < t.len() implies (#[trigger] t[i]).2 <= (#[trigger] t[j]).1 by {
                assert(t[i] == s[i] && t[j] == s[j]);
            }
        }
        lemma_kept_sorted(f, b, t);
        let kt = kept_spans(f, b, t);
        assert forall|k: int| 0 <= k < kt.len() implies s.contains(#[trigger] kt[k]) by {
            let m = choose|m: int| 0 <= m < t.len() && t[m] == kt[k];
            assert(s[m] == kt[k]);
        }
        if keeps(f, s.last().0, line_of(b, s.last().1) as usize) {
            let r = kt.push(s.last());
            assert(s.last() == s[s.len() - 1]);
            assert forall|k: int| 0 <= k < r.len() implies (#[trigger] r[k]).1 < r[k].2 by {
                if k < kt.len() {
                    assert(r[k] == kt[k]);
                }
            }
            assert forall|i: int, j: int| 0 <= i < j < r.len() implies (#[trigger] r[i]).2 <= (#[trigger] r[j]).1 by {
                if j == kt.len() {
                    assert(r[i] == kt[i]);
                    let m = choose|m: int| 0 <= m < t.len() && t[m] == kt[i];
                    assert(s[m] == kt[i]);
                } else {
                    assert(r[i] == kt[i] && r[j] == kt[j]);
                }
            }
            assert forall|k: int| 0 <= k < r.len() implies s.contains(#[trigger] r[k]) by {
                if k < kt.len() {
                    assert(r[k] == kt[k]);
                }
            }
        }
    }
}

/// Whether a Cmd-click on an import link leads somewhere.
pub open spec fn navigable(f: SemanticFile, kind: TokenKind, line: usize) -> bool {
    match kind {
        TokenKind::ImportPath => line > 0 && imports_on(f.imports@, line).len() > 0,
        TokenKind::SdkReference => (line > 0 && imports_on(f.imports@, line).len() > 0) || implicit_imports_of(f).len() > 0,
        _ => true,
    }
}

pub struct SemanticIndex {
    pub tokens: Vec<Token>,
    pub file: SemanticFile,
    imports_by_line: HashMap<usize, Vec<SemanticImport>>,
    implicit_imports: Vec<SemanticImport>,
    skipped_by_line: HashMap<usize, Vec<SemanticSkippedImport>>,
}

impl SemanticIndex {
    /// The file the index was built over.
    pub closed spec fn recorded(&self) -> SemanticFile {
        self.file
    }

    /// The index's tokens.
    pub closed spec fn token_list(&self) -> Seq<Token> {
        self.tokens@
    }

    /// The index's tokens, as its `tokens` field holds them. Verus keeps a
    /// struct with private fields opaque outside its module, so verified
    /// callers read the field through here to use the contracts.
    pub fn tokens(&self) -> (r: &Vec<Token>)
        ensures
            r@ == self.token_list(),
    {
        &self.tokens
    }

    /// The file the index was built over, as its `file` field holds it.
    pub fn file(&self) -> (r: &SemanticFile)
        ensures
            *r == self.recorded(),
    {
        &self.file
    }

    /// The private tables are the file's edges grouped by line.
    pub closed spec fn well_formed(&self) -> bool {
        &&& forall|l: usize| #[trigger]
            self.imports_by_line@.contains_key(l) ==> l > 0 && self.imports_by_line@[l]@.len() > 0 && self.imports_by_line@[l]@ == imports_on(
                self.file.imports@,
                l,
            )
        &&& forall|l: usize|
            l > 0 && #[trigger] imports_on(self.file.imports@, l).len() > 0 ==> self.imports_by_line@.contains_key(l)
        &&& self.implicit_imports@ == implicit_imports_of(self.file)
        &&& forall|l: usize| #[trigger]
            self.skipped_by_line@.contains_key(l) ==> l > 0 && self.skipped_by_line@[l]@.len() > 0 && self.skipped_by_line@[l]@ == skipped_on(
                self.file.skipped_imports@,
                l,
            )
        &&& forall|l: usize|
            l > 0 && #[trigger] skipped_on(self.file.skipped_imports@, l).len() > 0
                ==> self.skipped_by_line@.contains_key(l)
    }
}

fn group_imports(imports: &Vec<SemanticImport>) -> (r: (HashMap<usize, Vec<SemanticImport>>, Vec<SemanticImport>))
    ensures
        forall|l: usize| #[trigger]
            r.0@.contains_key(l) ==> l > 0 && r.0@[l]@.len() > 0 && r.0@[l]@ == imports_on(imports@, l),
        forall|l: usize| l > 0 && #[trigger] imports_on(imports@, l).len() > 0 ==> r.0@.contains_key(l),
        r.1@ == imports_on(imports@, 0),
{
    let mut by_line: HashMap<usize, Vec<SemanticImport>> = HashMap::new();
    let mut implicit: Vec<SemanticImport> = Vec::new();
    let mut k: usize = 0;
    while k < imports.len()
        invariant
            k <= imports@.len(),
            forall|l: usize| #[trigger]
                by_line@.contains_key(l) ==> l > 0 && by_line@[l]@.len() > 0 && by_line@[l]@ == imports_on(imports@.subrange(0, k as int), l),
            forall|l: usize|
                l > 0 && #[trigger] imports_on(imports@.subrange(0, k as int), l).len() > 0 ==> by_line@.contains_key(l),
            implicit@ == imports_on(imports@.subrange(0, k as int), 0),
        decreases imports.len() - k,
    {
        let ghost prev = imports@.subrange(0, k as int);
        let ghost next = imports@.subrange(0, k + 1);
        assert(next.drop_last() =~= prev);
        assert(next.last() == imports@[k as int]);
        assert forall|l: usize| #[trigger] imports_on(next, l) == if imports@[k as int].line == l {
            imports_on(prev, l).push(imports@[k as int])
        } else {
            imports_on(prev, l)
        } by {}
        let ghost old_map = by_line@;
        let edge = imports[k].clone();
        let line = edge.line;
        if line > 0 {
            let mut group = match by_line.remove(&line) {
                Some(g) => g,
                None => Vec::new(),
            };
            group.push(edge);
            by_line.insert(line, group);
        } else {
            implicit.push(edge);
        }
        k += 1;
    }
    assert(imports@.subrange(0, imports@.len() as int) =~= imports@);
    (by_line, implicit)
}

fn group_skipped(skipped: &Vec<SemanticSkippedImport>) -> (r: HashMap<usize, Vec<SemanticSkippedImport>>)
    ensures
        forall|l: usize| #[trigger]
            r@.contains_key(l) ==> l > 0 && r@[l]@.len() > 0 && r@[l]@ == skipped_on(skipped@, l),
        forall|l: usize| l > 0 && #[trigger] skipped_on(skipped@, l).len() > 0 ==> r@.contains_key(l),
{
    let mut by_line: HashMap<usize, Vec<SemanticSkippedImport>> = HashMap::new();
    let mut k: usize = 0;
    while k < skipped.len()
        invariant
            k <= skipped@.len(),
            forall|l: usize| #[trigger]
                by_line@.contains_key(l) ==> l > 0 && by_line@[l]@.len() > 0 && by_line@[l]@ == skipped_on(skipped@.subrange(0, k as int), l),
            forall|l: usize|
                l > 0 && #[trigger] skipped_on(skipped@.subrange(0, k as int), l).len() > 0 ==> by_line@.contains_key(l),
        decreases skipped.len() - k,
    {
        let ghost prev = skipped@.subrange(0, k as int);
        let ghost next = skipped@.subrange(0, k + 1);
        assert(next.drop_last() =~= prev);
        assert(next.last() == skipped@[k as int]);
        assert forall|l: usize| #[trigger] skipped_on(next, l) == if skipped@[k as int].line == l {
            skipped_on(prev, l).push(skipped@[k as int])
        } else {
            skipped_on(prev, l)
        } by {}
        let ghost old_map = by_line@;
        let edge = skipped[k].clone();
        let line = edge.line;
        if line > 0 {
            let mut group = match by_line.remove(&line) {
                Some(g) => g,
                None => Vec::new(),
            };
            group.push(edge);
            by_line.insert(line, group);
        }
        k += 1;
    }
    assert(skipped@.subrange(0, skipped@.len() as int) =~= skipped@);
    by_line
}

impl SemanticIndex {
    /// Tokenizes `text` and joins its tokens to the file's recorded edges,
    /// dropping import links with nothing recorded behind them.
    pub fn new(text: &str, file: SemanticFile) -> (index: SemanticIndex)
        requires
            text_fits(text.spec_bytes().len() as int),
        ensures
            index.well_formed(),
            index.recorded() == file,
            spans_of(index.token_list()) == kept_spans(file, text.spec_bytes(), token_spans(text.spec_bytes())),
            all_tokens_in(index.token_list(), text.spec_bytes()),
            sorted_disjoint(spans_of(index.token_list())),
    {
        let (imports_by_line, implicit_imports) = group_imports(&file.imports);
        let skipped_by_line = group_skipped(&file.skipped_imports);
        let all = tokenize(text);
        let ghost b = text.spec_bytes();
        let ghost sa = spans_of(all@);
        let mut tokens: Vec<Token> = Vec::new();
        let mut k: usize = 0;
        while k < all.len()
            invariant
                k <= all@.len(),
                sa == spans_of(all@),
                b == text.spec_bytes(),
                all_tokens_in(all@, b),
                all_tokens_in(tokens@, b),
                spans_of(tokens@) == kept_spans(file, b, sa.subrange(0, k as int)),
                forall|l: usize| #[trigger]
                    imports_by_line@.contains_key(l) ==> l > 0 && imports_by_line@[l]@.len() > 0 && imports_by_line@[l]@ == imports_on(file.imports@, l),
                forall|l: usize|
                    l > 0 && #[trigger] imports_on(file.imports@, l).len() > 0 ==> imports_by_line@.contains_key(l),
                implicit_imports@ == implicit_imports_of(file),
                forall|l: usize| #[trigger]
                    skipped_by_line@.contains_key(l) ==> l > 0 && skipped_by_line@[l]@.len() > 0 && skipped_by_line@[l]@ == skipped_on(file.skipped_imports@, l),
                forall|l: usize|
                    l > 0 && #[trigger] skipped_on(file.skipped_imports@, l).len() > 0 ==> skipped_by_line@.contains_key(l),
            decreases all.len() - k,
        {
            let t = &all[k];
            assert(token_in(all@[k as int], b));
            let ghost prev = sa.subrange(0, k as int);
            let ghost next = sa.subrange(0, k + 1);
            assert(next.drop_last() =~= prev);
            assert(next.last() == t.span());
            let on_line = imports_by_line.contains_key(&t.line) || skipped_by_line.contains_key(&t.line);
            let keep = match t.kind {
                TokenKind::ImportPath => on_line,
                TokenKind::SdkReference => on_line || implicit_imports.len() > 0,
                _ => true,
            };
            let ghost before = tokens@;
            if keep {
                tokens.push(t.clone());
                assert(spans_of(tokens@) =~= spans_of(before).push(t.span()));
            }
            k += 1;
        }
        assert(sa.subrange(0, all@.len() as int) =~= sa);
        proof {
            lemma_kept_sorted(file, b, sa);
        }
        SemanticIndex { tokens, file, imports_by_line, implicit_imports, skipped_by_line }
    }

    pub fn is_navigable(&self, token: &Token) -> (r: bool)
        requires
            self.well_formed(),
        ensures
            r == navigable(self.recorded(), token.kind, token.line),
    {
        match token.kind {
            TokenKind::ImportPath => self.imports_by_line.contains_key(&token.line),
            TokenKind::SdkReference => {
                self.imports_by_line.contains_key(&token.line) || !(self.implicit_imports.len() == 0)
            },
            _ => true,
        }
    }

    pub fn skipped_imports_for(&self, token: &Token) -> (r: Vec<SemanticSkippedImport>)
        requires
            self.well_formed(),
        ensures
            r@ == match token.kind {
                TokenKind::ImportPath | TokenKind::SdkReference => if token.line > 0 {
                    skipped_on(self.recorded().skipped_imports@, token.line)
                } else {
                    seq![]
                },
                _ => seq![],
            },
    {
        match token.kind {
            TokenKind::ImportPath | TokenKind::SdkReference => {},
            _ => return Vec::new(),
        }
        match self.skipped_by_line.get(&token.line) {
            Some(v) => clone_skipped(v),
            None => {
                proof {
                    if token.line > 0 {
                        if skipped_on(self.file.skipped_imports@, token.line).len() > 0 {
                            assert(self.skipped_by_line@.contains_key(token.line));
                        }
                        assert(skipped_on(self.file.skipped_imports@, token.line) =~= seq![]);
                    }
                }
                Vec::new()
            },
        }
    }
}

fn clone_skipped(v: &Vec<SemanticSkippedImport>) -> (r: Vec<SemanticSkippedImport>)
    ensures
        r@ == v@,
{
    let mut r: Vec<SemanticSkippedImport> = Vec::new();
    let mut k: usize = 0;
    while k < v.len()
        invariant
            k <= v@.len(),
            r@ == v@.subrange(0, k as int),
        decreases v.len() - k,
    {
        r.push(v[k].clone());
        assert(r@ =~= v@.subrange(0, k + 1));
        k += 1;
    }
    assert(v@.subrange(0, v@.len() as int) =~= v@);
    r
}

fn clone_imports(v: &Vec<SemanticImport>) -> (r: Vec<SemanticImport>)
    ensures
        r@ == v@,
{
    let mut r: Vec<SemanticImport> = Vec::new();
    let mut k: usize = 0;
    while k < v.len()
        invariant
            k <= v@.len(),
            r@ == v@.subrange(0, k as int),
        decreases v.len() - k,
    {
        r.push(v[k].clone());
        assert(r@ =~= v@.subrange(0, k + 1));
        k += 1;
    }
    assert(v@.subrange(0, v@.len() as int) =~= v@);
    r
}

// ----- skipped imports in source order -----

/// `a` sits at or before `c` in the source.
pub open spec fn position_le(a: SemanticSkippedImport, c: SemanticSkippedImport) -> bool {
    a.line < c.line || (a.line == c.line && a.column <= c.column)
}

/// The skipped imports that carry a line, in the order recorded.
pub open spec fn positioned(s: Seq<SemanticSkippedImport>) -> Seq<SemanticSkippedImport>
    decreases s.len(),
{
    if s.len() == 0 {
        seq![]
    } else if s.last().line > 0 {
        positioned(s.drop_last()).push(s.last())
    } else {
        positioned(s.drop_last())
    }
}

/// `x` inserted after every element from the back that does not come
/// after it.
pub open spec fn insert_by_position(s: Seq<SemanticSkippedImport>, x: SemanticSkippedImport) -> Seq<SemanticSkippedImport>
    decreases s.len(),
{
    if s.len() == 0 {
        seq![x]
    } else if position_le(s.last(), x) {
        s.push(x)
    } else {
        insert_by_position(s.drop_last(), x).push(s.last())
    }
}

/// A stable sort by (line, column): records at one position keep their
/// recorded order.
pub open spec fn sort_by_position(s: Seq<SemanticSkippedImport>) -> Seq<SemanticSkippedImport>
    decreases s.len(),
{
    if s.len() == 0 {
        seq![]
    } else {
        insert_by_position(sort_by_position(s.drop_last()), s.last())
    }
}

pub open spec fn sorted_by_position(s: Seq<SemanticSkippedImport>) -> bool {
    forall|i: int, j: int| 0 <= i < j < s.len() ==> position_le(#[trigger] s[i], #[trigger] s[j])
}

pub proof fn lemma_insert_by_position(s: Seq<SemanticSkippedImport>, x: SemanticSkippedImport)
    ensures
        insert_by_position(s, x).to_multiset() =~= s.to_multiset().insert(x),
        sorted_by_position(s) ==> sorted_by_position(insert_by_position(s, x)),
    decreases s.len(),
{
    broadcast use vstd::seq_lib::group_to_multiset_ensures;

    if s.len() == 0 {
        assert(seq![x] =~= Seq::<SemanticSkippedImport>::empty().push(x));
    } else if position_le(s.last(), x) {
        if sorted_by_position(s) {
            let r = s.push(x);
            assert forall|i: int, j: int| 0 <= i < j < r.len() implies position_le(#[trigger] r[i], #[trigger] r[j]) by {
                if j == r.len() - 1 && i < s.len() - 1 {
                    assert(position_le(s[i], s.last()));
                }
            }
        }
    } else {
        let t = s.drop_last();
        assert(s == t.push(s.last()));
        lemma_insert_by_position(t, x);
        let r0 = insert_by_position(t, x);
        if sorted_by_position(s) {
            let r = r0.push(s.last());
            assert forall|k: int| 0 <= k < r0.len() implies position_le(#[trigger] r0[k], s.last()) by {
                assert(r0.to_multiset().count(r0[k]) > 0);
                if r0[k] != x {
                    assert(t.to_multiset().count(r0[k]) > 0);
                    assert(t.contains(r0[k]));
                    let w = choose|w: int| 0 <= w < t.len() && t[w] == r0[k];
                    assert(position_le(s[w], s[s.len() - 1]));
                }
            }
            assert forall|i: int, j: int| 0 <= i < j < r.len() implies position_le(#[trigger] r[i], #[trigger] r[j]) by {
                if j == r.len() - 1 {
                    assert(r[i] == r0[i]);
                }
            }
        }
    }
}

pub proof fn lemma_sort_by_position(s: Seq<SemanticSkippedImport>)
    ensures
        sort_by_position(s).to_multiset() =~= s.to_multiset(),
        sorted_by_position(sort_by_position(s)),
    decreases s.len(),
{
    broadcast use vstd::seq_lib::group_to_multiset_ensures;

    if s.len() > 0 {
        let t = s.drop_last();
        lemma_sort_by_position(t);
        lemma_insert_by_position(sort_by_position(t), s.last());
        assert(s == t.push(s.last()));
    }
}

fn position_le_exec(a: &SemanticSkippedImport, c: &SemanticSkippedImport) -> (r: bool)
    ensures
        r == position_le(*a, *c),
{
    a.line < c.line || (a.line == c.line && a.column <= c.column)
}

impl SemanticIndex {
    /// Every skipped import, in source order, for the editor's inlays.
    pub fn skipped_imports(&self) -> (all: Vec<SemanticSkippedImport>)
        ensures
            all@ == sort_by_position(positioned(self.recorded().skipped_imports@)),
            sorted_by_position(all@),
            all@.to_multiset() =~= positioned(self.recorded().skipped_imports@).to_multiset(),
    {
        let src = &self.file.skipped_imports;
        let mut all: Vec<SemanticSkippedImport> = Vec::new();
        let mut k: usize = 0;
        while k < src.len()
            invariant
                k <= src@.len(),
                all@ == sort_by_position(positioned(src@.subrange(0, k as int))),
            decreases src.len() - k,
        {
            let ghost prev = src@.subrange(0, k as int);
            let ghost next = src@.subrange(0, k + 1);
            assert(next.drop_last() =~= prev);
            let x = src[k].clone();
            assert(next.last() == x);
            if x.line > 0 {
                let ghost before = all@;
                let ghost pp = positioned(prev);
                assert(positioned(next) == pp.push(x));
                assert(pp.push(x).drop_last() =~= pp);
                assert(sort_by_position(pp.push(x)) == insert_by_position(sort_by_position(pp), x));
                assert(before.subrange(0, before.len() as int) =~= before);
                assert(insert_by_position(before, x) =~= insert_by_position(before.subrange(0, before.len() as int), x)
                    + before.subrange(before.len() as int, before.len() as int));
                let mut j = all.len();
                while j > 0 && !position_le_exec(&all[j - 1], &x)
                    invariant
                        j <= all@.len(),
                        all@ == before,
                        insert_by_position(before, x) == insert_by_position(before.subrange(0, j as int), x) + before.subrange(
                            j as int,
                            before.len() as int,
                        ),
                    decreases j,
                {
                    let ghost pre = before.subrange(0, j as int);
                    assert(pre.drop_last() =~= before.subrange(0, j - 1));
                    assert(before.subrange(j - 1, before.len() as int) =~= seq![pre.last()] + before.subrange(
                        j as int,
                        before.len() as int,
                    ));
                    assert(insert_by_position(pre, x) == insert_by_position(pre.drop_last(), x).push(pre.last()));
                    assert(insert_by_position(pre.drop_last(), x).push(pre.last()) + before.subrange(j as int, before.len() as int)
                        =~= insert_by_position(before.subrange(0, j - 1), x) + before.subrange(j - 1, before.len() as int));
                    j -= 1;
                }
                all.insert(j, x);
                assert(all@ =~= insert_by_position(before.subrange(0, j as int), x) + before.subrange(j as int, before.len() as int));
            }
            k += 1;
        }
        assert(src@.subrange(0, src@.len() as int) =~= src@);
        proof {
            lemma_sort_by_position(positioned(src@));
        }
        all
    }
}

// ----- the token under an offset -----

pub open spec fn token_contains(t: Token, offset: usize) -> bool {
    t.range.start <= offset < t.range.end
}

impl SemanticIndex {
    /// The token whose range holds `offset`, found by binary search over
    /// tokens in order.
    pub fn token_at(&self, offset: usize) -> (r: Option<&Token>)
        ensures
            r matches Some(t) ==> self.token_list().contains(*t) && token_contains(*t, offset),
            sorted_disjoint(spans_of(self.token_list())) ==> (r is None <==> !exists|k: int|
                0 <= k < self.token_list().len() && token_contains(#[trigger] self.token_list()[k], offset)),
    {
        let ts = &self.tokens;
        let ghost sp = spans_of(ts@);
        let mut lo: usize = 0;
        let mut hi: usize = ts.len();
        while lo < hi
            invariant
                0 <= lo <= hi <= ts@.len(),
                sp == spans_of(ts@),
                sorted_disjoint(sp) ==> forall|k: int| 0 <= k < lo ==> (#[trigger] ts@[k]).range.end <= offset,
                sorted_disjoint(sp) ==> forall|k: int| hi <= k < ts@.len() ==> (#[trigger] ts@[k]).range.end > offset,
            decreases hi - lo,
        {
            let mid = lo + (hi - lo) / 2;
            proof {
                if sorted_disjoint(sp) {
                    assert forall|k: int| 0 <= k < mid implies (#[trigger] ts@[k]).range.end <= ts@[mid as int].range.end by {
                        assert(sp[k] == ts@[k].span());
                        assert(sp[mid as int] == ts@[mid as int].span());
                        assert(sp[k].2 <= sp[mid as int].1);
                    }
                    assert forall|k: int| mid < k < ts@.len() implies (#[trigger] ts@[k]).range.end >= ts@[mid as int].range.end by {
                        assert(sp[k] == ts@[k].span());
                        assert(sp[mid as int] == ts@[mid as int].span());
                        assert(sp[mid as int].2 <= sp[k].1);
                    }
                }
            }
            if ts[mid].range.end <= offset {
                lo = mid + 1;
            } else {
                hi = mid;
            }
        }
        proof {
            if sorted_disjoint(sp) && lo < ts@.len() {
                assert forall|k: int| 0 <= k < ts@.len() && k != lo implies !token_contains(#[trigger] ts@[k], offset) by {
                    assert(sp[k] == ts@[k].span());
                    assert(sp[lo as int] == ts@[lo as int].span());
                    if k > lo {
                        assert(sp[lo as int].2 <= sp[k].1);
                        assert(sp[lo as int].1 < sp[lo as int].2);
                    }
                }
            }
        }
        if lo < ts.len() && ts[lo].range.start <= offset && offset < ts[lo].range.end {
            Some(&ts[lo])
        } else {
            None
        }
    }
}

// ----- where an import link goes -----

/// Where the file name of a path starts: after its last `/` or `\`.
pub open spec fn file_name_start(b: Seq<u8>) -> int
    decreases b.len(),
{
    if b.len() == 0 {
        0
    } else if b.last() == SLASH || b.last() == BACKSLASH {
        b.len() as int
    } else {
        file_name_start(b.drop_last())
    }
}

proof fn lemma_file_name_start(b: Seq<u8>)
    ensures
        0 <= file_name_start(b) <= b.len(),
        0 < file_name_start(b) ==> b[file_name_start(b) - 1] == SLASH || b[file_name_start(b) - 1] == BACKSLASH,
        forall|k: int| file_name_start(b) <= k < b.len() ==> #[trigger] b[k] != SLASH && b[k] != BACKSLASH,
    decreases b.len(),
{
    if b.len() > 0 {
        let t = b.drop_last();
        lemma_file_name_start(t);
        assert forall|k: int| file_name_start(b) <= k < b.len() implies #[trigger] b[k] != SLASH && b[k] != BACKSLASH by {
            if k < t.len() {
                assert(b[k] == t[k]);
            }
        }
        if 0 < file_name_start(b) && file_name_start(b) < b.len() {
            assert(b[file_name_start(b) - 1] == t[file_name_start(b) - 1]);
        }
    }
}

/// The last component of a path, `/` and `\` both separating.
pub fn file_name(path: &str) -> (name: String)
    requires
        text_fits(path.spec_bytes().len() as int),
    ensures
        encode_utf8(name@) == path.spec_bytes().subrange(file_name_start(path.spec_bytes()), path.spec_bytes().len() as int),
{
    let b = path.as_bytes();
    proof {
        lemma_file_name_start(b@);
    }
    let mut i = b.len();
    assert(b@.subrange(0, b@.len() as int) =~= b@);
    while i > 0 && b[i - 1] != SLASH && b[i - 1] != BACKSLASH
        invariant
            i <= b@.len(),
            file_name_start(b@.subrange(0, i as int)) == file_name_start(b@),
        decreases i,
    {
        assert(b@.subrange(0, i as int).drop_last() =~= b@.subrange(0, i - 1));
        i -= 1;
    }
    proof {
        assert(b@.subrange(0, b@.len() as int) =~= b@);
        if i > 0 {
            assert(b@.subrange(0, i as int).last() == b@[i - 1]);
        }
    }
    slice_text(path, i, b.len())
}

/// What a Cmd-click on a token should do.
pub enum Navigation {
    Open(SemanticLocation),
    Choose(Vec<SemanticLocation>),
    /// Nowhere to go, and why.
    Unavailable(String),
}

/// The recorded edges behind an import link: those on its line, or for an
/// `Sdk` attribute with none there, the implicit SDK imports.
pub open spec fn edges_for(f: SemanticFile, kind: TokenKind, line: usize) -> Seq<SemanticImport> {
    let on_line = if line > 0 {
        imports_on(f.imports@, line)
    } else {
        seq![]
    };
    if on_line.len() == 0 && kind == TokenKind::SdkReference {
        implicit_imports_of(f)
    } else {
        on_line
    }
}

/// The edges whose file the binlog embeds.
pub open spec fn available_edges(s: Seq<SemanticImport>) -> Seq<SemanticImport>
    decreases s.len(),
{
    if s.len() == 0 {
        seq![]
    } else if s.last().available {
        available_edges(s.drop_last()).push(s.last())
    } else {
        available_edges(s.drop_last())
    }
}

/// `l` is the destination of edge `e`: its file at line 1, labelled with
/// the file name.
pub open spec fn location_of_edge(l: SemanticLocation, e: SemanticImport) -> bool {
    &&& l.path == Some(e.imported_path)
    &&& l.line == Some(1usize)
    &&& l.label matches Some(name) && encode_utf8(name@) == encode_utf8(e.imported_path@).subrange(
        file_name_start(encode_utf8(e.imported_path@)),
        encode_utf8(e.imported_path@).len() as int,
    )
    &&& l.detail == Some(e.imported_path)
    &&& l.node_id is None
    &&& l.available == e.available
}

/// Why an import link leads nowhere.
pub open spec fn no_destination_message(f: SemanticFile, kind: TokenKind, line: usize) -> Seq<char> {
    let skipped = if line > 0 {
        skipped_on(f.skipped_imports@, line)
    } else {
        seq![]
    };
    let edges = edges_for(f, kind, line);
    if skipped.len() > 0 {
        explanation_of(skipped[0])
    } else if edges.len() == 0 {
        "This import was not recorded in the build."@
    } else {
        "'"@ + edges[0].imported_path@ + "' is not embedded in this binlog."@
    }
}

/// The import navigation of a link of `kind` on `line`.
pub open spec fn import_navigation_is(f: SemanticFile, kind: TokenKind, line: usize, n: Navigation) -> bool {
    let reachable = available_edges(edges_for(f, kind, line));
    if reachable.len() == 0 {
        n matches Navigation::Unavailable(msg) && msg@ == no_destination_message(f, kind, line)
    } else if reachable.len() == 1 {
        n matches Navigation::Open(l) && location_of_edge(l, reachable[0])
    } else {
        n matches Navigation::Choose(ls) && ls@.len() == reachable.len() && forall|k: int|
            0 <= k < reachable.len() ==> location_of_edge(#[trigger] ls@[k], reachable[k])
    }
}

/// An import path or SDK reference that the recorded edges do not make
/// navigable has nowhere to go: following it only explains why.
pub proof fn lemma_unnavigable_goes_nowhere(f: SemanticFile, kind: TokenKind, line: usize, n: Navigation)
    requires
        kind == TokenKind::ImportPath || kind == TokenKind::SdkReference,
        !navigable(f, kind, line),
        import_navigation_is(f, kind, line, n),
    ensures
        n is Unavailable,
{
    assert(edges_for(f, kind, line).len() == 0);
    assert(available_edges(edges_for(f, kind, line)) =~= seq![]);
}

fn location_for(edge: &SemanticImport) -> (l: SemanticLocation)
    requires
        text_fits(encode_utf8(edge.imported_path@).len() as int),
    ensures
        location_of_edge(l, *edge),
{
    let path = edge.imported_path.as_str();
    SemanticLocation {
        path: Some(edge.imported_path.clone()),
        line: Some(1),
        label: Some(file_name(path)),
        detail: Some(edge.imported_path.clone()),
        node_id: None,
        available: edge.available,
    }
}

/// Every path the file records is short enough to scan.
pub open spec fn paths_fit(f: SemanticFile) -> bool {
    forall|k: int| 0 <= k < f.imports@.len() ==> text_fits(encode_utf8((#[trigger] f.imports@[k]).imported_path@).len() as int)
}

proof fn lemma_imports_on_within(s: Seq<SemanticImport>, line: usize)
    ensures
        forall|k: int| 0 <= k < imports_on(s, line).len() ==> s.contains(#[trigger] imports_on(s, line)[k]),
    decreases s.len(),
{
    if s.len() > 0 {
        lemma_imports_on_within(s.drop_last(), line);
        let r = imports_on(s, line);
        let r0 = imports_on(s.drop_last(), line);
        assert forall|k: int| 0 <= k < r.len() implies s.contains(#[trigger] r[k]) by {
            if k < r0.len() {
                assert(r[k] == r0[k]);
                let w = choose|w: int| 0 <= w < s.drop_last().len() && s.drop_last()[w] == r0[k];
                assert(s[w] == r0[k]);
            } else {
                assert(r[k] == s[s.len() - 1]);
            }
        }
    }
}

impl SemanticIndex {
    /// Import destinations, resolved locally from the recorded edges.
    pub fn import_navigation(&self, token: &Token) -> (n: Navigation)
        requires
            self.well_formed(),
            paths_fit(self.recorded()),
        ensures
            import_navigation_is(self.recorded(), token.kind, token.line, n),
    {
        let ghost f = self.file;
        let mut edges = match self.imports_by_line.get(&token.line) {
            Some(v) => clone_imports(v),
            None => Vec::new(),
        };
        proof {
            if token.line > 0 && !self.imports_by_line@.contains_key(token.line) {
                if imports_on(f.imports@, token.line).len() > 0 {
                    assert(self.imports_by_line@.contains_key(token.line));
                }
                assert(imports_on(f.imports@, token.line) =~= seq![]);
            }
        }
        if edges.len() == 0 && token.kind == TokenKind::SdkReference {
            edges = clone_imports(&self.implicit_imports);
        }
        let ghost e = edges@;
        assert(e == edges_for(f, token.kind, token.line));
        proof {
            lemma_imports_on_within(f.imports@, token.line);
            lemma_imports_on_within(f.imports@, 0);
            assert forall|k: int| 0 <= k < e.len() implies text_fits(encode_utf8((#[trigger] e[k]).imported_path@).len() as int) by {
                assert(f.imports@.contains(e[k]));
                let w = choose|w: int| 0 <= w < f.imports@.len() && f.imports@[w] == e[k];
                assert(text_fits(encode_utf8(f.imports@[w].imported_path@).len() as int));
            }
        }
        let mut reachable: Vec<SemanticLocation> = Vec::new();
        let mut k: usize = 0;
        while k < edges.len()
            invariant
                k <= e.len(),
                edges@ == e,
                forall|x: int| 0 <= x < e.len() ==> text_fits(encode_utf8((#[trigger] e[x]).imported_path@).len() as int),
                reachable@.len() == available_edges(e.subrange(0, k as int)).len(),
                forall|x: int|
                    0 <= x < reachable@.len() ==> location_of_edge(
                        #[trigger] reachable@[x],
                        available_edges(e.subrange(0, k as int))[x],
                    ),
            decreases e.len() - k,
        {
            let ghost prev = e.subrange(0, k as int);
            let ghost next = e.subrange(0, k + 1);
            assert(next.drop_last() =~= prev);
            assert(next.last() == e[k as int]);
            if edges[k].available {
                let l = location_for(&edges[k]);
                reachable.push(l);
            }
            k += 1;
        }
        assert(e.subrange(0, e.len() as int) =~= e);
        if reachable.len() == 0 {
            if token.line > 0 {
                if let Some(skipped) = self.skipped_by_line.get(&token.line) {
                    if skipped.len() > 0 {
                        return Navigation::Unavailable(skipped[0].explanation());
                    }
                }
            }
            proof {
                if token.line > 0 && skipped_on(f.skipped_imports@, token.line).len() > 0 {
                    assert(self.skipped_by_line@.contains_key(token.line));
                }
            }
            if edges.len() == 0 {
                return Navigation::Unavailable(String::from_str("This import was not recorded in the build."));
            }
            let mut msg = String::from_str("'");
            msg.append(edges[0].imported_path.as_str());
            msg.append("' is not embedded in this binlog.");
            return Navigation::Unavailable(msg);
        }
        if reachable.len() == 1 {
            let l = reachable.remove(0);
            Navigation::Open(l)
        } else {
            Navigation::Choose(reachable)
        }
    }
}

// ----- where a resolved symbol goes -----

/// Which half of a resolved symbol a Cmd-click should follow.
#[derive(Clone, Copy, PartialEq, Eq, Debug, Structural)]
pub enum Preference {
    Definitions,
    /// For `<Target Name="X">`: where it ran, not the line under the pointer.
    Executions,
}

/// The locations a click can reach, in order.
pub open spec fn reachable_locations(s: Seq<SemanticLocation>) -> Seq<SemanticLocation>
    decreases s.len(),
{
    if s.len() == 0 {
        seq![]
    } else if is_reachable_location(s.last()) {
        reachable_locations(s.drop_last()).push(s.last())
    } else {
        reachable_locations(s.drop_last())
    }
}

/// The candidates a symbol offers under `preference`: the preferred half
/// if it has any, else the other.
pub open spec fn symbol_candidates(symbol: SemanticSymbol, preference: Preference) -> Seq<SemanticLocation> {
    let definitions = reachable_locations(symbol.definitions@);
    let executions = symbol.executions@;
    let (first, second) = if preference == Preference::Executions {
        (executions, definitions)
    } else {
        (definitions, executions)
    };
    if first.len() > 0 {
        first
    } else {
        second
    }
}

pub open spec fn symbol_navigation_is(symbol: SemanticSymbol, preference: Preference, n: Navigation) -> bool {
    let candidates = symbol_candidates(symbol, preference);
    if !symbol.found {
        n matches Navigation::Unavailable(m) && m@ == "No "@ + symbol.kind@ + " '"@ + symbol.name@
            + "' in this evaluation."@
    } else if candidates.len() == 1 {
        n matches Navigation::Open(l) && l == candidates[0]
    } else if candidates.len() > 1 {
        n matches Navigation::Choose(ls) && ls@ == candidates
    } else if preference == Preference::Executions && symbol.executions@.len() == 0 {
        n matches Navigation::Unavailable(m) && m@ == "'"@ + symbol.name@ + "' never ran in this evaluation."@
    } else {
        n matches Navigation::Unavailable(m) && m@ == match symbol.note {
            Some(note) => note@,
            None => "'"@ + symbol.name@ + "' has no recorded definition in this evaluation."@,
        }
    }
}

fn clone_locations(v: &Vec<SemanticLocation>) -> (r: Vec<SemanticLocation>)
    ensures
        r@ == v@,
{
    let mut r: Vec<SemanticLocation> = Vec::new();
    let mut k: usize = 0;
    while k < v.len()
        invariant
            k <= v@.len(),
            r@ == v@.subrange(0, k as int),
        decreases v.len() - k,
    {
        r.push(v[k].clone());
        assert(r@ =~= v@.subrange(0, k + 1));
        k += 1;
    }
    assert(v@.subrange(0, v@.len() as int) =~= v@);
    r
}

/// Where a Cmd-click on a resolved symbol goes.
pub fn symbol_navigation(symbol: &SemanticSymbol, preference: Preference) -> (n: Navigation)
    ensures
        symbol_navigation_is(*symbol, preference, n),
{
    if !symbol.found {
        let mut m = String::from_str("No ");
        m.append(symbol.kind.as_str());
        m.append(" '");
        m.append(symbol.name.as_str());
        m.append("' in this evaluation.");
        return Navigation::Unavailable(m);
    }
    let mut definitions: Vec<SemanticLocation> = Vec::new();
    let mut k: usize = 0;
    while k < symbol.definitions.len()
        invariant
            k <= symbol.definitions@.len(),
            definitions@ == reachable_locations(symbol.definitions@.subrange(0, k as int)),
        decreases symbol.definitions.len() - k,
    {
        let ghost prev = symbol.definitions@.subrange(0, k as int);
        let ghost next = symbol.definitions@.subrange(0, k + 1);
        assert(next.drop_last() =~= prev);
        assert(next.last() == symbol.definitions@[k as int]);
        if symbol.definitions[k].is_reachable() {
            definitions.push(symbol.definitions[k].clone());
        }
        k += 1;
    }
    assert(symbol.definitions@.subrange(0, symbol.definitions@.len() as int) =~= symbol.definitions@);
    let executions = clone_locations(&symbol.executions);
    let candidates = if preference == Preference::Executions {
        if executions.len() > 0 {
            executions
        } else {
            definitions
        }
    } else {
        if definitions.len() > 0 {
            definitions
        } else {
            executions
        }
    };
    if candidates.len() == 1 {
        let mut candidates = candidates;
        return Navigation::Open(candidates.remove(0));
    }
    if candidates.len() > 1 {
        return Navigation::Choose(candidates);
    }
    if preference == Preference::Executions && symbol.executions.len() == 0 {
        let mut m = String::from_str("'");
        m.append(symbol.name.as_str());
        m.append("' never ran in this evaluation.");
        return Navigation::Unavailable(m);
    }
    match &symbol.note {
        Some(note) => Navigation::Unavailable(note.clone()),
        None => {
            let mut m = String::from_str("'");
            m.append(symbol.name.as_str());
            m.append("' has no recorded definition in this evaluation.");
            Navigation::Unavailable(m)
        },
    }
}


// ----- what a click can be offered -----

proof fn lemma_available_edges(s: Seq<SemanticImport>)
    ensures
        forall|k: int| 0 <= k < available_edges(s).len() ==> (#[trigger] available_edges(s)[k]).available && s.contains(
            available_edges(s)[k],
        ),
        (exists|k: int| 0 <= k < s.len() && (#[trigger] s[k]).available) <==> available_edges(s).len() > 0,
    decreases s.len(),
{
    if s.len() > 0 {
        let t = s.drop_last();
        lemma_available_edges(t);
        let r = available_edges(s);
        let r0 = available_edges(t);
        assert forall|k: int| 0 <= k < r.len() implies (#[trigger] r[k]).available && s.contains(r[k]) by {
            if k < r0.len() {
                assert(r[k] == r0[k]);
                let w = choose|w: int| 0 <= w < t.len() && t[w] == r0[k];
                assert(s[w] == r0[k]);
            } else {
                assert(r[k] == s[s.len() - 1]);
            }
        }
        if exists|k: int| 0 <= k < s.len() && (#[trigger] s[k]).available {
            let k = choose|k: int| 0 <= k < s.len() && (#[trigger] s[k]).available;
            if k < t.len() {
                assert(t[k] == s[k]);
            }
        }
        if exists|k: int| 0 <= k < t.len() && (#[trigger] t[k]).available {
            let k = choose|k: int| 0 <= k < t.len() && (#[trigger] t[k]).available;
            assert(s[k] == t[k]);
        }
    }
}

/// An import link only offers files the binlog embeds: every location it
/// opens or lets the user choose is available, and is the destination of
/// one of the link's recorded edges whose file is embedded. When none of
/// its edges is embedded, it goes nowhere; when one is, it goes somewhere.
pub proof fn lemma_import_links_offer_embedded_files(f: SemanticFile, kind: TokenKind, line: usize, n: Navigation)
    requires
        import_navigation_is(f, kind, line, n),
    ensures
        n matches Navigation::Open(l) ==> l.available && exists|e: SemanticImport|
            #![trigger location_of_edge(l, e)]
            edges_for(f, kind, line).contains(e) && e.available && location_of_edge(l, e),
        n matches Navigation::Choose(ls) ==> forall|k: int|
            0 <= k < ls@.len() ==> (#[trigger] ls@[k]).available && exists|e: SemanticImport|
                #![trigger location_of_edge(ls@[k], e)]
                edges_for(f, kind, line).contains(e) && e.available && location_of_edge(ls@[k], e),
        (forall|k: int| 0 <= k < edges_for(f, kind, line).len() ==> !(#[trigger] edges_for(f, kind, line)[k]).available)
            ==> n is Unavailable,
        (exists|k: int| 0 <= k < edges_for(f, kind, line).len() && (#[trigger] edges_for(f, kind, line)[k]).available)
            ==> !(n is Unavailable),
{
    let edges = edges_for(f, kind, line);
    let reachable = available_edges(edges);
    lemma_available_edges(edges);
    if reachable.len() == 1 {
        assert(reachable[0].available && edges.contains(reachable[0]));
    } else if reachable.len() > 1 {
        if let Navigation::Choose(ls) = n {
            assert forall|k: int| 0 <= k < ls@.len() implies (#[trigger] ls@[k]).available && exists|e: SemanticImport|
                #![trigger location_of_edge(ls@[k], e)]
                edges.contains(e) && e.available && location_of_edge(ls@[k], e) by {
                assert(location_of_edge(ls@[k], reachable[k]));
                assert(reachable[k].available && edges.contains(reachable[k]));
            }
        }
    }
}

proof fn lemma_reachable_locations(s: Seq<SemanticLocation>)
    ensures
        forall|k: int| 0 <= k < reachable_locations(s).len() ==> is_reachable_location(
            #[trigger] reachable_locations(s)[k],
        ) && s.contains(reachable_locations(s)[k]),
        (exists|k: int| 0 <= k < s.len() && is_reachable_location(#[trigger] s[k])) <==> reachable_locations(s).len() > 0,
    decreases s.len(),
{
    if s.len() > 0 {
        let t = s.drop_last();
        lemma_reachable_locations(t);
        let r = reachable_locations(s);
        let r0 = reachable_locations(t);
        assert forall|k: int| 0 <= k < r.len() implies is_reachable_location(#[trigger] r[k]) && s.contains(r[k]) by {
            if k < r0.len() {
                assert(r[k] == r0[k]);
                let w = choose|w: int| 0 <= w < t.len() && t[w] == r0[k];
                assert(s[w] == r0[k]);
            } else {
                assert(r[k] == s[s.len() - 1]);
            }
        }
        if exists|k: int| 0 <= k < s.len() && is_reachable_location(#[trigger] s[k]) {
            let k = choose|k: int| 0 <= k < s.len() && is_reachable_location(#[trigger] s[k]);
            if k < t.len() {
                assert(t[k] == s[k]);
            }
        }
        if exists|k: int| 0 <= k < t.len() && is_reachable_location(#[trigger] t[k]) {
            let k = choose|k: int| 0 <= k < t.len() && is_reachable_location(#[trigger] t[k]);
            assert(s[k] == t[k]);
        }
    }
}

/// Preferring executions (a Cmd-click on `<Target Name="X">`), a symbol
/// that ran goes to where it ran, not to its definition: the one execution
/// opens, or all of them are offered in order.
pub proof fn lemma_executions_preferred(symbol: SemanticSymbol, n: Navigation)
    requires
        symbol.found,
        symbol.executions@.len() > 0,
        symbol_navigation_is(symbol, Preference::Executions, n),
    ensures
        symbol.executions@.len() == 1 ==> (n matches Navigation::Open(l) && l == symbol.executions@[0]),
        symbol.executions@.len() > 1 ==> (n matches Navigation::Choose(ls) && ls@ == symbol.executions@),
{
}

/// Preferring definitions, a symbol with a definition a click can reach
/// offers only such definitions: each one it opens or offers is among the
/// symbol's definitions and is embedded or names a node; it never falls
/// back to the executions then.
pub proof fn lemma_definitions_preferred(symbol: SemanticSymbol, n: Navigation)
    requires
        symbol.found,
        exists|k: int| 0 <= k < symbol.definitions@.len() && is_reachable_location(#[trigger] symbol.definitions@[k]),
        symbol_navigation_is(symbol, Preference::Definitions, n),
    ensures
        !(n is Unavailable),
        n matches Navigation::Open(l) ==> symbol.definitions@.contains(l) && is_reachable_location(l),
        n matches Navigation::Choose(ls) ==> forall|k: int|
            0 <= k < ls@.len() ==> symbol.definitions@.contains(#[trigger] ls@[k]) && is_reachable_location(ls@[k]),
{
    lemma_reachable_locations(symbol.definitions@);
    let r = reachable_locations(symbol.definitions@);
    if r.len() == 1 {
        assert(is_reachable_location(r[0]) && symbol.definitions@.contains(r[0]));
    }
}

} // verus!
