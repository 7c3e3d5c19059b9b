//! The search pane's decisions: when a query is worth running, how a
//! clause joins the query, when the scope changed, and the rows of a result
//! tree with the user's folds applied.

use vstd::prelude::*;
use vstd::string::{StrSliceExecFns, StringExecFns, StringSliceAdditionalSpecFns};
use vstd::utf8::encode_utf8;
use crate::msbuild::lex::slice_text;
use std::ops::Range;
use crate::model::{append_decimal, decimal, prop_in, Highlight, NodeSummary};
use crate::msbuild::semantic::{file_name, file_name_start};
use crate::workspace::{lemma_prop_in_fits, props_fit};
use crate::text::{chars_of, contains_text, text_eq, texts};
use crate::tree_view::{trim_text, trimmed};

verus! {

/// What the pane searches. The result tree is identical either way.
#[derive(Clone, Copy, PartialEq, Eq, Debug, Structural)]
pub enum SearchMode {
    /// The whole build, through the log's search index.
    Log,
    /// Properties, items and assignments under one project or evaluation.
    PropertiesAndItems,
}

/// Shorter queries wait for more typing, unless they start a `$` clause.
pub const MIN_QUERY: usize = 3;

/// Whether `query`, trimmed, is long enough to run or starts with `$`.
pub open spec fn executable(query: Seq<char>) -> bool {
    let t = trimmed(query);
    t.len() >= MIN_QUERY || (t.len() > 0 && t[0] == '$')
}

pub fn is_executable(query: &str) -> (r: bool)
    ensures
        r == executable(query@),
{
    let t = trim_text(query);
    let cs = chars_of(t.as_str());
    cs.len() >= MIN_QUERY || (cs.len() > 0 && cs[0] == '$')
}

/// The query after `clause` joins the current one: the clause alone when
/// the current query is blank, else the trimmed query, a space, the clause.
pub open spec fn combined(current: Seq<char>, clause: Seq<char>) -> Seq<char> {
    let t = trimmed(current);
    if t.len() == 0 {
        clause
    } else {
        t + seq![' '] + clause
    }
}

pub fn combined_query(current: &str, clause: &str) -> (r: String)
    ensures
        r@ == combined(current@, clause@),
{
    let t = trim_text(current);
    if t.as_str().is_empty() {
        return String::from_str(clause);
    }
    let mut out = t;
    proof {
        reveal_strlit(" ");
    }
    out.append(" ");
    out.append(clause);
    out
}

/// Whether two scopes are the same: both absent, or nodes with one id.
pub open spec fn same_scope(a: Option<NodeSummary>, b: Option<NodeSummary>) -> bool {
    match (a, b) {
        (Some(x), Some(y)) => x.id@ == y.id@,
        (None, None) => true,
        _ => false,
    }
}

pub fn same_context(a: &Option<NodeSummary>, b: &Option<NodeSummary>) -> (r: bool)
    ensures
        r == same_scope(*a, *b),
{
    match (a, b) {
        (Some(x), Some(y)) => text_eq(x.id.as_str(), y.id.as_str()),
        (None, None) => true,
        _ => false,
    }
}

/// Whether a (trimmed) query goes to the engine: the Properties and items
/// pane needs a scope, and the query must be executable.
pub open spec fn searches(mode: SearchMode, has_context: bool, query: Seq<char>) -> bool {
    !(mode == SearchMode::PropertiesAndItems && !has_context) && executable(query)
}

pub fn runs_search(mode: SearchMode, has_context: bool, query: &str) -> (r: bool)
    ensures
        r == searches(mode, has_context, query@),
{
    if mode == SearchMode::PropertiesAndItems && !has_context {
        return false;
    }
    is_executable(query)
}

/// A node of a search result tree.
pub struct SearchTreeNode {
    pub node: Option<NodeSummary>,
    pub text: Option<String>,
    pub highlights: Option<Vec<Highlight>>,
    pub children: Option<Vec<SearchTreeNode>>,
}

/// A node's children, none when it has no list.
pub open spec fn kids(t: SearchTreeNode) -> Seq<SearchTreeNode> {
    match t.children {
        Some(c) => c@,
        None => seq![],
    }
}

/// A visible row of the result tree: its path of child indices as text
/// ("0/2/1"), the same path as numbers, its depth, and whether it has
/// children to fold.
pub struct ResultRow {
    pub path: String,
    pub position: Vec<usize>,
    pub depth: usize,
    pub has_children: bool,
}

pub ghost struct ResultModel {
    pub path: Seq<char>,
    pub position: Seq<usize>,
    pub depth: int,
    pub has_children: bool,
}

pub open spec fn result_models(rows: Seq<ResultRow>) -> Seq<ResultModel> {
    rows.map_values(|r: ResultRow| ResultModel { path: r.path@, position: r.position@, depth: r.depth as int, has_children: r.has_children })
}

/// How many levels `t` reaches below itself.
pub open spec fn result_reach(t: SearchTreeNode) -> nat
    decreases t, 1nat,
{
    if kids(t).len() == 0 {
        0
    } else {
        1 + result_reach_all(kids(t), kids(t).len())
    }
}

pub open spec fn result_reach_all(ts: Seq<SearchTreeNode>, n: nat) -> nat
    decreases ts, n,
{
    if n == 0 || n > ts.len() {
        0
    } else {
        let a = result_reach_all(ts, (n - 1) as nat);
        let b = result_reach(ts[n - 1]);
        if a > b {
            a
        } else {
            b
        }
    }
}

/// The rows `t` shows at `path`: itself, then its children's rows unless it
/// is folded.
pub open spec fn walked(
    t: SearchTreeNode,
    path: Seq<char>,
    position: Seq<usize>,
    depth: int,
    collapsed: Seq<Seq<char>>,
) -> Seq<ResultModel>
    decreases t, 1nat,
{
    let nonempty = kids(t).len() > 0;
    seq![ResultModel { path, position, depth, has_children: nonempty }] + if !nonempty || collapsed.contains(path) {
        seq![]
    } else {
        walked_all(kids(t), kids(t).len(), path, position, depth + 1, collapsed)
    }
}

/// The rows of the first `n` children, each at `parent/index`.
pub open spec fn walked_all(
    ts: Seq<SearchTreeNode>,
    n: nat,
    parent: Seq<char>,
    position: Seq<usize>,
    depth: int,
    collapsed: Seq<Seq<char>>,
) -> Seq<ResultModel>
    decreases ts, n,
{
    if n == 0 || n > ts.len() {
        seq![]
    } else {
        walked_all(ts, (n - 1) as nat, parent, position, depth, collapsed) + walked(
            ts[n - 1],
            parent + "/"@ + decimal((n - 1) as nat),
            position.push((n - 1) as usize),
            depth,
            collapsed,
        )
    }
}

/// The rows of the first `n` roots, each at its index.
pub open spec fn walked_roots(roots: Seq<SearchTreeNode>, n: nat, collapsed: Seq<Seq<char>>) -> Seq<ResultModel>
    decreases n,
{
    if n == 0 || n > roots.len() {
        seq![]
    } else {
        walked_roots(roots, (n - 1) as nat, collapsed) + walked(
            roots[n - 1],
            decimal((n - 1) as nat),
            seq![(n - 1) as usize],
            0,
            collapsed,
        )
    }
}

proof fn lemma_result_reach_child(t: SearchTreeNode, i: int)
    requires
        0 <= i < kids(t).len(),
    ensures
        result_reach(kids(t)[i]) + 1 <= result_reach(t),
{
    lemma_result_reach_all_bound(kids(t), kids(t).len(), i);
}

proof fn lemma_result_reach_all_bound(ts: Seq<SearchTreeNode>, n: nat, i: int)
    requires
        0 <= i < n <= ts.len(),
    ensures
        result_reach(ts[i]) <= result_reach_all(ts, n),
    decreases n,
{
    if i < n - 1 {
        lemma_result_reach_all_bound(ts, (n - 1) as nat, i);
    }
}

/// A copy of a position.
fn copy_position(p: &Vec<usize>) -> (r: Vec<usize>)
    ensures
        r@ == p@,
{
    let mut out: Vec<usize> = Vec::new();
    let mut i: usize = 0;
    while i < p.len()
        invariant
            i <= p@.len(),
            out@ == p@.take(i as int),
        decreases p.len() - i,
    {
        out.push(p[i]);
        assert(out@ =~= p@.take(i + 1));
        i += 1;
    }
    assert(p@.take(p@.len() as int) =~= p@);
    out
}

fn push_row(rows: &mut Vec<ResultRow>, row: ResultRow)
    ensures
        result_models(final(rows)@) == result_models(old(rows)@).push(
            ResultModel { path: row.path@, position: row.position@, depth: row.depth as int, has_children: row.has_children },
        ),
{
    let ghost before = rows@;
    rows.push(row);
    assert(result_models(rows@) =~= result_models(before).push(result_models(rows@).last()));
}

/// Appends the rows `node` shows at `path`.
#[verifier::spinoff_prover]
fn walk(
    rows: &mut Vec<ResultRow>,
    collapsed: &[String],
    node: &SearchTreeNode,
    path: String,
    position: Vec<usize>,
    depth: usize,
)
    requires
        depth + result_reach(*node) <= usize::MAX,
    ensures
        result_models(final(rows)@) == result_models(old(rows)@) + walked(
            *node,
            path@,
            position@,
            depth as int,
            texts(collapsed@),
        ),
    decreases node,
{
    let ghost start = result_models(rows@);
    let ghost ks = kids(*node);
    let nonempty = match &node.children {
        Some(c) => c.len() > 0,
        None => false,
    };
    let ghost p = path@;
    let ghost pos = position@;
    push_row(rows, ResultRow { path: path.clone(), position: copy_position(&position), depth, has_children: nonempty });
    let ghost head = ResultModel { path: p, position: pos, depth: depth as int, has_children: nonempty };
    if !nonempty || contains_text(collapsed, &path) {
        assert(result_models(rows@) =~= start + walked(*node, p, pos, depth as int, texts(collapsed@)));
        return;
    }
    let children = node.children.as_ref().unwrap();
    assert(children@ == ks);
    let mut i: usize = 0;
    while i < children.len()
        invariant
            children@ == ks,
            ks == kids(*node),
            ks.len() > 0,
            path@ == p,
            position@ == pos,
            depth + result_reach(*node) <= usize::MAX,
            result_reach(*node) == 1 + result_reach_all(ks, ks.len()),
            i <= ks.len(),
            result_models(rows@) == start + seq![head] + walked_all(
                ks,
                i as nat,
                p,
                pos,
                depth + 1,
                texts(collapsed@),
            ),
        decreases children.len() - i,
    {
        let mut child_path = path.clone();
        proof {
            reveal_strlit("/");
        }
        child_path.append("/");
        append_decimal(&mut child_path, i as u128);
        let mut child_position = copy_position(&position);
        child_position.push(i);
        proof {
            lemma_result_reach_child(*node, i as int);
            assert(decreases_to!(*node => node.children));
            assert(decreases_to!(node.children => node.children->0));
            assert(decreases_to!(node.children->0 => node.children->0@));
            assert(decreases_to!(node.children->0@ => node.children->0@[i as int]));
        }
        walk(rows, collapsed, &children[i], child_path, child_position, depth + 1);
        assert(result_models(rows@) =~= start + seq![head] + walked_all(
            ks,
            (i + 1) as nat,
            p,
            pos,
            depth + 1,
            texts(collapsed@),
        ));
        i += 1;
    }
    assert(result_models(rows@) =~= start + walked(*node, p, pos, depth as int, texts(collapsed@)));
}

/// The visible rows of a result tree: every node, in order, with the
/// children of a node whose path is in `collapsed` left out.
pub fn result_rows(roots: &[SearchTreeNode], collapsed: &[String]) -> (r: Vec<ResultRow>)
    requires
        forall|i: int| 0 <= i < roots@.len() ==> result_reach(#[trigger] roots@[i]) < usize::MAX,
    ensures
        result_models(r@) == walked_roots(roots@, roots@.len(), texts(collapsed@)),
{
    let mut rows: Vec<ResultRow> = Vec::new();
    let mut i: usize = 0;
    while i < roots.len()
        invariant
            i <= roots@.len(),
            forall|i: int| 0 <= i < roots@.len() ==> result_reach(#[trigger] roots@[i]) < usize::MAX,
            result_models(rows@) == walked_roots(roots@, i as nat, texts(collapsed@)),
        decreases roots.len() - i,
    {
        let mut path = String::new();
        append_decimal(&mut path, i as u128);
        let mut position: Vec<usize> = Vec::new();
        position.push(i);
        assert(position@ =~= seq![i]);
        assert(result_reach(roots@[i as int]) < usize::MAX);
        walk(&mut rows, collapsed, &roots[i], path, position, 0);
        i += 1;
    }
    rows
}

/// Every row's position has one index per level: depth plus one.
pub open spec fn positions_fit(rows: Seq<ResultModel>) -> bool {
    forall|i: int| 0 <= i < rows.len() ==> (#[trigger] rows[i]).position.len() == rows[i].depth + 1
}

/// A row's position names one child index per level down to it.
pub proof fn lemma_positions_fit(
    t: SearchTreeNode,
    path: Seq<char>,
    position: Seq<usize>,
    depth: int,
    collapsed: Seq<Seq<char>>,
)
    requires
        position.len() == depth + 1,
    ensures
        positions_fit(walked(t, path, position, depth, collapsed)),
    decreases t, 1nat,
{
    let nonempty = kids(t).len() > 0;
    if nonempty && !collapsed.contains(path) {
        let rest = walked_all(kids(t), kids(t).len(), path, position, depth + 1, collapsed);
        lemma_positions_fit_all(kids(t), kids(t).len(), path, position, depth + 1, collapsed);
        let all = walked(t, path, position, depth, collapsed);
        assert forall|i: int| 0 <= i < all.len() implies (#[trigger] all[i]).position.len() == all[i].depth + 1 by {
            if i > 0 {
                assert(all[i] == rest[i - 1]);
            }
        }
    }
}

/// The same for the rows of the first `n` children.
pub proof fn lemma_positions_fit_all(
    ts: Seq<SearchTreeNode>,
    n: nat,
    parent: Seq<char>,
    position: Seq<usize>,
    depth: int,
    collapsed: Seq<Seq<char>>,
)
    requires
        position.len() == depth,
    ensures
        positions_fit(walked_all(ts, n, parent, position, depth, collapsed)),
    decreases ts, n,
{
    if n > 0 && n <= ts.len() {
        lemma_positions_fit_all(ts, (n - 1) as nat, parent, position, depth, collapsed);
        lemma_positions_fit(
            ts[n - 1],
            parent + "/"@ + decimal((n - 1) as nat),
            position.push((n - 1) as usize),
            depth,
            collapsed,
        );
        let a = walked_all(ts, (n - 1) as nat, parent, position, depth, collapsed);
        let b = walked(ts[n - 1], parent + "/"@ + decimal((n - 1) as nat), position.push((n - 1) as usize), depth, collapsed);
        let all = a + b;
        assert forall|i: int| 0 <= i < all.len() implies (#[trigger] all[i]).position.len() == all[i].depth + 1 by {
            if i < a.len() {
                assert(all[i] == a[i]);
            } else {
                assert(all[i] == b[i - a.len()]);
            }
        }
    }
}

/// Where a pane's search stands: which request is the latest, whether it is
/// still out, and what the last answered one gave.
pub struct SearchState<R> {
    /// Counts the searches begun; a reply carries the count it began under.
    pub generation: u64,
    pub searching: bool,
    pub error: Option<String>,
    pub response: Option<R>,
}

/// A failed search: the error's own words, and its full chain for the user.
pub struct Failure {
    pub summary: String,
    pub detail: String,
}

/// The state once a search begins (`runs`) or is given up because the
/// query cannot run: every earlier request is superseded either way.
pub open spec fn after_begin<R>(s: SearchState<R>, runs: bool) -> SearchState<R> {
    if runs {
        SearchState { generation: (s.generation + 1) as u64, searching: true, error: None, ..s }
    } else {
        SearchState { generation: (s.generation + 1) as u64, searching: false, error: None, response: None }
    }
}

/// The state once the reply to the search begun under `generation` lands:
/// a superseded reply changes nothing, a cancellation only ends the
/// search, an answer replaces the response, an error is shown.
pub open spec fn after_land<R>(s: SearchState<R>, generation: u64, result: Result<R, Failure>) -> SearchState<R> {
    if generation != s.generation {
        s
    } else {
        match result {
            Ok(r) => SearchState { searching: false, response: Some(r), ..s },
            Err(f) => if f.summary@ == "cancelled"@ {
                SearchState { searching: false, ..s }
            } else {
                SearchState { searching: false, error: Some(f.detail), ..s }
            },
        }
    }
}

impl<R> SearchState<R> {
    pub fn new() -> (r: Self)
        ensures
            r.generation == 0,
            !r.searching,
            r.error is None,
            r.response is None,
    {
        SearchState { generation: 0, searching: false, error: None, response: None }
    }

    /// Supersedes whatever search was out; returns the generation the new
    /// search runs under, or None when the query cannot run and the results
    /// are cleared.
    pub fn begin(&mut self, runs: bool) -> (r: Option<u64>)
        requires
            old(self).generation < u64::MAX,
        ensures
            *final(self) == after_begin(*old(self), runs),
            r == (if runs { Some(final(self).generation) } else { None }),
    {
        self.generation = self.generation + 1;
        self.error = None;
        if runs {
            self.searching = true;
            Some(self.generation)
        } else {
            self.searching = false;
            self.response = None;
            None
        }
    }

    /// Takes the reply to the search begun under `generation`; true when a
    /// new response arrived, so the rows must be rebuilt and the folds and
    /// selection forgotten.
    pub fn land(&mut self, generation: u64, result: Result<R, Failure>) -> (r: bool)
        ensures
            *final(self) == after_land(*old(self), generation, result),
            r == (generation == old(self).generation && result is Ok),
    {
        if generation != self.generation {
            return false;
        }
        self.searching = false;
        match result {
            Ok(response) => {
                self.response = Some(response);
                true
            },
            Err(f) => {
                if !text_eq(f.summary.as_str(), "cancelled") {
                    self.error = Some(f.detail);
                }
                false
            },
        }
    }
}

/// A reply to a search that a later one superseded is dropped: beginning a
/// search, then landing the reply to the one before it, leaves the state as
/// the begin left it.
pub proof fn lemma_superseded_reply_dropped<R>(s: SearchState<R>, runs: bool, result: Result<R, Failure>)
    requires
        s.generation < u64::MAX,
    ensures
        after_land(after_begin(s, runs), s.generation, result) == after_begin(s, runs),
{
}

/// The reply to the search in flight is taken: an answer becomes the
/// response and the search is over.
pub proof fn lemma_current_answer_taken<R>(s: SearchState<R>, r: R)
    requires
        s.generation < u64::MAX,
    ensures
        after_land(after_begin(s, true), (s.generation + 1) as u64, Ok(r)).response == Some(r),
        !after_land(after_begin(s, true), (s.generation + 1) as u64, Ok(r)).searching,
{
}

/// Bytes with each line feed turned into a space, so a row stays on one
/// line and keeps its offsets.
pub open spec fn spaced_bytes(b: Seq<u8>) -> Seq<u8> {
    b.map_values(|x: u8| if x == 0x0a { 0x20u8 } else { x })
}

/// `text` on one line: each line feed becomes a space.
pub fn one_line(text: &str) -> (r: String)
    ensures
        encode_utf8(r@) == spaced_bytes(text.spec_bytes()),
{
    let b = text.as_bytes();
    let mut r = String::new();
    let mut start: usize = 0;
    let mut i: usize = 0;
    proof {
        reveal_strlit(" ");
    }
    assert(encode_utf8(r@) =~= spaced_bytes(b@.subrange(0, 0)));
    while i < b.len()
        invariant
            b@ == text.spec_bytes(),
            start <= i <= b@.len(),
            encode_utf8(r@) == spaced_bytes(b@.subrange(0, start as int)),
            forall|k: int| start <= k < i ==> b@[k] != 0x0a,
            start == 0 || b@[start - 1] == 0x0a,
        decreases b.len() - i,
    {
        if b[i] == 0x0a {
            let piece = slice_text(text, start, i);
            let ghost before = r@;
            r.append(piece.as_str());
            r.append(" ");
            proof {
                reveal_strlit(" ");
                crate::files::lemma_encode_concat(before, piece@);
                crate::files::lemma_encode_concat(before + piece@, " "@);
                assert(r@ == before + piece@ + " "@);
                assert(encode_utf8(" "@) =~= seq![0x20u8]) by {
                    assert(" "@ =~= Seq::<char>::empty().push(' '));
                    crate::files::lemma_encode_push(Seq::<char>::empty(), ' ');
                    assert(encode_utf8(Seq::<char>::empty()) =~= Seq::<u8>::empty());
                    assert((32u32 & 0x7Fu32) as u8 == 0x20u8) by (bit_vector);
                    assert((' ' as u32) == 32u32);
                    assert(vstd::utf8::encode_scalar(' ' as u32) =~= seq![0x20u8]);
                }
                assert(spaced_bytes(b@.subrange(0, i + 1)) =~= spaced_bytes(b@.subrange(0, start as int)) + b@.subrange(
                    start as int,
                    i as int,
                ) + seq![0x20u8]);
            }
            start = i + 1;
        }
        i += 1;
    }
    let piece = slice_text(text, start, b.len());
    let ghost before = r@;
    r.append(piece.as_str());
    proof {
        crate::files::lemma_encode_concat(before, piece@);
        assert(spaced_bytes(b@.subrange(0, b@.len() as int)) =~= spaced_bytes(b@.subrange(0, start as int)) + b@.subrange(
            start as int,
            b@.len() as int,
        ));
        assert(b@.subrange(0, b@.len() as int) =~= b@);
    }
    r
}

/// How a stretch of a result row is marked: a timestamp, muted, or a
/// match of the query.
#[derive(Clone, Copy, PartialEq, Eq, Debug, Structural)]
pub enum SpanStyle {
    Time,
    Match,
}

/// The texts of a row's highlight spans, one after another.
pub open spec fn joined_texts(hs: Seq<Highlight>) -> Seq<char>
    decreases hs.len(),
{
    if hs.len() == 0 {
        seq![]
    } else {
        joined_texts(hs.drop_last()) + hs.last().text@
    }
}

/// A span styled "time" is a timestamp; else a highlighted span is a
/// match; else it is not marked.
pub open spec fn mark_of(h: Highlight) -> Option<SpanStyle> {
    let time = match h.style {
        Some(s) => s@ == "time"@,
        None => false,
    };
    if time {
        Some(SpanStyle::Time)
    } else if h.is_highlight {
        Some(SpanStyle::Match)
    } else {
        None
    }
}

/// The marked spans of a row, by their byte ranges in the joined text.
pub open spec fn span_marks(hs: Seq<Highlight>) -> Seq<(Range<usize>, SpanStyle)>
    decreases hs.len(),
{
    if hs.len() == 0 {
        seq![]
    } else {
        let start = encode_utf8(joined_texts(hs.drop_last())).len();
        let end = start + encode_utf8(hs.last().text@).len();
        span_marks(hs.drop_last()) + match mark_of(hs.last()) {
            Some(m) => seq![((start as usize)..(end as usize), m)],
            None => seq![],
        }
    }
}

/// A row's text without spans: its node's title, else its own text.
pub open spec fn plain_text(n: SearchTreeNode) -> Seq<char> {
    match n.node {
        Some(s) => s.title@,
        None => match n.text {
            Some(t) => t@,
            None => seq![],
        },
    }
}

/// A result row's text on one line, and the stretches of it to mark: the
/// row's spans joined when it has any, else its plain text unmarked.
pub fn result_text(node: &SearchTreeNode) -> (r: (String, Vec<(Range<usize>, SpanStyle)>))
    ensures
        match node.highlights {
            Some(hs) if hs@.len() > 0 => encode_utf8(r.0@) == spaced_bytes(encode_utf8(joined_texts(hs@)))
                && r.1@ == span_marks(hs@),
            _ => encode_utf8(r.0@) == spaced_bytes(encode_utf8(plain_text(*node))) && r.1@.len() == 0,
        },
{
    if let Some(hs) = &node.highlights {
        if hs.len() > 0 {
            let mut text = String::new();
            let mut marks: Vec<(Range<usize>, SpanStyle)> = Vec::new();
            let mut i: usize = 0;
            while i < hs.len()
                invariant
                    i <= hs@.len(),
                    text@ == joined_texts(hs@.take(i as int)),
                    marks@ == span_marks(hs@.take(i as int)),
                decreases hs.len() - i,
            {
                assert(hs@.take(i + 1).drop_last() =~= hs@.take(i as int));
                let h = &hs[i];
                let start = text.as_str().as_bytes().len();
                let ghost before = text@;
                text.append(h.text.as_str());
                let end = text.as_str().as_bytes().len();
                proof {
                    crate::files::lemma_encode_concat(before, h.text@);
                }
                let time = match &h.style {
                    Some(st) => text_eq(st.as_str(), "time"),
                    None => false,
                };
                if time {
                    marks.push((start..end, SpanStyle::Time));
                } else if h.is_highlight {
                    marks.push((start..end, SpanStyle::Match));
                }
                i += 1;
            }
            assert(hs@.take(hs@.len() as int) =~= hs@);
            let line = one_line(text.as_str());
            return (line, marks);
        }
    }
    let plain = match &node.node {
        Some(n) => n.title.as_str(),
        None => match &node.text {
            Some(t) => t.as_str(),
            None => "",
        },
    };
    proof {
        reveal_strlit("");
    }
    (one_line(plain), Vec::new())
}

/// What the Properties pane's context bar names: the project file's name
/// when the scope node has one, else its title; a placeholder with no
/// scope.
pub fn context_label(context: &Option<NodeSummary>) -> (r: String)
    requires
        context matches Some(n) ==> props_fit(n.props@),
    ensures
        match *context {
            Some(n) => match prop_in(n.props@, "projectFile"@) {
                Some(v) => encode_utf8(r@) == encode_utf8(v).subrange(
                    file_name_start(encode_utf8(v)),
                    encode_utf8(v).len() as int,
                ),
                None => r@ == n.title@,
            },
            None => r@ == "no project selected"@,
        },
{
    match context {
        Some(n) => {
            proof {
                lemma_prop_in_fits(n.props@, "projectFile"@);
            }
            match n.prop("projectFile") {
                Some(v) => file_name(v),
                None => n.title.clone(),
            }
        },
        None => String::from_str("no project selected"),
    }
}

/// Activating a result row whose tree node is `node`: a row for a node of
/// the build reveals that node (its id is returned); a grouping row with
/// children folds or unfolds, toggling its path in `collapsed`.
pub fn activate_result(node: &SearchTreeNode, row: &ResultRow, collapsed: &mut Vec<String>) -> (reveal: Option<String>)
    requires
        crate::text::distinct_texts(old(collapsed)@),
    ensures
        crate::text::distinct_texts(final(collapsed)@),
        node.node matches Some(n) ==> (reveal matches Some(id) && id@ == n.id@ && final(collapsed)@ == old(collapsed)@),
        node.node is None ==> reveal is None && (if row.has_children {
            texts(final(collapsed)@).contains(row.path@) == !texts(old(collapsed)@).contains(row.path@)
        } else {
            final(collapsed)@ == old(collapsed)@
        }),
{
    match &node.node {
        Some(n) => Some(n.id.clone()),
        None => {
            if row.has_children {
                crate::text::toggle_text(collapsed, &row.path);
            }
            None
        },
    }
}

} // verus!
