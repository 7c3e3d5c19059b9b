//! What the build tree's context menu offers for a node, the short form of
//! long names in it, and the project a row belongs to.

use vstd::prelude::*;
use vstd::string::{StrSliceExecFns, StringExecFns};
use crate::model::{prop_in, NodeSummary};
use crate::msbuild::detect::{is_white_space, leading_white_space, white_space};
use crate::styling::{shown_name, state_accent, StateColor};
use crate::text::{chars_of, text_eq};
use crate::tree::{
    collapsed_rows, expanded_rows, first_index_of, lemma_collapse_undoes_expand, lemma_parent_of, parent_of,
    settled, wants_fetch, well_shaped, Row, TreeModel,
};

verus! {

/// Where `s` ends once its trailing whitespace before `j` is dropped.
pub open spec fn trailing_end(s: Seq<char>, j: int) -> int
    decreases j,
{
    if 0 < j <= s.len() && is_white_space(s[j - 1]) {
        trailing_end(s, j - 1)
    } else {
        j
    }
}

/// `s` without leading and trailing whitespace, as `str::trim` gives it.
pub open spec fn trimmed(s: Seq<char>) -> Seq<char> {
    let lo = leading_white_space(s, 0);
    if lo >= s.len() {
        seq![]
    } else {
        s.subrange(lo, trailing_end(s, s.len() as int))
    }
}

/// `text` trimmed, cut to `max` characters with an ellipsis when longer.
pub open spec fn ellipsized(text: Seq<char>, max: int) -> Seq<char> {
    let t = trimmed(text);
    if t.len() <= max {
        t
    } else {
        t.take(if max > 0 { max - 1 } else { 0 }).push('…')
    }
}

proof fn lemma_leading_bounds(s: Seq<char>, i: int)
    requires
        0 <= i <= s.len(),
    ensures
        i <= leading_white_space(s, i) <= s.len(),
        forall|k: int| i <= k < leading_white_space(s, i) ==> is_white_space(#[trigger] s[k]),
        leading_white_space(s, i) < s.len() ==> !is_white_space(s[leading_white_space(s, i)]),
    decreases s.len() - i,
{
    if i < s.len() && is_white_space(s[i]) {
        lemma_leading_bounds(s, i + 1);
    }
}

proof fn lemma_trailing_bounds(s: Seq<char>, lo: int, j: int)
    requires
        0 <= lo < j <= s.len(),
        !is_white_space(s[lo]),
    ensures
        lo < trailing_end(s, j) <= j,
    decreases j,
{
    if is_white_space(s[j - 1]) {
        lemma_trailing_bounds(s, lo, j - 1);
    }
}

/// Where the text of `cs` starts and ends once trimmed; `lo == hi` when
/// it is all whitespace.
fn trim_bounds(cs: &Vec<char>) -> (r: (usize, usize))
    ensures
        r.0 <= r.1 <= cs@.len(),
        trimmed(cs@) == cs@.subrange(r.0 as int, r.1 as int),
{
    let ghost s = cs@;
    proof {
        lemma_leading_bounds(s, 0);
    }
    let mut lo: usize = 0;
    while lo < cs.len() && white_space(cs[lo])
        invariant
            cs@ == s,
            lo <= s.len(),
            leading_white_space(s, lo as int) == leading_white_space(s, 0),
        decreases cs.len() - lo,
    {
        lo += 1;
    }
    if lo >= cs.len() {
        assert(trimmed(s) =~= s.subrange(lo as int, lo as int));
        return (lo, lo);
    }
    let mut hi: usize = cs.len();
    proof {
        lemma_trailing_bounds(s, lo as int, s.len() as int);
    }
    while hi > 0 && white_space(cs[hi - 1])
        invariant
            cs@ == s,
            lo < hi <= s.len(),
            !is_white_space(s[lo as int]),
            trailing_end(s, hi as int) == trailing_end(s, s.len() as int),
        decreases hi,
    {
        hi -= 1;
    }
    (lo, hi)
}

/// `text` without leading and trailing whitespace.
pub fn trim_text(text: &str) -> (r: String)
    ensures
        r@ == trimmed(text@),
{
    let cs = chars_of(text);
    let (lo, hi) = trim_bounds(&cs);
    String::from_str(text.substring_char(lo, hi))
}

/// `text` trimmed, and cut to `max` characters, the last of them an
/// ellipsis, when it is longer.
pub fn ellipsize(text: &str, max: usize) -> (r: String)
    ensures
        r@ == ellipsized(text@, max as int),
{
    let cs = chars_of(text);
    let (lo, hi) = trim_bounds(&cs);
    let ghost t = trimmed(text@);
    if hi - lo <= max {
        return String::from_str(text.substring_char(lo, hi));
    }
    let keep = if max > 0 {
        max - 1
    } else {
        0
    };
    let mut out = String::from_str(text.substring_char(lo, lo + keep));
    proof {
        reveal_strlit("…");
    }
    out.append("…");
    assert(out@ =~= t.take(keep as int).push('…'));
    out
}

/// What a context-menu entry does.
#[derive(Debug, PartialEq)]
pub enum MenuAction {
    ToggleFavorite,
    ViewSource,
    Preprocess,
    Copy(String),
    /// Fetch the node's subtree as text, then copy it.
    CopySubtree,
    /// Fetch the node's children, then copy one title per line.
    CopyChildren,
    AppendSearch(String),
    SetSearch(String),
    ShowInTimeline,
    Sort(i32),
}

/// A menu action with its text read as characters.
pub ghost enum Act {
    ToggleFavorite,
    ViewSource,
    Preprocess,
    Copy(Seq<char>),
    CopySubtree,
    CopyChildren,
    AppendSearch(Seq<char>),
    SetSearch(Seq<char>),
    ShowInTimeline,
    Sort(i32),
}

pub open spec fn act_of(a: MenuAction) -> Act {
    match a {
        MenuAction::ToggleFavorite => Act::ToggleFavorite,
        MenuAction::ViewSource => Act::ViewSource,
        MenuAction::Preprocess => Act::Preprocess,
        MenuAction::Copy(t) => Act::Copy(t@),
        MenuAction::CopySubtree => Act::CopySubtree,
        MenuAction::CopyChildren => Act::CopyChildren,
        MenuAction::AppendSearch(t) => Act::AppendSearch(t@),
        MenuAction::SetSearch(t) => Act::SetSearch(t@),
        MenuAction::ShowInTimeline => Act::ShowInTimeline,
        MenuAction::Sort(k) => Act::Sort(k),
    }
}

pub type Entry = (String, Option<MenuAction>);

pub open spec fn entry_views(es: Seq<Entry>) -> Seq<(Seq<char>, Option<Act>)> {
    es.map_values(
        |e: Entry|
            (
                e.0@,
                match e.1 {
                    Some(a) => Some(act_of(a)),
                    None => None,
                },
            ),
    )
}

/// One entry when `cond` holds, none otherwise.
pub open spec fn entry_if(cond: bool, label: Seq<char>, act: Act) -> Seq<(Seq<char>, Option<Act>)> {
    if cond {
        seq![(label, Some(act))]
    } else {
        seq![]
    }
}

/// The file the node is about, as the bridge reports it in its facts.
pub open spec fn file_path_of(node: NodeSummary) -> Option<Seq<char>> {
    match prop_in(node.props@, "projectFile"@) {
        Some(p) => Some(p),
        None => match prop_in(node.props@, "file"@) {
            Some(p) => Some(p),
            None => prop_in(node.props@, "importedProject"@),
        },
    }
}

/// Whether every character of `s` is an ASCII digit.
pub open spec fn all_digits(s: Seq<char>) -> bool {
    forall|i: int| 0 <= i < s.len() ==> '0' <= #[trigger] s[i] <= '9'
}

/// The search clause that scopes a query to a node by name, for the kinds
/// the query language knows.
pub open spec fn scope_clause(kind: Seq<char>, name: Seq<char>) -> Option<Seq<char>> {
    if kind == "Project"@ {
        Some("project("@ + name + ")"@)
    } else if kind == "ProjectEvaluation"@ {
        Some("under($projectevaluation "@ + name + ")"@)
    } else if kind == "Target"@ || kind == "EntryTarget"@ {
        Some("under($target "@ + name + ")"@)
    } else if kind == "Task"@ {
        Some("under($task "@ + name + ")"@)
    } else {
        None
    }
}

/// What a search for the node looks for: its name, or its title.
pub open spec fn searchable_of(node: NodeSummary) -> Seq<char> {
    match shown_name(node) {
        Some(n) => n,
        None => node.title@,
    }
}

/// The separator line between menu groups.
pub open spec fn separator_entry() -> (Seq<char>, Option<Act>) {
    (seq![], None)
}

/// Favorites, source and preprocessing.
pub open spec fn open_group(node: NodeSummary, favorite: bool) -> Seq<(Seq<char>, Option<Act>)> {
    seq![
        (if favorite {
            "Remove from Favorites"@
        } else {
            "Add to Favorites"@
        }, Some(Act::ToggleFavorite)),
    ] + entry_if(node.has_source, "View Source"@, Act::ViewSource) + entry_if(
        node.can_preprocess,
        "Preprocess"@,
        Act::Preprocess,
    )
}

/// The copy commands.
pub open spec fn copy_group(node: NodeSummary) -> Seq<(Seq<char>, Option<Act>)> {
    seq![("Copy"@, Some(Act::Copy(node.title@)))] + (match shown_name(node) {
        Some(n) => seq![("Copy name"@, Some(Act::Copy(n)))],
        None => seq![],
    }) + (match node.value {
        Some(v) => entry_if(v@.len() > 0, "Copy value"@, Act::Copy(v@)),
        None => seq![],
    }) + (match file_path_of(node) {
        Some(p) => seq![("Copy file path"@, Some(Act::Copy(p)))],
        None => seq![],
    }) + entry_if(node.has_children, "Copy subtree"@, Act::CopySubtree) + entry_if(
        node.has_children,
        "Copy children"@,
        Act::CopyChildren,
    )
}

/// The search commands.
pub open spec fn search_group(node: NodeSummary, timed: bool) -> Seq<(Seq<char>, Option<Act>)> {
    let subtree = all_digits(node.id@) && node.has_children;
    entry_if(subtree, "Search in subtree"@, Act::AppendSearch("under($"@ + node.id@ + ")"@)) + entry_if(
        subtree,
        "Exclude subtree from search"@,
        Act::AppendSearch("notunder($"@ + node.id@ + ")"@),
    ) + (match shown_name(node) {
        Some(n) => match scope_clause(node.kind@, n) {
            Some(c) => seq![("Search in '"@ + ellipsized(n, 28) + "'"@, Some(Act::AppendSearch(c)))],
            None => seq![],
        },
        None => seq![],
    }) + entry_if(
        searchable_of(node).len() > 0,
        "Search '"@ + ellipsized(searchable_of(node), 32) + "'"@,
        Act::SetSearch(searchable_of(node)),
    ) + entry_if(timed, "Show in Timeline"@, Act::ShowInTimeline)
}

/// The sort commands.
pub open spec fn sort_group(node: NodeSummary) -> Seq<(Seq<char>, Option<Act>)> {
    if node.has_children {
        seq![
            ("Sort children by name"@, Some(Act::Sort(1))),
            ("Sort children by duration"@, Some(Act::Sort(2))),
            ("Restore child order"@, Some(Act::Sort(0))),
        ]
    } else {
        seq![]
    }
}

/// The context menu of a node: the groups in order, a separator after each
/// group that ends in a command.
pub open spec fn menu_of(node: NodeSummary, favorite: bool, timed: bool) -> Seq<(Seq<char>, Option<Act>)> {
    let searches = search_group(node, timed);
    open_group(node, favorite) + seq![separator_entry()] + copy_group(node) + seq![separator_entry()] + searches + (
    if node.has_children && searches.len() > 0 {
        seq![separator_entry()]
    } else {
        seq![]
    }) + sort_group(node)
}

fn push_entry(out: &mut Vec<Entry>, label: String, act: Option<MenuAction>)
    ensures
        entry_views(final(out)@) == entry_views(old(out)@).push(
            (
                label@,
                match act {
                    Some(a) => Some(act_of(a)),
                    None => None,
                },
            ),
        ),
{
    let ghost before = out@;
    out.push((label, act));
    assert(entry_views(out@) =~= entry_views(before).push(entry_views(out@).last()));
}

fn text_of(s: &str) -> (r: String)
    ensures
        r@ == s@,
{
    String::from_str(s)
}

/// `prefix`, then `middle`, then `suffix`.
fn framed(prefix: &str, middle: &str, suffix: &str) -> (r: String)
    ensures
        r@ == prefix@ + middle@ + suffix@,
{
    let mut r = String::from_str(prefix);
    r.append(middle);
    r.append(suffix);
    r
}

/// The node's name when it has a non-empty one.
fn name_shown(node: &NodeSummary) -> (r: Option<&String>)
    ensures
        r matches Some(n) ==> shown_name(*node) == Some(n@),
        r is None ==> shown_name(*node) is None,
{
    match &node.name {
        Some(n) => if n.as_str().is_empty() {
            None
        } else {
            Some(n)
        },
        None => None,
    }
}

fn open_entries(node: &NodeSummary, favorite: bool) -> (r: Vec<Entry>)
    ensures
        entry_views(r@) == open_group(*node, favorite),
{
    let mut out: Vec<Entry> = Vec::new();
    let label = if favorite {
        text_of("Remove from Favorites")
    } else {
        text_of("Add to Favorites")
    };
    push_entry(&mut out, label, Some(MenuAction::ToggleFavorite));
    if node.has_source {
        push_entry(&mut out, text_of("View Source"), Some(MenuAction::ViewSource));
    }
    if node.can_preprocess {
        push_entry(&mut out, text_of("Preprocess"), Some(MenuAction::Preprocess));
    }
    assert(entry_views(out@) =~= open_group(*node, favorite));
    out
}

#[verifier::spinoff_prover]
fn copy_entries(node: &NodeSummary) -> (r: Vec<Entry>)
    ensures
        entry_views(r@) == copy_group(*node),
{
    let mut out: Vec<Entry> = Vec::new();
    push_entry(&mut out, text_of("Copy"), Some(MenuAction::Copy(node.title.clone())));
    let ghost a = entry_views(out@);
    match name_shown(node) {
        Some(n) => push_entry(&mut out, text_of("Copy name"), Some(MenuAction::Copy(n.clone()))),
        None => {},
    }
    let ghost b = entry_views(out@);
    match &node.value {
        Some(v) => if !v.as_str().is_empty() {
            push_entry(&mut out, text_of("Copy value"), Some(MenuAction::Copy(v.clone())));
        },
        None => {},
    }
    let ghost c = entry_views(out@);
    let path = match node.prop("projectFile") {
        Some(p) => Some(p),
        None => match node.prop("file") {
            Some(p) => Some(p),
            None => node.prop("importedProject"),
        },
    };
    match path {
        Some(p) => push_entry(&mut out, text_of("Copy file path"), Some(MenuAction::Copy(text_of(p)))),
        None => {},
    }
    let ghost d = entry_views(out@);
    if node.has_children {
        push_entry(&mut out, text_of("Copy subtree"), Some(MenuAction::CopySubtree));
        push_entry(&mut out, text_of("Copy children"), Some(MenuAction::CopyChildren));
    }
    proof {
        assert(b =~= a + (match shown_name(*node) {
            Some(n) => seq![("Copy name"@, Some(Act::Copy(n)))],
            None => seq![],
        }));
        assert(c =~= b + (match node.value {
            Some(v) => entry_if(v@.len() > 0, "Copy value"@, Act::Copy(v@)),
            None => seq![],
        }));
        assert(d =~= c + (match file_path_of(*node) {
            Some(p) => seq![("Copy file path"@, Some(Act::Copy(p)))],
            None => seq![],
        }));
    }
    assert(entry_views(out@) =~= copy_group(*node));
    out
}

/// Whether every character of `s` is an ASCII digit.
fn digits_only(s: &str) -> (r: bool)
    ensures
        r == all_digits(s@),
{
    let cs = chars_of(s);
    let mut i: usize = 0;
    while i < cs.len()
        invariant
            cs@ == s@,
            i <= cs@.len(),
            forall|j: int| 0 <= j < i ==> '0' <= #[trigger] s@[j] <= '9',
        decreases cs.len() - i,
    {
        if !('0' <= cs[i] && cs[i] <= '9') {
            return false;
        }
        i += 1;
    }
    true
}

fn clause_for(kind: &str, name: &str) -> (r: Option<String>)
    ensures
        r matches Some(c) ==> scope_clause(kind@, name@) == Some(c@),
        r is None ==> scope_clause(kind@, name@) is None,
{
    if text_eq(kind, "Project") {
        Some(framed("project(", name, ")"))
    } else if text_eq(kind, "ProjectEvaluation") {
        Some(framed("under($projectevaluation ", name, ")"))
    } else if text_eq(kind, "Target") || text_eq(kind, "EntryTarget") {
        Some(framed("under($target ", name, ")"))
    } else if text_eq(kind, "Task") {
        Some(framed("under($task ", name, ")"))
    } else {
        None
    }
}

#[verifier::spinoff_prover]
fn search_entries(node: &NodeSummary, timed: bool) -> (r: Vec<Entry>)
    ensures
        entry_views(r@) == search_group(*node, timed),
{
    let mut out: Vec<Entry> = Vec::new();
    let subtree = digits_only(node.id.as_str()) && node.has_children;
    if subtree {
        push_entry(
            &mut out,
            text_of("Search in subtree"),
            Some(MenuAction::AppendSearch(framed("under($", node.id.as_str(), ")"))),
        );
        push_entry(
            &mut out,
            text_of("Exclude subtree from search"),
            Some(MenuAction::AppendSearch(framed("notunder($", node.id.as_str(), ")"))),
        );
    }
    let ghost a = entry_views(out@);
    match name_shown(node) {
        Some(n) => match clause_for(node.kind.as_str(), n.as_str()) {
            Some(c) => {
                let short = ellipsize(n.as_str(), 28);
                push_entry(&mut out, framed("Search in '", short.as_str(), "'"), Some(MenuAction::AppendSearch(c)));
            },
            None => {},
        },
        None => {},
    }
    let ghost b = entry_views(out@);
    let searchable = match name_shown(node) {
        Some(n) => n.clone(),
        None => node.title.clone(),
    };
    assert(searchable@ == searchable_of(*node));
    if !searchable.as_str().is_empty() {
        let short = ellipsize(searchable.as_str(), 32);
        let label = framed("Search '", short.as_str(), "'");
        push_entry(&mut out, label, Some(MenuAction::SetSearch(searchable)));
    }
    let ghost c = entry_views(out@);
    if timed {
        push_entry(&mut out, text_of("Show in Timeline"), Some(MenuAction::ShowInTimeline));
    }
    proof {
        assert(b =~= a + (match shown_name(*node) {
            Some(n) => match scope_clause(node.kind@, n) {
                Some(c) => seq![("Search in '"@ + ellipsized(n, 28) + "'"@, Some(Act::AppendSearch(c)))],
                None => seq![],
            },
            None => seq![],
        }));
    }
    assert(entry_views(out@) =~= search_group(*node, timed));
    out
}

fn sort_entries(node: &NodeSummary) -> (r: Vec<Entry>)
    ensures
        entry_views(r@) == sort_group(*node),
{
    let mut out: Vec<Entry> = Vec::new();
    if node.has_children {
        push_entry(&mut out, text_of("Sort children by name"), Some(MenuAction::Sort(1)));
        push_entry(&mut out, text_of("Sort children by duration"), Some(MenuAction::Sort(2)));
        push_entry(&mut out, text_of("Restore child order"), Some(MenuAction::Sort(0)));
    }
    assert(entry_views(out@) =~= sort_group(*node));
    out
}

fn append_entries(out: &mut Vec<Entry>, more: Vec<Entry>)
    ensures
        entry_views(final(out)@) == entry_views(old(out)@) + entry_views(more@),
{
    let mut more = more;
    let ghost before = out@;
    let ghost tail = more@;
    out.append(&mut more);
    assert(entry_views(out@) =~= entry_views(before) + entry_views(tail));
}

/// The context menu of `node`. `favorite` says whether it is pinned and
/// `timed` whether it has a duration to show on the timeline.
#[verifier::spinoff_prover]
pub fn menu_entries(node: &NodeSummary, favorite: bool, timed: bool) -> (r: Vec<Entry>)
    ensures
        entry_views(r@) == menu_of(*node, favorite, timed),
{
    let mut out: Vec<Entry> = Vec::new();
    append_entries(&mut out, open_entries(node, favorite));
    push_entry(&mut out, String::new(), None);
    append_entries(&mut out, copy_entries(node));
    push_entry(&mut out, String::new(), None);
    let ghost head = entry_views(out@);
    assert(head =~= open_group(*node, favorite) + seq![separator_entry()] + copy_group(*node) + seq![separator_entry()]);
    let searches = search_entries(node, timed);
    let any_search = searches.len() > 0;
    append_entries(&mut out, searches);
    if node.has_children {
        if any_search {
            push_entry(&mut out, String::new(), None);
        }
        append_entries(&mut out, sort_entries(node));
    } else {
        assert(sort_group(*node) =~= seq![]);
    }
    assert(entry_views(out@) =~= menu_of(*node, favorite, timed));
    out
}

/// Walking up from row `i`: the first Project met, or else the first
/// ProjectEvaluation met (`evaluation`, once one was).
pub open spec fn context_from(rows: Seq<Row>, i: int, evaluation: Option<int>) -> Option<int>
    decreases i,
{
    if !(0 <= i < rows.len()) {
        evaluation
    } else if rows[i].node.kind@ == "Project"@ {
        Some(i)
    } else {
        let ev = if rows[i].node.kind@ == "ProjectEvaluation"@ && evaluation is None {
            Some(i)
        } else {
            evaluation
        };
        match parent_of(rows, i) {
            Some(p) => if 0 <= p < i {
                context_from(rows, p, ev)
            } else {
                ev
            },
            None => ev,
        }
    }
}

/// The project row `ix` belongs to: the nearest Project at or above it,
/// or else the nearest ProjectEvaluation; None past the last row.
pub open spec fn project_context_of(rows: Seq<Row>, ix: int) -> Option<int> {
    if 0 <= ix < rows.len() {
        context_from(rows, ix, None)
    } else {
        None
    }
}

/// The row of the project that row `ix` belongs to.
pub fn project_context(model: &TreeModel, ix: usize) -> (r: Option<usize>)
    ensures
        r matches Some(p) ==> project_context_of(model@, ix as int) == Some(p as int),
        r is None ==> project_context_of(model@, ix as int) is None,
{
    if ix >= model.len() {
        return None;
    }
    let ghost rows = model@;
    let mut evaluation: Option<usize> = None;
    let mut i = ix;
    loop
        invariant
            rows == model@,
            i < rows.len(),
            evaluation matches Some(e) ==> e < rows.len(),
            project_context_of(rows, ix as int) == context_from(
                rows,
                i as int,
                match evaluation {
                    Some(e) => Some(e as int),
                    None => None,
                },
            ),
        decreases i,
    {
        let row = model.row(i).unwrap();
        if text_eq(row.node.kind.as_str(), "Project") {
            return Some(i);
        }
        if evaluation.is_none() && text_eq(row.node.kind.as_str(), "ProjectEvaluation") {
            evaluation = Some(i);
        }
        proof {
            lemma_parent_of(rows, i as int);
        }
        match model.parent_index(i) {
            Some(p) => {
                i = p;
            },
            None => {
                return evaluation;
            },
        }
    }
}

/// Starts opening row `ix`: when its children still have to be fetched,
/// marks it loading and names the node to fetch them for.
pub fn begin_expand(model: &mut TreeModel, ix: usize) -> (r: Option<String>)
    ensures
        wants_fetch(old(model)@, ix as int) ==> (r matches Some(id) && id@ == old(model)@[ix as int].node.id@
            && final(model)@ == old(model)@.update(ix as int, Row { loading: true, ..old(model)@[ix as int] })),
        !wants_fetch(old(model)@, ix as int) ==> r is None && final(model)@ == old(model)@,
{
    if !model.needs_fetch(ix) {
        return None;
    }
    let id = model.row(ix).unwrap().node.id.clone();
    model.mark_loading(ix);
    Some(id)
}

/// Finishes opening the node `id`: its fetched children are spliced in;
/// when the fetch failed (`None`), the row is left as it was, no longer
/// loading.
#[verifier::spinoff_prover]
pub fn finish_expand(model: &mut TreeModel, id: &str, children: Option<Vec<NodeSummary>>)
    ensures
        children matches Some(c) ==> (match first_index_of(old(model)@, id@) {
            Some(i) => if old(model)@[i].expanded {
                final(model)@ == old(model)@.update(i, settled(old(model)@[i]))
            } else {
                final(model)@ == expanded_rows(old(model)@, i, c@)
            },
            None => final(model)@ == old(model)@,
        }),
        children is None ==> (match first_index_of(old(model)@, id@) {
            Some(i) => if old(model)@[i].expanded {
                final(model)@ == collapsed_rows(old(model)@.update(i, settled(old(model)@[i])), i)
            } else {
                final(model)@ == old(model)@.update(i, settled(old(model)@[i]))
            },
            None => final(model)@ == old(model)@,
        }),
{
    match children {
        Some(c) => {
            model.apply_children(id, c);
        },
        None => {
            let ghost before = model@;
            let count = model.len();
            let shaped = model.is_well_shaped();
            assert(shaped && well_shaped(before) && before.len() == count);
            match model.index_of(id) {
                Some(ix) => {
                    model.apply_children(id, Vec::new());
                    model.collapse(ix);
                    proof {
                        if !before[ix as int].expanded {
                            lemma_collapse_undoes_expand(before, ix as int, seq![]);
                        }
                    }
                },
                None => {},
            }
        },
    }
}

/// What toggling a row did.
#[derive(Debug, PartialEq)]
pub enum Toggled {
    /// The row was open and is folded now; `park` says the selection sat
    /// inside it and moves to the row itself.
    Folded { park: bool },
    /// The row's children have to be fetched, for the node named.
    Fetch(String),
    /// Nothing to do.
    Unchanged,
}

/// Toggling row `ix` of `rows` (with `selected` the selection) answers `r`
/// and leaves `after`: an open row is folded; a closed one whose children
/// are missing is marked loading and they are asked for; otherwise nothing
/// changes.
pub open spec fn toggles(rows: Seq<Row>, selected: Option<usize>, ix: usize, r: Toggled, after: Seq<Row>) -> bool {
    if ix < rows.len() && rows[ix as int].expanded {
        r == (Toggled::Folded { park: selected matches Some(s) && s > ix }) && after == collapsed_rows(rows, ix as int)
    } else if wants_fetch(rows, ix as int) {
        r matches Toggled::Fetch(id) && id@ == rows[ix as int].node.id@ && after == rows.update(
            ix as int,
            Row { loading: true, ..rows[ix as int] },
        )
    } else {
        r == Toggled::Unchanged && after == rows
    }
}

/// Folds an open row, or starts opening a closed one.
pub fn toggle(model: &mut TreeModel, selected: Option<usize>, ix: usize) -> (r: Toggled)
    ensures
        toggles(old(model)@, selected, ix, r, final(model)@),
{
    let open = match model.row(ix) {
        Some(row) => row.expanded,
        None => false,
    };
    if open {
        model.collapse(ix);
        let park = match selected {
            Some(s) => s > ix,
            None => false,
        };
        return Toggled::Folded { park };
    }
    match begin_expand(model, ix) {
        Some(id) => Toggled::Fetch(id),
        None => Toggled::Unchanged,
    }
}

/// The keys the build tree answers to.
#[derive(Clone, Copy, Debug, PartialEq, Eq, Structural)]
pub enum TreeKey {
    Next,
    Previous,
    First,
    Last,
    Expand,
    Collapse,
    Toggle,
}

/// What a key asks of the tree view.
#[derive(Clone, Copy, Debug, PartialEq, Eq, Structural)]
pub enum TreeMove {
    Select(usize),
    Expand(usize),
    Toggle(usize),
    Nothing,
}

/// The row a key acts on: the selection, kept within the rows.
pub open spec fn current_row(len: int, selected: Option<usize>) -> int {
    let s = match selected {
        Some(s) => s as int,
        None => 0,
    };
    let last = if len > 0 {
        len - 1
    } else {
        0
    };
    if s < last {
        s
    } else {
        last
    }
}

/// The move a key makes, from the rows and the selection.
pub open spec fn key_move(rows: Seq<Row>, selected: Option<usize>, key: TreeKey) -> TreeMove {
    let len = rows.len() as int;
    let last = if len > 0 {
        (len - 1) as usize
    } else {
        0usize
    };
    let cur = current_row(len, selected);
    match key {
        TreeKey::Next => TreeMove::Select(
            match selected {
                None => 0,
                Some(ix) => if ix + 1 < last {
                    (ix + 1) as usize
                } else {
                    last
                },
            },
        ),
        TreeKey::Previous => TreeMove::Select(
            match selected {
                None => 0,
                Some(ix) => if ix > 0 {
                    (ix - 1) as usize
                } else {
                    0
                },
            },
        ),
        TreeKey::First => TreeMove::Select(0),
        TreeKey::Last => TreeMove::Select(last),
        TreeKey::Expand => if selected is None {
            TreeMove::Select(0)
        } else if 0 <= cur < len && rows[cur].node.has_children && !rows[cur].expanded {
            TreeMove::Expand(cur as usize)
        } else if 0 <= cur < len && rows[cur].expanded && cur + 1 < len {
            TreeMove::Select((cur + 1) as usize)
        } else {
            TreeMove::Nothing
        },
        TreeKey::Collapse => if selected is None {
            TreeMove::Nothing
        } else if 0 <= cur < len && rows[cur].expanded {
            TreeMove::Toggle(cur as usize)
        } else {
            match parent_of(rows, cur) {
                Some(p) => TreeMove::Select(p as usize),
                None => TreeMove::Nothing,
            }
        },
        TreeKey::Toggle => if selected is None {
            TreeMove::Nothing
        } else {
            TreeMove::Toggle(cur as usize)
        },
    }
}

/// The move `key` makes in `model` with `selected` selected.
#[verifier::spinoff_prover]
pub fn key_step(model: &TreeModel, selected: Option<usize>, key: TreeKey) -> (r: TreeMove)
    ensures
        r == key_move(model@, selected, key),
{
    let len = model.len();
    let last = if len > 0 {
        len - 1
    } else {
        0
    };
    let s = match selected {
        Some(s) => s,
        None => 0,
    };
    let cur = if s < last {
        s
    } else {
        last
    };
    match key {
        TreeKey::Next => TreeMove::Select(
            match selected {
                None => 0,
                Some(ix) => if ix < last && ix + 1 < last {
                    ix + 1
                } else {
                    last
                },
            },
        ),
        TreeKey::Previous => TreeMove::Select(
            match selected {
                None => 0,
                Some(ix) => if ix > 0 {
                    ix - 1
                } else {
                    0
                },
            },
        ),
        TreeKey::First => TreeMove::Select(0),
        TreeKey::Last => TreeMove::Select(last),
        TreeKey::Expand => {
            if selected.is_none() {
                return TreeMove::Select(0);
            }
            match model.row(cur) {
                Some(row) => if row.has_children() && !row.expanded {
                    TreeMove::Expand(cur)
                } else if row.expanded && cur + 1 < len {
                    TreeMove::Select(cur + 1)
                } else {
                    TreeMove::Nothing
                },
                None => TreeMove::Nothing,
            }
        },
        TreeKey::Collapse => {
            if selected.is_none() {
                return TreeMove::Nothing;
            }
            let open = match model.row(cur) {
                Some(row) => row.expanded,
                None => false,
            };
            if open {
                TreeMove::Toggle(cur)
            } else {
                match model.parent_index(cur) {
                    Some(p) => TreeMove::Select(p),
                    None => TreeMove::Nothing,
                }
            }
        },
        TreeKey::Toggle => if selected.is_none() {
            TreeMove::Nothing
        } else {
            TreeMove::Toggle(cur)
        },
    }
}

/// What revealing a node does at one of its ancestors: fetch its children
/// when it is not expanded yet, go on when it is, stop when it is not in
/// the tree.
#[derive(Clone, Copy, PartialEq, Eq, Debug, Structural)]
pub enum RevealStep {
    Fetch,
    Skip,
    Stop,
}

/// The step revealing a node takes at the ancestor `ancestor_id`.
pub fn reveal_step(model: &TreeModel, ancestor_id: &str) -> (r: RevealStep)
    ensures
        r == match first_index_of(model@, ancestor_id@) {
            None => RevealStep::Stop,
            Some(i) => if model@[i].expanded {
                RevealStep::Skip
            } else {
                RevealStep::Fetch
            },
        },
{
    match model.index_of(ancestor_id) {
        None => RevealStep::Stop,
        Some(ix) => match model.row(ix) {
            Some(row) => if row.expanded {
                RevealStep::Skip
            } else {
                RevealStep::Fetch
            },
            None => RevealStep::Fetch,
        },
    }
}

/// The children's titles, one per line.
pub open spec fn titles_text(children: Seq<NodeSummary>) -> Seq<char>
    decreases children.len(),
{
    if children.len() == 0 {
        seq![]
    } else if children.len() == 1 {
        children[0].title@
    } else {
        titles_text(children.drop_last()) + seq!['\n'] + children.last().title@
    }
}

/// What "Copy children" puts on the clipboard.
pub fn children_text(children: &[NodeSummary]) -> (r: String)
    ensures
        r@ == titles_text(children@),
{
    let mut out = String::new();
    let mut i: usize = 0;
    while i < children.len()
        invariant
            i <= children@.len(),
            out@ == titles_text(children@.take(i as int)),
        decreases children.len() - i,
    {
        assert(children@.take(i + 1).drop_last() =~= children@.take(i as int));
        assert(children@.take(i + 1).last() == children@[i as int]);
        let ghost before = out@;
        if i > 0 {
            proof {
                reveal_strlit("\n");
            }
            out.append("\n");
        } else {
            assert(out@ =~= seq![]);
        }
        out.append(children[i].title.as_str());
        proof {
            if i == 0 {
                assert(out@ =~= children@[0].title@);
            } else {
                assert(out@ =~= before + seq!['\n'] + children@[i as int].title@);
            }
        }
        i += 1;
    }
    assert(children@.take(children@.len() as int) =~= children@);
    out
}

/// The mode `id`'s children are fetched in under `modes`.
pub open spec fn mode_of(modes: Map<Seq<char>, i32>, id: Seq<char>) -> i32 {
    if modes.contains_key(id) {
        modes[id]
    } else {
        0
    }
}

/// The sort mode each node's children are fetched in, by node id; a node
/// not listed keeps the recorded order (mode 0).
pub struct SortModes {
    entries: Vec<(String, i32)>,
}

pub open spec fn modes_map(entries: Seq<(String, i32)>) -> Map<Seq<char>, i32>
    decreases entries.len(),
{
    if entries.len() == 0 {
        Map::empty()
    } else {
        modes_map(entries.drop_last()).insert(entries.last().0@, entries.last().1)
    }
}

pub open spec fn modes_ok(entries: Seq<(String, i32)>) -> bool {
    &&& forall|i: int, j: int| 0 <= i < j < entries.len() ==> (#[trigger] entries[i]).0@ != (#[trigger] entries[j]).0@
    &&& forall|i: int| 0 <= i < entries.len() ==> (#[trigger] entries[i]).1 != 0
}

proof fn lemma_modes_map(entries: Seq<(String, i32)>)
    requires
        modes_ok(entries),
    ensures
        forall|i: int|
            0 <= i < entries.len() ==> #[trigger] modes_map(entries).contains_key(entries[i].0@) && modes_map(entries)[entries[i].0@]
                == entries[i].1,
        forall|k: Seq<char>|
            #[trigger] modes_map(entries).contains_key(k) ==> exists|i: int| 0 <= i < entries.len() && entries[i].0@ == k,
    decreases entries.len(),
{
    if entries.len() > 0 {
        let init = entries.drop_last();
        assert(modes_ok(init)) by {
            assert forall|i: int, j: int| 0 <= i < j < init.len() implies (#[trigger] init[i]).0@ != (#[trigger] init[j]).0@ by {
                assert(init[i] == entries[i] && init[j] == entries[j]);
            }
            assert forall|i: int| 0 <= i < init.len() implies (#[trigger] init[i]).1 != 0 by {
                assert(init[i] == entries[i]);
            }
        }
        lemma_modes_map(init);
        assert forall|i: int| 0 <= i < entries.len() implies #[trigger] modes_map(entries).contains_key(entries[i].0@)
            && modes_map(entries)[entries[i].0@] == entries[i].1 by {
            if i < entries.len() - 1 {
                assert(init[i] == entries[i]);
                assert(modes_map(init).contains_key(init[i].0@));
                assert(entries[i].0@ != entries[entries.len() - 1].0@);
            }
        }
        assert forall|k: Seq<char>| #[trigger] modes_map(entries).contains_key(k) implies exists|i: int|
            0 <= i < entries.len() && entries[i].0@ == k by {
            if k != entries.last().0@ {
                assert(modes_map(init).contains_key(k));
                let i = choose|i: int| 0 <= i < init.len() && init[i].0@ == k;
                assert(entries[i] == init[i]);
            } else {
                assert(entries[entries.len() - 1] == entries.last());
            }
        }
    }
}

impl SortModes {
    pub closed spec fn view(&self) -> Map<Seq<char>, i32> {
        modes_map(self.entries@)
    }

    #[verifier::type_invariant]
    closed spec fn listed_once(self) -> bool {
        modes_ok(self.entries@)
    }

    pub fn new() -> (r: Self)
        ensures
            r.view() == Map::<Seq<char>, i32>::empty(),
    {
        SortModes { entries: Vec::new() }
    }

    fn find(&self, id: &str) -> (r: Option<usize>)
        ensures
            r matches Some(i) ==> i < self.entries@.len() && self.entries@[i as int].0@ == id@,
            r is None ==> forall|i: int| 0 <= i < self.entries@.len() ==> (#[trigger] self.entries@[i]).0@ != id@,
    {
        let mut i: usize = 0;
        while i < self.entries.len()
            invariant
                i <= self.entries@.len(),
                forall|k: int| 0 <= k < i ==> (#[trigger] self.entries@[k]).0@ != id@,
            decreases self.entries.len() - i,
        {
            if text_eq(self.entries[i].0.as_str(), id) {
                return Some(i);
            }
            i += 1;
        }
        None
    }

    /// The mode `id`'s children are fetched in: 0 when none was chosen.
    pub fn get(&self, id: &str) -> (r: i32)
        ensures
            r == mode_of(self.view(), id@),
    {
        proof {
            use_type_invariant(self);
            lemma_modes_map(self.entries@);
        }
        match self.find(id) {
            Some(i) => self.entries[i].1,
            None => {
                proof {
                    if self.view().contains_key(id@) {
                        let i = choose|i: int| 0 <= i < self.entries@.len() && self.entries@[i].0@ == id@;
                    }
                }
                0
            },
        }
    }

    /// Chooses `mode` for `id`'s children; mode 0 restores the recorded
    /// order, forgetting any choice.
    #[verifier::spinoff_prover]
    pub fn set(&mut self, id: &str, mode: i32)
        ensures
            final(self).view() == (if mode == 0 {
                old(self).view().remove(id@)
            } else {
                old(self).view().insert(id@, mode)
            }),
    {
        proof {
            use_type_invariant(&*self);
            lemma_modes_map(self.entries@);
        }
        let ghost before = self.entries@;
        let found = self.find(id);
        let mut taken = SortModes::new();
        std::mem::swap(&mut taken, self);
        let SortModes { mut entries } = taken;
        match found {
            Some(i) => {
                entries.remove(i);
            },
            None => {},
        }
        let ghost rest = entries@;
        proof {
            assert(modes_ok(rest)) by {
                assert forall|a: int, b: int| 0 <= a < b < rest.len() implies (#[trigger] rest[a]).0@ != (#[trigger] rest[b]).0@ by {
                    if let Some(i) = found {
                        let a2 = if a < i { a } else { a + 1 };
                        let b2 = if b < i { b } else { b + 1 };
                        assert(rest[a] == before[a2] && rest[b] == before[b2]);
                    }
                }
                assert forall|a: int| 0 <= a < rest.len() implies (#[trigger] rest[a]).1 != 0 by {
                    if let Some(i) = found {
                        let a2 = if a < i { a } else { a + 1 };
                        assert(rest[a] == before[a2]);
                    }
                }
            }
            lemma_modes_map(rest);
            assert forall|a: int| 0 <= a < rest.len() implies (#[trigger] rest[a]).0@ != id@ by {
                if let Some(i) = found {
                    let a2 = if a < i { a } else { a + 1 };
                    assert(rest[a] == before[a2]);
                }
            }
            assert(modes_map(rest) =~= modes_map(before).remove(id@)) by {
                assert forall|k: Seq<char>| modes_map(rest).contains_key(k) implies modes_map(before).remove(id@).contains_key(k)
                    && modes_map(rest)[k] == modes_map(before).remove(id@)[k] by {
                    let a = choose|a: int| 0 <= a < rest.len() && rest[a].0@ == k;
                    assert(modes_map(rest).contains_key(rest[a].0@));
                    assert(modes_map(rest)[k] == rest[a].1);
                    assert(rest[a].0@ != id@);
                    let a2 = match found {
                        Some(i) => if a < i { a } else { a + 1 },
                        None => a,
                    };
                    assert(rest[a] == before[a2]);
                    assert(modes_map(before).contains_key(before[a2].0@));
                    assert(modes_map(before)[k] == before[a2].1);
                }
                assert forall|k: Seq<char>| modes_map(before).remove(id@).contains_key(k) implies modes_map(rest).contains_key(k) by {
                    let b = choose|b: int| 0 <= b < before.len() && before[b].0@ == k;
                    if let Some(i) = found {
                        assert(b != i);
                        let a = if b < i { b } else { b - 1 };
                        assert(rest[a] == before[b]);
                    } else {
                        assert(rest[b] == before[b]);
                    }
                }
            }
        }
        if mode != 0 {
            entries.push((id.to_string(), mode));
            proof {
                assert(entries@.drop_last() =~= rest);
                assert forall|a: int, b: int| 0 <= a < b < entries@.len() implies (#[trigger] entries@[a]).0@
                    != (#[trigger] entries@[b]).0@ by {
                    if b == rest.len() {
                        assert(entries@[a] == rest[a]);
                    } else {
                        assert(entries@[a] == rest[a] && entries@[b] == rest[b]);
                    }
                }
                assert forall|a: int| 0 <= a < entries@.len() implies (#[trigger] entries@[a]).1 != 0 by {
                    if a < rest.len() {
                        assert(entries@[a] == rest[a]);
                    }
                }
                assert(modes_map(entries@) =~= modes_map(before).insert(id@, mode));
            }
        }
        *self = SortModes { entries };
    }
}

/// What a read gives back of a write: after choosing a mode for a node, its
/// mode is the one chosen (0 once the order is restored), and every other
/// node keeps its mode.
pub proof fn lemma_set_then_get(modes: Map<Seq<char>, i32>, id: Seq<char>, mode: i32, other: Seq<char>)
    requires
        other != id,
    ensures
        ({
            let after = if mode == 0 {
                modes.remove(id)
            } else {
                modes.insert(id, mode)
            };
            &&& mode_of(after, id) == mode
            &&& mode_of(after, other) == mode_of(modes, other)
        }),
{
}

/// A new sort mode for the children of node `node_id`, shown at row `ix`:
/// the mode is remembered, and an open row is folded and opened again, so
/// its children are fetched anew in that order. Returns the fetch to make:
/// the node, and the mode to fetch in.
pub fn resort(model: &mut TreeModel, modes: &mut SortModes, node_id: &str, ix: usize, mode: i32) -> (r: Option<
    (String, i32),
>)
    ensures
        final(modes).view() == (if mode == 0 {
            old(modes).view().remove(node_id@)
        } else {
            old(modes).view().insert(node_id@, mode)
        }),
        !(ix < old(model)@.len() && old(model)@[ix as int].expanded) ==> r is None && final(model)@ == old(model)@,
        (ix < old(model)@.len() && old(model)@[ix as int].expanded) ==> ({
            let folded = collapsed_rows(old(model)@, ix as int);
            &&& wants_fetch(folded, ix as int) ==> (r matches Some((id, m)) && id@ == folded[ix as int].node.id@
                && m == mode_of(final(modes).view(), id@) && final(model)@ == folded.update(ix as int, Row { loading: true, ..folded[ix as int] }))
            &&& !wants_fetch(folded, ix as int) ==> r is None && final(model)@ == folded
        }),
{
    modes.set(node_id, mode);
    if !model.collapse(ix) {
        return None;
    }
    match begin_expand(model, ix) {
        Some(id) => {
            let m = modes.get(id.as_str());
            Some((id, m))
        },
        None => None,
    }
}

/// The glyph before a row's icon: none for a leaf, an ellipsis while its
/// children load, a down-pointing triangle when open, a right-pointing one
/// when closed.
pub fn chevron(row: &Row) -> (r: Option<&'static str>)
    ensures
        match r {
            None => !row.node.has_children,
            Some(g) => row.node.has_children && g@ == (if row.loading {
                "…"@
            } else if row.expanded {
                "▼"@
            } else {
                "▶"@
            }),
        },
{
    if !row.has_children() {
        None
    } else if row.loading {
        Some("…")
    } else if row.expanded {
        Some("▼")
    } else {
        Some("▶")
    }
}

/// The colour a row's title is drawn in.
#[derive(Clone, Copy, PartialEq, Eq, Debug, Structural)]
pub enum TitleTone {
    /// On the focused selection's accent.
    OnAccent,
    Error,
    Warning,
    /// The node's state colour.
    State(StateColor),
    Text,
}

/// A row's title colour: on the accent when it is the focused selection;
/// else errors and warnings in their colours; else the state's colour, or
/// plain text.
pub fn title_tone(node: &NodeSummary, on_accent: bool) -> (r: TitleTone)
    ensures
        r == (if on_accent {
            TitleTone::OnAccent
        } else if node.kind@ == "Error"@ {
            TitleTone::Error
        } else if node.kind@ == "Warning"@ {
            TitleTone::Warning
        } else if node.state@ == "failed"@ {
            TitleTone::State(StateColor::Error)
        } else if node.state@ == "skipped"@ {
            TitleTone::State(StateColor::TextTertiary)
        } else {
            TitleTone::Text
        }),
{
    if on_accent {
        TitleTone::OnAccent
    } else if text_eq(node.kind.as_str(), "Error") {
        TitleTone::Error
    } else if text_eq(node.kind.as_str(), "Warning") {
        TitleTone::Warning
    } else {
        match state_accent(node) {
            Some(c) => TitleTone::State(c),
            None => TitleTone::Text,
        }
    }
}

/// The star at a row's end: shown on a favourite and on the selected row,
/// filled for a favourite and hollow for a row that is not one yet.
pub fn star_glyph(favorite: bool, selected: bool) -> (r: Option<&'static str>)
    ensures
        match r {
            None => !favorite && !selected,
            Some(g) => (favorite || selected) && g@ == (if favorite {
                "★"@
            } else {
                "☆"@
            }),
        },
{
    if favorite {
        Some("★")
    } else if selected {
        Some("☆")
    } else {
        None
    }
}

/// The colour a row's star is drawn in.
#[derive(Clone, Copy, PartialEq, Eq, Debug, Structural)]
pub enum StarTone {
    /// On the focused selection's accent.
    OnAccent,
    /// A favourite's star.
    Warning,
    /// A star that would add the row.
    TextTertiary,
}

/// A star's colour: on the accent when its row is the focused selection,
/// else the warning colour for a favourite and the faint text colour for
/// any other row.
pub fn star_tone(favorite: bool, on_accent: bool) -> (r: StarTone)
    ensures
        r == (if on_accent {
            StarTone::OnAccent
        } else if favorite {
            StarTone::Warning
        } else {
            StarTone::TextTertiary
        }),
{
    if on_accent {
        StarTone::OnAccent
    } else if favorite {
        StarTone::Warning
    } else {
        StarTone::TextTertiary
    }
}

/// What double-clicking a row does.
pub enum RowOpen {
    /// The node has source: show it.
    ViewSource(String),
    /// The row was toggled.
    Toggle(Toggled),
    /// There is no such row.
    NoRow,
}

/// A double-click on row `ix`: a node with source opens its source;
/// any other row is toggled open or shut.
pub fn open_or_toggle(model: &mut TreeModel, selected: Option<usize>, ix: usize) -> (r: RowOpen)
    ensures
        ix >= old(model)@.len() ==> r is NoRow && final(model)@ == old(model)@,
        ix < old(model)@.len() && old(model)@[ix as int].node.has_source ==> (r matches RowOpen::ViewSource(id)
            && id@ == old(model)@[ix as int].node.id@ && final(model)@ == old(model)@),
        ix < old(model)@.len() && !old(model)@[ix as int].node.has_source ==> (r matches RowOpen::Toggle(t)
            && toggles(old(model)@, selected, ix, t, final(model)@)),
{
    let source = match model.row(ix) {
        None => {
            return RowOpen::NoRow;
        },
        Some(row) => if row.node.has_source {
            Some(row.node.id.clone())
        } else {
            None
        },
    };
    match source {
        Some(id) => RowOpen::ViewSource(id),
        None => RowOpen::Toggle(toggle(model, selected, ix)),
    }
}

} // verus!
