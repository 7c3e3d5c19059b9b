//! What the inspector shows of the selected node: its facts, in a fixed
//! order with the node's own properties last, sorted by name; where its
//! source is; and its full text, cut short when it is long.

use vstd::prelude::*;
use vstd::string::{StrSliceExecFns, StringExecFns, StringSliceAdditionalSpecFns};
use vstd::utf8::{encode_utf8, is_char_boundary};
use crate::model::{append_decimal, decimal, NodeSummary};
use crate::text::{chars_le, chars_of, text_eq, lemma_text_le_total, lemma_text_le_transitive, text_le};

verus! {

/// A node as the inspector fetches it.
pub struct NodeDetails {
    pub node: NodeSummary,
    pub parent_id: Option<String>,
    pub start_time: Option<String>,
    pub end_time: Option<String>,
    pub full_text: Option<String>,
    pub source_file: Option<String>,
    /// 1-based.
    pub source_line: Option<u32>,
}

/// Where the node's source is: the file, and the line after a colon when
/// there is one.
pub open spec fn source_label_of(file: Option<String>, line: Option<u32>) -> Option<Seq<char>> {
    match file {
        Some(f) => Some(
            match line {
                Some(l) => f@ + seq![':'] + decimal(l as nat),
                None => f@,
            },
        ),
        None => None,
    }
}

pub fn source_label(details: &NodeDetails) -> (r: Option<String>)
    ensures
        match r {
            Some(s) => source_label_of(details.source_file, details.source_line) == Some(s@),
            None => source_label_of(details.source_file, details.source_line) is None,
        },
{
    match &details.source_file {
        Some(f) => {
            let mut s = f.clone();
            if let Some(line) = details.source_line {
                s.append(":");
                proof {
                    reveal_strlit(":");
                }
                append_decimal(&mut s, line as u128);
            }
            Some(s)
        },
        None => None,
    }
}

/// A labelled fact, shown only when it has a value that is not empty.
pub open spec fn fact(label: Seq<char>, value: Option<Seq<char>>) -> Seq<(Seq<char>, Seq<char>)> {
    match value {
        Some(v) => if v.len() > 0 {
            seq![(label, v)]
        } else {
            seq![]
        },
        None => seq![],
    }
}

pub open spec fn text_of(s: Option<String>) -> Option<Seq<char>> {
    match s {
        Some(t) => Some(t@),
        None => None,
    }
}

/// A property's view.
pub open spec fn pair_of(p: (String, String)) -> (Seq<char>, Seq<char>) {
    (p.0@, p.1@)
}

pub open spec fn pairs(ps: Seq<(String, String)>) -> Seq<(Seq<char>, Seq<char>)> {
    ps.map_values(|p: (String, String)| pair_of(p))
}

/// `x` put into the by-name sorted `s` after every property whose name
/// does not sort after its own.
pub open spec fn insert_by_name(s: Seq<(Seq<char>, Seq<char>)>, x: (Seq<char>, Seq<char>)) -> Seq<
    (Seq<char>, Seq<char>),
>
    decreases s.len(),
{
    if s.len() == 0 || text_le(s.last().0, x.0) {
        s.push(x)
    } else {
        insert_by_name(s.drop_last(), x).push(s.last())
    }
}

/// The properties sorted by name, equal names keeping their order.
pub open spec fn by_name(s: Seq<(Seq<char>, Seq<char>)>) -> Seq<(Seq<char>, Seq<char>)>
    decreases s.len(),
{
    if s.len() == 0 {
        s
    } else {
        insert_by_name(by_name(s.drop_last()), s.last())
    }
}

/// The facts of the properties, in order: each one whose value is not
/// empty.
pub open spec fn property_facts(s: Seq<(Seq<char>, Seq<char>)>) -> Seq<(Seq<char>, Seq<char>)>
    decreases s.len(),
{
    if s.len() == 0 {
        seq![]
    } else {
        property_facts(s.drop_last()) + fact(s.last().0, Some(s.last().1))
    }
}

/// Everything the inspector lists about a node, in order: its id, its
/// duration (`duration`, already worded), start, end, child count, source,
/// then its properties by name.
pub open spec fn facts_of(d: NodeDetails, duration: Option<Seq<char>>) -> Seq<(Seq<char>, Seq<char>)> {
    fact("Node id"@, Some(d.node.id@)) + fact("Duration"@, duration) + fact("Start"@, text_of(d.start_time))
        + fact("End"@, text_of(d.end_time)) + fact(
        "Children"@,
        if d.node.has_children {
            Some(decimal(d.node.child_count as nat))
        } else {
            None
        },
    ) + fact("Source"@, source_label_of(d.source_file, d.source_line)) + property_facts(
        by_name(pairs(d.node.props@)),
    )
}

pub open spec fn views(v: Seq<(String, String)>) -> Seq<(Seq<char>, Seq<char>)> {
    v.map_values(|p: (String, String)| pair_of(p))
}

fn push_fact(out: &mut Vec<(String, String)>, label: &str, value: Option<String>)
    ensures
        views(final(out)@) == views(old(out)@) + fact(label@, text_of(value)),
{
    let ghost before = out@;
    match value {
        Some(v) => {
            if !v.as_str().is_empty() {
                out.push((label.to_string(), v));
                assert(views(out@) =~= views(before) + fact(label@, text_of(Some(v))));
            } else {
                assert(views(out@) =~= views(before) + fact(label@, text_of(Some(v))));
            }
        },
        None => {
            assert(views(out@) =~= views(before) + fact(label@, text_of(value)));
        },
    }
}

proof fn lemma_insert_at(s: Seq<(Seq<char>, Seq<char>)>, x: (Seq<char>, Seq<char>), p: int)
    requires
        0 <= p <= s.len(),
        p == 0 || text_le(s[p - 1].0, x.0),
        forall|j: int| p <= j < s.len() ==> !text_le(#[trigger] s[j].0, x.0),
    ensures
        insert_by_name(s, x) == s.insert(p, x),
    decreases s.len(),
{
    if p == s.len() {
        assert(s.insert(p, x) =~= s.push(x));
    } else {
        assert(!text_le(s[s.len() - 1].0, x.0));
        lemma_insert_at(s.drop_last(), x, p);
        assert(s.insert(p, x) =~= s.drop_last().insert(p, x).push(s.last()));
    }
}

/// The node's properties sorted by name.
fn sorted_properties(props: &Vec<(String, String)>) -> (r: Vec<(String, String)>)
    ensures
        views(r@) == by_name(pairs(props@)),
{
    let mut out: Vec<(String, String)> = Vec::new();
    let mut names: Vec<Vec<char>> = Vec::new();
    let mut i: usize = 0;
    while i < props.len()
        invariant
            i <= props@.len(),
            names@.len() == out@.len(),
            forall|k: int| 0 <= k < names@.len() ==> (#[trigger] names@[k])@ == out@[k].0@,
            views(out@) == by_name(pairs(props@.take(i as int))),
        decreases props.len() - i,
    {
        assert(pairs(props@.take(i + 1)).drop_last() =~= pairs(props@.take(i as int)));
        let x = (props[i].0.clone(), props[i].1.clone());
        let name = chars_of(x.0.as_str());
        let ghost s = views(out@);
        let mut p: usize = out.len();
        while p > 0 && !chars_le(&names[p - 1], &name)
            invariant
                p <= out@.len(),
                names@.len() == out@.len(),
                forall|k: int| 0 <= k < names@.len() ==> (#[trigger] names@[k])@ == out@[k].0@,
                name@ == x.0@,
                s == views(out@),
                forall|j: int| p <= j < s.len() ==> !text_le(#[trigger] s[j].0, x.0@),
            decreases p,
        {
            p -= 1;
        }
        proof {
            lemma_insert_at(s, pair_of(x), p as int);
        }
        out.insert(p, x);
        names.insert(p, name);
        assert(views(out@) =~= s.insert(p as int, pair_of(x)));
        assert(pairs(props@.take(i + 1)).last() == pair_of(props@[i as int]));
        i += 1;
    }
    assert(props@.take(props@.len() as int) =~= props@);
    out
}

/// The facts the inspector lists for `details`; `duration` is the node's
/// duration already worded, when it has one.
pub fn facts(details: &NodeDetails, duration: Option<String>) -> (r: Vec<(String, String)>)
    ensures
        views(r@) == facts_of(*details, text_of(duration)),
{
    let mut out: Vec<(String, String)> = Vec::new();
    push_fact(&mut out, "Node id", Some(details.node.id.clone()));
    push_fact(&mut out, "Duration", duration);
    push_fact(&mut out, "Start", details.start_time.clone());
    push_fact(&mut out, "End", details.end_time.clone());
    let children = if details.node.has_children {
        let mut s = String::new();
        append_decimal(&mut s, details.node.child_count as u128);
        Some(s)
    } else {
        None
    };
    push_fact(&mut out, "Children", children);
    push_fact(&mut out, "Source", source_label(details));
    let sorted = sorted_properties(&details.node.props);
    let ghost head = views(out@);
    let mut i: usize = 0;
    while i < sorted.len()
        invariant
            i <= sorted@.len(),
            views(out@) == head + property_facts(views(sorted@).take(i as int)),
        decreases sorted.len() - i,
    {
        assert(views(sorted@).take(i + 1).drop_last() =~= views(sorted@).take(i as int));
        let ghost before = views(out@);
        let (k, v) = (&sorted[i].0, &sorted[i].1);
        if !v.as_str().is_empty() {
            out.push((k.clone(), v.clone()));
        }
        assert(views(out@) =~= before + fact(sorted@[i as int].0@, Some(sorted@[i as int].1@)));
        i += 1;
    }
    assert(views(sorted@).take(sorted@.len() as int) =~= views(sorted@));
    out
}

/// Inspectors show at most this many bytes of a node's text.
pub const FULL_TEXT_LIMIT: usize = 20000;

/// The last character boundary of `b` at or before `i`.
pub open spec fn boundary_before(b: Seq<u8>, i: int) -> int
    decreases i,
{
    if i <= 0 || is_char_boundary(b, i) {
        i
    } else {
        boundary_before(b, i - 1)
    }
}

/// The node's full text as the inspector shows it: longer texts are cut at
/// the last character boundary within the limit and marked as truncated.
pub fn shown_full_text(text: Option<String>) -> (r: String)
    ensures
        match text {
            None => r@ == Seq::<char>::empty(),
            Some(t) => if encode_utf8(t@).len() > FULL_TEXT_LIMIT {
                encode_utf8(r@) == encode_utf8(t@).subrange(0, boundary_before(encode_utf8(t@), FULL_TEXT_LIMIT as int))
                    + encode_utf8("\n… (truncated)"@)
            } else {
                r@ == t@
            },
        },
{
    let t = match text {
        Some(t) => t,
        None => {
            return String::new();
        },
    };
    let n = t.as_str().as_bytes().len();
    if n <= FULL_TEXT_LIMIT {
        return t;
    }
    let mut end: usize = FULL_TEXT_LIMIT;
    while !t.as_str().is_char_boundary(end)
        invariant
            0 <= end <= FULL_TEXT_LIMIT < n == encode_utf8(t@).len(),
            boundary_before(encode_utf8(t@), end as int) == boundary_before(encode_utf8(t@), FULL_TEXT_LIMIT as int),
        decreases end,
    {
        if end == 0 {
            assert(is_char_boundary(encode_utf8(t@), 0)) by {
                vstd::utf8::encode_utf8_valid_utf8(t@);
                vstd::utf8::is_char_boundary_start_end_of_seq(encode_utf8(t@));
            }
        }
        end -= 1;
    }
    let (head, _) = t.as_str().split_at(end);
    let mut r = head.to_string();
    let tail = "\n… (truncated)";
    r.append(tail);
    proof {
        crate::files::lemma_encode_concat(head@, tail@);
    }
    r
}

/// Whether the inspector's header names the node's state: it does unless
/// the state is blank or "none".
pub fn shows_state(state: &str) -> (r: bool)
    ensures
        r == (state@.len() > 0 && state@ != "none"@),
{
    !state.is_empty() && !text_eq(state, "none")
}

/// Listing the properties by name puts them in name order.
pub proof fn lemma_properties_by_name(s: Seq<(Seq<char>, Seq<char>)>)
    ensures
        forall|i: int, j: int| 0 <= i < j < by_name(s).len() ==> text_le(by_name(s)[i].0, by_name(s)[j].0),
    decreases s.len(),
{
    if s.len() > 0 {
        lemma_properties_by_name(s.drop_last());
        lemma_insert_in_order(by_name(s.drop_last()), s.last());
    }
}

proof fn lemma_insert_members(s: Seq<(Seq<char>, Seq<char>)>, x: (Seq<char>, Seq<char>))
    ensures
        insert_by_name(s, x).len() == s.len() + 1,
        forall|k: int|
            0 <= k < insert_by_name(s, x).len() ==> #[trigger] insert_by_name(s, x)[k] == x || s.contains(
                insert_by_name(s, x)[k],
            ),
    decreases s.len(),
{
    if s.len() == 0 || text_le(s.last().0, x.0) {
        assert forall|k: int| 0 <= k < s.push(x).len() implies #[trigger] s.push(x)[k] == x || s.contains(
            s.push(x)[k],
        ) by {
            if k < s.len() {
                assert(s.push(x)[k] == s[k]);
            }
        }
    } else {
        let inner = insert_by_name(s.drop_last(), x);
        lemma_insert_members(s.drop_last(), x);
        assert forall|k: int| 0 <= k < inner.push(s.last()).len() implies #[trigger] inner.push(s.last())[k] == x
            || s.contains(inner.push(s.last())[k]) by {
            if k < inner.len() {
                let e = inner[k];
                assert(inner.push(s.last())[k] == e);
                if e != x {
                    let m = choose|m: int| 0 <= m < s.drop_last().len() && s.drop_last()[m] == e;
                    assert(s[m] == e);
                }
            } else {
                assert(s[s.len() - 1] == s.last());
            }
        }
    }
}

proof fn lemma_insert_in_order(s: Seq<(Seq<char>, Seq<char>)>, x: (Seq<char>, Seq<char>))
    requires
        forall|i: int, j: int| 0 <= i < j < s.len() ==> text_le(s[i].0, s[j].0),
    ensures
        forall|i: int, j: int|
            0 <= i < j < insert_by_name(s, x).len() ==> text_le(insert_by_name(s, x)[i].0, insert_by_name(s, x)[j].0),
    decreases s.len(),
{
    if s.len() == 0 || text_le(s.last().0, x.0) {
        let r = s.push(x);
        assert forall|i: int, j: int| 0 <= i < j < r.len() implies text_le(r[i].0, r[j].0) by {
            if j == s.len() {
                if i < s.len() - 1 {
                    lemma_text_le_transitive(s[i].0, s.last().0, x.0);
                }
            } else {
                assert(r[i] == s[i] && r[j] == s[j]);
            }
        }
    } else {
        let d = s.drop_last();
        let last = s.last();
        let inner = insert_by_name(d, x);
        lemma_insert_in_order(d, x);
        lemma_insert_members(d, x);
        lemma_text_le_total(last.0, x.0);
        let r = inner.push(last);
        assert forall|i: int, j: int| 0 <= i < j < r.len() implies text_le(r[i].0, r[j].0) by {
            if j == inner.len() {
                let e = inner[i];
                assert(r[i] == e && r[j] == last);
                if e != x {
                    let m = choose|m: int| 0 <= m < d.len() && d[m] == e;
                    assert(s[m] == e && s[s.len() - 1] == last);
                }
            } else {
                assert(r[i] == inner[i] && r[j] == inner[j]);
            }
        }
    }
}

} // verus!
