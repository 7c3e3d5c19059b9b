//! The build tree flattened to visible rows. Children come from the bridge
//! on demand; this model only knows how to splice them in and out.

use vstd::prelude::*;
use crate::model::NodeSummary;
use crate::text::text_eq;

verus! {

#[derive(Debug, PartialEq)]
pub struct Row {
    pub node: NodeSummary,
    pub depth: usize,
    pub expanded: bool,
    /// Children requested from the bridge and not yet applied.
    pub loading: bool,
}

impl Clone for Row {
    fn clone(&self) -> (r: Self)
        ensures
            r.node.id == self.node.id && r.node.has_children == self.node.has_children,
            r.depth == self.depth && r.expanded == self.expanded && r.loading == self.loading,
    {
        Row { node: self.node.clone(), depth: self.depth, expanded: self.expanded, loading: self.loading }
    }
}

impl Row {
    pub fn has_children(&self) -> (r: bool)
        ensures
            r == self.node.has_children,
    {
        self.node.has_children
    }
}

pub struct TreeModel {
    rows: Vec<Row>,
}

impl View for TreeModel {
    type V = Seq<Row>;

    closed spec fn view(&self) -> Seq<Row> {
        self.rows@
    }
}

/// Whether the row after `i` may follow it: at most one level deeper, and
/// deeper only below an expanded row.
pub open spec fn follows(rows: Seq<Row>, i: int) -> bool {
    rows[i + 1].depth <= rows[i].depth + (if rows[i].expanded {
        1int
    } else {
        0int
    })
}

/// The rows read as a tree: the first row is a root, and each row may
/// follow the one before it.
pub open spec fn well_shaped(rows: Seq<Row>) -> bool {
    &&& rows.len() > 0 ==> rows[0].depth == 0
    &&& forall|i: int| 0 <= i < rows.len() - 1 ==> #[trigger] follows(rows, i)
}

/// The first row showing `id`.
pub open spec fn first_index_of(rows: Seq<Row>, id: Seq<char>) -> Option<int> {
    if exists|i: int| 0 <= i < rows.len() && (#[trigger] rows[i]).node.id@ == id {
        Some(choose|i: int| 0 <= i < rows.len() && (#[trigger] rows[i]).node.id@ == id && forall|j: int|
            0 <= j < i ==> (#[trigger] rows[j]).node.id@ != id)
    } else {
        None
    }
}

/// The nearest row above `ix` that is shallower: its parent.
pub open spec fn parent_of(rows: Seq<Row>, ix: int) -> Option<int> {
    if !(0 <= ix < rows.len()) {
        None
    } else if exists|i: int| 0 <= i < ix && (#[trigger] rows[i]).depth < rows[ix].depth {
        Some(choose|i: int| 0 <= i < ix && (#[trigger] rows[i]).depth < rows[ix].depth && forall|j: int|
            i < j < ix ==> (#[trigger] rows[j]).depth >= rows[ix].depth)
    } else {
        None
    }
}

/// The nearest shallower row above `ix`, found by walking up from `k`.
proof fn lemma_nearest_shallower(rows: Seq<Row>, ix: int, k: int)
    requires
        0 <= k <= ix < rows.len(),
        forall|j: int| k <= j < ix ==> (#[trigger] rows[j]).depth >= rows[ix].depth,
        exists|i: int| 0 <= i < k && (#[trigger] rows[i]).depth < rows[ix].depth,
    ensures
        exists|i: int| 0 <= i < ix && (#[trigger] rows[i]).depth < rows[ix].depth && forall|j: int|
            i < j < ix ==> (#[trigger] rows[j]).depth >= rows[ix].depth,
    decreases k,
{
    if rows[k - 1].depth < rows[ix].depth {
        assert(forall|j: int| k - 1 < j < ix ==> (#[trigger] rows[j]).depth >= rows[ix].depth);
    } else {
        let w = choose|i: int| 0 <= i < k && (#[trigger] rows[i]).depth < rows[ix].depth;
        assert(w < k - 1);
        lemma_nearest_shallower(rows, ix, k - 1);
    }
}

/// A row's parent is a shallower row above it with nothing shallower in
/// between.
pub proof fn lemma_parent_of(rows: Seq<Row>, ix: int)
    ensures
        parent_of(rows, ix) matches Some(p) ==> 0 <= p < ix && rows[p].depth < rows[ix].depth && forall|j: int|
            p < j < ix ==> (#[trigger] rows[j]).depth >= rows[ix].depth,
{
    if parent_of(rows, ix) is Some {
        lemma_nearest_shallower(rows, ix, ix);
    }
}

/// `row` with `loading` cleared.
pub open spec fn settled(row: Row) -> Row {
    Row { loading: false, ..row }
}

/// Rows fetched under a parent at `depth`.
pub open spec fn child_rows(children: Seq<NodeSummary>, depth: int) -> Seq<Row> {
    children.map_values(|c: NodeSummary| Row { node: c, depth: depth as usize, expanded: false, loading: false })
}

/// Whether the row at `ix` has children that still have to be fetched.
pub open spec fn wants_fetch(rows: Seq<Row>, ix: int) -> bool {
    0 <= ix < rows.len() && rows[ix].node.has_children && !rows[ix].expanded && !rows[ix].loading
}

/// The rows after `children` are spliced in under the row at `ix`.
pub open spec fn expanded_rows(rows: Seq<Row>, ix: int, children: Seq<NodeSummary>) -> Seq<Row> {
    rows.subrange(0, ix) + seq![Row { expanded: true, loading: false, ..rows[ix] }] + child_rows(
        children,
        rows[ix].depth + 1,
    ) + rows.subrange(ix + 1, rows.len() as int)
}

/// Where the subtree under the row at `ix` ends: the first later row that
/// is not deeper.
pub open spec fn subtree_end(rows: Seq<Row>, ix: int, j: int) -> int
    decreases rows.len() - j,
{
    if j < rows.len() && rows[j].depth > rows[ix].depth {
        subtree_end(rows, ix, j + 1)
    } else {
        j
    }
}

/// The rows after the subtree under `ix` is folded away.
pub open spec fn collapsed_rows(rows: Seq<Row>, ix: int) -> Seq<Row> {
    rows.subrange(0, ix) + seq![Row { expanded: false, ..rows[ix] }] + rows.subrange(
        subtree_end(rows, ix, ix + 1),
        rows.len() as int,
    )
}

proof fn lemma_subtree_end_bounds(rows: Seq<Row>, ix: int, j: int)
    requires
        j <= rows.len(),
    ensures
        j <= subtree_end(rows, ix, j) <= rows.len(),
        forall|k: int| j <= k < subtree_end(rows, ix, j) ==> (#[trigger] rows[k]).depth > rows[ix].depth,
        subtree_end(rows, ix, j) < rows.len() ==> rows[subtree_end(rows, ix, j)].depth <= rows[ix].depth,
    decreases rows.len() - j,
{
    if j < rows.len() && rows[j].depth > rows[ix].depth {
        lemma_subtree_end_bounds(rows, ix, j + 1);
    }
}

/// Along a well-shaped sequence a row is never deeper than its index.
proof fn lemma_depth_below_index(rows: Seq<Row>, i: int)
    requires
        well_shaped(rows),
        0 <= i < rows.len(),
    ensures
        rows[i].depth <= i,
    decreases i,
{
    if i > 0 {
        lemma_depth_below_index(rows, i - 1);
        assert(follows(rows, i - 1));
    }
}

/// Clearing `loading` on a row keeps the shape.
proof fn lemma_settled_shape(rows: Seq<Row>, ix: int, row: Row)
    requires
        well_shaped(rows),
        0 <= ix < rows.len(),
        row.depth == rows[ix].depth,
        row.expanded == rows[ix].expanded,
    ensures
        well_shaped(rows.update(ix, row)),
{
    let r = rows.update(ix, row);
    assert forall|i: int| 0 <= i < r.len() - 1 implies #[trigger] follows(r, i) by {
        assert(follows(rows, i));
    }
}

/// Splicing children in under an unexpanded row keeps the shape.
#[verifier::spinoff_prover]
proof fn lemma_expanded_shape(rows: Seq<Row>, ix: int, children: Seq<NodeSummary>)
    requires
        well_shaped(rows),
        0 <= ix < rows.len(),
        !rows[ix].expanded,
        rows[ix].depth < usize::MAX,
    ensures
        well_shaped(expanded_rows(rows, ix, children)),
{
    let r = expanded_rows(rows, ix, children);
    let n = children.len() as int;
    let d = rows[ix].depth + 1;
    lemma_depth_below_index(rows, ix);
    assert(r.len() == rows.len() + n);
    assert forall|i: int| 0 <= i < r.len() - 1 implies #[trigger] follows(r, i) by {
        if i < ix - 1 {
            assert(follows(rows, i));
            assert(r[i] == rows[i] && r[i + 1] == rows[i + 1]);
        } else if i == ix - 1 {
            assert(follows(rows, i));
            assert(r[i] == rows[i]);
        } else if i == ix {
            if n == 0 {
                assert(follows(rows, ix));
                assert(r[i + 1] == rows[ix + 1]);
            }
        } else if i <= ix + n {
            assert(r[i] == Row { node: children[i - ix - 1], depth: d as usize, expanded: false, loading: false });
            if i + 1 <= ix + n {
                assert(r[i + 1] == Row { node: children[i - ix], depth: d as usize, expanded: false, loading: false });
            } else {
                assert(follows(rows, ix));
                assert(r[i + 1] == rows[ix + 1]);
            }
        } else {
            assert(follows(rows, i - n));
            assert(r[i] == rows[i - n] && r[i + 1] == rows[i - n + 1]);
        }
    }
}

/// Folding a subtree away keeps the shape.
#[verifier::spinoff_prover]
proof fn lemma_collapsed_shape(rows: Seq<Row>, ix: int)
    requires
        well_shaped(rows),
        0 <= ix < rows.len(),
    ensures
        well_shaped(collapsed_rows(rows, ix)),
{
    let r = collapsed_rows(rows, ix);
    let e = subtree_end(rows, ix, ix + 1);
    lemma_subtree_end_bounds(rows, ix, ix + 1);
    assert forall|i: int| 0 <= i < r.len() - 1 implies #[trigger] follows(r, i) by {
        if i < ix {
            assert(follows(rows, i));
            assert(r[i] == rows[i]);
        } else if i == ix {
            assert(r[i + 1] == rows[e]);
        } else {
            let k = i - ix - 1 + e;
            assert(follows(rows, k));
            assert(r[i] == rows[k] && r[i + 1] == rows[k + 1]);
        }
    }
}

/// Sets the `loading` flag of the row at `ix`.
fn set_loading(rows: &mut Vec<Row>, ix: usize, loading: bool)
    requires
        ix < old(rows)@.len(),
    ensures
        final(rows)@ == old(rows)@.update(ix as int, Row { loading, ..old(rows)@[ix as int] }),
{
    let ghost before = rows@;
    let mut row = rows.remove(ix);
    row.loading = loading;
    rows.insert(ix, row);
    assert(rows@ =~= before.update(ix as int, row));
}

/// Opens the row at `ix` and splices `children` in right below it.
#[verifier::spinoff_prover]
fn splice_children(rows: &mut Vec<Row>, ix: usize, children: Vec<NodeSummary>)
    requires
        well_shaped(old(rows)@),
        ix < old(rows)@.len(),
    ensures
        final(rows)@ == expanded_rows(old(rows)@, ix as int, children@),
{
    let ghost old_rows = rows@;
    let ghost kids = children@;
    let count = rows.len();
    proof {
        lemma_depth_below_index(old_rows, ix as int);
        assert(old_rows[ix as int].depth < count);
    }
    let mut tail = rows.split_off(ix + 1);
    let mut row = rows.pop().unwrap();
    row.expanded = true;
    row.loading = false;
    let depth = row.depth + 1;
    rows.push(row);
    let mut pending = children;
    let mut reversed: Vec<NodeSummary> = Vec::new();
    while pending.len() > 0
        invariant
            kids == pending@ + reversed@.reverse(),
        decreases pending.len(),
    {
        let c = pending.pop().unwrap();
        let ghost before = reversed@;
        reversed.push(c);
        assert(reversed@.reverse() =~= seq![c] + before.reverse());
    }
    assert(kids =~= reversed@.reverse());
    let ghost base = rows@;
    while reversed.len() > 0
        invariant
            base.len() == ix + 1,
            kids.len() == rows@.len() - base.len() + reversed@.len(),
            kids == kids.take(rows@.len() - base.len()) + reversed@.reverse(),
            rows@ == base + child_rows(kids.take(rows@.len() - base.len()), depth as int),
        decreases reversed.len(),
    {
        let ghost done = rows@.len() - base.len();
        let c = reversed.pop().unwrap();
        rows.push(Row { node: c, depth, expanded: false, loading: false });
        assert(kids.take(done + 1) =~= kids.take(done).push(c));
        assert(kids =~= kids.take(done + 1) + reversed@.reverse());
        assert(child_rows(kids.take(done + 1), depth as int) =~= child_rows(kids.take(done), depth as int).push(
            Row { node: c, depth, expanded: false, loading: false },
        ));
    }
    assert(kids.take(kids.len() as int) =~= kids);
    rows.append(&mut tail);
    assert(rows@ =~= expanded_rows(old_rows, ix as int, kids));
}

/// A row marked as loading wants no second fetch.
pub proof fn lemma_loading_wants_no_fetch(rows: Seq<Row>, ix: int)
    requires
        0 <= ix < rows.len(),
    ensures
        !wants_fetch(rows.update(ix, Row { loading: true, ..rows[ix] }), ix),
{
}

/// Past the spliced children of an opened row, the subtree ends right
/// after the last child.
proof fn lemma_subtree_end_after_children(rows: Seq<Row>, ix: int, children: Seq<NodeSummary>, j: int)
    requires
        well_shaped(rows),
        0 <= ix < rows.len(),
        !rows[ix].expanded,
        rows[ix].depth < usize::MAX,
        ix + 1 <= j <= ix + 1 + children.len(),
    ensures
        subtree_end(expanded_rows(rows, ix, children), ix, j) == ix + 1 + children.len(),
    decreases ix + 1 + children.len() - j,
{
    let e = expanded_rows(rows, ix, children);
    let n = children.len() as int;
    if j < ix + 1 + n {
        assert(e[j] == Row { node: children[j - ix - 1], depth: (rows[ix].depth + 1) as usize, expanded: false, loading: false });
        lemma_subtree_end_after_children(rows, ix, children, j + 1);
    } else if j < e.len() {
        assert(follows(rows, ix));
        assert(e[j] == rows[ix + 1]);
    }
}

/// Folding a row right after its children were spliced in gives back the
/// rows as they were before, with the row no longer loading.
#[verifier::spinoff_prover]
pub proof fn lemma_collapse_undoes_expand(rows: Seq<Row>, ix: int, children: Seq<NodeSummary>)
    requires
        well_shaped(rows),
        rows.len() <= usize::MAX,
        0 <= ix < rows.len(),
        !rows[ix].expanded,
    ensures
        collapsed_rows(expanded_rows(rows, ix, children), ix) == rows.update(ix, settled(rows[ix])),
{
    lemma_depth_below_index(rows, ix);
    lemma_subtree_end_after_children(rows, ix, children, ix + 1);
    let e = expanded_rows(rows, ix, children);
    let n = children.len() as int;
    assert(e.subrange(ix + 1 + n, e.len() as int) =~= rows.subrange(ix + 1, rows.len() as int));
    assert(e.subrange(0, ix) =~= rows.subrange(0, ix));
    assert(collapsed_rows(e, ix) =~= rows.update(ix, settled(rows[ix])));
}

/// Where the rows of spliced children sit, and how deep.
proof fn lemma_spliced_depths(rows: Seq<Row>, ix: int, children: Seq<NodeSummary>, j: int)
    requires
        0 <= ix < rows.len(),
        rows[ix].depth < usize::MAX,
        0 <= j <= ix + children.len(),
    ensures
        j == ix ==> expanded_rows(rows, ix, children)[j].depth == rows[ix].depth,
        ix < j ==> expanded_rows(rows, ix, children)[j].depth == rows[ix].depth + 1,
{
    let e = expanded_rows(rows, ix, children);
    if ix < j {
        assert(e[j] == Row {
            node: children[j - ix - 1],
            depth: (rows[ix].depth + 1) as usize,
            expanded: false,
            loading: false,
        });
    } else if j == ix {
        assert(e[j].depth == rows[ix].depth);
    }
}

/// Each spliced child has the row it was fetched for as its parent.
pub proof fn lemma_children_parent(rows: Seq<Row>, ix: int, children: Seq<NodeSummary>, k: int)
    requires
        well_shaped(rows),
        rows.len() <= usize::MAX,
        0 <= ix < rows.len(),
        !rows[ix].expanded,
        0 <= k < children.len(),
    ensures
        parent_of(expanded_rows(rows, ix, children), ix + 1 + k) == Some(ix),
{
    lemma_depth_below_index(rows, ix);
    let e = expanded_rows(rows, ix, children);
    let c = ix + 1 + k;
    lemma_spliced_depths(rows, ix, children, c);
    lemma_spliced_depths(rows, ix, children, ix);
    assert forall|j: int| ix < j < c implies (#[trigger] e[j]).depth >= e[c].depth by {
        lemma_spliced_depths(rows, ix, children, j);
    }
    assert(e[ix].depth < e[c].depth);
    lemma_parent_of(e, c);
    let p = parent_of(e, c)->0;
    if p < ix {
        assert(e[ix].depth >= e[c].depth);
    } else if p > ix {
        lemma_spliced_depths(rows, ix, children, p);
    }
}

impl Default for TreeModel {
    fn default() -> (m: Self)
        ensures
            m@.len() == 0,
    {
        TreeModel { rows: Vec::new() }
    }
}

impl TreeModel {
    /// Every model reads as a tree.
    #[verifier::type_invariant]
    spec fn shaped(self) -> bool {
        well_shaped(self.rows@)
    }

    pub fn new(root: NodeSummary) -> (m: Self)
        ensures
            m@ == seq![Row { node: root, depth: 0, expanded: false, loading: false }],
            well_shaped(m@),
    {
        let mut rows: Vec<Row> = Vec::new();
        rows.push(Row { node: root, depth: 0, expanded: false, loading: false });
        TreeModel { rows }
    }

    /// Every model reads as a tree.
    pub fn is_well_shaped(&self) -> (r: bool)
        ensures
            r,
            well_shaped(self@),
    {
        proof {
            use_type_invariant(self);
        }
        true
    }

    pub fn len(&self) -> (n: usize)
        ensures
            n == self@.len(),
    {
        self.rows.len()
    }

    pub fn row(&self, ix: usize) -> (r: Option<&Row>)
        ensures
            r matches Some(row) ==> ix < self@.len() && *row == self@[ix as int],
            r is None ==> ix >= self@.len(),
    {
        if ix < self.rows.len() {
            Some(&self.rows[ix])
        } else {
            None
        }
    }

    pub fn rows(&self) -> (r: &[Row])
        ensures
            r@ == self@,
    {
        self.rows.as_slice()
    }

    pub fn index_of(&self, node_id: &str) -> (r: Option<usize>)
        ensures
            r matches Some(i) ==> first_index_of(self@, node_id@) == Some(i as int) && i < self@.len()
                && self@[i as int].node.id@ == node_id@,
            r is None ==> first_index_of(self@, node_id@) is None,
    {
        let mut i: usize = 0;
        while i < self.rows.len()
            invariant
                i <= self@.len(),
                self@ == self.rows@,
                forall|j: int| 0 <= j < i ==> (#[trigger] self@[j]).node.id@ != node_id@,
            decreases self.rows.len() - i,
        {
            if text_eq(self.rows[i].node.id.as_str(), node_id) {
                proof {
                    let k = choose|k: int| 0 <= k < self@.len() && (#[trigger] self@[k]).node.id@ == node_id@ && forall|j: int|
                        0 <= j < k ==> (#[trigger] self@[j]).node.id@ != node_id@;
                    if k < i {
                    } else if k > i {
                        assert(self@[i as int].node.id@ == node_id@);
                    }
                }
                return Some(i);
            }
            i += 1;
        }
        None
    }

    pub fn parent_index(&self, ix: usize) -> (r: Option<usize>)
        ensures
            r matches Some(p) ==> parent_of(self@, ix as int) == Some(p as int),
            r is None ==> parent_of(self@, ix as int) is None,
    {
        if ix >= self.rows.len() {
            return None;
        }
        let depth = self.rows[ix].depth;
        let mut i = ix;
        while i > 0
            invariant
                i <= ix < self@.len(),
                self@ == self.rows@,
                depth == self@[ix as int].depth,
                forall|j: int| i <= j < ix ==> (#[trigger] self@[j]).depth >= depth,
            decreases i,
        {
            if self.rows[i - 1].depth < depth {
                proof {
                    let k = choose|k: int| 0 <= k < ix && (#[trigger] self@[k]).depth < self@[ix as int].depth && forall|j: int|
                        k < j < ix ==> (#[trigger] self@[j]).depth >= self@[ix as int].depth;
                    if k < i - 1 {
                        assert(self@[i - 1].depth >= depth);
                    } else if k > i - 1 {
                        assert(self@[k].depth >= depth);
                    }
                }
                return Some(i - 1);
            }
            i -= 1;
        }
        None
    }

    pub fn mark_loading(&mut self, ix: usize)
        ensures
            ix < old(self)@.len() ==> final(self)@ == old(self)@.update(
                ix as int,
                Row { loading: true, ..old(self)@[ix as int] },
            ),
            ix >= old(self)@.len() ==> final(self)@ == old(self)@,
            well_shaped(final(self)@),
    {
        proof {
            use_type_invariant(&*self);
        }
        if ix < self.rows.len() {
            let mut rows: Vec<Row> = Vec::new();
            std::mem::swap(&mut rows, &mut self.rows);
            let ghost before = rows@;
            set_loading(&mut rows, ix, true);
            proof {
                lemma_settled_shape(before, ix as int, rows@[ix as int]);
            }
            self.rows = rows;
        }
    }

    /// Inserts fetched children under `parent_id` (wherever that row is
    /// now). Returns the parent's index, or None if it was collapsed away.
    #[verifier::spinoff_prover]
    pub fn apply_children(&mut self, parent_id: &str, children: Vec<NodeSummary>) -> (r: Option<usize>)
        ensures
            r matches Some(i) ==> first_index_of(old(self)@, parent_id@) == Some(i as int),
            r is None ==> first_index_of(old(self)@, parent_id@) is None && final(self)@ == old(self)@,
            r matches Some(i) ==> (if old(self)@[i as int].expanded {
                final(self)@ == old(self)@.update(i as int, settled(old(self)@[i as int]))
            } else {
                final(self)@ == expanded_rows(old(self)@, i as int, children@)
            }),
            well_shaped(final(self)@),
    {
        proof {
            use_type_invariant(&*self);
        }
        let ix = match self.index_of(parent_id) {
            Some(ix) => ix,
            None => return None,
        };
        let ghost old_rows = self.rows@;
        let mut rows: Vec<Row> = Vec::new();
        std::mem::swap(&mut rows, &mut self.rows);
        assert(rows@ == old_rows);
        if rows[ix].expanded {
            set_loading(&mut rows, ix, false);
            proof {
                lemma_settled_shape(old_rows, ix as int, rows@[ix as int]);
            }
            self.rows = rows;
            return Some(ix);
        }
        let count = rows.len();
        proof {
            lemma_depth_below_index(old_rows, ix as int);
            assert(old_rows[ix as int].depth < count);
            lemma_expanded_shape(old_rows, ix as int, children@);
        }
        splice_children(&mut rows, ix, children);
        self.rows = rows;
        Some(ix)
    }

    /// Folds the subtree under `ix` away; false when it was not open.
    #[verifier::spinoff_prover]
    pub fn collapse(&mut self, ix: usize) -> (r: bool)
        ensures
            r == (ix < old(self)@.len() && old(self)@[ix as int].expanded),
            r ==> final(self)@ == collapsed_rows(old(self)@, ix as int),
            !r ==> final(self)@ == old(self)@,
            well_shaped(final(self)@),
    {
        proof {
            use_type_invariant(&*self);
        }
        if ix >= self.rows.len() {
            return false;
        }
        if !self.rows[ix].expanded {
            return false;
        }
        let mut rows: Vec<Row> = Vec::new();
        std::mem::swap(&mut rows, &mut self.rows);
        let depth = rows[ix].depth;
        let mut end = ix + 1;
        let ghost old_rows = rows@;
        proof {
            lemma_subtree_end_bounds(old_rows, ix as int, ix + 1);
        }
        while end < rows.len() && rows[end].depth > depth
            invariant
                ix < end <= rows@.len(),
                rows@ == old_rows,
                depth == old_rows[ix as int].depth,
                subtree_end(old_rows, ix as int, end as int) == subtree_end(old_rows, ix as int, ix + 1),
            decreases rows.len() - end,
        {
            end += 1;
        }
        let mut tail = rows.split_off(ix + 1);
        let mut rest = tail.split_off(end - (ix + 1));
        let mut row = rows.pop().unwrap();
        row.expanded = false;
        rows.push(row);
        rows.append(&mut rest);
        assert(rows@ =~= collapsed_rows(old_rows, ix as int));
        proof {
            lemma_collapsed_shape(old_rows, ix as int);
        }
        self.rows = rows;
        true
    }

    /// Whether `ix` needs a bridge fetch before it can show children.
    pub fn needs_fetch(&self, ix: usize) -> (r: bool)
        ensures
            r == wants_fetch(self@, ix as int),
    {
        if ix < self.rows.len() {
            let r = &self.rows[ix];
            r.has_children() && !r.expanded && !r.loading
        } else {
            false
        }
    }
}

} // verus!
