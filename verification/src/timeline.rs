//! Which timeline blocks a filter lets through, how blocks that start
//! together are ranked, and the colour each kind of block is drawn in.
//! Placing blocks on the time axis works in floating point and stays with
//! the application.

use vstd::prelude::*;
use crate::text::text_eq;
use crate::model::{append_decimal, decimal};
use vstd::string::{StrSliceExecFns, StringExecFns};

verus! {

/// Which kinds of block the timeline shows.
#[derive(Clone, Copy, PartialEq, Eq, Debug, Structural)]
pub struct Filter {
    pub evaluations: bool,
    pub projects: bool,
    pub targets: bool,
    pub tasks: bool,
    pub other: bool,
}

impl Default for Filter {
    /// Everything shown.
    fn default() -> (r: Self)
        ensures
            r == (Filter { evaluations: true, projects: true, targets: true, tasks: true, other: true }),
    {
        Filter { evaluations: true, projects: true, targets: true, tasks: true, other: true }
    }
}

#[derive(Clone, Copy, PartialEq, Eq, Debug, Structural)]
pub enum Category {
    Evaluation,
    Project,
    Target,
    Task,
    Other,
}

pub open spec fn category_of(kind: Seq<char>) -> Category {
    if kind == "ProjectEvaluation"@ {
        Category::Evaluation
    } else if kind == "Project"@ {
        Category::Project
    } else if kind == "Target"@ {
        Category::Target
    } else if kind == "Task"@ {
        Category::Task
    } else {
        Category::Other
    }
}

pub fn category(kind: &str) -> (r: Category)
    ensures
        r == category_of(kind@),
{
    if text_eq(kind, "ProjectEvaluation") {
        Category::Evaluation
    } else if text_eq(kind, "Project") {
        Category::Project
    } else if text_eq(kind, "Target") {
        Category::Target
    } else if text_eq(kind, "Task") {
        Category::Task
    } else {
        Category::Other
    }
}

/// Whether `filter` shows blocks of `kind`.
pub open spec fn allowed(filter: Filter, kind: Seq<char>) -> bool {
    match category_of(kind) {
        Category::Evaluation => filter.evaluations,
        Category::Project => filter.projects,
        Category::Target => filter.targets,
        Category::Task => filter.tasks,
        Category::Other => filter.other,
    }
}

impl Filter {
    pub fn allows(&self, kind: &str) -> (r: bool)
        ensures
            r == allowed(*self, kind@),
    {
        match category(kind) {
            Category::Evaluation => self.evaluations,
            Category::Project => self.projects,
            Category::Target => self.targets,
            Category::Task => self.tasks,
            Category::Other => self.other,
        }
    }
}

/// Among blocks that start together, containers first.
pub open spec fn rank_of(kind: Seq<char>) -> u8 {
    if kind == "ProjectEvaluation"@ || kind == "Project"@ {
        0
    } else if kind == "Target"@ {
        1
    } else if kind == "Task"@ {
        2
    } else {
        3
    }
}

pub fn rank(kind: &str) -> (r: u8)
    ensures
        r == rank_of(kind@),
{
    if text_eq(kind, "ProjectEvaluation") || text_eq(kind, "Project") {
        0
    } else if text_eq(kind, "Target") {
        1
    } else if text_eq(kind, "Task") {
        2
    } else {
        3
    }
}

/// The colour a block is drawn in: the theme's error colour, or a fixed
/// colour per kind.
#[derive(Clone, Copy, PartialEq, Eq, Debug, Structural)]
pub enum BlockColor {
    ThemeError,
    Rgb(u32),
}

pub open spec fn block_color_of(kind: Seq<char>, has_error: bool) -> BlockColor {
    if has_error {
        BlockColor::ThemeError
    } else if kind == "Project"@ {
        BlockColor::Rgb(0x34c759)
    } else if kind == "ProjectEvaluation"@ {
        BlockColor::Rgb(0x30b0c7)
    } else if kind == "Target"@ {
        BlockColor::Rgb(0xaf52de)
    } else if kind == "Task"@ {
        BlockColor::Rgb(0x0a84ff)
    } else {
        BlockColor::Rgb(0x8e8e93)
    }
}

pub fn block_color(kind: &str, has_error: bool) -> (r: BlockColor)
    ensures
        r == block_color_of(kind@, has_error),
{
    if has_error {
        BlockColor::ThemeError
    } else if text_eq(kind, "Project") {
        BlockColor::Rgb(0x34c759)
    } else if text_eq(kind, "ProjectEvaluation") {
        BlockColor::Rgb(0x30b0c7)
    } else if text_eq(kind, "Target") {
        BlockColor::Rgb(0xaf52de)
    } else if text_eq(kind, "Task") {
        BlockColor::Rgb(0x0a84ff)
    } else {
        BlockColor::Rgb(0x8e8e93)
    }
}

/// The default filter shows every kind of block.
pub proof fn lemma_default_filter_allows_all(kind: Seq<char>)
    ensures
        allowed(Filter { evaluations: true, projects: true, targets: true, tasks: true, other: true }, kind),
{
}

/// How many blocks of each category the timeline has.
#[derive(Clone, Copy, PartialEq, Eq, Debug, Structural)]
pub struct Counts {
    pub evaluations: usize,
    pub projects: usize,
    pub targets: usize,
    pub tasks: usize,
    pub other: usize,
}

/// The number of kinds in `kinds` of category `c`.
pub open spec fn count_of(kinds: Seq<Seq<char>>, c: Category) -> nat
    decreases kinds.len(),
{
    if kinds.len() == 0 {
        0
    } else {
        count_of(kinds.drop_last(), c) + if category_of(kinds.last()) == c {
            1nat
        } else {
            0nat
        }
    }
}

proof fn lemma_count_bounded(kinds: Seq<Seq<char>>, c: Category)
    ensures
        count_of(kinds, c) <= kinds.len(),
    decreases kinds.len(),
{
    if kinds.len() > 0 {
        lemma_count_bounded(kinds.drop_last(), c);
    }
}

/// Counts the blocks by category, given each block's kind.
pub fn count_blocks(kinds: &[String]) -> (r: Counts)
    ensures
        r.evaluations == count_of(crate::text::texts(kinds@), Category::Evaluation),
        r.projects == count_of(crate::text::texts(kinds@), Category::Project),
        r.targets == count_of(crate::text::texts(kinds@), Category::Target),
        r.tasks == count_of(crate::text::texts(kinds@), Category::Task),
        r.other == count_of(crate::text::texts(kinds@), Category::Other),
{
    let ghost ks = crate::text::texts(kinds@);
    let mut r = Counts { evaluations: 0, projects: 0, targets: 0, tasks: 0, other: 0 };
    let mut i: usize = 0;
    while i < kinds.len()
        invariant
            i <= kinds@.len(),
            ks == crate::text::texts(kinds@),
            r.evaluations == count_of(ks.take(i as int), Category::Evaluation),
            r.projects == count_of(ks.take(i as int), Category::Project),
            r.targets == count_of(ks.take(i as int), Category::Target),
            r.tasks == count_of(ks.take(i as int), Category::Task),
            r.other == count_of(ks.take(i as int), Category::Other),
        decreases kinds.len() - i,
    {
        assert(ks.take(i + 1).drop_last() =~= ks.take(i as int));
        assert(ks.take(i + 1).last() == kinds@[i as int]@);
        proof {
            lemma_count_bounded(ks.take(i as int), Category::Evaluation);
            lemma_count_bounded(ks.take(i as int), Category::Project);
            lemma_count_bounded(ks.take(i as int), Category::Target);
            lemma_count_bounded(ks.take(i as int), Category::Task);
            lemma_count_bounded(ks.take(i as int), Category::Other);
        }
        match category(kinds[i].as_str()) {
            Category::Evaluation => r.evaluations = r.evaluations + 1,
            Category::Project => r.projects = r.projects + 1,
            Category::Target => r.targets = r.targets + 1,
            Category::Task => r.tasks = r.tasks + 1,
            Category::Other => r.other = r.other + 1,
        }
        i += 1;
    }
    assert(ks.take(kinds@.len() as int) =~= ks);
    r
}

/// `label (n)`.
pub open spec fn with_count(label: Seq<char>, n: nat) -> Seq<char> {
    label + " ("@ + decimal(n) + ")"@
}

fn labelled(label: &str, n: usize) -> (r: String)
    ensures
        r@ == with_count(label@, n as nat),
{
    let mut s = label.to_string();
    s.append(" (");
    append_decimal(&mut s, n as u128);
    s.append(")");
    s
}

/// The filter toggles' labels, with their counts, in order; Other only
/// when there are such blocks.
pub fn filter_labels(counts: Counts) -> (r: Vec<(Category, String)>)
    ensures
        r@.len() == (if counts.other > 0 { 5nat } else { 4nat }),
        r@[0].0 == Category::Evaluation && r@[0].1@ == with_count("Evaluations"@, counts.evaluations as nat),
        r@[1].0 == Category::Project && r@[1].1@ == with_count("Projects"@, counts.projects as nat),
        r@[2].0 == Category::Target && r@[2].1@ == with_count("Targets"@, counts.targets as nat),
        r@[3].0 == Category::Task && r@[3].1@ == with_count("Tasks"@, counts.tasks as nat),
        counts.other > 0 ==> r@[4].0 == Category::Other && r@[4].1@ == with_count("Other"@, counts.other as nat),
{
    let mut r: Vec<(Category, String)> = Vec::new();
    r.push((Category::Evaluation, labelled("Evaluations", counts.evaluations)));
    r.push((Category::Project, labelled("Projects", counts.projects)));
    r.push((Category::Target, labelled("Targets", counts.targets)));
    r.push((Category::Task, labelled("Tasks", counts.tasks)));
    if counts.other > 0 {
        r.push((Category::Other, labelled("Other", counts.other)));
    }
    r
}

} // verus!
