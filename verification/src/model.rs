//! The bridge's payloads that the library reasons about: what the engine
//! recorded about one MSBuild file (its imports, the imports a condition
//! skipped, its targets), symbols resolved for Cmd-click, and the embedded
//! source files. Decoding them from JSON is the application's business.

use vstd::prelude::*;
use vstd::string::StringExecFns;

verus! {

/// An owned copy of optional text.
pub fn copy_text(o: &Option<String>) -> (r: Option<String>)
    ensures
        r == *o,
{
    match o {
        Some(s) => Some(s.clone()),
        None => None,
    }
}

/// What an absent `available` flag decodes to.
pub fn default_true() -> (r: bool)
    ensures
        r,
{
    true
}

/// A build node as the tree, its rows and its menus read it. The node's
/// duration is a float and stays with the application; functions that show
/// it take what they need of it as an argument.
#[derive(Debug, PartialEq)]
pub struct NodeSummary {
    pub id: String,
    pub kind: String,
    pub title: String,
    pub name: Option<String>,
    pub value: Option<String>,
    pub has_children: bool,
    pub child_count: usize,
    pub is_low_relevance: bool,
    pub state: String,
    pub has_source: bool,
    pub can_preprocess: bool,
    pub child_index: Option<usize>,
    /// The node's named facts, each key once.
    pub props: Vec<(String, String)>,
}

/// An owned copy of a list of named facts.
pub fn copy_props(props: &Vec<(String, String)>) -> (r: Vec<(String, String)>)
    ensures
        r@ == props@,
{
    let mut out: Vec<(String, String)> = Vec::new();
    let mut i: usize = 0;
    while i < props.len()
        invariant
            i <= props@.len(),
            out@ == props@.take(i as int),
        decreases props.len() - i,
    {
        let (k, v) = &props[i];
        out.push((k.clone(), v.clone()));
        assert(out@ =~= props@.take(i + 1));
        i += 1;
    }
    assert(props@.take(props@.len() as int) =~= props@);
    out
}

impl Clone for NodeSummary {
    fn clone(&self) -> (r: Self)
        ensures
            r.id == self.id && r.kind == self.kind && r.title == self.title && r.name == self.name && r.value
                == self.value,
            r.has_children == self.has_children && r.child_count == self.child_count && r.is_low_relevance
                == self.is_low_relevance,
            r.state == self.state && r.has_source == self.has_source && r.can_preprocess == self.can_preprocess
                && r.child_index == self.child_index,
            r.props@ == self.props@,
    {
        NodeSummary {
            id: self.id.clone(),
            kind: self.kind.clone(),
            title: self.title.clone(),
            name: copy_text(&self.name),
            value: copy_text(&self.value),
            has_children: self.has_children,
            child_count: self.child_count,
            is_low_relevance: self.is_low_relevance,
            state: self.state.clone(),
            has_source: self.has_source,
            can_preprocess: self.can_preprocess,
            child_index: self.child_index,
            props: copy_props(&self.props),
        }
    }
}

/// The value of the first fact named `key` among `props`, when it is not
/// empty.
pub open spec fn prop_in(props: Seq<(String, String)>, key: Seq<char>) -> Option<Seq<char>>
    decreases props.len(),
{
    if props.len() == 0 {
        None
    } else if props[0].0@ == key {
        if props[0].1@.len() > 0 {
            Some(props[0].1@)
        } else {
            None
        }
    } else {
        prop_in(props.drop_first(), key)
    }
}

proof fn lemma_prop_absent(props: Seq<(String, String)>, key: Seq<char>)
    ensures
        (forall|i: int| 0 <= i < props.len() ==> (#[trigger] props[i]).0@ != key) ==> prop_in(props, key) is None,
    decreases props.len(),
{
    if props.len() > 0 {
        let rest = props.drop_first();
        lemma_prop_absent(rest, key);
        if forall|i: int| 0 <= i < props.len() ==> (#[trigger] props[i]).0@ != key {
            assert(props[0].0@ != key);
            assert forall|i: int| 0 <= i < rest.len() implies (#[trigger] rest[i]).0@ != key by {
                assert(rest[i] == props[i + 1]);
            }
        }
    }
}

/// Each fact is named once, as the keys of a map are.
pub open spec fn distinct_keys(props: Seq<(String, String)>) -> bool {
    forall|i: int, j: int| 0 <= i < j < props.len() ==> (#[trigger] props[i]).0@ != (#[trigger] props[j]).0@
}

/// With each fact named once, the fact named `key` is the one entry with
/// that name: its value when it is not empty, else none.
pub proof fn lemma_prop_is_the_entry(props: Seq<(String, String)>, i: int, key: Seq<char>)
    requires
        distinct_keys(props),
        0 <= i < props.len(),
        props[i].0@ == key,
    ensures
        prop_in(props, key) == (if props[i].1@.len() > 0 {
            Some(props[i].1@)
        } else {
            None::<Seq<char>>
        }),
    decreases props.len(),
{
    if i > 0 {
        let rest = props.drop_first();
        assert(props[0].0@ != props[i].0@);
        assert(distinct_keys(rest)) by {
            assert forall|a: int, b: int| 0 <= a < b < rest.len() implies (#[trigger] rest[a]).0@ != (
            #[trigger] rest[b]).0@ by {
                assert(rest[a] == props[a + 1] && rest[b] == props[b + 1]);
            }
        }
        assert(rest[i - 1] == props[i]);
        lemma_prop_is_the_entry(rest, i - 1, key);
    }
}

impl NodeSummary {
    /// The node's fact `key`, when it has a non-empty one. With each fact
    /// named once, that is the value of the one entry named `key`.
    pub fn prop(&self, key: &str) -> (r: Option<&str>)
        ensures
            r matches Some(v) ==> prop_in(self.props@, key@) == Some(v@),
            r is None ==> prop_in(self.props@, key@) is None,
            distinct_keys(self.props@) ==> forall|i: int|
                0 <= i < self.props@.len() && (#[trigger] self.props@[i]).0@ == key@ ==> (if self.props@[i].1@.len()
                    > 0 {
                    r matches Some(v) && v@ == self.props@[i].1@
                } else {
                    r is None
                }),
            (forall|i: int| 0 <= i < self.props@.len() ==> (#[trigger] self.props@[i]).0@ != key@) ==> r is None,
    {
        proof {
            if distinct_keys(self.props@) {
                assert forall|i: int|
                    0 <= i < self.props@.len() && (#[trigger] self.props@[i]).0@ == key@ implies prop_in(
                    self.props@,
                    key@,
                ) == (if self.props@[i].1@.len() > 0 {
                    Some(self.props@[i].1@)
                } else {
                    None::<Seq<char>>
                }) by {
                    lemma_prop_is_the_entry(self.props@, i, key@);
                }
            }
            lemma_prop_absent(self.props@, key@);
        }
        let mut i: usize = 0;
        assert(self.props@.skip(0) =~= self.props@);
        while i < self.props.len()
            invariant
                i <= self.props@.len(),
                prop_in(self.props@, key@) == prop_in(self.props@.skip(i as int), key@),
            decreases self.props.len() - i,
        {
            assert(self.props@.skip(i as int).drop_first() =~= self.props@.skip(i + 1));
            let (k, v) = &self.props[i];
            if crate::text::text_eq(k.as_str(), key) {
                if v.as_str().is_empty() {
                    return None;
                }
                return Some(v.as_str());
            }
            i += 1;
        }
        None
    }
}

#[derive(Debug, PartialEq)]
pub struct SemanticContext {
    pub evaluation_id: String,
    pub project_file: Option<String>,
    pub label: String,
    pub is_project_file: bool,
}

impl Clone for SemanticContext {
    fn clone(&self) -> (r: Self)
        ensures
            r == *self,
    {
        SemanticContext {
            evaluation_id: self.evaluation_id.clone(),
            project_file: copy_text(&self.project_file),
            label: self.label.clone(),
            is_project_file: self.is_project_file,
        }
    }
}

/// An import the build recorded: the 1-based line and column of the
/// `<Import>` (0 for the implicit imports of an `Sdk` attribute) and the
/// file it brought in.
#[derive(Debug, PartialEq)]
pub struct SemanticImport {
    pub line: usize,
    pub column: usize,
    pub imported_path: String,
    pub available: bool,
}

impl Clone for SemanticImport {
    fn clone(&self) -> (r: Self)
        ensures
            r == *self,
    {
        SemanticImport {
            line: self.line,
            column: self.column,
            imported_path: self.imported_path.clone(),
            available: self.available,
        }
    }
}

/// An import the build skipped, and why.
#[derive(Debug, PartialEq)]
pub struct SemanticSkippedImport {
    pub line: usize,
    pub column: usize,
    pub file_spec: Option<String>,
    pub reason: Option<String>,
    pub condition: Option<String>,
    pub evaluated_condition: Option<String>,
}

impl Clone for SemanticSkippedImport {
    fn clone(&self) -> (r: Self)
        ensures
            r == *self,
    {
        SemanticSkippedImport {
            line: self.line,
            column: self.column,
            file_spec: copy_text(&self.file_spec),
            reason: copy_text(&self.reason),
            condition: copy_text(&self.condition),
            evaluated_condition: copy_text(&self.evaluated_condition),
        }
    }
}

/// The reason given, or "Not imported." when there is none.
pub open spec fn reason_or_default(s: SemanticSkippedImport) -> Seq<char> {
    match s.reason {
        Some(r) => r@,
        None => "Not imported."@,
    }
}

/// The full explanation of a skipped import.
pub open spec fn explanation_of(s: SemanticSkippedImport) -> Seq<char> {
    match (s.condition, s.evaluated_condition) {
        (Some(c), Some(e)) => "Condition "@ + c@ + " evaluated as "@ + e@ + " → false"@,
        _ => reason_or_default(s),
    }
}

/// The terse end-of-element note of a skipped import.
pub open spec fn annotation_of(s: SemanticSkippedImport) -> Seq<char> {
    match s.evaluated_condition {
        Some(e) => e@ + " → false"@,
        None => reason_or_default(s),
    }
}

impl SemanticSkippedImport {
    pub fn has_condition(&self) -> (r: bool)
        ensures
            r == (self.condition is Some && self.evaluated_condition is Some),
    {
        self.condition.is_some() && self.evaluated_condition.is_some()
    }

    fn reason_text(&self) -> (r: String)
        ensures
            r@ == reason_or_default(*self),
    {
        match &self.reason {
            Some(r) => r.clone(),
            None => String::from_str("Not imported."),
        }
    }

    /// Full explanation for quick info and errors.
    pub fn explanation(&self) -> (r: String)
        ensures
            r@ == explanation_of(*self),
    {
        match (&self.condition, &self.evaluated_condition) {
            (Some(c), Some(e)) => {
                let mut s = String::from_str("Condition ");
                s.append(c.as_str());
                s.append(" evaluated as ");
                s.append(e.as_str());
                s.append(" → false");
                s
            },
            _ => self.reason_text(),
        }
    }

    /// Terse end-of-element note: the condition is already on screen, only
    /// what it expanded to is news.
    pub fn annotation(&self) -> (r: String)
        ensures
            r@ == annotation_of(*self),
    {
        match &self.evaluated_condition {
            Some(e) => {
                let mut s = e.clone();
                s.append(" → false");
                s
            },
            None => self.reason_text(),
        }
    }
}

#[derive(Debug, PartialEq)]
pub struct SemanticTargetDefinition {
    pub name: String,
    pub line: usize,
}

impl Clone for SemanticTargetDefinition {
    fn clone(&self) -> (r: Self)
        ensures
            r == *self,
    {
        SemanticTargetDefinition { name: self.name.clone(), line: self.line }
    }
}

/// What the build recorded about one MSBuild file in one evaluation.
#[derive(Debug, PartialEq)]
pub struct SemanticFile {
    pub path: Option<String>,
    pub evaluation_id: Option<String>,
    pub contexts: Vec<SemanticContext>,
    pub contexts_total: usize,
    pub imports: Vec<SemanticImport>,
    pub skipped_imports: Vec<SemanticSkippedImport>,
    pub targets: Vec<SemanticTargetDefinition>,
}

impl Default for SemanticFile {
    fn default() -> (r: Self)
        ensures
            r.path is None,
            r.evaluation_id is None,
            r.contexts@.len() == 0,
            r.contexts_total == 0,
            r.imports@.len() == 0,
            r.skipped_imports@.len() == 0,
            r.targets@.len() == 0,
    {
        SemanticFile {
            path: None,
            evaluation_id: None,
            contexts: Vec::new(),
            contexts_total: 0,
            imports: Vec::new(),
            skipped_imports: Vec::new(),
            targets: Vec::new(),
        }
    }
}

/// A place a Cmd-click can go: a file and line, a node of the build tree,
/// or both.
#[derive(Debug, PartialEq)]
pub struct SemanticLocation {
    pub path: Option<String>,
    pub line: Option<usize>,
    pub label: Option<String>,
    pub detail: Option<String>,
    pub node_id: Option<String>,
    pub available: bool,
}

impl Clone for SemanticLocation {
    fn clone(&self) -> (r: Self)
        ensures
            r == *self,
    {
        SemanticLocation {
            path: copy_text(&self.path),
            line: self.line,
            label: copy_text(&self.label),
            detail: copy_text(&self.detail),
            node_id: copy_text(&self.node_id),
            available: self.available,
        }
    }
}

pub open spec fn is_reachable_location(l: SemanticLocation) -> bool {
    l.available || l.node_id is Some
}

/// `c` is worth a secondary line under `label`: non-empty and different.
pub open spec fn says_more(c: Option<String>, label: Option<String>) -> bool {
    match c {
        Some(t) => t@.len() > 0 && match label {
            Some(l) => l@ != t@,
            None => true,
        },
        None => false,
    }
}

impl SemanticLocation {
    pub fn is_reachable(&self) -> (r: bool)
        ensures
            r == is_reachable_location(*self),
    {
        self.available || self.node_id.is_some()
    }

    pub fn title(&self) -> (r: String)
        ensures
            r@ == match (self.label, self.path) {
                (Some(l), _) => l@,
                (None, Some(p)) => p@,
                (None, None) => Seq::<char>::empty(),
            },
    {
        match &self.label {
            Some(l) => l.clone(),
            None => match &self.path {
                Some(p) => p.clone(),
                None => String::new(),
            },
        }
    }

    /// The secondary line, when it says something the label doesn't.
    pub fn secondary(&self) -> (r: Option<String>)
        ensures
            r == if says_more(self.path, self.label) {
                self.path
            } else if says_more(self.detail, self.label) {
                self.detail
            } else {
                None
            },
    {
        if self.says_more(&self.path) {
            copy_text(&self.path)
        } else if self.says_more(&self.detail) {
            copy_text(&self.detail)
        } else {
            None
        }
    }

    fn says_more(&self, c: &Option<String>) -> (r: bool)
        ensures
            r == says_more(*c, self.label),
    {
        match c {
            None => false,
            Some(t) => {
                if t.as_str().is_empty() {
                    return false;
                }
                match &self.label {
                    Some(l) => !l.eq(t),
                    None => true,
                }
            },
        }
    }
}

#[derive(Debug, PartialEq, Clone)]
pub struct SemanticFact {
    pub label: Option<String>,
    pub value: Option<String>,
}

/// A property, item or target resolved in one evaluation.
#[derive(Debug, PartialEq)]
pub struct SemanticSymbol {
    pub kind: String,
    pub name: String,
    pub found: bool,
    pub value: Option<String>,
    pub note: Option<String>,
    pub definitions: Vec<SemanticLocation>,
    pub executions: Vec<SemanticLocation>,
    pub facts: Vec<SemanticFact>,
}

// ----- embedded source files (Files / Find in Files) -----

#[derive(Debug, Clone, PartialEq)]
pub struct FileEntry {
    pub path: String,
    pub lines: usize,
    pub length: usize,
}

#[derive(Debug, Clone, PartialEq)]
pub struct FileList {
    pub total: usize,
    pub files: Vec<FileEntry>,
}

#[derive(Debug, Clone, Copy, PartialEq, Eq)]
pub struct MatchSpan {
    pub start: usize,
    pub length: usize,
}

#[derive(Debug, Clone, PartialEq)]
pub struct FileMatch {
    /// 1-based.
    pub line: usize,
    pub text: String,
    pub spans: Vec<MatchSpan>,
}

#[derive(Debug, Clone, PartialEq)]
pub struct FileMatches {
    pub path: String,
    pub matches: Vec<FileMatch>,
}

#[derive(Debug, Clone, PartialEq)]
pub struct FileSearchResponse {
    pub query: String,
    pub total_matches: usize,
    pub overflow: bool,
    pub files: Vec<FileMatches>,
}

// ----- other payloads -----

/// One piece of a search result's text, highlighted or not.
#[derive(Debug, Clone, PartialEq)]
pub struct Highlight {
    pub text: String,
    pub is_highlight: bool,
    pub style: Option<String>,
}

#[derive(Debug, Clone, PartialEq)]
pub struct SourceLocation {
    pub file_path: String,
    pub line: Option<u32>,
    pub text: Option<String>,
}

#[derive(Debug, Clone, PartialEq)]
pub struct BridgeError {
    pub code: String,
    pub message: String,
}

// ----- sizes -----

/// The text of one decimal digit.
pub open spec fn digit_text(d: nat) -> Seq<char> {
    if d == 0 {
        "0"@
    } else if d == 1 {
        "1"@
    } else if d == 2 {
        "2"@
    } else if d == 3 {
        "3"@
    } else if d == 4 {
        "4"@
    } else if d == 5 {
        "5"@
    } else if d == 6 {
        "6"@
    } else if d == 7 {
        "7"@
    } else if d == 8 {
        "8"@
    } else {
        "9"@
    }
}

/// `n` in decimal.
pub open spec fn decimal(n: nat) -> Seq<char>
    decreases n,
{
    if n < 10 {
        digit_text(n)
    } else {
        decimal(n / 10) + digit_text(n % 10)
    }
}

fn digit_str(d: u128) -> (r: &'static str)
    requires
        d < 10,
    ensures
        r@ == digit_text(d as nat),
{
    match d {
        0 => "0",
        1 => "1",
        2 => "2",
        3 => "3",
        4 => "4",
        5 => "5",
        6 => "6",
        7 => "7",
        8 => "8",
        _ => "9",
    }
}

pub(crate) fn append_decimal(s: &mut String, n: u128)
    ensures
        final(s)@ == old(s)@ + decimal(n as nat),
    decreases n,
{
    if n >= 10 {
        append_decimal(s, n / 10);
    }
    s.append(digit_str(n % 10));
    assert(old(s)@ + decimal(n as nat) =~= if n >= 10 {
        old(s)@ + decimal((n / 10) as nat) + digit_text((n % 10) as nat)
    } else {
        old(s)@ + digit_text((n % 10) as nat)
    });
}

pub open spec fn two_pow(k: nat) -> nat
    decreases k,
{
    if k == 0 {
        1
    } else {
        2 * two_pow((k - 1) as nat)
    }
}

/// The power of two a `u64` at or above 2^53 loses when it becomes an
/// `f64`: the smallest `2^k`, `k <= 11`, below which `b >> k` fits in 53 bits.
pub open spec fn f64_step(b: nat, k: nat) -> nat
    decreases 11 - k,
{
    if k >= 11 || b < two_pow(53 + k) {
        two_pow(k)
    } else {
        f64_step(b, k + 1)
    }
}

/// `num / den` rounded to the nearest integer, ties to even.
pub open spec fn round_half_even(num: nat, den: nat) -> nat {
    let q = num / den;
    let r = num % den;
    if 2 * r > den || (2 * r == den && q % 2 == 1) {
        q + 1
    } else {
        q
    }
}

/// The `f64` nearest to `b` (ties to even), as an integer.
pub open spec fn as_f64(b: nat) -> nat {
    let p = f64_step(b, 0);
    round_half_even(b, p) * p
}

/// `value / 2^shift` to one decimal place, ties to even, with its unit.
pub open spec fn tenths_text(value: nat, shift: nat, unit: Seq<char>) -> Seq<char> {
    let t = round_half_even(value * 10, two_pow(shift));
    decimal(t / 10) + "."@ + digit_text(t % 10) + unit
}

/// A byte count the way the viewer shows it: to one decimal place in the
/// largest of GB, MB and KB it reaches, else in bytes.
pub open spec fn bytes_text(bytes: nat) -> Seq<char> {
    if bytes >= two_pow(30) {
        tenths_text(as_f64(bytes), 30, " GB"@)
    } else if bytes >= two_pow(20) {
        tenths_text(bytes, 20, " MB"@)
    } else if bytes >= two_pow(10) {
        tenths_text(bytes, 10, " KB"@)
    } else {
        decimal(bytes) + " B"@
    }
}

proof fn lemma_two_pow_positive(k: nat)
    ensures
        two_pow(k) >= 1,
    decreases k,
{
    if k > 0 {
        lemma_two_pow_positive((k - 1) as nat);
    }
}

fn round_half_even_exec(num: u128, den: u128) -> (r: u128)
    requires
        den > 0,
        num / den < u128::MAX,
    ensures
        r == round_half_even(num as nat, den as nat),
{
    let q = num / den;
    let r = num % den;
    if r > den - r || (r == den - r && q % 2 == 1) {
        q + 1
    } else {
        q
    }
}

fn tenths(value: u128, den: u128, unit: &str) -> (s: String)
    requires
        den > 0,
        value <= 0x1_0000_0000_0000_0000,
    ensures
        s@ == decimal(round_half_even(value as nat * 10, den as nat) / 10) + "."@ + digit_text(
            round_half_even(value as nat * 10, den as nat) % 10,
        ) + unit@,
{
    assert(value * 10 <= 0xa_0000_0000_0000_0000) by (nonlinear_arith)
        requires
            value <= 0x1_0000_0000_0000_0000,
    ;
    let t = round_half_even_exec(value * 10, den);
    let mut s = String::new();
    append_decimal(&mut s, t / 10);
    s.append(".");
    s.append(digit_str(t % 10));
    s.append(unit);
    s
}

/// A byte count to one decimal place in GB, MB or KB, or in bytes.
pub fn format_bytes(bytes: u64) -> (s: String)
    ensures
        s@ == bytes_text(bytes as nat),
{
    let b = bytes as u128;
    proof {
        reveal_with_fuel(two_pow, 31);
        assert(two_pow(10) == 0x400);
        assert(two_pow(20) == 0x10_0000);
        assert(two_pow(30) == 0x4000_0000);
    }
    if b >= 0x4000_0000 {
        // The nearest f64: drop the low bits past 53 significant ones,
        // rounding half to even.
        let mut k: u128 = 0;
        let mut p: u128 = 1;
        let mut limit: u128 = 0x20_0000_0000_0000;
        proof {
            reveal_with_fuel(two_pow, 54);
            assert(two_pow(53) == 0x20_0000_0000_0000);
            assert(two_pow(11) == 0x800);
        }
        while k < 11 && b >= limit
            invariant
                k <= 11,
                p == two_pow(k as nat),
                limit == two_pow(53 + k as nat),
                p <= 0x800,
                limit <= 0x1_0000_0000_0000_0000,
                limit == p * 0x20_0000_0000_0000,
                p * two_pow((11 - k) as nat) == 0x800,
                b < 0x1_0000_0000_0000_0000,
                f64_step(b as nat, k as nat) == f64_step(b as nat, 0),
            decreases 11 - k,
        {
            let ghost p_old = p;
            proof {
                let t = two_pow((11 - k) as nat);
                lemma_two_pow_positive((10 - k) as nat);
                assert(t == 2 * two_pow((10 - k) as nat));
                assert(p <= 0x400) by (nonlinear_arith)
                    requires
                        p * t == 0x800,
                        t >= 2,
                ;
            }
            k += 1;
            p = p * 2;
            limit = limit * 2;
            assert(p == two_pow(k as nat));
            assert(two_pow((11 - (k - 1)) as nat) == 2 * two_pow((11 - k) as nat));
            assert(p * two_pow((11 - k) as nat) == 0x800) by (nonlinear_arith)
                requires
                    p == 2 * p_old,
                    p_old * (2 * two_pow((11 - k) as nat)) == 0x800,
            ;
            assert(limit == two_pow(53 + k as nat)) by {
                assert(two_pow(53 + k as nat) == 2 * two_pow((53 + k - 1) as nat));
            }
        }
        assert(f64_step(b as nat, k as nat) == p);
        assert(b < p * 0x20_0000_0000_0000);
        assert(b / p <= 0x1f_ffff_ffff_ffff) by (nonlinear_arith)
            requires
                b < p * 0x20_0000_0000_0000,
                p >= 1,
        ;
        let q = round_half_even_exec(b, p);
        assert(q * p <= 0x1_0000_0000_0000_0000) by (nonlinear_arith)
            requires
                q <= 0x20_0000_0000_0000,
                p <= 0x800,
        ;
        let value = q * p;
        tenths(value, 0x4000_0000, " GB")
    } else if b >= 0x10_0000 {
        let s = tenths(b, 0x10_0000, " MB");
        s
    } else if b >= 0x400 {
        let s = tenths(b, 0x400, " KB");
        s
    } else {
        let mut s = String::new();
        append_decimal(&mut s, b);
        s.append(" B");
        s
    }
}

} // verus!
