//! The sidebar's panes: their names on the command line and in the tab
//! strip, and which of them a log without a source archive can show; and
//! the ids of the dividers between panels.

use vstd::prelude::*;
use crate::text::{chars_of, text_eq, texts};
use crate::model::{append_decimal, bytes_text, copy_text, decimal, format_bytes, prop_in, NodeSummary};
use vstd::string::StringExecFns;
use crate::msbuild::lex::text_fits;
use crate::msbuild::semantic::{file_name, file_name_start};
use vstd::utf8::encode_utf8;
use vstd::string::StringSliceAdditionalSpecFns;

verus! {

/// The sidebar panes, in tab-strip order.
#[derive(Clone, Copy, PartialEq, Eq, Debug, Structural)]
pub enum SidebarTab {
    SearchLog,
    PropertiesAndItems,
    Files,
    FindInFiles,
    Favorites,
}

/// The pane a `--pane` argument names.
pub open spec fn tab_named(name: Seq<char>) -> Option<SidebarTab> {
    if name == "search"@ || name == "log"@ {
        Some(SidebarTab::SearchLog)
    } else if name == "properties"@ || name == "props"@ {
        Some(SidebarTab::PropertiesAndItems)
    } else if name == "files"@ {
        Some(SidebarTab::Files)
    } else if name == "find"@ || name == "findinfiles"@ {
        Some(SidebarTab::FindInFiles)
    } else if name == "favorites"@ {
        Some(SidebarTab::Favorites)
    } else {
        None
    }
}

/// Files and Find in Files need the log to carry a source archive.
pub open spec fn tab_needs_archive(tab: SidebarTab) -> bool {
    tab == SidebarTab::Files || tab == SidebarTab::FindInFiles
}

/// Every pane, in strip order.
pub open spec fn tab_order() -> Seq<SidebarTab> {
    seq![
        SidebarTab::SearchLog,
        SidebarTab::PropertiesAndItems,
        SidebarTab::Files,
        SidebarTab::FindInFiles,
        SidebarTab::Favorites,
    ]
}

/// The first `n` panes in strip order, those needing an archive left out
/// when there is none.
pub open spec fn tabs_kept(archive: bool, n: nat) -> Seq<SidebarTab>
    decreases n,
{
    if n == 0 || n > 5 {
        seq![]
    } else {
        let t = tab_order()[n - 1];
        tabs_kept(archive, (n - 1) as nat) + (if archive || !tab_needs_archive(t) {
            seq![t]
        } else {
            seq![]
        })
    }
}

/// The panes shown, in strip order.
pub open spec fn tabs_shown(archive: bool) -> Seq<SidebarTab> {
    tabs_kept(archive, 5)
}

impl SidebarTab {
    pub fn parse(name: &str) -> (r: Option<SidebarTab>)
        ensures
            r == tab_named(name@),
    {
        if text_eq(name, "search") || text_eq(name, "log") {
            Some(SidebarTab::SearchLog)
        } else if text_eq(name, "properties") || text_eq(name, "props") {
            Some(SidebarTab::PropertiesAndItems)
        } else if text_eq(name, "files") {
            Some(SidebarTab::Files)
        } else if text_eq(name, "find") || text_eq(name, "findinfiles") {
            Some(SidebarTab::FindInFiles)
        } else if text_eq(name, "favorites") {
            Some(SidebarTab::Favorites)
        } else {
            None
        }
    }

    /// The strip is narrow; the full names live in the View menu.
    pub fn label(self) -> (r: &'static str)
        ensures
            r@ == (match self {
                SidebarTab::SearchLog => "Search"@,
                SidebarTab::PropertiesAndItems => "Properties"@,
                SidebarTab::Files => "Files"@,
                SidebarTab::FindInFiles => "Find"@,
                SidebarTab::Favorites => "Favorites"@,
            }),
    {
        match self {
            SidebarTab::SearchLog => "Search",
            SidebarTab::PropertiesAndItems => "Properties",
            SidebarTab::Files => "Files",
            SidebarTab::FindInFiles => "Find",
            SidebarTab::Favorites => "Favorites",
        }
    }

    pub fn element_id(self) -> (r: &'static str)
        ensures
            r@ == (match self {
                SidebarTab::SearchLog => "tab-search"@,
                SidebarTab::PropertiesAndItems => "tab-properties"@,
                SidebarTab::Files => "tab-files"@,
                SidebarTab::FindInFiles => "tab-find-in-files"@,
                SidebarTab::Favorites => "tab-favorites"@,
            }),
    {
        match self {
            SidebarTab::SearchLog => "tab-search",
            SidebarTab::PropertiesAndItems => "tab-properties",
            SidebarTab::Files => "tab-files",
            SidebarTab::FindInFiles => "tab-find-in-files",
            SidebarTab::Favorites => "tab-favorites",
        }
    }

    /// Files and Find in Files need the log to carry a source archive.
    pub fn needs_archive(self) -> (r: bool)
        ensures
            r == tab_needs_archive(self),
    {
        match self {
            SidebarTab::Files | SidebarTab::FindInFiles => true,
            _ => false,
        }
    }
}

/// The sidebar panes a log shows, in strip order.
pub fn visible_tabs(archive: bool) -> (r: Vec<SidebarTab>)
    ensures
        r@ == tabs_shown(archive),
{
    let all: [SidebarTab; 5] = [
        SidebarTab::SearchLog,
        SidebarTab::PropertiesAndItems,
        SidebarTab::Files,
        SidebarTab::FindInFiles,
        SidebarTab::Favorites,
    ];
    assert(all@ =~= tab_order());
    let mut out: Vec<SidebarTab> = Vec::new();
    let mut i: usize = 0;
    while i < 5
        invariant
            all@ == tab_order(),
            i <= 5,
            out@ == tabs_kept(archive, i as nat),
        decreases 5 - i,
    {
        let tab = all[i];
        if archive || !tab.needs_archive() {
            out.push(tab);
        }
        assert(out@ =~= tabs_kept(archive, (i + 1) as nat));
        i += 1;
    }
    out
}

/// With an archive every pane shows; without one, all but Files and Find
/// in Files, in the same order.
pub proof fn lemma_tabs_shown(archive: bool)
    ensures
        archive ==> tabs_shown(archive) == tab_order(),
        !archive ==> tabs_shown(archive) == seq![
            SidebarTab::SearchLog,
            SidebarTab::PropertiesAndItems,
            SidebarTab::Favorites,
        ],
{
    reveal_with_fuel(tabs_kept, 6);
    assert(tabs_shown(archive) =~= (if archive {
        tab_order()
    } else {
        seq![SidebarTab::SearchLog, SidebarTab::PropertiesAndItems, SidebarTab::Favorites]
    }));
}

/// A divider, and by extension the panel it sizes.
#[derive(Clone, Copy, PartialEq, Eq, Debug, Structural)]
pub enum Divider {
    Sidebar,
    Inspector,
}

impl Divider {
    pub fn element_id(self) -> (r: &'static str)
        ensures
            r@ == (match self {
                Divider::Sidebar => "divider-sidebar"@,
                Divider::Inspector => "divider-inspector"@,
            }),
    {
        match self {
            Divider::Sidebar => "divider-sidebar",
            Divider::Inspector => "divider-inspector",
        }
    }

    pub fn toggle_id(self) -> (r: &'static str)
        ensures
            r@ == (match self {
                Divider::Sidebar => "toggle-sidebar"@,
                Divider::Inspector => "toggle-inspector"@,
            }),
    {
        match self {
            Divider::Sidebar => "toggle-sidebar",
            Divider::Inspector => "toggle-inspector",
        }
    }
}

/// Launch arguments, as the command line gives them.
#[derive(Debug, PartialEq)]
pub struct Launch {
    pub search: Option<String>,
    pub reveal: Option<String>,
    pub source: Option<String>,
    pub line: Option<usize>,
    pub timeline: bool,
    /// Sidebar pane to open: search | properties | files | find | favorites.
    pub pane: Option<String>,
    /// Query for the Properties and items pane (needs --reveal for scope).
    pub props: Option<String>,
    /// Term for the Find in Files pane.
    pub find: Option<String>,
}

impl Launch {
    /// No option given.
    pub open spec fn default_spec() -> Launch {
        Launch {
            search: None,
            reveal: None,
            source: None,
            line: None,
            timeline: false,
            pane: None,
            props: None,
            find: None,
        }
    }
}

impl Default for Launch {
    fn default() -> (r: Self)
        ensures
            r == Launch::default_spec(),
    {
        Launch {
            search: None,
            reveal: None,
            source: None,
            line: None,
            timeline: false,
            pane: None,
            props: None,
            find: None,
        }
    }
}

/// The value of a run of decimal digits.
pub open spec fn digits_value(s: Seq<char>) -> nat
    decreases s.len(),
{
    if s.len() == 0 {
        0
    } else {
        digits_value(s.drop_last()) * 10 + ((s.last() as u32) - 48) as nat
    }
}

pub open spec fn all_decimal(s: Seq<char>) -> bool {
    forall|i: int| 0 <= i < s.len() ==> '0' <= #[trigger] s[i] <= '9'
}

/// What `str::parse::<usize>` makes of `s`: an optional `+`, then at least
/// one digit, the value fitting in a `usize`.
pub open spec fn parsed_usize(s: Seq<char>) -> Option<usize> {
    let d = if s.len() > 0 && s[0] == '+' {
        s.drop_first()
    } else {
        s
    };
    if d.len() > 0 && all_decimal(d) && digits_value(d) <= usize::MAX {
        Some(digits_value(d) as usize)
    } else {
        None
    }
}

/// `s` as a decimal `usize`, if it is one.
pub fn parse_usize(s: &str) -> (r: Option<usize>)
    ensures
        r == parsed_usize(s@),
{
    let cs = chars_of(s);
    let start: usize = if cs.len() > 0 && cs[0] == '+' {
        1
    } else {
        0
    };
    let ghost d = if s@.len() > 0 && s@[0] == '+' {
        s@.drop_first()
    } else {
        s@
    };
    assert(d =~= s@.skip(start as int));
    if start >= cs.len() {
        return None;
    }
    let mut value: usize = 0;
    let mut i: usize = start;
    while i < cs.len()
        invariant
            cs@ == s@,
            start <= i <= cs@.len(),
            d == s@.skip(start as int),
            d == (if s@.len() > 0 && s@[0] == '+' {
                s@.drop_first()
            } else {
                s@
            }),
            all_decimal(s@.subrange(start as int, i as int)),
            value == digits_value(s@.subrange(start as int, i as int)),
        decreases cs.len() - i,
    {
        let c = cs[i];
        assert(s@.subrange(start as int, i + 1).drop_last() =~= s@.subrange(start as int, i as int));
        if !('0' <= c && c <= '9') {
            assert(d[i - start] == c);
            assert(!all_decimal(d));
            return None;
        }
        let digit = (c as u32 - 48) as usize;
        if value > (usize::MAX - digit) / 10 {
            proof {
                assert(s@.subrange(start as int, i + 1) =~= d.take(i - start + 1));
                assert(digits_value(s@.subrange(start as int, i + 1)) > usize::MAX) by (nonlinear_arith)
                    requires
                        value > (usize::MAX - digit) / 10,
                        digits_value(s@.subrange(start as int, i + 1)) == value * 10 + digit,
                        digit <= 9,
                ;
                if all_decimal(d) {
                    lemma_digits_grow(d, (i - start + 1) as int);
                }
            }
            return None;
        }
        value = value * 10 + digit;
        i += 1;
    }
    assert(s@.subrange(start as int, cs@.len() as int) =~= d);
    Some(value)
}

/// A longer run of digits is worth at least as much as its prefix.
proof fn lemma_digits_grow(d: Seq<char>, k: int)
    requires
        0 <= k <= d.len(),
        all_decimal(d),
    ensures
        digits_value(d.take(k)) <= digits_value(d),
    decreases d.len() - k,
{
    if k < d.len() {
        lemma_digits_grow(d, k + 1);
        assert(d.take(k + 1).drop_last() =~= d.take(k));
    } else {
        assert(d.take(k) =~= d);
    }
}

/// Launch arguments read as text, with the log's path.
pub ghost struct LaunchModel {
    pub search: Option<Seq<char>>,
    pub reveal: Option<Seq<char>>,
    pub source: Option<Seq<char>>,
    pub line: Option<usize>,
    pub timeline: bool,
    pub pane: Option<Seq<char>>,
    pub props: Option<Seq<char>>,
    pub find: Option<Seq<char>>,
    pub path: Option<Seq<char>>,
}

pub open spec fn text_of(o: Option<String>) -> Option<Seq<char>> {
    match o {
        Some(s) => Some(s@),
        None => None,
    }
}

pub open spec fn launch_model(l: Launch, path: Option<String>) -> LaunchModel {
    LaunchModel {
        search: text_of(l.search),
        reveal: text_of(l.reveal),
        source: text_of(l.source),
        line: l.line,
        timeline: l.timeline,
        pane: text_of(l.pane),
        props: text_of(l.props),
        find: text_of(l.find),
        path: text_of(path),
    }
}

/// Whether `a` looks like an option: it starts with two dashes.
pub open spec fn is_flag(a: Seq<char>) -> bool {
    a.len() >= 2 && a[0] == '-' && a[1] == '-'
}

/// Reading the arguments from `i` on into `m`: a known option takes the
/// argument after it (none at the end), an unknown one is skipped, and
/// anything else is the log's path; the last word wins.
pub open spec fn launch_from(args: Seq<Seq<char>>, i: int, m: LaunchModel) -> LaunchModel
    decreases args.len() - i,
{
    if i < 0 || i >= args.len() {
        m
    } else {
        let a = args[i];
        let next = if i + 1 < args.len() {
            Some(args[i + 1])
        } else {
            None
        };
        let after = if i + 2 <= args.len() {
            i + 2
        } else {
            args.len() as int
        };
        if a == "--search"@ {
            launch_from(args, after, LaunchModel { search: next, ..m })
        } else if a == "--reveal"@ {
            launch_from(args, after, LaunchModel { reveal: next, ..m })
        } else if a == "--source"@ {
            launch_from(args, after, LaunchModel { source: next, ..m })
        } else if a == "--line"@ {
            launch_from(
                args,
                after,
                LaunchModel {
                    line: match next {
                        Some(l) => parsed_usize(l),
                        None => None,
                    },
                    ..m
                },
            )
        } else if a == "--timeline"@ {
            launch_from(args, i + 1, LaunchModel { timeline: true, ..m })
        } else if a == "--pane"@ {
            launch_from(args, after, LaunchModel { pane: next, ..m })
        } else if a == "--props"@ {
            launch_from(args, after, LaunchModel { props: next, ..m })
        } else if a == "--find"@ {
            launch_from(args, after, LaunchModel { find: next, ..m })
        } else if is_flag(a) {
            launch_from(args, i + 1, m)
        } else {
            launch_from(args, i + 1, LaunchModel { path: Some(a), ..m })
        }
    }
}

/// The launch arguments and the log's path in `args` (the program's name
/// left out).
pub fn parse_launch(args: &[String]) -> (r: (Launch, Option<String>))
    ensures
        launch_model(r.0, r.1) == launch_from(
            texts(args@),
            0,
            launch_model(Launch::default_spec(), None),
        ),
{
    let mut launch = Launch::default();
    let mut path: Option<String> = None;
    let mut i: usize = 0;
    while i < args.len()
        invariant
            i <= args@.len(),
            launch_from(texts(args@), 0, launch_model(Launch::default_spec(), None)) == launch_from(
                texts(args@),
                i as int,
                launch_model(launch, path),
            ),
        decreases args.len() - i,
    {
        let a = args[i].as_str();
        let ghost t = texts(args@);
        assert(t[i as int] == a@);
        let next: Option<String> = if i + 1 < args.len() {
            assert(t[i + 1] == args@[i + 1]@);
            Some(args[i + 1].clone())
        } else {
            None
        };
        let after = if i + 1 < args.len() {
            i + 2
        } else {
            args.len()
        };
        if text_eq(a, "--search") {
            launch.search = next;
            i = after;
        } else if text_eq(a, "--reveal") {
            launch.reveal = next;
            i = after;
        } else if text_eq(a, "--source") {
            launch.source = next;
            i = after;
        } else if text_eq(a, "--line") {
            launch.line = match &next {
                Some(l) => parse_usize(l.as_str()),
                None => None,
            };
            i = after;
        } else if text_eq(a, "--timeline") {
            launch.timeline = true;
            i += 1;
        } else if text_eq(a, "--pane") {
            launch.pane = next;
            i = after;
        } else if text_eq(a, "--props") {
            launch.props = next;
            i = after;
        } else if text_eq(a, "--find") {
            launch.find = next;
            i = after;
        } else {
            let cs = chars_of(a);
            if cs.len() >= 2 && cs[0] == '-' && cs[1] == '-' {
                i += 1;
            } else {
                path = Some(args[i].clone());
                i += 1;
            }
        }
    }
    (launch, path)
}

/// The pane a launch brings forward once the build is loaded: the one
/// `--pane` names; else Properties and items for `--props`; else Find in
/// Files for `--find`.
pub fn launch_pane(launch: &Launch) -> (r: Option<SidebarTab>)
    ensures
        r == (if launch.pane is Some && tab_named(launch.pane->0@) is Some {
            tab_named(launch.pane->0@)
        } else if launch.props is Some {
            Some(SidebarTab::PropertiesAndItems)
        } else if launch.find is Some {
            Some(SidebarTab::FindInFiles)
        } else {
            None
        }),
{
    if let Some(p) = &launch.pane {
        if let Some(tab) = SidebarTab::parse(p.as_str()) {
            return Some(tab);
        }
    }
    if launch.props.is_some() {
        Some(SidebarTab::PropertiesAndItems)
    } else if launch.find.is_some() {
        Some(SidebarTab::FindInFiles)
    } else {
        None
    }
}

/// Every property value is short enough to scan.
pub open spec fn props_fit(props: Seq<(String, String)>) -> bool {
    forall|k: int| 0 <= k < props.len() ==> text_fits(encode_utf8((#[trigger] props[k]).1@).len() as int)
}

pub(crate) proof fn lemma_prop_in_fits(props: Seq<(String, String)>, key: Seq<char>)
    requires
        props_fit(props),
    ensures
        prop_in(props, key) matches Some(v) ==> text_fits(encode_utf8(v).len() as int),
    decreases props.len(),
{
    if props.len() > 0 && props[0].0@ != key {
        assert forall|k: int| 0 <= k < props.drop_first().len() implies text_fits(
            encode_utf8((#[trigger] props.drop_first()[k]).1@).len() as int,
        ) by {
            assert(props.drop_first()[k] == props[k + 1]);
        }
        lemma_prop_in_fits(props.drop_first(), key);
    }
}

/// The title of a preprocessed view of a project node: the file name of
/// its project file, else its name, else its title.
pub fn preprocess_title(node: &NodeSummary) -> (r: String)
    requires
        props_fit(node.props@),
    ensures
        match prop_in(node.props@, "projectFile"@) {
            Some(v) => encode_utf8(r@) == encode_utf8(v).subrange(
                file_name_start(encode_utf8(v)),
                encode_utf8(v).len() as int,
            ),
            None => r@ == (match node.name {
                Some(n) => n@,
                None => node.title@,
            }),
        },
{
    proof {
        lemma_prop_in_fits(node.props@, "projectFile"@);
    }
    match node.prop("projectFile") {
        Some(v) => file_name(v),
        None => match &node.name {
            Some(n) => n.clone(),
            None => node.title.clone(),
        },
    }
}

/// Which sidebar pane is chosen and whether the sidebar shows.
#[derive(Clone, Copy, PartialEq, Eq, Debug, Structural)]
pub struct Sidebar {
    pub tab: SidebarTab,
    pub visible: bool,
}

/// What asking for a pane does to the sidebar: a pane that needs a source
/// archive the log lacks is refused; any other becomes the chosen pane and
/// brings the sidebar out.
pub open spec fn after_select(s: Sidebar, tab: SidebarTab, has_archive: bool) -> Sidebar {
    if tab_needs_archive(tab) && !has_archive {
        s
    } else {
        Sidebar { tab, visible: true }
    }
}

/// Asks for the pane `tab`; true when it was granted. Files and Find in
/// Files are built the first time they are granted.
pub fn select_pane(sidebar: &mut Sidebar, tab: SidebarTab, has_archive: bool) -> (granted: bool)
    ensures
        *final(sidebar) == after_select(*old(sidebar), tab, has_archive),
        granted == !(tab_needs_archive(tab) && !has_archive),
{
    if tab.needs_archive() && !has_archive {
        return false;
    }
    sidebar.tab = tab;
    sidebar.visible = true;
    true
}

/// The chosen pane is always one the strip shows: asking for a pane never
/// leaves the sidebar on a pane the log cannot show.
pub proof fn lemma_selected_pane_is_shown(s: Sidebar, tab: SidebarTab, has_archive: bool)
    requires
        tabs_shown(has_archive).contains(s.tab),
    ensures
        tabs_shown(has_archive).contains(after_select(s, tab, has_archive).tab),
{
    lemma_tabs_shown(has_archive);
    let t = after_select(s, tab, has_archive).tab;
    if t != s.tab {
        if has_archive {
            let k: int = match t {
                SidebarTab::SearchLog => 0,
                SidebarTab::PropertiesAndItems => 1,
                SidebarTab::Files => 2,
                SidebarTab::FindInFiles => 3,
                SidebarTab::Favorites => 4,
            };
            assert(tabs_shown(has_archive)[k] == t);
        } else {
            let k: int = match t {
                SidebarTab::SearchLog => 0,
                SidebarTab::PropertiesAndItems => 1,
                _ => 2,
            };
            assert(tabs_shown(has_archive)[k] == t);
        }
    }
}

/// A diagnostic pill's label: the count and the noun, plural unless the
/// count is one.
pub fn pill_label(count: usize, noun: &str) -> (r: String)
    ensures
        r@ == decimal(count as nat) + seq![' '] + noun@ + (if count == 1 {
            Seq::<char>::empty()
        } else {
            seq!['s']
        }),
{
    let mut s = String::new();
    append_decimal(&mut s, count as u128);
    s.append(" ");
    s.append(noun);
    proof {
        reveal_strlit(" ");
    }
    if count != 1 {
        s.append("s");
        proof {
            reveal_strlit("s");
        }
    }
    s
}

/// The query a diagnostic pill runs when clicked: its own, when there is
/// anything to see.
pub fn pill_query(count: usize, query: &str) -> (r: Option<String>)
    ensures
        count == 0 ==> r is None,
        count > 0 ==> (r matches Some(q) && q@ == query@),
{
    if count == 0 {
        None
    } else {
        Some(query.to_string())
    }
}

/// The status bar's trailing summary: size, node count and MSBuild
/// version ("?" when unknown).
pub fn build_summary(file_size: u64, node_count: usize, msbuild_version: &Option<String>) -> (r: String)
    ensures
        r@ == bytes_text(file_size as nat) + " · "@ + decimal(node_count as nat) + " nodes · MSBuild "@ + match msbuild_version {
            Some(v) => v@,
            None => "?"@,
        },
{
    let mut s = format_bytes(file_size);
    s.append(" · ");
    append_decimal(&mut s, node_count as u128);
    s.append(" nodes · MSBuild ");
    match msbuild_version {
        Some(v) => s.append(v.as_str()),
        None => s.append("?"),
    }
    s
}

/// The status bar's verdict on the build.
pub fn build_verdict(succeeded: bool) -> (r: &'static str)
    ensures
        r@ == (if succeeded { "Build succeeded"@ } else { "Build failed"@ }),
{
    if succeeded {
        "Build succeeded"
    } else {
        "Build failed"
    }
}

/// What the page's address asks for, given the values of its `binlog`,
/// `search`, `reveal`, `source` and `line` parameters and whether it has a
/// `timeline` one: the log to fetch, and the launch; a line that is not a
/// number is ignored.
pub fn query_launch(
    binlog: Option<String>,
    search: Option<String>,
    reveal: Option<String>,
    source: Option<String>,
    line: Option<String>,
    timeline: bool,
) -> (r: (Launch, Option<String>))
    ensures
        launch_model(r.0, r.1) == (LaunchModel {
            search: text_of(search),
            reveal: text_of(reveal),
            source: text_of(source),
            line: match line {
                Some(l) => parsed_usize(l@),
                None => None,
            },
            timeline,
            pane: None,
            props: None,
            find: None,
            path: text_of(binlog),
        }),
{
    let line = match &line {
        Some(l) => parse_usize(l.as_str()),
        None => None,
    };
    (Launch { search, reveal, source, line, timeline, pane: None, props: None, find: None }, binlog)
}

/// The pane the sidebar shows: the chosen one when the strip shows it,
/// else Search Log.
pub fn active_pane(tab: SidebarTab, has_archive: bool) -> (r: SidebarTab)
    ensures
        r == (if tabs_shown(has_archive).contains(tab) {
            tab
        } else {
            SidebarTab::SearchLog
        }),
{
    proof {
        lemma_tabs_shown(has_archive);
        let k: int = match tab {
            SidebarTab::SearchLog => 0,
            SidebarTab::PropertiesAndItems => 1,
            SidebarTab::Files => 2,
            SidebarTab::FindInFiles => 3,
            SidebarTab::Favorites => if has_archive { 4 } else { 2 },
        };
        if has_archive || !tab_needs_archive(tab) {
            assert(tabs_shown(has_archive)[k] == tab);
        } else {
            assert(!tabs_shown(has_archive).contains(tab));
        }
    }
    if !tab.needs_archive() || has_archive {
        tab
    } else {
        SidebarTab::SearchLog
    }
}

/// The count on a pane's tab: Favorites shows how many nodes it keeps,
/// once it keeps any.
pub fn tab_badge(tab: SidebarTab, favorite_count: usize) -> (r: Option<String>)
    ensures
        (tab == SidebarTab::Favorites && favorite_count > 0) ==> (r matches Some(s) && s@ == decimal(
            favorite_count as nat,
        )),
        !(tab == SidebarTab::Favorites && favorite_count > 0) ==> r is None,
{
    if tab == SidebarTab::Favorites && favorite_count > 0 {
        let mut s = String::new();
        append_decimal(&mut s, favorite_count as u128);
        Some(s)
    } else {
        None
    }
}

} // verus!
