//! Per-kind row appearance and row text: which icon shape and which tone a
//! node kind gets, and the segments a row's text is composed of. Colours
//! themselves belong to the theme; a tone names them.

use vstd::prelude::*;
use vstd::string::StringExecFns;
use crate::model::{prop_in, NodeSummary};
use crate::text::text_eq;

verus! {

/// A project's tint: a colour pair (light theme, dark theme), or the
/// theme's own warning colour.
#[derive(Clone, Copy, Debug, PartialEq, Eq, Structural)]
pub enum Tint {
    Pair(u32, u32),
    ThemeWarning,
}

/// The semantic colour of a node kind.
#[derive(Clone, Copy, Debug, PartialEq, Eq, Structural)]
pub enum Tone {
    Success,
    Error,
    Warning,
    Folder,
    Target,
    Task,
    Item,
    Metadata,
    Property,
    Message,
    Server,
    Import,
    NoImport,
    NuGet,
    /// A project's language tint.
    Custom(Tint),
}

/// The colour pair a tone stands for: `None` where it is the theme's
/// warning colour.
pub open spec fn accent_of(tone: Tone) -> Option<(u32, u32)> {
    match tone {
        Tone::Success => Some((0x1a7f37u32, 0x3fb950u32)),
        Tone::Error => Some((0xcf222eu32, 0xf85149u32)),
        Tone::Warning => Some((0x9a6700u32, 0xd29922u32)),
        Tone::Folder => Some((0x977405u32, 0xd0a215u32)),
        Tone::Target => Some((0x8250dfu32, 0xa371f7u32)),
        Tone::Task => Some((0x0969dau32, 0x58a6ffu32)),
        Tone::Item => Some((0x1f883du32, 0x56d364u32)),
        Tone::Metadata => Some((0x137d84u32, 0x39c5cfu32)),
        Tone::Property => Some((0x4a52c4u32, 0x8b95f6u32)),
        Tone::Message => Some((0x6e7781u32, 0x8b949eu32)),
        Tone::Server => Some((0x6b4bc7u32, 0x9d8df1u32)),
        Tone::Import => Some((0xa74c00u32, 0xe0904fu32)),
        Tone::NoImport => Some((0xcf222eu32, 0xf85149u32)),
        Tone::NuGet => Some((0x00558fu32, 0x4db8ffu32)),
        Tone::Custom(Tint::Pair(l, d)) => Some((l, d)),
        Tone::Custom(Tint::ThemeWarning) => None,
    }
}

impl Tone {
    /// The tone's colour pair (light theme, dark theme); `None` for the
    /// theme's warning colour.
    pub fn accent(self) -> (r: Option<(u32, u32)>)
        ensures
            r == accent_of(self),
    {
        match self {
            Tone::Success => Some((0x1a7f37, 0x3fb950)),
            Tone::Error => Some((0xcf222e, 0xf85149)),
            Tone::Warning => Some((0x9a6700, 0xd29922)),
            Tone::Folder => Some((0x977405, 0xd0a215)),
            Tone::Target => Some((0x8250df, 0xa371f7)),
            Tone::Task => Some((0x0969da, 0x58a6ff)),
            Tone::Item => Some((0x1f883d, 0x56d364)),
            Tone::Metadata => Some((0x137d84, 0x39c5cf)),
            Tone::Property => Some((0x4a52c4, 0x8b95f6)),
            Tone::Message => Some((0x6e7781, 0x8b949e)),
            Tone::Server => Some((0x6b4bc7, 0x9d8df1)),
            Tone::Import => Some((0xa74c00, 0xe0904f)),
            Tone::NoImport => Some((0xcf222e, 0xf85149)),
            Tone::NuGet => Some((0x00558f, 0x4db8ff)),
            Tone::Custom(Tint::Pair(l, d)) => Some((l, d)),
            Tone::Custom(Tint::ThemeWarning) => None,
        }
    }
}

/// Which end of a file copy the row is about (the bridge's `copyKind`).
#[derive(Clone, Copy, Debug, PartialEq, Eq, Structural)]
pub enum CopyEnd {
    Both,
    Source,
    Destination,
}

#[derive(Clone, Copy, Debug, PartialEq, Eq, Structural)]
pub enum NodeIcon {
    Chip(Tone),
    /// AddItem and task item parameters.
    Plus(Tone),
    /// RemoveItem.
    Minus(Tone),
    /// A NuGet package.
    Package,
    /// A copied file, emphasising one end.
    Copy(CopyEnd, Tone),
    /// A project file, tinted by language; evaluations are drawn dashed.
    Document { tint: Tint, evaluation: bool },
}

#[derive(Clone, Copy, Debug, PartialEq, Eq, Structural)]
pub struct NodeStyle {
    pub icon: NodeIcon,
    /// The kind's accent, used for the leading type label on a row.
    pub color: Tone,
}

/// The code of `c` with an ASCII capital lowered.
pub open spec fn ascii_lower_code(c: char) -> u32 {
    if 65 <= (c as u32) <= 90 {
        ((c as u32) + 32) as u32
    } else {
        c as u32
    }
}

/// Whether `s`, ASCII capitals lowered, is `lower`, as comparing
/// `str::to_ascii_lowercase` with a lowercase literal does.
pub open spec fn ascii_lower_is(s: Seq<char>, lower: Seq<char>) -> bool {
    s.len() == lower.len() && forall|i: int| 0 <= i < s.len() ==> ascii_lower_code(#[trigger] s[i]) == lower[i] as u32
}

/// The tint of a project by its file extension.
pub open spec fn tint_for(extension: Option<Seq<char>>) -> Tint {
    match extension {
        Some(e) => {
            if ascii_lower_is(e, ".csproj"@) {
                Tint::Pair(0x1f801f, 0x5cc05c)
            } else if ascii_lower_is(e, ".vbproj"@) {
                Tint::Pair(0x00539c, 0x5a9be0)
            } else if ascii_lower_is(e, ".fsproj"@) {
                Tint::Pair(0x682878, 0xb37bc4)
            } else if ascii_lower_is(e, ".vcxproj"@) || ascii_lower_is(e, ".cppproj"@) {
                Tint::Pair(0xa43fb1, 0xcb84d6)
            } else if ascii_lower_is(e, ".sln"@) || ascii_lower_is(e, ".slnx"@) || ascii_lower_is(e, ".slnf"@) {
                Tint::Pair(0x672079, 0xb37bc4)
            } else if ascii_lower_is(e, ".esproj"@) {
                Tint::ThemeWarning
            } else {
                Tint::Pair(0x5a5a5f, 0xa0a0a8)
            }
        },
        None => Tint::Pair(0x5a5a5f, 0xa0a0a8),
    }
}

/// Whether `s`, ASCII capitals lowered, is `lower`.
fn ascii_lower_equals(s: &Vec<char>, lower: &str) -> (r: bool)
    ensures
        r == ascii_lower_is(s@, lower@),
{
    let l = crate::text::chars_of(lower);
    if s.len() != l.len() {
        return false;
    }
    let mut i: usize = 0;
    while i < s.len()
        invariant
            l@ == lower@,
            s@.len() == l@.len(),
            i <= s@.len(),
            forall|j: int| 0 <= j < i ==> ascii_lower_code(#[trigger] s@[j]) == lower@[j] as u32,
        decreases s.len() - i,
    {
        let u = s[i] as u32;
        let code = if 65 <= u && u <= 90 {
            u + 32
        } else {
            u
        };
        if code != l[i] as u32 {
            return false;
        }
        i += 1;
    }
    true
}

/// The tint of `node`'s project file.
pub fn project_tint(node: &NodeSummary) -> (r: Tint)
    ensures
        r == tint_for(prop_in(node.props@, "extension"@)),
{
    match node.prop("extension") {
        Some(e) => {
            let cs = crate::text::chars_of(e);
            if ascii_lower_equals(&cs, ".csproj") {
                Tint::Pair(0x1f801f, 0x5cc05c)
            } else if ascii_lower_equals(&cs, ".vbproj") {
                Tint::Pair(0x00539c, 0x5a9be0)
            } else if ascii_lower_equals(&cs, ".fsproj") {
                Tint::Pair(0x682878, 0xb37bc4)
            } else if ascii_lower_equals(&cs, ".vcxproj") || ascii_lower_equals(&cs, ".cppproj") {
                Tint::Pair(0xa43fb1, 0xcb84d6)
            } else if ascii_lower_equals(&cs, ".sln") || ascii_lower_equals(&cs, ".slnx") || ascii_lower_equals(
                &cs,
                ".slnf",
            ) {
                Tint::Pair(0x672079, 0xb37bc4)
            } else if ascii_lower_equals(&cs, ".esproj") {
                Tint::ThemeWarning
            } else {
                Tint::Pair(0x5a5a5f, 0xa0a0a8)
            }
        },
        None => Tint::Pair(0x5a5a5f, 0xa0a0a8),
    }
}

/// The chip icon of `tone`, in `tone`.
pub open spec fn chip_style(tone: Tone) -> NodeStyle {
    NodeStyle { icon: NodeIcon::Chip(tone), color: tone }
}

/// The icon and accent of a node, by kind. A failed node's icon takes the
/// error tone whatever its kind.
pub open spec fn style_of(node: NodeSummary) -> NodeStyle {
    let failed = node.state@ == "failed"@;
    let k = node.kind@;
    if k == "Build"@ {
        chip_style(if failed { Tone::Error } else { Tone::Success })
    } else if k == "Project"@ || k == "ProjectEvaluation"@ {
        let tint = tint_for(prop_in(node.props@, "extension"@));
        NodeStyle { icon: NodeIcon::Document { tint, evaluation: k == "ProjectEvaluation"@ }, color: Tone::Custom(tint) }
    } else if k == "Target"@ || k == "EntryTarget"@ {
        chip_style(if failed { Tone::Error } else { Tone::Target })
    } else if k == "Task"@ {
        chip_style(if failed { Tone::Error } else { Tone::Task })
    } else if k == "AddItem"@ || k == "TaskParameterItem"@ {
        NodeStyle { icon: NodeIcon::Plus(Tone::Item), color: Tone::Item }
    } else if k == "RemoveItem"@ {
        NodeStyle { icon: NodeIcon::Minus(Tone::Item), color: Tone::Item }
    } else if k == "Item"@ {
        chip_style(Tone::Item)
    } else if k == "Metadata"@ {
        chip_style(Tone::Metadata)
    } else if k == "Property"@ || k == "TaskParameterProperty"@ || k == "Parameter"@ {
        chip_style(Tone::Property)
    } else if k == "Folder"@ || k == "TimedNode"@ || k == "EvaluationProfileEntry"@ {
        chip_style(Tone::Folder)
    } else if k == "Error"@ {
        chip_style(Tone::Error)
    } else if k == "Warning"@ || k == "CriticalBuildMessage"@ {
        chip_style(Tone::Warning)
    } else if k == "Import"@ {
        chip_style(Tone::Import)
    } else if k == "NoImport"@ {
        chip_style(Tone::NoImport)
    } else if k == "Package"@ {
        NodeStyle { icon: NodeIcon::Package, color: Tone::NuGet }
    } else if k == "FileCopy"@ {
        let end = match prop_in(node.props@, "copyKind"@) {
            Some(c) => if c == "Source"@ {
                CopyEnd::Source
            } else if c == "Destination"@ {
                CopyEnd::Destination
            } else {
                CopyEnd::Both
            },
            None => CopyEnd::Both,
        };
        NodeStyle { icon: NodeIcon::Copy(end, Tone::Target), color: Tone::Target }
    } else if k == "MSBuildServerNode"@ {
        chip_style(Tone::Server)
    } else {
        chip_style(Tone::Message)
    }
}

fn chip(tone: Tone) -> (r: NodeStyle)
    ensures
        r == chip_style(tone),
{
    NodeStyle { icon: NodeIcon::Chip(tone), color: tone }
}

/// The icon and accent of `node`.
#[verifier::spinoff_prover]
pub fn style_for(node: &NodeSummary) -> (r: NodeStyle)
    ensures
        r == style_of(*node),
{
    let failed = text_eq(node.state.as_str(), "failed");
    let k = node.kind.as_str();
    if text_eq(k, "Build") {
        chip(if failed { Tone::Error } else { Tone::Success })
    } else if text_eq(k, "Project") || text_eq(k, "ProjectEvaluation") {
        let tint = project_tint(node);
        NodeStyle {
            icon: NodeIcon::Document { tint, evaluation: text_eq(k, "ProjectEvaluation") },
            color: Tone::Custom(tint),
        }
    } else if text_eq(k, "Target") || text_eq(k, "EntryTarget") {
        chip(if failed { Tone::Error } else { Tone::Target })
    } else if text_eq(k, "Task") {
        chip(if failed { Tone::Error } else { Tone::Task })
    } else if text_eq(k, "AddItem") || text_eq(k, "TaskParameterItem") {
        NodeStyle { icon: NodeIcon::Plus(Tone::Item), color: Tone::Item }
    } else if text_eq(k, "RemoveItem") {
        NodeStyle { icon: NodeIcon::Minus(Tone::Item), color: Tone::Item }
    } else if text_eq(k, "Item") {
        chip(Tone::Item)
    } else if text_eq(k, "Metadata") {
        chip(Tone::Metadata)
    } else if text_eq(k, "Property") || text_eq(k, "TaskParameterProperty") || text_eq(k, "Parameter") {
        chip(Tone::Property)
    } else if text_eq(k, "Folder") || text_eq(k, "TimedNode") || text_eq(k, "EvaluationProfileEntry") {
        chip(Tone::Folder)
    } else if text_eq(k, "Error") {
        chip(Tone::Error)
    } else if text_eq(k, "Warning") || text_eq(k, "CriticalBuildMessage") {
        chip(Tone::Warning)
    } else if text_eq(k, "Import") {
        chip(Tone::Import)
    } else if text_eq(k, "NoImport") {
        chip(Tone::NoImport)
    } else if text_eq(k, "Package") {
        NodeStyle { icon: NodeIcon::Package, color: Tone::NuGet }
    } else if text_eq(k, "FileCopy") {
        let end = match node.prop("copyKind") {
            Some(c) => if text_eq(c, "Source") {
                CopyEnd::Source
            } else if text_eq(c, "Destination") {
                CopyEnd::Destination
            } else {
                CopyEnd::Both
            },
            None => CopyEnd::Both,
        };
        NodeStyle { icon: NodeIcon::Copy(end, Tone::Target), color: Tone::Target }
    } else if text_eq(k, "MSBuildServerNode") {
        chip(Tone::Server)
    } else {
        chip(Tone::Message)
    }
}

/// Which theme colour marks a node's state.
#[derive(Clone, Copy, Debug, PartialEq, Eq, Structural)]
pub enum StateColor {
    Error,
    TextTertiary,
}

/// Failed nodes are marked in the error colour, skipped ones muted.
pub fn state_accent(node: &NodeSummary) -> (r: Option<StateColor>)
    ensures
        r == (if node.state@ == "failed"@ {
            Some(StateColor::Error)
        } else if node.state@ == "skipped"@ {
            Some(StateColor::TextTertiary)
        } else {
            None
        }),
{
    if text_eq(node.state.as_str(), "failed") {
        Some(StateColor::Error)
    } else if text_eq(node.state.as_str(), "skipped") {
        Some(StateColor::TextTertiary)
    } else {
        None
    }
}

#[derive(Clone, Copy, PartialEq, Eq, Debug, Structural)]
pub enum SegmentStyle {
    /// Type name a row leads with, tinted like its glyph.
    KindLabel,
    /// The row's own text.
    Primary,
    /// Supporting detail, e.g. " at (49;3)".
    Secondary,
    /// A short fact on a highlight fill (NoImport reason).
    Chip,
    /// Project target framework(s) on a tinted fill.
    Badge,
    /// Initial targets (`→ Rebuild`), tinted like a target.
    Targets,
    /// Elapsed time, monospaced digits.
    Duration,
}

#[derive(Debug, PartialEq)]
pub struct Segment {
    pub text: String,
    pub style: SegmentStyle,
}

pub open spec fn segment_views(s: Seq<Segment>) -> Seq<(Seq<char>, SegmentStyle)> {
    s.map_values(|g: Segment| (g.text@, g.style))
}

/// One segment when `text` is there, none otherwise.
pub open spec fn optional(text: Option<Seq<char>>, style: SegmentStyle) -> Seq<(Seq<char>, SegmentStyle)> {
    match text {
        Some(t) => seq![(t, style)],
        None => seq![],
    }
}

/// "at (line;column)" when the node knows both.
pub open spec fn location_of(node: NodeSummary) -> Seq<(Seq<char>, SegmentStyle)> {
    match (prop_in(node.props@, "line"@), prop_in(node.props@, "column"@)) {
        (Some(l), Some(c)) => seq![("at ("@ + l + ";"@ + c + ")"@, SegmentStyle::Secondary)],
        _ => seq![],
    }
}

/// The node's name when it has a non-empty one.
pub open spec fn shown_name(node: NodeSummary) -> Option<Seq<char>> {
    match node.name {
        Some(n) => if n@.len() > 0 {
            Some(n@)
        } else {
            None
        },
        None => None,
    }
}

/// A row's text: what leads it and what follows, by kind, then the
/// elapsed time when there is one.
pub open spec fn segments_of(node: NodeSummary, duration: Option<Seq<char>>) -> Seq<(Seq<char>, SegmentStyle)> {
    let k = node.kind@;
    let body = if k == "Import"@ {
        seq![("Import"@, SegmentStyle::KindLabel), (node.title@, SegmentStyle::Primary)] + location_of(node)
    } else if k == "NoImport"@ {
        seq![("NoImport"@, SegmentStyle::KindLabel), (node.title@, SegmentStyle::Primary)] + location_of(node)
            + optional(prop_in(node.props@, "reason"@), SegmentStyle::Chip)
    } else if k == "Project"@ || k == "ProjectEvaluation"@ {
        match shown_name(node) {
            None => seq![(node.title@, SegmentStyle::Primary)],
            Some(n) => seq![(n, SegmentStyle::Primary)] + optional(prop_in(node.props@, "adornment"@), SegmentStyle::Badge)
                + optional(prop_in(node.props@, "targetsText"@), SegmentStyle::Targets) + optional(
                prop_in(node.props@, "evaluationText"@),
                SegmentStyle::Secondary,
            ),
        }
    } else {
        seq![(node.title@, SegmentStyle::Primary)]
    };
    body + optional(duration, SegmentStyle::Duration)
}

fn push_segment(out: &mut Vec<Segment>, text: String, style: SegmentStyle)
    ensures
        segment_views(final(out)@) == segment_views(old(out)@).push((text@, style)),
{
    let ghost before = out@;
    out.push(Segment { text, style });
    assert(segment_views(out@) =~= segment_views(before).push((text@, style)));
}

fn push_optional(out: &mut Vec<Segment>, text: Option<&str>, style: SegmentStyle)
    ensures
        segment_views(final(out)@) == segment_views(old(out)@) + optional(
            match text {
                Some(t) => Some(t@),
                None => None,
            },
            style,
        ),
{
    match text {
        Some(t) => push_segment(out, String::from_str(t), style),
        None => {
            assert(segment_views(out@) =~= segment_views(out@) + seq![]);
        },
    }
}

fn push_location(node: &NodeSummary, out: &mut Vec<Segment>)
    ensures
        segment_views(final(out)@) == segment_views(old(out)@) + location_of(*node),
{
    match (node.prop("line"), node.prop("column")) {
        (Some(line), Some(col)) => {
            let mut text = String::from_str("at (");
            text.append(line);
            text.append(";");
            text.append(col);
            text.append(")");
            push_segment(out, text, SegmentStyle::Secondary);
        },
        _ => {
            assert(segment_views(out@) =~= segment_views(out@) + seq![]);
        },
    }
}

/// The segments of `node`'s row; `duration` is its elapsed time, already
/// formatted, when it has one worth showing.
#[verifier::spinoff_prover]
pub fn segments(node: &NodeSummary, duration: Option<String>) -> (r: Vec<Segment>)
    ensures
        segment_views(r@) == segments_of(
            *node,
            match duration {
                Some(d) => Some(d@),
                None => None,
            },
        ),
{
    let mut out: Vec<Segment> = Vec::new();
    let k = node.kind.as_str();
    if text_eq(k, "Import") {
        push_segment(&mut out, String::from_str("Import"), SegmentStyle::KindLabel);
        push_segment(&mut out, node.title.clone(), SegmentStyle::Primary);
        push_location(node, &mut out);
    } else if text_eq(k, "NoImport") {
        push_segment(&mut out, String::from_str("NoImport"), SegmentStyle::KindLabel);
        push_segment(&mut out, node.title.clone(), SegmentStyle::Primary);
        push_location(node, &mut out);
        push_optional(&mut out, node.prop("reason"), SegmentStyle::Chip);
    } else if text_eq(k, "Project") || text_eq(k, "ProjectEvaluation") {
        let shown = match &node.name {
            Some(n) => if n.as_str().is_empty() {
                None
            } else {
                Some(n)
            },
            None => None,
        };
        match shown {
            None => push_segment(&mut out, node.title.clone(), SegmentStyle::Primary),
            Some(n) => {
                push_segment(&mut out, n.clone(), SegmentStyle::Primary);
                push_optional(&mut out, node.prop("adornment"), SegmentStyle::Badge);
                push_optional(&mut out, node.prop("targetsText"), SegmentStyle::Targets);
                push_optional(&mut out, node.prop("evaluationText"), SegmentStyle::Secondary);
            },
        }
    } else {
        push_segment(&mut out, node.title.clone(), SegmentStyle::Primary);
    }
    match duration {
        Some(d) => push_segment(&mut out, d, SegmentStyle::Duration),
        None => {
            assert(segment_views(out@) =~= segment_views(out@) + seq![]);
        },
    }
    proof {
        reveal_strlit("Import");
        reveal_strlit("NoImport");
    }
    assert(segment_views(out@) =~= segments_of(
        *node,
        match duration {
            Some(d) => Some(d@),
            None => None,
        },
    ));
    out
}

} // verus!
