//! The rows of the browser rendering demo: ten thousand synthetic log lines
//! whose kind cycles with the row index.

use vstd::prelude::*;
use vstd::string::StringExecFns;
use crate::model::{append_decimal, decimal};

verus! {

#[derive(Clone, Copy, PartialEq, Eq, Debug, Structural)]
pub enum Kind {
    Project,
    Target,
    Task,
    Message,
    Warning,
    Error,
}

pub const BG_BASE: u32 = 0x1e1e2e;
pub const TEXT: u32 = 0xcdd6f4;
pub const TEXT_DIM: u32 = 0x6c7086;
pub const ACCENT: u32 = 0x89b4fa;
pub const GREEN: u32 = 0xa6e3a1;
pub const RED: u32 = 0xf38ba8;
pub const YELLOW: u32 = 0xf9e2af;

/// The kind of row `ix`, by its place in a cycle of 37.
pub open spec fn kind_at(ix: nat) -> Kind {
    let k = ix % 37;
    if k == 0 {
        Kind::Project
    } else if k == 1 || k == 9 || k == 20 {
        Kind::Target
    } else if k == 2 || k == 5 || k == 11 || k == 24 {
        Kind::Task
    } else if k == 17 {
        Kind::Warning
    } else if k == 33 {
        Kind::Error
    } else {
        Kind::Message
    }
}

pub open spec fn label_of(k: Kind) -> Seq<char> {
    match k {
        Kind::Project => "Project"@,
        Kind::Target => "Target"@,
        Kind::Task => "Task"@,
        Kind::Message => "Message"@,
        Kind::Warning => "Warning"@,
        Kind::Error => "Error"@,
    }
}

impl Kind {
    pub fn for_index(ix: usize) -> (r: Kind)
        ensures
            r == kind_at(ix as nat),
    {
        let k = ix % 37;
        if k == 0 {
            Kind::Project
        } else if k == 1 || k == 9 || k == 20 {
            Kind::Target
        } else if k == 2 || k == 5 || k == 11 || k == 24 {
            Kind::Task
        } else if k == 17 {
            Kind::Warning
        } else if k == 33 {
            Kind::Error
        } else {
            Kind::Message
        }
    }

    pub fn label(self) -> (r: &'static str)
        ensures
            r@ == label_of(self),
    {
        match self {
            Kind::Project => "Project",
            Kind::Target => "Target",
            Kind::Task => "Task",
            Kind::Message => "Message",
            Kind::Warning => "Warning",
            Kind::Error => "Error",
        }
    }

    pub fn color(self) -> (r: u32)
        ensures
            r == (match self {
                Kind::Project => ACCENT,
                Kind::Target => GREEN,
                Kind::Task => TEXT,
                Kind::Message => TEXT_DIM,
                Kind::Warning => YELLOW,
                Kind::Error => RED,
            }),
    {
        match self {
            Kind::Project => ACCENT,
            Kind::Target => GREEN,
            Kind::Task => TEXT,
            Kind::Message => TEXT_DIM,
            Kind::Warning => YELLOW,
            Kind::Error => RED,
        }
    }

    /// How far a row of this kind is indented.
    pub fn depth(self) -> (r: usize)
        ensures
            r == (match self {
                Kind::Project => 0usize,
                Kind::Target => 1,
                Kind::Task => 2,
                _ => 3,
            }),
    {
        match self {
            Kind::Project => 0,
            Kind::Target => 1,
            Kind::Task => 2,
            _ => 3,
        }
    }
}

/// The message a row shows, by its place in a cycle of four.
pub open spec fn message_at(ix: nat) -> Seq<char> {
    let m = ix % 4;
    if m == 0 {
        "Build started for Foo.csproj (net10.0)"@
    } else if m == 1 {
        "CoreCompile → csc.dll /noconfig /nowarn:1701"@
    } else if m == 2 {
        "Copying obj/Debug/Foo.dll to bin/Debug/"@
    } else {
        "Property reassignment: $(Configuration)=Debug"@
    }
}

/// The text of row `ix`: "Kind #ix: message".
pub fn row_text(ix: usize) -> (r: String)
    ensures
        r@ == label_of(kind_at(ix as nat)) + " #"@ + decimal(ix as nat) + ": "@ + message_at(ix as nat),
{
    let mut s = String::from_str(Kind::for_index(ix).label());
    s.append(" #");
    append_decimal(&mut s, ix as u128);
    s.append(": ");
    let m = ix % 4;
    let message = if m == 0 {
        "Build started for Foo.csproj (net10.0)"
    } else if m == 1 {
        "CoreCompile → csc.dll /noconfig /nowarn:1701"
    } else if m == 2 {
        "Copying obj/Debug/Foo.dll to bin/Debug/"
    } else {
        "Property reassignment: $(Configuration)=Debug"
    };
    s.append(message);
    s
}

/// The selection after asking for row `target`: rows past the end are
/// refused.
pub open spec fn selecting(selected: Option<usize>, target: int, row_count: int) -> Option<usize> {
    if 0 <= target < row_count {
        Some(target as usize)
    } else {
        selected
    }
}

/// The selection after the down arrow: the next row, or the first with
/// nothing selected.
pub fn select_next(selected: Option<usize>, row_count: usize) -> (r: Option<usize>)
    ensures
        r == selecting(
            selected,
            match selected {
                Some(ix) => ix + 1,
                None => 0,
            },
            row_count as int,
        ),
{
    match selected {
        Some(ix) => if ix < row_count && ix + 1 < row_count {
            Some(ix + 1)
        } else {
            selected
        },
        None => if 0 < row_count {
            Some(0)
        } else {
            None
        },
    }
}

/// The selection after the up arrow: the row before, staying on the first.
pub fn select_previous(selected: Option<usize>, row_count: usize) -> (r: Option<usize>)
    ensures
        r == selecting(
            selected,
            match selected {
                Some(ix) => if ix > 0 {
                    ix - 1
                } else {
                    0
                },
                None => 0,
            },
            row_count as int,
        ),
{
    let target = match selected {
        Some(ix) => if ix > 0 {
            ix - 1
        } else {
            0
        },
        None => 0,
    };
    if target < row_count {
        Some(target)
    } else {
        selected
    }
}

/// What the sidebar says is selected.
pub fn selected_stat(selected: Option<usize>) -> (r: String)
    ensures
        r@ == match selected {
            Some(ix) => seq!['#'] + decimal(ix as nat),
            None => "none"@,
        },
{
    match selected {
        Some(ix) => {
            let mut s = String::from_str("#");
            proof {
                reveal_strlit("#");
            }
            append_decimal(&mut s, ix as u128);
            s
        },
        None => String::from_str("none"),
    }
}

/// The detail pane's source for row `ix`: an element of the row's kind
/// with its id, depth and kind, wrapping the row's text.
pub open spec fn source_of(ix: nat) -> Seq<char> {
    let label = label_of(kind_at(ix));
    "<"@ + label + " Id=\""@ + decimal(ix) + "\"\n         Depth=\""@ + decimal(depth_of(kind_at(ix)))
        + "\"\n         Kind=\""@ + label + "\">\n  <Message>"@ + label + " #"@ + decimal(ix) + ": "@
        + message_at(ix) + "</Message>\n</"@ + label + ">"@
}

pub open spec fn depth_of(k: Kind) -> nat {
    match k {
        Kind::Project => 0,
        Kind::Target => 1,
        Kind::Task => 2,
        _ => 3,
    }
}

/// The detail pane's title and source: the selected row's, or a prompt to
/// select one.
pub fn detail_of(selected: Option<usize>) -> (r: (String, String))
    ensures
        match selected {
            Some(ix) => r.0@ == label_of(kind_at(ix as nat)) + " #"@ + decimal(ix as nat) + ": "@ + message_at(
                ix as nat,
            ) && r.1@ == source_of(ix as nat),
            None => r.0@ == "Nothing selected"@ && r.1@ == "// select a row on the left\n// to see its source here"@,
        },
{
    match selected {
        Some(ix) => {
            let kind = Kind::for_index(ix);
            let label = kind.label();
            let text = row_text(ix);
            let mut body = String::from_str("<");
            body.append(label);
            body.append(" Id=\"");
            append_decimal(&mut body, ix as u128);
            body.append("\"\n         Depth=\"");
            append_decimal(&mut body, kind.depth() as u128);
            body.append("\"\n         Kind=\"");
            body.append(label);
            body.append("\">\n  <Message>");
            body.append(text.as_str());
            body.append("</Message>\n</");
            body.append(label);
            body.append(">");
            (text, body)
        },
        None => (
            String::from_str("Nothing selected"),
            String::from_str("// select a row on the left\n// to see its source here"),
        ),
    }
}

} // verus!
