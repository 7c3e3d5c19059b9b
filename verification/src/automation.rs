//! The decisions of the automation channel that drives the viewer from
//! scripts: how a scroll command names the phase of a trackpad gesture.

use vstd::prelude::*;
use crate::text::text_eq;
use vstd::string::StringExecFns;

verus! {

/// Where a scroll sits in a trackpad gesture.
#[derive(Clone, Copy, PartialEq, Eq, Debug, Structural)]
pub enum TouchPhase {
    /// Fingers land.
    Started,
    /// Fingers move; a wheel notch is this too.
    Moved,
    /// Fingers lift.
    Ended,
}

/// What `{:?}` prints for a text: the text quoted, with the characters
/// that need it escaped. It depends on the text alone.
pub uninterp spec fn debug_text(s: Seq<char>) -> Seq<char>;

/// The `Debug` form of a `str`, as `format!("{:?}")` writes it. Claimed: the
/// result is `debug_text` of the input; nothing more is claimed of the
/// quoting and escaping.
#[verifier::external_body]
fn debug_quoted(s: &str) -> (r: String)
    ensures
        r@ == debug_text(s@),
{
    format!("{s:?}")
}

/// The error a scroll command with an unknown phase is refused with, given
/// the phase as `{:?}` writes it.
pub fn unknown_phase_error(quoted: &str) -> (r: String)
    ensures
        r@ == "unknown touch phase "@ + quoted@,
{
    let mut s = String::from_str("unknown touch phase ");
    s.append(quoted);
    s
}

/// The phase a scroll command names: none or "moved" is a move, "started"
/// and "ended" the gesture's ends; any other word is refused, before
/// anything is dispatched, with the error `unknown touch phase "…"`.
pub fn touch_phase(phase: Option<&str>) -> (r: Result<TouchPhase, String>)
    ensures
        match phase {
            None => r == Ok::<TouchPhase, String>(TouchPhase::Moved),
            Some(p) => if p@ == "moved"@ {
                r == Ok::<TouchPhase, String>(TouchPhase::Moved)
            } else if p@ == "started"@ {
                r == Ok::<TouchPhase, String>(TouchPhase::Started)
            } else if p@ == "ended"@ {
                r == Ok::<TouchPhase, String>(TouchPhase::Ended)
            } else {
                (r matches Err(e) && e@ == "unknown touch phase "@ + debug_text(p@))
            },
        },
{
    match phase {
        None => Ok(TouchPhase::Moved),
        Some(p) => {
            if text_eq(p, "moved") {
                Ok(TouchPhase::Moved)
            } else if text_eq(p, "started") {
                Ok(TouchPhase::Started)
            } else if text_eq(p, "ended") {
                Ok(TouchPhase::Ended)
            } else {
                let quoted = debug_quoted(p);
                Err(unknown_phase_error(quoted.as_str()))
            }
        },
    }
}

} // verus!
