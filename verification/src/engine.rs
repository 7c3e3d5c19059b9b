//! The decisions around the engine's calls: when reading a node's children
//! page by page is done, and what a log opened from a URL is called.

use vstd::prelude::*;
use vstd::string::{StrSliceExecFns, StringExecFns};
use crate::text::chars_of;
use crate::model::{append_decimal, decimal};

verus! {

/// Children are read in pages of this many.
pub const PAGE_SIZE: usize = 5000;

/// After a page of `got` children read at `offset`, of `total`: where the
/// next page starts, or none when every child has been read (or the engine
/// had no more to give).
pub open spec fn next_offset(offset: int, got: int, total: int) -> Option<int> {
    if got == 0 || offset + got >= total {
        None
    } else {
        Some(offset + got)
    }
}

pub fn next_page(offset: usize, got: usize, total: usize) -> (r: Option<usize>)
    requires
        offset + got <= usize::MAX,
    ensures
        r matches Some(n) ==> next_offset(offset as int, got as int, total as int) == Some(n as int),
        r is None ==> next_offset(offset as int, got as int, total as int) is None,
{
    let next = offset + got;
    if got == 0 || next >= total {
        None
    } else {
        Some(next)
    }
}

/// Reading pages always moves forward and stays short of the total, so it
/// ends.
pub proof fn lemma_paging_advances(offset: int, got: int, total: int)
    requires
        got >= 0,
    ensures
        next_offset(offset, got, total) matches Some(n) ==> offset < n < total,
{
}

/// What a log opened from `url` is called: the part after the last slash.
pub open spec fn url_name(url: Seq<char>) -> Seq<char> {
    if exists|i: int| 0 <= i < url.len() && url[i] == '/' {
        let k = choose|i: int|
            0 <= i < url.len() && url[i] == '/' && forall|j: int| i < j < url.len() ==> url[j] != '/';
        url.subrange(k + 1, url.len() as int)
    } else {
        url
    }
}

pub fn url_display_name(url: &str) -> (r: String)
    ensures
        r@ == url_name(url@),
{
    let cs = chars_of(url);
    let mut i = cs.len();
    while i > 0 && cs[i - 1] != '/'
        invariant
            cs@ == url@,
            i <= cs@.len(),
            forall|j: int| i <= j < cs@.len() ==> cs@[j] != '/',
        decreases i,
    {
        i -= 1;
    }
    if i == 0 {
        proof {
            if exists|k: int| 0 <= k < url@.len() && url@[k] == '/' {
                let k = choose|k: int| 0 <= k < url@.len() && url@[k] == '/';
                assert(url@[k] != '/');
            }
        }
        assert(url@.subrange(0, url@.len() as int) =~= url@);
        return String::from_str(url.substring_char(0, cs.len()));
    }
    proof {
        assert(url@[i - 1] == '/');
        let k = choose|k: int|
            0 <= k < url@.len() && url@[k] == '/' && forall|j: int| k < j < url@.len() ==> url@[j] != '/';
        if k < i - 1 {
            assert(url@[i - 1] != '/');
        } else if k > i - 1 {
            assert(url@[k] != '/');
        }
    }
    String::from_str(url.substring_char(i, cs.len()))
}

/// A signed number in decimal.
pub open spec fn signed_decimal(n: int) -> Seq<char> {
    if n < 0 {
        seq!['-'] + decimal((-n) as nat)
    } else {
        decimal(n as nat)
    }
}

fn append_signed(s: &mut String, n: i32)
    ensures
        final(s)@ == old(s)@ + signed_decimal(n as int),
{
    if n < 0 {
        s.append("-");
        proof {
            reveal_strlit("-");
        }
        let m: i64 = -(n as i64);
        append_decimal(s, m as u128);
        assert(final(s)@ =~= old(s)@ + (seq!['-'] + decimal((-n) as nat)));
    } else {
        append_decimal(s, n as u128);
    }
}

/// `message (code)`, as the engine's errors read.
pub open spec fn coded(message: Seq<char>, code: Seq<char>) -> Seq<char> {
    message + " ("@ + code + ")"@
}

fn coded_text(message: &str, code: &str) -> (r: String)
    ensures
        r@ == coded(message@, code@),
{
    let mut s = message.to_string();
    s.append(" (");
    s.append(code);
    s.append(")");
    s
}

/// The words of a failed bridge call's error.
pub open spec fn bridge_error_text(status: i32, payload: Option<(String, String)>) -> Seq<char> {
    if status == 2 {
        "cancelled"@
    } else if status == 3 {
        "the build is no longer open"@
    } else {
        match payload {
            Some((m, c)) => coded(m@, c@),
            None => "bridge error (status "@ + signed_decimal(status as int) + ")"@,
        }
    }
}

/// What a failed bridge call says: status 2 is a cancellation, status 3 a
/// closed build; otherwise the error the bridge wrote (its message and
/// code), or the bare status when it wrote none.
pub fn bridge_error(status: i32, payload: Option<(String, String)>) -> (r: String)
    ensures
        r@ == bridge_error_text(status, payload),
{
    if status == 2 {
        String::from_str("cancelled")
    } else if status == 3 {
        String::from_str("the build is no longer open")
    } else {
        match payload {
            Some((m, c)) => coded_text(m.as_str(), c.as_str()),
            None => {
                let mut s = String::from_str("bridge error (status ");
                append_signed(&mut s, status);
                s.append(")");
                s
            },
        }
    }
}

/// A bridge call's outcome: status 0 is success, whose payload is the
/// answer (a call that wrote none failed); any other status is the error
/// `bridge_error` words.
pub fn bridge_result(status: i32, out: Option<String>, payload: Option<(String, String)>) -> (r: Result<String, String>)
    ensures
        status != 0 ==> (r matches Err(e) && e@ == bridge_error_text(status, payload)),
        status == 0 ==> match out {
            Some(text) => (r matches Ok(t) && t@ == text@),
            None => (r matches Err(e) && e@ == "the bridge returned no payload"@),
        },
{
    if status != 0 {
        return Err(bridge_error(status, payload));
    }
    match out {
        Some(text) => Ok(text),
        None => Err(String::from_str("the bridge returned no payload")),
    }
}

/// What a failed reply from the engine's web worker says: its message and
/// code, "engine error" and "Unknown" standing in for what it left out.
pub fn worker_error(message: Option<String>, code: Option<String>) -> (r: String)
    ensures
        r@ == coded(
            match message {
                Some(m) => m@,
                None => "engine error"@,
            },
            match code {
                Some(c) => c@,
                None => "Unknown"@,
            },
        ),
{
    let m = match &message {
        Some(m) => m.as_str(),
        None => "engine error",
    };
    let c = match &code {
        Some(c) => c.as_str(),
        None => "Unknown",
    };
    coded_text(m, c)
}

/// The first candidate that exists, if any.
pub open spec fn first_existing(candidates: Seq<(String, bool)>) -> Option<Seq<char>>
    decreases candidates.len(),
{
    if candidates.len() == 0 {
        None
    } else if candidates[0].1 {
        Some(candidates[0].0@)
    } else {
        first_existing(candidates.drop_first())
    }
}

/// Where the engine library is loaded from: the path the environment
/// names; else the first candidate (beside the executable, then the
/// bridge's build output) that exists; else an error saying how to get one.
pub fn choose_library(env_path: Option<String>, candidates: &[(String, bool)]) -> (r: Result<String, String>)
    ensures
        env_path matches Some(p) ==> (r matches Ok(q) && q@ == p@),
        env_path is None ==> match first_existing(candidates@) {
            Some(p) => (r matches Ok(q) && q@ == p),
            None => (r matches Err(e) && e@
                == "libmslog.dylib not found. Build it with src/StructuredLogViewer.NativeBridge/build-dylib.sh or set MSLOG_DYLIB."@),
        },
{
    if let Some(p) = env_path {
        return Ok(p);
    }
    let mut i: usize = 0;
    assert(candidates@.skip(0) =~= candidates@);
    while i < candidates.len()
        invariant
            env_path is None,
            i <= candidates@.len(),
            first_existing(candidates@) == first_existing(candidates@.skip(i as int)),
        decreases candidates.len() - i,
    {
        assert(candidates@.skip(i as int)[0] == candidates@[i as int]);
        if candidates[i].1 {
            return Ok(candidates[i].0.clone());
        }
        assert(candidates@.skip(i as int).drop_first() =~= candidates@.skip(i + 1));
        i += 1;
    }
    Err(
        String::from_str(
            "libmslog.dylib not found. Build it with src/StructuredLogViewer.NativeBridge/build-dylib.sh or set MSLOG_DYLIB.",
        ),
    )
}

} // verus!
