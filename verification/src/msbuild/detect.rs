//! Which files the viewer runs the MSBuild scanners over.

use vstd::prelude::*;
use vstd::string::{StrSliceExecFns, StringSliceAdditionalSpecFns};
use super::tokens::ascii_lower;

verus! {

/// `path` ends with `ext`, compared ASCII-case-insensitively.
pub open spec fn ends_with_lower(path: Seq<u8>, ext: Seq<u8>) -> bool {
    &&& path.len() >= ext.len()
    &&& forall|j: int| 0 <= j < ext.len() ==> ascii_lower(#[trigger] path[path.len() - ext.len() + j]) == ext[j]
}

/// The path ends in one of the MSBuild file extensions.
pub open spec fn has_msbuild_extension(path: Seq<u8>) -> bool {
    ||| ends_with_lower(path, seq![0x2eu8, 0x63, 0x73, 0x70, 0x72, 0x6f, 0x6a])
    ||| ends_with_lower(path, seq![0x2eu8, 0x76, 0x62, 0x70, 0x72, 0x6f, 0x6a])
    ||| ends_with_lower(path, seq![0x2eu8, 0x66, 0x73, 0x70, 0x72, 0x6f, 0x6a])
    ||| ends_with_lower(path, seq![0x2eu8, 0x76, 0x63, 0x78, 0x70, 0x72, 0x6f, 0x6a])
    ||| ends_with_lower(path, seq![0x2eu8, 0x65, 0x73, 0x70, 0x72, 0x6f, 0x6a])
    ||| ends_with_lower(path, seq![0x2eu8, 0x73, 0x68, 0x70, 0x72, 0x6f, 0x6a])
    ||| ends_with_lower(path, seq![0x2eu8, 0x70, 0x72, 0x6f, 0x70, 0x73])
    ||| ends_with_lower(path, seq![0x2eu8, 0x74, 0x61, 0x72, 0x67, 0x65, 0x74, 0x73])
    ||| ends_with_lower(path, seq![0x2eu8, 0x70, 0x72, 0x6f, 0x6a])
    ||| ends_with_lower(path, seq![0x2eu8, 0x74, 0x61, 0x73, 0x6b, 0x73])
    ||| ends_with_lower(path, seq![0x2eu8, 0x6f, 0x76, 0x65, 0x72, 0x72, 0x69, 0x64, 0x65, 0x74, 0x61, 0x73, 0x6b, 0x73])
    ||| ends_with_lower(path, seq![0x2eu8, 0x70, 0x75, 0x62, 0x78, 0x6d, 0x6c])
}

/// `char::is_whitespace`: the Unicode White_Space property.
pub open spec fn is_white_space(c: char) -> bool {
    ||| '\u{9}' <= c <= '\u{d}'
    ||| c == ' '
    ||| c == '\u{85}'
    ||| c == '\u{a0}'
    ||| c == '\u{1680}'
    ||| '\u{2000}' <= c <= '\u{200a}'
    ||| c == '\u{2028}'
    ||| c == '\u{2029}'
    ||| c == '\u{202f}'
    ||| c == '\u{205f}'
    ||| c == '\u{3000}'
}

/// How many whitespace characters `s` starts with.
pub open spec fn leading_white_space(s: Seq<char>, i: int) -> int
    decreases s.len() - i,
{
    if 0 <= i < s.len() && is_white_space(s[i]) {
        leading_white_space(s, i + 1)
    } else {
        i
    }
}

/// After its leading whitespace, the content opens a `<Project` element.
pub open spec fn opens_project(content: Seq<char>) -> bool {
    let k = leading_white_space(content, 0);
    &&& k + 8 <= content.len()
    &&& content.subrange(k, k + 8) == seq!['<', 'P', 'r', 'o', 'j', 'e', 'c', 't']
}

pub(crate) fn white_space(c: char) -> (r: bool)
    ensures
        r == is_white_space(c),
{
    ('\u{9}' <= c && c <= '\u{d}') || c == ' ' || c == '\u{85}' || c == '\u{a0}' || c == '\u{1680}' || ('\u{2000}' <= c
        && c <= '\u{200a}') || c == '\u{2028}' || c == '\u{2029}' || c == '\u{202f}' || c == '\u{205f}' || c == '\u{3000}'
}

fn ends_with_lower_exec(path: &[u8], ext: &[u8]) -> (r: bool)
    ensures
        r == ends_with_lower(path@, ext@),
{
    if path.len() < ext.len() {
        return false;
    }
    let base = path.len() - ext.len();
    let mut j: usize = 0;
    while j < ext.len()
        invariant
            base == path@.len() - ext@.len(),
            ext@.len() <= path@.len(),
            j <= ext@.len(),
            forall|x: int| 0 <= x < j ==> ascii_lower(#[trigger] path@[path@.len() - ext@.len() + x]) == ext@[x],
        decreases ext.len() - j,
    {
        let c = path[path.len() - (ext.len() - j)];
        let lower = if 0x41 <= c && c <= 0x5a {
            c + 0x20
        } else {
            c
        };
        if lower != ext[j] {
            assert(path@.len() - (ext@.len() - j) == path@.len() - ext@.len() + j);
            assert(ascii_lower(path@[path@.len() - ext@.len() + j]) != ext@[j as int]);
            return false;
        }
        j += 1;
    }
    true
}

fn msbuild_extension(b: &[u8]) -> (r: bool)
    ensures
        r == has_msbuild_extension(b@),
{
    let e: [u8; 7] = [0x2e, 0x63, 0x73, 0x70, 0x72, 0x6f, 0x6a];
    assert(e@ =~= seq![0x2eu8, 0x63, 0x73, 0x70, 0x72, 0x6f, 0x6a]);
    if ends_with_lower_exec(b, &e) {
        return true;
    }
    let e: [u8; 7] = [0x2e, 0x76, 0x62, 0x70, 0x72, 0x6f, 0x6a];
    assert(e@ =~= seq![0x2eu8, 0x76, 0x62, 0x70, 0x72, 0x6f, 0x6a]);
    if ends_with_lower_exec(b, &e) {
        return true;
    }
    let e: [u8; 7] = [0x2e, 0x66, 0x73, 0x70, 0x72, 0x6f, 0x6a];
    assert(e@ =~= seq![0x2eu8, 0x66, 0x73, 0x70, 0x72, 0x6f, 0x6a]);
    if ends_with_lower_exec(b, &e) {
        return true;
    }
    let e: [u8; 8] = [0x2e, 0x76, 0x63, 0x78, 0x70, 0x72, 0x6f, 0x6a];
    assert(e@ =~= seq![0x2eu8, 0x76, 0x63, 0x78, 0x70, 0x72, 0x6f, 0x6a]);
    if ends_with_lower_exec(b, &e) {
        return true;
    }
    let e: [u8; 7] = [0x2e, 0x65, 0x73, 0x70, 0x72, 0x6f, 0x6a];
    assert(e@ =~= seq![0x2eu8, 0x65, 0x73, 0x70, 0x72, 0x6f, 0x6a]);
    if ends_with_lower_exec(b, &e) {
        return true;
    }
    let e: [u8; 7] = [0x2e, 0x73, 0x68, 0x70, 0x72, 0x6f, 0x6a];
    assert(e@ =~= seq![0x2eu8, 0x73, 0x68, 0x70, 0x72, 0x6f, 0x6a]);
    if ends_with_lower_exec(b, &e) {
        return true;
    }
    let e: [u8; 6] = [0x2e, 0x70, 0x72, 0x6f, 0x70, 0x73];
    assert(e@ =~= seq![0x2eu8, 0x70, 0x72, 0x6f, 0x70, 0x73]);
    if ends_with_lower_exec(b, &e) {
        return true;
    }
    let e: [u8; 8] = [0x2e, 0x74, 0x61, 0x72, 0x67, 0x65, 0x74, 0x73];
    assert(e@ =~= seq![0x2eu8, 0x74, 0x61, 0x72, 0x67, 0x65, 0x74, 0x73]);
    if ends_with_lower_exec(b, &e) {
        return true;
    }
    let e: [u8; 5] = [0x2e, 0x70, 0x72, 0x6f, 0x6a];
    assert(e@ =~= seq![0x2eu8, 0x70, 0x72, 0x6f, 0x6a]);
    if ends_with_lower_exec(b, &e) {
        return true;
    }
    let e: [u8; 6] = [0x2e, 0x74, 0x61, 0x73, 0x6b, 0x73];
    assert(e@ =~= seq![0x2eu8, 0x74, 0x61, 0x73, 0x6b, 0x73]);
    if ends_with_lower_exec(b, &e) {
        return true;
    }
    let e: [u8; 14] = [0x2e, 0x6f, 0x76, 0x65, 0x72, 0x72, 0x69, 0x64, 0x65, 0x74, 0x61, 0x73, 0x6b, 0x73];
    assert(e@ =~= seq![0x2eu8, 0x6f, 0x76, 0x65, 0x72, 0x72, 0x69, 0x64, 0x65, 0x74, 0x61, 0x73, 0x6b, 0x73]);
    if ends_with_lower_exec(b, &e) {
        return true;
    }
    let e: [u8; 7] = [0x2e, 0x70, 0x75, 0x62, 0x78, 0x6d, 0x6c];
    assert(e@ =~= seq![0x2eu8, 0x70, 0x75, 0x62, 0x78, 0x6d, 0x6c]);
    if ends_with_lower_exec(b, &e) {
        return true;
    }
    false
}

fn opens_project_element(content: &str) -> (r: bool)
    ensures
        r == opens_project(content@),
{
    let n = content.unicode_len();
    let mut k: usize = 0;
    while k < n && white_space(content.get_char(k))
        invariant
            n == content@.len(),
            k <= n,
            leading_white_space(content@, k as int) == leading_white_space(content@, 0),
        decreases n - k,
    {
        k += 1;
    }
    assert(leading_white_space(content@, k as int) == k);
    if n - k < 8 {
        return false;
    }
    let word = ['<', 'P', 'r', 'o', 'j', 'e', 'c', 't'];
    assert(word@ =~= seq!['<', 'P', 'r', 'o', 'j', 'e', 'c', 't']);
    let mut j: usize = 0;
    while j < 8
        invariant
            n == content@.len(),
            k + 8 <= n,
            k == leading_white_space(content@, 0),
            j <= 8,
            word@ == seq!['<', 'P', 'r', 'o', 'j', 'e', 'c', 't'],
            forall|x: int| 0 <= x < j ==> content@[k + x] == #[trigger] word@[x],
        decreases 8 - j,
    {
        if content.get_char(k + j) != word[j] {
            assert(content@.subrange(k as int, k + 8)[j as int] != word@[j as int]);
            return false;
        }
        j += 1;
    }
    assert(content@.subrange(k as int, k + 8) =~= word@);
    true
}

/// Whether a file is worth running the tokenizer over: an MSBuild
/// extension, or content that opens with `<Project`.
pub fn is_msbuild_file(path: &str, content: &str) -> (r: bool)
    ensures
        r == (has_msbuild_extension(path.spec_bytes()) || opens_project(content@)),
{
    msbuild_extension(path.as_bytes()) || opens_project_element(content)
}

} // verus!
