//! Small text helpers the other modules share.

use vstd::prelude::*;
use vstd::string::StringSliceAdditionalSpecFns;
use vstd::utf8::{encode_utf8, encode_utf8_decode_utf8};

verus! {

/// Whether two strings hold the same text, compared byte by byte.
pub fn text_eq(a: &str, b: &str) -> (r: bool)
    ensures
        r == (a@ == b@),
{
    proof {
        encode_utf8_decode_utf8(a@);
        encode_utf8_decode_utf8(b@);
    }
    let x = a.as_bytes();
    let y = b.as_bytes();
    if x.len() != y.len() {
        assert(a@ == b@ ==> encode_utf8(a@) == encode_utf8(b@));
        return false;
    }
    let mut i: usize = 0;
    while i < x.len()
        invariant
            x@ == a.spec_bytes(),
            y@ == b.spec_bytes(),
            x@.len() == y@.len(),
            i <= x@.len(),
            forall|j: int| 0 <= j < i ==> x@[j] == y@[j],
        decreases x.len() - i,
    {
        if x[i] != y[i] {
            assert(x@ != y@);
            assert(a@ == b@ ==> encode_utf8(a@) == encode_utf8(b@));
            return false;
        }
        i += 1;
    }
    assert(x@ =~= y@);
    true
}

/// The characters of `s`, one by one.
pub fn chars_of(s: &str) -> (r: Vec<char>)
    ensures
        r@ == s@,
{
    let mut out: Vec<char> = Vec::new();
    for c in it: s.chars()
        invariant
            out@ == it.seq().take(it.index() as int),
            it.seq() == s@,
    {
        out.push(c);
    }
    out
}

/// What `str::to_lowercase` makes of a text: Unicode's full lowercase
/// mapping, which depends on the text alone.
pub uninterp spec fn lowercase(s: Seq<char>) -> Seq<char>;

/// `str::to_lowercase`. Claimed: the result is `lowercase` of the input,
/// the same text giving the same result every time, and an empty text
/// stays empty; nothing more is claimed of the mapping itself.
#[verifier::external_body]
pub(crate) fn to_lowercase(s: &str) -> (r: String)
    ensures
        r@ == lowercase(s@),
        s@.len() == 0 ==> r@.len() == 0,
{
    s.to_lowercase()
}

/// Whether `a` comes before `b` or equals it, comparing character by
/// character and a prefix before any longer text: the order of `str`.
pub open spec fn text_le(a: Seq<char>, b: Seq<char>) -> bool
    decreases a.len(),
{
    if a.len() == 0 {
        true
    } else if b.len() == 0 {
        false
    } else if a[0] != b[0] {
        (a[0] as u32) < (b[0] as u32)
    } else {
        text_le(a.drop_first(), b.drop_first())
    }
}

/// Any two texts are ordered one way or the other.
pub proof fn lemma_text_le_total(a: Seq<char>, b: Seq<char>)
    ensures
        text_le(a, b) || text_le(b, a),
    decreases a.len(),
{
    if a.len() > 0 && b.len() > 0 {
        if a[0] == b[0] {
            lemma_text_le_total(a.drop_first(), b.drop_first());
        } else {
            vstd::utf8::char_u32_cast(a[0], a[0] as u32);
            vstd::utf8::char_u32_cast(b[0], b[0] as u32);
        }
    }
}

/// The order of texts is transitive.
pub proof fn lemma_text_le_transitive(a: Seq<char>, b: Seq<char>, c: Seq<char>)
    requires
        text_le(a, b),
        text_le(b, c),
    ensures
        text_le(a, c),
    decreases a.len(),
{
    if a.len() > 0 && b.len() > 0 && c.len() > 0 && a[0] == b[0] && b[0] == c[0] {
        lemma_text_le_transitive(a.drop_first(), b.drop_first(), c.drop_first());
    }
}

/// `text_le` over two character vectors.
pub fn chars_le(a: &Vec<char>, b: &Vec<char>) -> (r: bool)
    ensures
        r == text_le(a@, b@),
{
    let mut i: usize = 0;
    assert(a@.skip(0) =~= a@ && b@.skip(0) =~= b@);
    while i < a.len() && i < b.len() && a[i] == b[i]
        invariant
            i <= a@.len(),
            i <= b@.len(),
            text_le(a@, b@) == text_le(a@.skip(i as int), b@.skip(i as int)),
        decreases a.len() - i,
    {
        assert(a@.skip(i as int).drop_first() =~= a@.skip(i + 1));
        assert(b@.skip(i as int).drop_first() =~= b@.skip(i + 1));
        i += 1;
    }
    if i == a.len() {
        true
    } else if i == b.len() {
        false
    } else {
        (a[i] as u32) < (b[i] as u32)
    }
}

/// Whether `needle` occurs in `hay` as a run of consecutive characters.
pub open spec fn has_infix(hay: Seq<char>, needle: Seq<char>) -> bool {
    exists|i: int| 0 <= i <= hay.len() - needle.len() && #[trigger] hay.subrange(i, i + needle.len()) == needle
}

/// `has_infix` over two character vectors.
pub fn chars_contain(hay: &Vec<char>, needle: &Vec<char>) -> (r: bool)
    ensures
        r == has_infix(hay@, needle@),
{
    if needle.len() > hay.len() {
        return false;
    }
    let n = hay.len();
    let last = n - needle.len();
    let mut i: usize = 0;
    loop
        invariant
            n == hay@.len(),
            last == n - needle@.len(),
            i <= last,
            forall|j: int| 0 <= j < i ==> #[trigger] hay@.subrange(j, j + needle@.len()) != needle@,
        decreases last - i,
    {
        let mut k: usize = 0;
        while k < needle.len() && hay[i + k] == needle[k]
            invariant
                n == hay@.len(),
                i <= last,
                last == n - needle@.len(),
                k <= needle@.len(),
                forall|m: int| 0 <= m < k ==> hay@[i + m] == needle@[m],
            decreases needle.len() - k,
        {
            k += 1;
        }
        if k == needle.len() {
            assert(hay@.subrange(i as int, i + needle@.len()) =~= needle@);
            return true;
        }
        assert(hay@.subrange(i as int, i + needle@.len())[k as int] != needle@[k as int]);
        if i == last {
            return false;
        }
        i += 1;
    }
}

/// The texts of `v`, in order.
pub open spec fn texts(v: Seq<String>) -> Seq<Seq<char>> {
    v.map_values(|t: String| t@)
}

/// Whether `s` is among `list`.
pub fn contains_text(list: &[String], s: &String) -> (r: bool)
    ensures
        r == texts(list@).contains(s@),
{
    let mut i: usize = 0;
    while i < list.len()
        invariant
            i <= list@.len(),
            forall|j: int| 0 <= j < i ==> list@[j]@ != s@,
        decreases list.len() - i,
    {
        if text_eq(list[i].as_str(), s.as_str()) {
            assert(texts(list@)[i as int] == s@);
            return true;
        }
        i += 1;
    }
    assert forall|j: int| 0 <= j < texts(list@).len() implies texts(list@)[j] != s@ by {
        assert(list@[j]@ != s@);
    }
    false
}

/// No text occurs twice in `v`.
pub open spec fn distinct_texts(v: Seq<String>) -> bool {
    forall|i: int, j: int| 0 <= i < j < v.len() ==> (#[trigger] v[i])@ != (#[trigger] v[j])@
}

/// Adds `item` to the set `set` when it is not there, takes it out when it
/// is; returns whether it is in the set afterwards.
pub fn toggle_text(set: &mut Vec<String>, item: &String) -> (now_in: bool)
    requires
        distinct_texts(old(set)@),
    ensures
        distinct_texts(final(set)@),
        now_in == !texts(old(set)@).contains(item@),
        now_in == texts(final(set)@).contains(item@),
        now_in ==> texts(final(set)@) == texts(old(set)@).push(item@),
        !now_in ==> exists|p: int|
            0 <= p < old(set)@.len() && old(set)@[p]@ == item@ && texts(final(set)@) == texts(old(set)@).remove(p),
{
    let ghost before = set@;
    let mut i: usize = 0;
    while i < set.len()
        invariant
            set@ == before,
            before == old(set)@,
            distinct_texts(before),
            i <= before.len(),
            forall|j: int| 0 <= j < i ==> before[j]@ != item@,
        decreases set.len() - i,
    {
        if text_eq(set[i].as_str(), item.as_str()) {
            set.remove(i);
            assert(texts(set@) =~= texts(before).remove(i as int));
            assert forall|a: int, b: int| 0 <= a < b < set@.len() implies (#[trigger] set@[a])@ != (#[trigger] set@[b])@ by {
                let x = if a < i { a } else { a + 1 };
                let y = if b < i { b } else { b + 1 };
                assert(set@[a] == before[x] && set@[b] == before[y]);
            }
            assert forall|j: int| 0 <= j < texts(set@).len() implies texts(set@)[j] != item@ by {
                let y = if j < i { j } else { j + 1 };
                assert(set@[j] == before[y]);
                assert(before[i as int]@ == item@);
            }
            assert(texts(before)[i as int] == item@);
            return false;
        }
        i += 1;
    }
    assert forall|j: int| 0 <= j < texts(before).len() implies texts(before)[j] != item@ by {
        assert(before[j]@ != item@);
    }
    set.push(item.clone());
    assert(texts(set@) =~= texts(before).push(item@));
    assert(texts(set@)[before.len() as int] == item@);
    assert forall|a: int, b: int| 0 <= a < b < set@.len() implies (#[trigger] set@[a])@ != (#[trigger] set@[b])@ by {
        if b < before.len() {
            assert(set@[a] == before[a] && set@[b] == before[b]);
        } else {
            assert(set@[a] == before[a]);
        }
    }
    true
}

} // verus!
