//! The source archive shown as a folder tree: every archived file under
//! its folders, a chain of folders that hold nothing but one sub-folder
//! folded into one row, folders before files and each sorted by name, and
//! a filter over the full path.

use vstd::prelude::*;
use vstd::string::{StrSliceExecFns, StringExecFns, StringSliceAdditionalSpecFns};
use vstd::utf8::{encode_scalar, encode_utf8, char_is_scalar};
use crate::tree_view::{trim_text, trimmed};
use crate::msbuild::detect::{leading_white_space, white_space};
use crate::model::{append_decimal, decimal, FileEntry, FileList, FileMatch, FileMatches, FileSearchResponse, MatchSpan};
use crate::text::{distinct_texts, toggle_text, lemma_text_le_total, lemma_text_le_transitive, chars_contain, chars_of, chars_le, contains_text, has_infix, lowercase, text_eq, text_le, texts, to_lowercase};

verus! {

/// A path separator of either family.
pub open spec fn is_separator(c: char) -> bool {
    c == '/' || c == '\\'
}

/// Reading `s` left to right: the segments finished so far and the one
/// still being read.
pub open spec fn split_state(s: Seq<char>) -> (Seq<Seq<char>>, Seq<char>)
    decreases s.len(),
{
    if s.len() == 0 {
        (seq![], seq![])
    } else {
        let (done, cur) = split_state(s.drop_last());
        if is_separator(s.last()) {
            (if cur.len() > 0 {
                done.push(cur)
            } else {
                done
            }, seq![])
        } else {
            (done, cur.push(s.last()))
        }
    }
}

/// The non-empty pieces of a path between separators.
pub open spec fn segments(s: Seq<char>) -> Seq<Seq<char>> {
    let (done, cur) = split_state(s);
    if cur.len() > 0 {
        done.push(cur)
    } else {
        done
    }
}

/// The segments of `path`.
fn path_segments(path: &str) -> (r: Vec<String>)
    ensures
        texts(r@) == segments(path@),
{
    let cs = chars_of(path);
    let mut out: Vec<String> = Vec::new();
    let mut start: usize = 0;
    let mut i: usize = 0;
    while i < cs.len()
        invariant
            cs@ == path@,
            start <= i <= cs@.len(),
            texts(out@) == split_state(path@.take(i as int)).0,
            path@.subrange(start as int, i as int) == split_state(path@.take(i as int)).1,
        decreases cs.len() - i,
    {
        proof {
            assert(path@.take(i + 1).drop_last() =~= path@.take(i as int));
        }
        if cs[i] == '/' || cs[i] == '\\' {
            if i > start {
                let piece = String::from_str(path.substring_char(start, i));
                out.push(piece);
                assert(texts(out@) =~= texts(out@.drop_last()).push(piece@));
            }
            start = i + 1;
            assert(path@.subrange(start as int, i + 1) =~= seq![]);
        } else {
            assert(path@.subrange(start as int, i + 1) =~= path@.subrange(start as int, i as int).push(cs@[i as int]));
        }
        i += 1;
    }
    assert(path@.take(i as int) =~= path@);
    if i > start {
        let piece = String::from_str(path.substring_char(start, i));
        out.push(piece);
        assert(texts(out@) =~= texts(out@.drop_last()).push(piece@));
    }
    out
}

/// The separator that folded folder names are joined with: a backslash
/// when the first path has a drive colon or does not start with a
/// separator, a slash otherwise.
pub open spec fn separator_of(files: Seq<FileEntry>) -> char {
    if files.len() > 0 && (files[0].path@.contains(':') || files[0].path@.len() == 0 || !is_separator(
        files[0].path@[0],
    )) {
        '\\'
    } else {
        '/'
    }
}

pub fn separator(files: &[FileEntry]) -> (r: char)
    ensures
        r == separator_of(files@),
{
    if files.len() == 0 {
        return '/';
    }
    let cs = chars_of(files[0].path.as_str());
    let mut i: usize = 0;
    while i < cs.len()
        invariant
            files@.len() > 0,
            cs@ == files@[0].path@,
            i <= cs@.len(),
            forall|j: int| 0 <= j < i ==> cs@[j] != ':',
        decreases cs.len() - i,
    {
        if cs[i] == ':' {
            assert(files@[0].path@[i as int] == ':');
            return '\\';
        }
        i += 1;
    }
    if cs.len() == 0 || (cs[0] != '/' && cs[0] != '\\') {
        '\\'
    } else {
        '/'
    }
}

/// A file as the tree files it: the segments of its path, its path and
/// its line count.
pub ghost struct Filed {
    pub segments: Seq<Seq<char>>,
    pub path: Seq<char>,
    pub lines: usize,
}

/// The files that have at least one segment, in order.
pub open spec fn filed(files: Seq<FileEntry>) -> Seq<Filed>
    decreases files.len(),
{
    if files.len() == 0 {
        seq![]
    } else {
        let rest = filed(files.drop_last());
        let f = files.last();
        if segments(f.path@).len() > 0 {
            rest.push(Filed { segments: segments(f.path@), path: f.path@, lines: f.lines })
        } else {
            rest
        }
    }
}

/// The most segments any file has.
pub open spec fn tallest(fs: Seq<Filed>) -> nat
    decreases fs.len(),
{
    if fs.len() == 0 {
        0
    } else {
        let t = tallest(fs.drop_last());
        if fs.last().segments.len() > t {
            fs.last().segments.len()
        } else {
            t
        }
    }
}

/// The trie of path segments: a node per distinct prefix, holding the file
/// that ends there, if one does.
pub ghost struct Trie {
    pub name: Seq<char>,
    pub entry: Option<(Seq<char>, usize)>,
    pub children: Seq<Trie>,
}

/// The distinct segments at level `k`, in the order they first occur.
pub open spec fn names_at(fs: Seq<Filed>, k: int) -> Seq<Seq<char>>
    decreases fs.len(),
{
    if fs.len() == 0 {
        seq![]
    } else {
        let r = names_at(fs.drop_last(), k);
        let n = fs.last().segments[k];
        if r.contains(n) {
            r
        } else {
            r.push(n)
        }
    }
}

/// The last file whose path ends with `name` at level `k`.
pub open spec fn entry_at(fs: Seq<Filed>, k: int, name: Seq<char>) -> Option<(Seq<char>, usize)>
    decreases fs.len(),
{
    if fs.len() == 0 {
        None
    } else if fs.last().segments.len() == k + 1 && fs.last().segments[k] == name {
        Some((fs.last().path, fs.last().lines))
    } else {
        entry_at(fs.drop_last(), k, name)
    }
}

/// The files that go on below `name` at level `k`.
pub open spec fn below(fs: Seq<Filed>, k: int, name: Seq<char>) -> Seq<Filed>
    decreases fs.len(),
{
    if fs.len() == 0 {
        seq![]
    } else {
        let r = below(fs.drop_last(), k, name);
        if fs.last().segments.len() > k + 1 && fs.last().segments[k] == name {
            r.push(fs.last())
        } else {
            r
        }
    }
}

/// The tries of the files from level `k` down, at most `height` levels.
pub open spec fn forest(fs: Seq<Filed>, k: int, height: nat) -> Seq<Trie>
    decreases height,
{
    if height == 0 {
        seq![]
    } else {
        names_at(fs, k).map_values(
            |n: Seq<char>|
                Trie {
                    name: n,
                    entry: entry_at(fs, k, n),
                    children: forest(below(fs, k, n), k + 1, (height - 1) as nat),
                },
        )
    }
}

/// A file ready to be filed.
struct Placed {
    segments: Vec<String>,
    path: String,
    lines: usize,
}

spec fn placed_view(p: Placed) -> Filed {
    Filed { segments: texts(p.segments@), path: p.path@, lines: p.lines }
}

spec fn pick(all: Seq<Placed>, idx: Seq<usize>) -> Seq<Filed> {
    idx.map_values(|i: usize| placed_view(all[i as int]))
}

/// A trie node under construction.
struct Builder {
    name: String,
    entry: Option<(String, usize)>,
    children: Vec<Builder>,
}

spec fn entry_view(e: Option<(String, usize)>) -> Option<(Seq<char>, usize)> {
    match e {
        Some((p, l)) => Some((p@, l)),
        None => None,
    }
}

spec fn trie_of(b: Builder) -> Trie
    decreases b,
{
    Trie {
        name: b.name@,
        entry: entry_view(b.entry),
        children: Seq::new(
            b.children@.len(),
            |i: int|
                if 0 <= i < b.children@.len() {
                    proof {
                        assert(decreases_to!(b => b.children));
                        assert(decreases_to!(b.children => b.children@));
                        assert(decreases_to!(b.children@ => b.children@[i]));
                    }
                    trie_of(b.children@[i])
                } else {
                    Trie { name: seq![], entry: None, children: seq![] }
                },
        ),
    }
}

spec fn tries_of(bs: Seq<Builder>) -> Seq<Trie> {
    bs.map_values(|b: Builder| trie_of(b))
}

spec fn deep_at(all: Seq<Placed>, i: usize, k: int) -> bool {
    i < all.len() && all[i as int].segments@.len() > k
}

spec fn picks_deep(all: Seq<Placed>, idx: Seq<usize>, k: int) -> bool {
    forall|j: int| 0 <= j < idx.len() ==> #[trigger] deep_at(all, idx[j], k)
}

proof fn lemma_pick_take(all: Seq<Placed>, idx: Seq<usize>, j: int)
    requires
        0 <= j < idx.len(),
    ensures
        pick(all, idx).take(j + 1).drop_last() == pick(all, idx).take(j),
        pick(all, idx).take(j + 1).last() == placed_view(all[idx[j] as int]),
        pick(all, idx.take(j + 1)) == pick(all, idx).take(j + 1),
{
    assert(pick(all, idx).take(j + 1).drop_last() =~= pick(all, idx).take(j));
    assert(pick(all, idx.take(j + 1)) =~= pick(all, idx).take(j + 1));
}

proof fn lemma_picks_push(all: Seq<Placed>, idx: Seq<usize>, x: usize, k: int)
    requires
        picks_deep(all, idx, k),
        deep_at(all, x, k),
    ensures
        picks_deep(all, idx.push(x), k),
{
    assert forall|j: int| 0 <= j < idx.push(x).len() implies #[trigger] deep_at(all, idx.push(x)[j], k) by {
        if j < idx.len() {
            assert(idx.push(x)[j] == idx[j]);
            assert(deep_at(all, idx[j], k));
        }
    }
}

/// The tries of the picked files from level `k` down.
#[verifier::spinoff_prover]
fn group(all: &Vec<Placed>, idx: &Vec<usize>, k: usize, height: usize) -> (r: Vec<Builder>)
    requires
        picks_deep(all@, idx@, k as int),
    ensures
        tries_of(r@) == forest(pick(all@, idx@), k as int, height as nat),
    decreases height,
{
    let ghost fs = pick(all@, idx@);
    if height == 0 {
        let none: Vec<Builder> = Vec::new();
        assert(tries_of(none@) =~= seq![]);
        return none;
    }
    let mut names: Vec<String> = Vec::new();
    let mut j: usize = 0;
    while j < idx.len()
        invariant
            picks_deep(all@, idx@, k as int),
            fs == pick(all@, idx@),
            j <= idx@.len(),
            texts(names@) == names_at(fs.take(j as int), k as int),
        decreases idx.len() - j,
    {
        proof {
            lemma_pick_take(all@, idx@, j as int);
        }
        assert(deep_at(all@, idx@[j as int], k as int));
        let name = &all[idx[j]].segments[k];
        if !contains_text(names.as_slice(), name) {
            names.push(name.clone());
            assert(texts(names@) =~= texts(names@.drop_last()).push(name@));
        }
        j += 1;
    }
    assert(fs.take(idx@.len() as int) =~= fs);
    let mut out: Vec<Builder> = Vec::new();
    let mut m: usize = 0;
    while m < names.len()
        invariant
            picks_deep(all@, idx@, k as int),
            fs == pick(all@, idx@),
            height > 0,
            texts(names@) == names_at(fs, k as int),
            m <= names@.len(),
            tries_of(out@) == forest(fs, k as int, height as nat).take(m as int),
        decreases names.len() - m,
    {
        let name = &names[m];
        let mut entry: Option<(String, usize)> = None;
        let mut sub: Vec<usize> = Vec::new();
        let mut j: usize = 0;
        while j < idx.len()
            invariant
                picks_deep(all@, idx@, k as int),
                fs == pick(all@, idx@),
                j <= idx@.len(),
                entry_view(entry) == entry_at(fs.take(j as int), k as int, name@),
                pick(all@, sub@) == below(fs.take(j as int), k as int, name@),
                picks_deep(all@, sub@, k + 1),
            decreases idx.len() - j,
        {
            proof {
                lemma_pick_take(all@, idx@, j as int);
            }
            assert(deep_at(all@, idx@[j as int], k as int));
            let f = &all[idx[j]];
            if text_eq(f.segments[k].as_str(), name.as_str()) {
                if f.segments.len() == k + 1 {
                    entry = Some((f.path.clone(), f.lines));
                } else {
                    let ghost before = sub@;
                    sub.push(idx[j]);
                    assert(pick(all@, sub@) =~= pick(all@, before).push(placed_view(all@[idx@[j as int] as int])));
                    proof {
                        lemma_picks_push(all@, before, idx@[j as int], k + 1);
                    }
                    assert(picks_deep(all@, sub@, k + 1));
                }
            }
            j += 1;
        }
        assert(fs.take(idx@.len() as int) =~= fs);
        let children = if sub.len() == 0 {
            let none: Vec<Builder> = Vec::new();
            assert(pick(all@, sub@) =~= seq![]);
            assert(tries_of(none@) =~= forest(pick(all@, sub@), k + 1, (height - 1) as nat));
            none
        } else {
            assert(deep_at(all@, sub@[0], k + 1));
            let deepest = all[sub[0]].segments.len();
            assert(k + 1 < deepest);
            group(all, &sub, k + 1, height - 1)
        };
        let b = Builder { name: name.clone(), entry, children };
        assert(trie_of(b).children =~= tries_of(children@));
        let ghost before = out@;
        out.push(b);
        assert(tries_of(out@) =~= tries_of(before).push(trie_of(b)));
        assert(tries_of(out@) =~= forest(fs, k as int, height as nat).take(m + 1));
        m += 1;
    }
    out
}

/// A node of the archive tree: a folder, or a file with its line count.
pub ghost struct FileTree {
    pub name: Seq<char>,
    pub path: Seq<char>,
    pub lines: usize,
    pub file: bool,
    pub children: Seq<FileTree>,
}

/// `name` under the folder path `prefix`.
pub open spec fn join_path(prefix: Seq<char>, sep: char, name: Seq<char>) -> Seq<char> {
    if prefix.len() == 0 {
        name
    } else {
        prefix + seq![sep] + name
    }
}

/// A folder holding nothing but one sub-folder folds into it.
pub open spec fn merges(t: Trie) -> bool {
    t.entry is None && t.children.len() == 1 && t.children[0].entry is None
}

/// Folders before files; within each, by lowercased name.
pub open spec fn sorts_before(a: FileTree, b: FileTree) -> bool {
    (!a.file && b.file) || (a.file == b.file && text_le(lowercase(a.name), lowercase(b.name)))
}

/// `x` put into the sorted `s` after every node it does not sort before.
pub open spec fn insert_sorted(s: Seq<FileTree>, x: FileTree) -> Seq<FileTree>
    decreases s.len(),
{
    if s.len() == 0 || sorts_before(s.last(), x) {
        s.push(x)
    } else {
        insert_sorted(s.drop_last(), x).push(s.last())
    }
}

/// `s` sorted, nodes that tie keeping their order.
pub open spec fn sorted_nodes(s: Seq<FileTree>) -> Seq<FileTree>
    decreases s.len(),
{
    if s.len() == 0 {
        s
    } else {
        insert_sorted(sorted_nodes(s.drop_last()), s.last())
    }
}

/// The archive tree node for the trie node `t` shown as `name` under the
/// folder path `prefix`.
pub open spec fn finished(t: Trie, name: Seq<char>, prefix: Seq<char>, sep: char) -> FileTree
    decreases t, 1nat,
{
    if merges(t) {
        proof {
            assert(decreases_to!(t => t.children));
            assert(decreases_to!(t.children => t.children[0]));
        }
        finished(t.children[0], name + seq![sep] + t.children[0].name, prefix, sep)
    } else {
        let path = join_path(prefix, sep, name);
        let kids = sorted_nodes(finished_children(t, path, sep));
        match t.entry {
            Some((p, l)) => FileTree { name, path: p, lines: l, file: true, children: kids },
            None => FileTree { name, path, lines: 0, file: false, children: kids },
        }
    }
}

/// The children of `t` finished under the folder path `path`, in trie
/// order.
pub open spec fn finished_children(t: Trie, path: Seq<char>, sep: char) -> Seq<FileTree>
    decreases t, 0nat,
{
    Seq::new(
        t.children.len(),
        |i: int|
            if 0 <= i < t.children.len() {
                proof {
                    assert(decreases_to!(t => t.children));
                    assert(decreases_to!(t.children => t.children[i]));
                }
                finished(t.children[i], t.children[i].name, path, sep)
            } else {
                FileTree { name: seq![], path: seq![], lines: 0, file: false, children: seq![] }
            },
    )
}

/// A node of the archive tree.
#[derive(Debug, PartialEq)]
pub struct FileNode {
    pub name: String,
    /// The archive path of the file, or of the folder.
    pub path: String,
    pub lines: usize,
    pub file: bool,
    pub children: Vec<FileNode>,
}

pub open spec fn tree_of(n: FileNode) -> FileTree
    decreases n,
{
    FileTree {
        name: n.name@,
        path: n.path@,
        lines: n.lines,
        file: n.file,
        children: Seq::new(
            n.children@.len(),
            |i: int|
                if 0 <= i < n.children@.len() {
                    proof {
                        assert(decreases_to!(n => n.children));
                        assert(decreases_to!(n.children => n.children@));
                        assert(decreases_to!(n.children@ => n.children@[i]));
                    }
                    tree_of(n.children@[i])
                } else {
                    FileTree { name: seq![], path: seq![], lines: 0, file: false, children: seq![] }
                },
        ),
    }
}

pub open spec fn trees_of(ns: Seq<FileNode>) -> Seq<FileTree> {
    ns.map_values(|n: FileNode| tree_of(n))
}

proof fn lemma_insert_at(s: Seq<FileTree>, x: FileTree, p: int)
    requires
        0 <= p <= s.len(),
        p == 0 || sorts_before(s[p - 1], x),
        forall|j: int| p <= j < s.len() ==> !sorts_before(#[trigger] s[j], x),
    ensures
        insert_sorted(s, x) == s.insert(p, x),
    decreases s.len(),
{
    if p == s.len() {
        assert(s.insert(p, x) =~= s.push(x));
    } else {
        assert(!sorts_before(s[s.len() - 1], x));
        lemma_insert_at(s.drop_last(), x, p);
        assert(s.insert(p, x) =~= s.drop_last().insert(p, x).push(s.last()));
    }
}

/// `name` with `sep` and `more` after it.
fn joined(name: &String, sep: char, more: &String) -> (r: String)
    requires
        sep == '/' || sep == '\\',
    ensures
        r@ == name@ + seq![sep] + more@,
{
    let mut r = name.clone();
    if sep == '/' {
        proof {
            reveal_strlit("/");
        }
        r.append("/");
    } else {
        proof {
            reveal_strlit("\\");
        }
        assert(sep == '\\');
        r.append("\\");
    }
    r.append(more.as_str());
    r
}

/// The archive tree node for the trie node `b`, shown as `name` under the
/// folder path `prefix`.
#[verifier::spinoff_prover]
fn finish(b: &Builder, name: String, prefix: &String, sep: char) -> (r: FileNode)
    requires
        sep == '/' || sep == '\\',
    ensures
        tree_of(r) == finished(trie_of(*b), name@, prefix@, sep),
    decreases b,
{
    let ghost t = trie_of(*b);
    assert(t.children.len() == b.children@.len());
    if b.entry.is_none() && b.children.len() == 1 && b.children[0].entry.is_none() {
        assert(t.children[0] == trie_of(b.children@[0]));
        assert(merges(t));
        let only = &b.children[0];
        let longer = joined(&name, sep, &only.name);
        return finish(only, longer, prefix, sep);
    }
    assert(!merges(t));
    let path = if prefix.as_str().is_empty() {
        name.clone()
    } else {
        joined(prefix, sep, &name)
    };
    let ghost kids = finished_children(t, path@, sep);
    let mut out: Vec<FileNode> = Vec::new();
    let mut keys: Vec<Vec<char>> = Vec::new();
    let mut i: usize = 0;
    while i < b.children.len()
        invariant
            sep == '/' || sep == '\\',
            t == trie_of(*b),
            t.children.len() == b.children@.len(),
            i <= b.children@.len(),
            kids == finished_children(t, path@, sep),
            trees_of(out@) == sorted_nodes(kids.take(i as int)),
            keys@.len() == out@.len(),
            forall|j: int| 0 <= j < keys@.len() ==> (#[trigger] keys@[j])@ == lowercase(out@[j].name@),
        decreases b.children.len() - i,
    {
        let child = &b.children[i];
        assert(t.children[i as int] == trie_of(*child));
        let kid = finish(child, child.name.clone(), &path, sep);
        let key = chars_of(to_lowercase(kid.name.as_str()).as_str());
        let mut p = out.len();
        while p > 0 && !((!out[p - 1].file && kid.file) || (out[p - 1].file == kid.file && chars_le(&keys[p - 1], &key)))
            invariant
                p <= out@.len(),
                keys@.len() == out@.len(),
                forall|j: int| 0 <= j < keys@.len() ==> (#[trigger] keys@[j])@ == lowercase(out@[j].name@),
                key@ == lowercase(kid.name@),
                forall|j: int| p <= j < out@.len() ==> !sorts_before(#[trigger] trees_of(out@)[j], tree_of(kid)),
            decreases p,
        {
            assert(trees_of(out@)[p - 1] == tree_of(out@[p - 1]));
            p -= 1;
        }
        proof {
            if p > 0 {
                assert(trees_of(out@)[p - 1] == tree_of(out@[p - 1]));
            }
            lemma_insert_at(trees_of(out@), tree_of(kid), p as int);
            assert(kids.take(i + 1).drop_last() =~= kids.take(i as int));
        }
        let ghost before = out@;
        let ghost before_keys = keys@;
        out.insert(p, kid);
        keys.insert(p, key);
        assert(trees_of(out@) =~= trees_of(before).insert(p as int, tree_of(kid)));
        assert forall|j: int| 0 <= j < keys@.len() implies (#[trigger] keys@[j])@ == lowercase(out@[j].name@) by {
            if j < p {
                assert(keys@[j] == before_keys[j] && out@[j] == before[j]);
            } else if j > p {
                assert(keys@[j] == before_keys[j - 1] && out@[j] == before[j - 1]);
            }
        }
        i += 1;
    }
    assert(kids.take(b.children@.len() as int) =~= kids);
    let ghost sorted = trees_of(out@);
    assert(sorted == sorted_nodes(kids));
    match &b.entry {
        Some((p, l)) => {
            let r = FileNode { name, path: p.clone(), lines: *l, file: true, children: out };
            assert(tree_of(r).children =~= sorted);
            assert(t.entry == Some((p@, *l)));
            r
        },
        None => {
            let r = FileNode { name, path, lines: 0, file: false, children: out };
            assert(tree_of(r).children =~= sorted);
            assert(t.entry is None);
            r
        },
    }
}

/// The archive as a folder tree: the tries of the files' segments, each
/// root finished at the top level.
pub open spec fn archive_tree(files: Seq<FileEntry>) -> Seq<FileTree> {
    let fs = filed(files);
    forest(fs, 0, tallest(fs)).map_values(|t: Trie| finished(t, t.name, seq![], separator_of(files)))
}

#[verifier::spinoff_prover]
pub fn build_tree(files: &[FileEntry]) -> (r: Vec<FileNode>)
    ensures
        trees_of(r@) == archive_tree(files@),
{
    let sep = separator(files);
    let mut all: Vec<Placed> = Vec::new();
    let mut i: usize = 0;
    while i < files.len()
        invariant
            i <= files@.len(),
            all@.map_values(|p: Placed| placed_view(p)) == filed(files@.take(i as int)),
            forall|j: int| 0 <= j < all@.len() ==> (#[trigger] all@[j]).segments@.len() > 0,
        decreases files.len() - i,
    {
        assert(files@.take(i + 1).drop_last() =~= files@.take(i as int));
        let segs = path_segments(files[i].path.as_str());
        if segs.len() > 0 {
            let ghost before = all@;
            all.push(Placed { segments: segs, path: files[i].path.clone(), lines: files[i].lines });
            assert(all@.map_values(|p: Placed| placed_view(p)) =~= before.map_values(|p: Placed| placed_view(p)).push(
                placed_view(all@.last()),
            ));
        }
        i += 1;
    }
    assert(files@.take(files@.len() as int) =~= files@);
    let ghost fs = filed(files@);
    let mut idx: Vec<usize> = Vec::new();
    let mut height: usize = 0;
    let mut j: usize = 0;
    while j < all.len()
        invariant
            j <= all@.len(),
            idx@.len() == j,
            forall|m: int| 0 <= m < j ==> idx@[m] == m,
            forall|m: int| 0 <= m < all@.len() ==> (#[trigger] all@[m]).segments@.len() > 0,
            fs == all@.map_values(|p: Placed| placed_view(p)),
            height == tallest(fs.take(j as int)),
        decreases all.len() - j,
    {
        assert(fs.take(j + 1).drop_last() =~= fs.take(j as int));
        if all[j].segments.len() > height {
            height = all[j].segments.len();
        }
        idx.push(j);
        j += 1;
    }
    assert(fs.take(all@.len() as int) =~= fs);
    assert(pick(all@, idx@) =~= fs);
    assert forall|m: int| 0 <= m < idx@.len() implies #[trigger] deep_at(all@, idx@[m], 0) by {
        assert(all@[m].segments@.len() > 0);
    }
    let roots = group(&all, &idx, 0, height);
    let top = String::new();
    let mut out: Vec<FileNode> = Vec::new();
    let mut k: usize = 0;
    while k < roots.len()
        invariant
            k <= roots@.len(),
            top@ == Seq::<char>::empty(),
            sep == separator_of(files@),
            tries_of(roots@) == forest(fs, 0, tallest(fs)),
            fs == filed(files@),
            trees_of(out@) == archive_tree(files@).take(k as int),
        decreases roots.len() - k,
    {
        let node = finish(&roots[k], roots[k].name.clone(), &top, sep);
        let ghost before = out@;
        out.push(node);
        assert(trees_of(out@) =~= trees_of(before).push(tree_of(node)));
        assert(trees_of(out@) =~= archive_tree(files@).take(k + 1));
        k += 1;
    }
    assert(archive_tree(files@).take(roots@.len() as int) =~= archive_tree(files@));
    out
}

/// A visible row of the archive tree.
#[derive(Debug, PartialEq)]
pub struct FileRow {
    pub depth: usize,
    pub name: String,
    pub path: String,
    pub lines: usize,
    pub file: bool,
    pub expanded: bool,
}

pub ghost struct RowModel {
    pub depth: int,
    pub name: Seq<char>,
    pub path: Seq<char>,
    pub lines: usize,
    pub file: bool,
    pub expanded: bool,
}

pub open spec fn row_model(r: FileRow) -> RowModel {
    RowModel { depth: r.depth as int, name: r.name@, path: r.path@, lines: r.lines, file: r.file, expanded: r.expanded }
}

pub open spec fn row_models(rs: Seq<FileRow>) -> Seq<RowModel> {
    rs.map_values(|r: FileRow| row_model(r))
}

/// How many levels `t` reaches below itself.
pub open spec fn reach(t: FileTree) -> nat
    decreases t, 1nat,
{
    if t.children.len() == 0 {
        0
    } else {
        1 + reach_all(t.children, t.children.len())
    }
}

/// The most levels any of the first `n` trees reaches.
pub open spec fn reach_all(ts: Seq<FileTree>, n: nat) -> nat
    decreases ts, n,
{
    if n == 0 || n > ts.len() {
        0
    } else {
        let a = reach_all(ts, (n - 1) as nat);
        let b = reach(ts[n - 1]);
        if a > b {
            a
        } else {
            b
        }
    }
}

/// The rows `t` shows at `depth`, and whether anything of it survived.
/// Without a filter a folder shows its contents when it is in `opened`;
/// with one, only files whose lowercased path holds the filter survive,
/// and every folder above one is open.
pub open spec fn emitted(t: FileTree, depth: int, filter: Seq<char>, opened: Seq<Seq<char>>) -> (
    Seq<RowModel>,
    bool,
)
    decreases t, 1nat,
{
    if t.file {
        if filter.len() > 0 && !has_infix(lowercase(t.path), filter) {
            (seq![], false)
        } else {
            (
                seq![RowModel { depth, name: t.name, path: t.path, lines: t.lines, file: true, expanded: false }],
                true,
            )
        }
    } else {
        let open = filter.len() > 0 || opened.contains(t.path);
        let head = RowModel { depth, name: t.name, path: t.path, lines: 0, file: false, expanded: open };
        if !open {
            (seq![head], true)
        } else {
            let (rows, any) = emitted_all(t.children, t.children.len(), depth + 1, filter, opened);
            if !any && filter.len() > 0 {
                (seq![], false)
            } else {
                (seq![head] + rows, any || filter.len() == 0)
            }
        }
    }
}

/// The rows of the first `n` trees of `ts`, one after another, and whether
/// any of them survived.
pub open spec fn emitted_all(ts: Seq<FileTree>, n: nat, depth: int, filter: Seq<char>, opened: Seq<Seq<char>>) -> (
    Seq<RowModel>,
    bool,
)
    decreases ts, n,
{
    if n == 0 || n > ts.len() {
        (seq![], false)
    } else {
        let (a, x) = emitted_all(ts, (n - 1) as nat, depth, filter, opened);
        let (b, y) = emitted(ts[n - 1], depth, filter, opened);
        (a + b, x || y)
    }
}

proof fn lemma_reach_child(t: FileTree, i: int)
    requires
        0 <= i < t.children.len(),
    ensures
        reach(t.children[i]) + 1 <= reach(t),
{
    lemma_reach_all_bound(t.children, t.children.len(), i);
}

proof fn lemma_reach_all_bound(ts: Seq<FileTree>, n: nat, i: int)
    requires
        0 <= i < n <= ts.len(),
    ensures
        reach(ts[i]) <= reach_all(ts, n),
    decreases n,
{
    if i < n - 1 {
        lemma_reach_all_bound(ts, (n - 1) as nat, i);
    }
}

/// Appends `node`'s visible rows, returning whether anything survived.
/// `filter` is already lowercased; `expanded` holds the folder paths the
/// user opened.
#[verifier::spinoff_prover]
pub fn emit(node: &FileNode, depth: usize, filter: &str, expanded: &[String], rows: &mut Vec<FileRow>) -> (r: bool)
    requires
        depth + reach(tree_of(*node)) <= usize::MAX,
    ensures
        row_models(final(rows)@) == row_models(old(rows)@) + emitted(tree_of(*node), depth as int, filter@, texts(expanded@)).0,
        r == emitted(tree_of(*node), depth as int, filter@, texts(expanded@)).1,
    decreases node,
{
    let ghost t = tree_of(*node);
    let ghost opened = texts(expanded@);
    let ghost start = row_models(rows@);
    if node.file {
        if !filter.is_empty() {
            let hay = chars_of(to_lowercase(node.path.as_str()).as_str());
            let needle = chars_of(filter);
            if !chars_contain(&hay, &needle) {
                assert(row_models(rows@) =~= start + seq![]);
                return false;
            }
        }
        let row = FileRow {
            depth,
            name: node.name.clone(),
            path: node.path.clone(),
            lines: node.lines,
            file: true,
            expanded: false,
        };
        rows.push(row);
        assert(row_models(rows@) =~= start + seq![row_model(row)]);
        return true;
    }
    let open = if filter.is_empty() {
        contains_text(expanded, &node.path)
    } else {
        true
    };
    let at = rows.len();
    let head = FileRow {
        depth,
        name: node.name.clone(),
        path: node.path.clone(),
        lines: 0,
        file: false,
        expanded: open,
    };
    rows.push(head);
    assert(row_models(rows@) =~= start + seq![row_model(head)]);
    if !open {
        return true;
    }
    let mut any = false;
    let mut i: usize = 0;
    assert(t.children.len() == node.children@.len());
    while i < node.children.len()
        invariant
            t == tree_of(*node),
            opened == texts(expanded@),
            depth + reach(t) <= usize::MAX,
            t.children.len() == node.children@.len(),
            t.children.len() > 0 ==> reach(t) == 1 + reach_all(t.children, t.children.len()),
            i <= node.children@.len(),
            at == start.len(),
            row_models(rows@) == start + seq![row_model(head)] + emitted_all(
                t.children,
                i as nat,
                depth + 1,
                filter@,
                opened,
            ).0,
            any == emitted_all(t.children, i as nat, depth + 1, filter@, opened).1,
        decreases node.children.len() - i,
    {
        let child = &node.children[i];
        assert(t.children[i as int] == tree_of(*child));
        proof {
            lemma_reach_child(t, i as int);
        }
        let got = emit(child, depth + 1, filter, expanded, rows);
        any = any || got;
        assert(row_models(rows@) =~= start + seq![row_model(head)] + emitted_all(
            t.children,
            (i + 1) as nat,
            depth + 1,
            filter@,
            opened,
        ).0);
        i += 1;
    }
    if !any && !filter.is_empty() {
        let ghost full = rows@;
        assert(row_models(full).take(at as int) =~= start);
        rows.truncate(at);
        assert(row_models(rows@) =~= row_models(full).take(at as int));
        assert(row_models(rows@) =~= start + seq![]);
    }
    any || filter.is_empty()
}

/// UTF-16 code units that `c` takes.
pub open spec fn utf16_width(c: char) -> nat {
    if (c as u32) < 0x10000 {
        1
    } else {
        2
    }
}

/// UTF-16 code units that `s` takes.
pub open spec fn utf16_len(s: Seq<char>) -> nat
    decreases s.len(),
{
    if s.len() == 0 {
        0
    } else {
        utf16_len(s.drop_last()) + utf16_width(s.last())
    }
}

/// The byte offset in `s` of the UTF-16 offset `offset`, when a character
/// starts there.
pub open spec fn utf16_byte(s: Seq<char>, offset: int) -> Option<int> {
    if exists|k: int| 0 <= k <= s.len() && #[trigger] utf16_len(s.take(k)) == offset {
        let k = choose|k: int| 0 <= k <= s.len() && #[trigger] utf16_len(s.take(k)) == offset;
        Some(encode_utf8(s.take(k)).len() as int)
    } else {
        None
    }
}

pub(crate) proof fn lemma_encode_push(s: Seq<char>, c: char)
    ensures
        encode_utf8(s.push(c)) == encode_utf8(s) + encode_scalar(c as u32),
    decreases s.len(),
{
    if s.len() == 0 {
        assert(s.push(c).drop_first() =~= seq![]);
        assert(encode_utf8(seq![]) == Seq::<u8>::empty());
        assert(encode_scalar(c as u32) + Seq::<u8>::empty() =~= encode_scalar(c as u32));
    } else {
        lemma_encode_push(s.drop_first(), c);
        assert(s.push(c).drop_first() =~= s.drop_first().push(c));
    }
}

pub(crate) proof fn lemma_encode_concat(a: Seq<char>, b: Seq<char>)
    ensures
        encode_utf8(a + b) == encode_utf8(a) + encode_utf8(b),
    decreases a.len(),
{
    if a.len() == 0 {
        assert(a + b =~= b);
        assert(encode_utf8(a) == Seq::<u8>::empty());
        assert(Seq::<u8>::empty() + encode_utf8(b) =~= encode_utf8(b));
    } else {
        lemma_encode_concat(a.drop_first(), b);
        assert((a + b).drop_first() =~= a.drop_first() + b);
        assert(encode_scalar(a[0] as u32) + (encode_utf8(a.drop_first()) + encode_utf8(b)) =~= (encode_scalar(
            a[0] as u32,
        ) + encode_utf8(a.drop_first())) + encode_utf8(b));
    }
}

proof fn lemma_utf16_grows(s: Seq<char>, i: int, j: int)
    requires
        0 <= i < j <= s.len(),
    ensures
        utf16_len(s.take(i)) < utf16_len(s.take(j)),
    decreases j - i,
{
    assert(s.take(j).drop_last() =~= s.take(j - 1));
    if i < j - 1 {
        lemma_utf16_grows(s, i, j - 1);
    }
}

/// The byte width of `c` in UTF-8.
pub(crate) fn utf8_width(c: char) -> (w: usize)
    ensures
        w == encode_scalar(c as u32).len(),
        utf16_width(c) <= w,
{
    proof {
        char_is_scalar(c);
    }
    let u = c as u32;
    if u <= 0x7f {
        1
    } else if u <= 0x7ff {
        2
    } else if u <= 0xffff {
        3
    } else {
        4
    }
}

/// Where the UTF-16 offset `offset` falls in `text`, in bytes; None when it
/// is past the end or inside a character.
#[verifier::spinoff_prover]
pub fn utf16_to_byte(text: &str, offset: usize) -> (r: Option<usize>)
    ensures
        r matches Some(b) ==> utf16_byte(text@, offset as int) == Some(b as int),
        r is None ==> utf16_byte(text@, offset as int) is None,
{
    let ghost s = text@;
    if offset == 0 {
        assert(s.take(0) =~= seq![]);
        assert(utf16_len(s.take(0)) == 0);
        proof {
            let k = choose|k: int| 0 <= k <= s.len() && #[trigger] utf16_len(s.take(k)) == 0;
            if k > 0 {
                lemma_utf16_grows(s, 0, k);
            }
        }
        return Some(0);
    }
    let cs = chars_of(text);
    let mut units: usize = 0;
    let mut byte: usize = 0;
    let mut i: usize = 0;
    let total = text.as_bytes().len();
    while i < cs.len()
        invariant
            cs@ == s,
            s == text@,
            total == encode_utf8(s).len(),
            i <= s.len(),
            units == utf16_len(s.take(i as int)),
            byte == encode_utf8(s.take(i as int)).len(),
            units <= byte,
            offset > 0,
            forall|k: int| 0 <= k < i ==> utf16_len(s.take(k)) != offset,
        decreases cs.len() - i,
    {
        if units == offset {
            proof {
                let k = choose|k: int| 0 <= k <= s.len() && #[trigger] utf16_len(s.take(k)) == offset;
                if k < i {
                } else if k > i {
                    lemma_utf16_grows(s, i as int, k);
                }
            }
            return Some(byte);
        }
        let c = cs[i];
        let w = utf8_width(c);
        proof {
            assert(s.take(i + 1) =~= s.take(i as int).push(c));
            assert(s.take(i + 1).drop_last() =~= s.take(i as int));
            lemma_encode_push(s.take(i as int), c);
            assert(s =~= s.take(i + 1) + s.skip(i + 1));
            lemma_encode_concat(s.take(i + 1), s.skip(i + 1));
        }
        units = units + if (c as u32) < 0x10000 { 1 } else { 2 };
        byte = byte + w;
        i += 1;
    }
    assert(s.take(i as int) =~= s);
    if units == offset {
        proof {
            let k = choose|k: int| 0 <= k <= s.len() && #[trigger] utf16_len(s.take(k)) == offset;
            if k < i {
            }
        }
        Some(total)
    } else {
        proof {
            if exists|k: int| 0 <= k <= s.len() && #[trigger] utf16_len(s.take(k)) == offset {
                let k = choose|k: int| 0 <= k <= s.len() && #[trigger] utf16_len(s.take(k)) == offset;
                assert(k < i);
            }
        }
        None
    }
}

/// Nodes in order: folders first, then files, each by lowercased name.
pub open spec fn in_order(s: Seq<FileTree>) -> bool {
    forall|i: int, j: int| 0 <= i < j < s.len() ==> sorts_before(#[trigger] s[i], #[trigger] s[j])
}

proof fn lemma_sorts_before_total(a: FileTree, b: FileTree)
    ensures
        sorts_before(a, b) || sorts_before(b, a),
{
    lemma_text_le_total(lowercase(a.name), lowercase(b.name));
}

proof fn lemma_sorts_before_transitive(a: FileTree, b: FileTree, c: FileTree)
    requires
        sorts_before(a, b),
        sorts_before(b, c),
    ensures
        sorts_before(a, c),
{
    if a.file == b.file && b.file == c.file {
        lemma_text_le_transitive(lowercase(a.name), lowercase(b.name), lowercase(c.name));
    }
}

/// Inserting keeps every node, adds `x`, and brings nothing else.
proof fn lemma_insert_sorted_members(s: Seq<FileTree>, x: FileTree)
    ensures
        insert_sorted(s, x).len() == s.len() + 1,
        forall|k: int| 0 <= k < insert_sorted(s, x).len() ==> #[trigger] insert_sorted(s, x)[k] == x || s.contains(
            insert_sorted(s, x)[k],
        ),
    decreases s.len(),
{
    if s.len() == 0 || sorts_before(s.last(), x) {
        assert forall|k: int| 0 <= k < s.push(x).len() implies #[trigger] s.push(x)[k] == x || s.contains(
            s.push(x)[k],
        ) by {
            if k < s.len() {
                assert(s.push(x)[k] == s[k]);
            }
        }
    } else {
        let inner = insert_sorted(s.drop_last(), x);
        lemma_insert_sorted_members(s.drop_last(), x);
        assert forall|k: int| 0 <= k < inner.push(s.last()).len() implies #[trigger] inner.push(s.last())[k] == x
            || s.contains(inner.push(s.last())[k]) by {
            if k < inner.len() {
                let e = inner[k];
                assert(inner.push(s.last())[k] == e);
                if e != x {
                    let m = choose|m: int| 0 <= m < s.drop_last().len() && s.drop_last()[m] == e;
                    assert(s[m] == e);
                }
            } else {
                assert(s[s.len() - 1] == s.last());
            }
        }
    }
}

#[verifier::spinoff_prover]
proof fn lemma_insert_sorted_in_order(s: Seq<FileTree>, x: FileTree)
    requires
        in_order(s),
    ensures
        in_order(insert_sorted(s, x)),
    decreases s.len(),
{
    if s.len() == 0 || sorts_before(s.last(), x) {
        let r = s.push(x);
        assert forall|i: int, j: int| 0 <= i < j < r.len() implies sorts_before(#[trigger] r[i], #[trigger] r[j]) by {
            if j == s.len() {
                if i < s.len() - 1 {
                    lemma_sorts_before_transitive(s[i], s.last(), x);
                }
            } else {
                assert(r[i] == s[i] && r[j] == s[j]);
            }
        }
    } else {
        let d = s.drop_last();
        let last = s.last();
        let inner = insert_sorted(d, x);
        lemma_insert_sorted_in_order(d, x);
        lemma_insert_sorted_members(d, x);
        lemma_sorts_before_total(last, x);
        let r = inner.push(last);
        assert forall|i: int, j: int| 0 <= i < j < r.len() implies sorts_before(#[trigger] r[i], #[trigger] r[j]) by {
            if j == inner.len() {
                let e = inner[i];
                assert(r[i] == e && r[j] == last);
                if e != x {
                    let m = choose|m: int| 0 <= m < d.len() && d[m] == e;
                    assert(s[m] == e && s[s.len() - 1] == last);
                }
            } else {
                assert(r[i] == inner[i] && r[j] == inner[j]);
            }
        }
    }
}

/// Sorting puts folders first, then files, each by lowercased name.
pub proof fn lemma_sorted_nodes_in_order(s: Seq<FileTree>)
    ensures
        in_order(sorted_nodes(s)),
    decreases s.len(),
{
    if s.len() > 0 {
        lemma_sorted_nodes_in_order(s.drop_last());
        lemma_insert_sorted_in_order(sorted_nodes(s.drop_last()), s.last());
    }
}

/// Every node of the archive tree lists its folders first, then its files,
/// each in name order ignoring case.
pub proof fn lemma_children_in_order(t: Trie, name: Seq<char>, prefix: Seq<char>, sep: char)
    ensures
        in_order(finished(t, name, prefix, sep).children),
    decreases t,
{
    if merges(t) {
        lemma_children_in_order(t.children[0], name + seq![sep] + t.children[0].name, prefix, sep);
    } else {
        lemma_sorted_nodes_in_order(finished_children(t, join_path(prefix, sep, name), sep));
    }
}

/// Sorting keeps the number of nodes.
proof fn lemma_sorted_nodes_len(s: Seq<FileTree>)
    ensures
        sorted_nodes(s).len() == s.len(),
    decreases s.len(),
{
    if s.len() > 0 {
        lemma_sorted_nodes_len(s.drop_last());
        lemma_insert_sorted_members(sorted_nodes(s.drop_last()), s.last());
    }
}

/// A finished node is a file exactly when its trie node holds one.
pub proof fn lemma_finished_file(t: Trie, name: Seq<char>, prefix: Seq<char>, sep: char)
    ensures
        finished(t, name, prefix, sep).file == (t.entry is Some),
    decreases t,
{
    if merges(t) {
        lemma_finished_file(t.children[0], name + seq![sep] + t.children[0].name, prefix, sep);
    }
}

/// Chains are folded: no folder of the archive tree holds nothing but a
/// single sub-folder.
pub proof fn lemma_chains_folded(t: Trie, name: Seq<char>, prefix: Seq<char>, sep: char)
    ensures
        ({
            let n = finished(t, name, prefix, sep);
            !(!n.file && n.children.len() == 1 && !n.children[0].file)
        }),
    decreases t,
{
    if merges(t) {
        lemma_chains_folded(t.children[0], name + seq![sep] + t.children[0].name, prefix, sep);
    } else {
        lemma_finished_file(t, name, prefix, sep);
        let path = join_path(prefix, sep, name);
        let kids = finished_children(t, path, sep);
        lemma_sorted_nodes_len(kids);
        if t.entry is None && t.children.len() == 1 {
            let c = t.children[0];
            assert(c.entry is Some);
            lemma_finished_file(c, c.name, path, sep);
            assert(kids.len() == 1);
            assert(sorted_nodes(kids) == insert_sorted(sorted_nodes(kids.drop_last()), kids.last()));
            assert(kids.drop_last() =~= seq![]);
            assert(sorted_nodes(kids)[0] == kids[0]);
        }
    }
}

/// What a non-empty filter shows: every file row's lowercased path holds
/// the filter, and every folder row is open.
pub open spec fn filtered_rows(rows: Seq<RowModel>, filter: Seq<char>) -> bool {
    forall|i: int|
        0 <= i < rows.len() ==> (if (#[trigger] rows[i]).file {
            has_infix(lowercase(rows[i].path), filter)
        } else {
            rows[i].expanded
        })
}

/// With a filter, only matching files and the open folders above them are
/// shown, and a subtree with no match shows nothing at all.
pub proof fn lemma_filter_shows_matches(t: FileTree, depth: int, filter: Seq<char>, opened: Seq<Seq<char>>)
    requires
        filter.len() > 0,
    ensures
        filtered_rows(emitted(t, depth, filter, opened).0, filter),
        !emitted(t, depth, filter, opened).1 ==> emitted(t, depth, filter, opened).0.len() == 0,
    decreases t, 1nat,
{
    if !t.file {
        let (rows, any) = emitted_all(t.children, t.children.len(), depth + 1, filter, opened);
        lemma_filter_shows_matches_all(t.children, t.children.len(), depth + 1, filter, opened);
        let out = emitted(t, depth, filter, opened).0;
        if any {
            assert forall|i: int| 0 <= i < out.len() implies (if (#[trigger] out[i]).file {
                has_infix(lowercase(out[i].path), filter)
            } else {
                out[i].expanded
            }) by {
                if i > 0 {
                    assert(out[i] == rows[i - 1]);
                }
            }
        }
    }
}

/// The same for the rows of the first `n` trees of `ts`.
pub proof fn lemma_filter_shows_matches_all(
    ts: Seq<FileTree>,
    n: nat,
    depth: int,
    filter: Seq<char>,
    opened: Seq<Seq<char>>,
)
    requires
        filter.len() > 0,
    ensures
        filtered_rows(emitted_all(ts, n, depth, filter, opened).0, filter),
        !emitted_all(ts, n, depth, filter, opened).1 ==> emitted_all(ts, n, depth, filter, opened).0.len() == 0,
    decreases ts, n,
{
    if n > 0 && n <= ts.len() {
        lemma_filter_shows_matches_all(ts, (n - 1) as nat, depth, filter, opened);
        lemma_filter_shows_matches(ts[n - 1], depth, filter, opened);
        let (a, x) = emitted_all(ts, (n - 1) as nat, depth, filter, opened);
        let (b, y) = emitted(ts[n - 1], depth, filter, opened);
        let out = a + b;
        assert forall|i: int| 0 <= i < out.len() implies (if (#[trigger] out[i]).file {
            has_infix(lowercase(out[i].path), filter)
        } else {
            out[i].expanded
        }) by {
            if i < a.len() {
                assert(out[i] == a[i]);
            } else {
                assert(out[i] == b[i - a.len()]);
            }
        }
    }
}

/// The byte ranges of a hit's spans, given in UTF-16 units; a span that
/// does not land between characters is dropped.
pub open spec fn span_bytes(text: Seq<char>, spans: Seq<MatchSpan>) -> Seq<(int, int)>
    decreases spans.len(),
{
    if spans.len() == 0 {
        seq![]
    } else {
        let rest = span_bytes(text, spans.drop_last());
        let s = spans.last();
        match (utf16_byte(text, s.start as int), utf16_byte(text, s.start + s.length)) {
            (Some(a), Some(b)) => rest.push((a, b)),
            _ => rest,
        }
    }
}

pub fn byte_spans(text: &str, spans: &[MatchSpan]) -> (r: Vec<(usize, usize)>)
    requires
        forall|i: int| 0 <= i < spans@.len() ==> (#[trigger] spans@[i]).start + spans@[i].length <= usize::MAX,
    ensures
        r@.map_values(|p: (usize, usize)| (p.0 as int, p.1 as int)) == span_bytes(text@, spans@),
{
    let mut out: Vec<(usize, usize)> = Vec::new();
    let mut i: usize = 0;
    while i < spans.len()
        invariant
            i <= spans@.len(),
            forall|i: int| 0 <= i < spans@.len() ==> (#[trigger] spans@[i]).start + spans@[i].length <= usize::MAX,
            out@.map_values(|p: (usize, usize)| (p.0 as int, p.1 as int)) == span_bytes(text@, spans@.take(i as int)),
        decreases spans.len() - i,
    {
        let s = spans[i];
        assert(spans@.take(i + 1).drop_last() =~= spans@.take(i as int));
        assert(spans@[i as int].start + spans@[i as int].length <= usize::MAX);
        let start = utf16_to_byte(text, s.start);
        let end = utf16_to_byte(text, s.start + s.length);
        match (start, end) {
            (Some(a), Some(b)) => {
                let ghost before = out@;
                out.push((a, b));
                assert(out@.map_values(|p: (usize, usize)| (p.0 as int, p.1 as int)) =~= before.map_values(
                    |p: (usize, usize)| (p.0 as int, p.1 as int),
                ).push((a as int, b as int)));
            },
            _ => {},
        }
        i += 1;
    }
    assert(spans@.take(spans@.len() as int) =~= spans@);
    out
}

/// A file header of the Find in Files pane, or one matching line under it.
#[derive(Debug, PartialEq)]
pub enum FindRow {
    File { path: String, matches: usize, collapsed: bool },
    Line { path: String, line: usize, text: String, spans: Vec<(usize, usize)> },
}

pub ghost enum FindModel {
    File { path: Seq<char>, matches: int, collapsed: bool },
    Line { path: Seq<char>, line: int, text: Seq<char>, spans: Seq<(int, int)> },
}

pub open spec fn find_model(r: FindRow) -> FindModel {
    match r {
        FindRow::File { path, matches, collapsed } => FindModel::File {
            path: path@,
            matches: matches as int,
            collapsed,
        },
        FindRow::Line { path, line, text, spans } => FindModel::Line {
            path: path@,
            line: line as int,
            text: text@,
            spans: spans@.map_values(|p: (usize, usize)| (p.0 as int, p.1 as int)),
        },
    }
}

pub open spec fn find_models(rs: Seq<FindRow>) -> Seq<FindModel> {
    rs.map_values(|r: FindRow| find_model(r))
}

/// The line rows of the first `n` hits in `path`.
pub open spec fn hit_rows(path: Seq<char>, hits: Seq<FileMatch>, n: nat) -> Seq<FindModel>
    decreases n,
{
    if n == 0 || n > hits.len() {
        seq![]
    } else {
        let h = hits[n - 1];
        hit_rows(path, hits, (n - 1) as nat).push(
            FindModel::Line { path, line: h.line as int, text: h.text@, spans: span_bytes(h.text@, h.spans@) },
        )
    }
}

/// The rows of the first `n` files: each file's header, then its hits
/// unless the file is in `collapsed`.
pub open spec fn find_rows_of(files: Seq<FileMatches>, n: nat, collapsed: Seq<Seq<char>>) -> Seq<FindModel>
    decreases n,
{
    if n == 0 || n > files.len() {
        seq![]
    } else {
        let f = files[n - 1];
        let folded = collapsed.contains(f.path@);
        find_rows_of(files, (n - 1) as nat, collapsed) + seq![
            FindModel::File { path: f.path@, matches: f.matches@.len() as int, collapsed: folded },
        ] + if folded {
            seq![]
        } else {
            hit_rows(f.path@, f.matches@, f.matches@.len())
        }
    }
}

/// Whether every span of every hit can be converted without overflow.
pub open spec fn spans_fit(response: FileSearchResponse) -> bool {
    forall|i: int, j: int, k: int|
        0 <= i < response.files@.len() && 0 <= j < response.files@[i].matches@.len() && 0 <= k
            < response.files@[i].matches@[j].spans@.len() ==> #[trigger] response.files@[i].matches@[j].spans@[k].start
            + response.files@[i].matches@[j].spans@[k].length <= usize::MAX
}

fn push_find(rows: &mut Vec<FindRow>, row: FindRow)
    ensures
        find_models(final(rows)@) == find_models(old(rows)@).push(find_model(row)),
{
    let ghost before = rows@;
    rows.push(row);
    assert(find_models(rows@) =~= find_models(before).push(find_model(row)));
}

/// The rows of the Find in Files pane for `response`, with the files in
/// `collapsed` folded to their header.
#[verifier::spinoff_prover]
pub fn find_rows(response: &FileSearchResponse, collapsed: &[String]) -> (r: Vec<FindRow>)
    requires
        spans_fit(*response),
    ensures
        find_models(r@) == find_rows_of(response.files@, response.files@.len(), texts(collapsed@)),
{
    let mut rows: Vec<FindRow> = Vec::new();
    let mut i: usize = 0;
    while i < response.files.len()
        invariant
            i <= response.files@.len(),
            spans_fit(*response),
            find_models(rows@) == find_rows_of(response.files@, i as nat, texts(collapsed@)),
        decreases response.files.len() - i,
    {
        let file = &response.files[i];
        let folded = contains_text(collapsed, &file.path);
        push_find(&mut rows, FindRow::File { path: file.path.clone(), matches: file.matches.len(), collapsed: folded });
        let ghost head = find_models(rows@);
        if !folded {
            let mut j: usize = 0;
            while j < file.matches.len()
                invariant
                    file == response.files@[i as int],
                    i < response.files@.len(),
                    spans_fit(*response),
                    j <= file.matches@.len(),
                    find_models(rows@) == head + hit_rows(file.path@, file.matches@, j as nat),
                decreases file.matches.len() - j,
            {
                let hit = &file.matches[j];
                assert forall|k: int| 0 <= k < hit.spans@.len() implies (#[trigger] hit.spans@[k]).start
                    + hit.spans@[k].length <= usize::MAX by {
                    assert(response.files@[i as int].matches@[j as int].spans@[k].start
                        + response.files@[i as int].matches@[j as int].spans@[k].length <= usize::MAX);
                }
                let spans = byte_spans(hit.text.as_str(), hit.spans.as_slice());
                push_find(
                    &mut rows,
                    FindRow::Line { path: file.path.clone(), line: hit.line, text: hit.text.clone(), spans },
                );
                j += 1;
            }
        }
        assert(find_models(rows@) =~= find_rows_of(response.files@, (i + 1) as nat, texts(collapsed@)));
        i += 1;
    }
    rows
}

/// The Files pane's rows for a filter as typed: trimmed and lowercased,
/// then every root's rows in turn.
pub fn visible_rows(tree: &[FileNode], filter: &str, expanded: &[String]) -> (r: Vec<FileRow>)
    requires
        forall|i: int| 0 <= i < tree@.len() ==> reach(tree_of(#[trigger] tree@[i])) <= usize::MAX,
    ensures
        row_models(r@) == emitted_all(
            trees_of(tree@),
            tree@.len(),
            0,
            lowercase(crate::tree_view::trimmed(filter@)),
            texts(expanded@),
        ).0,
{
    let trimmed_filter = crate::tree_view::trim_text(filter);
    let lowered = to_lowercase(trimmed_filter.as_str());
    let mut rows: Vec<FileRow> = Vec::new();
    let ghost f = lowered@;
    let mut i: usize = 0;
    while i < tree.len()
        invariant
            i <= tree@.len(),
            f == lowered@,
            forall|i: int| 0 <= i < tree@.len() ==> reach(tree_of(#[trigger] tree@[i])) <= usize::MAX,
            row_models(rows@) == emitted_all(trees_of(tree@), i as nat, 0, f, texts(expanded@)).0,
        decreases tree.len() - i,
    {
        assert(trees_of(tree@)[i as int] == tree_of(tree@[i as int]));
        assert(reach(tree_of(tree@[i as int])) <= usize::MAX);
        emit(&tree[i], 0, lowered.as_str(), expanded, &mut rows);
        i += 1;
    }
    rows
}

/// The paths of every folder of `t`, itself first, then those below each
/// child in turn.
pub open spec fn folder_paths(t: FileTree) -> Seq<Seq<char>>
    decreases t, 1nat,
{
    if t.file {
        seq![]
    } else {
        seq![t.path] + folder_paths_all(t.children, t.children.len())
    }
}

/// The folder paths of the first `n` trees of `ts`, in order.
pub open spec fn folder_paths_all(ts: Seq<FileTree>, n: nat) -> Seq<Seq<char>>
    decreases ts, n,
{
    if n == 0 || n > ts.len() {
        seq![]
    } else {
        folder_paths_all(ts, (n - 1) as nat) + folder_paths(ts[n - 1])
    }
}

fn collect_folders(node: &FileNode, out: &mut Vec<String>)
    ensures
        texts(final(out)@) == texts(old(out)@) + folder_paths(tree_of(*node)),
    decreases node,
{
    let ghost t = tree_of(*node);
    let ghost start = texts(out@);
    if node.file {
        assert(texts(out@) =~= start + seq![]);
        return;
    }
    out.push(node.path.clone());
    assert(texts(out@) =~= start + seq![node.path@]);
    let mut i: usize = 0;
    assert(t.children.len() == node.children@.len());
    while i < node.children.len()
        invariant
            t == tree_of(*node),
            t.children.len() == node.children@.len(),
            i <= node.children@.len(),
            texts(out@) == start + seq![node.path@] + folder_paths_all(t.children, i as nat),
        decreases node.children.len() - i,
    {
        let child = &node.children[i];
        assert(t.children[i as int] == tree_of(*child));
        collect_folders(child, out);
        assert(texts(out@) =~= start + seq![node.path@] + folder_paths_all(t.children, (i + 1) as nat));
        i += 1;
    }
}

/// The folders open when the Files pane first shows the archive: every
/// folder, at every depth, so the whole tree starts unfolded.
pub fn initially_expanded(tree: &[FileNode]) -> (r: Vec<String>)
    ensures
        texts(r@) == folder_paths_all(trees_of(tree@), tree@.len()),
{
    let mut out: Vec<String> = Vec::new();
    let mut i: usize = 0;
    let ghost ts = trees_of(tree@);
    assert(texts(out@) =~= seq![]);
    while i < tree.len()
        invariant
            i <= tree@.len(),
            ts == trees_of(tree@),
            texts(out@) == folder_paths_all(ts, i as nat),
        decreases tree.len() - i,
    {
        assert(ts[i as int] == tree_of(tree@[i as int]));
        collect_folders(&tree[i], &mut out);
        i += 1;
    }
    out
}

/// With no filter, a folder whose path is open shows open, all the way
/// down: so with `initially_expanded` every folder row starts unfolded.
pub proof fn lemma_open_folders_show_open(t: FileTree, depth: int, opened: Seq<Seq<char>>)
    requires
        forall|k: int| 0 <= k < folder_paths(t).len() ==> opened.contains(#[trigger] folder_paths(t)[k]),
    ensures
        forall|k: int|
            0 <= k < emitted(t, depth, seq![], opened).0.len() ==> (#[trigger] emitted(t, depth, seq![], opened).0[k]).file
                || emitted(t, depth, seq![], opened).0[k].expanded,
    decreases t, 1nat,
{
    if !t.file {
        assert(folder_paths(t)[0] == t.path);
        let inner = folder_paths_all(t.children, t.children.len());
        assert forall|k: int| 0 <= k < inner.len() implies opened.contains(#[trigger] inner[k]) by {
            assert(folder_paths(t)[k + 1] == inner[k]);
        }
        lemma_open_folders_show_open_all(t.children, t.children.len(), depth + 1, opened);
        let rows = emitted(t, depth, seq![], opened).0;
        let below = emitted_all(t.children, t.children.len(), depth + 1, seq![], opened).0;
        assert forall|k: int| 0 <= k < rows.len() implies (#[trigger] rows[k]).file || rows[k].expanded by {
            if k > 0 {
                assert(rows[k] == below[k - 1]);
            }
        }
    }
}

/// The same for the first `n` trees of `ts`.
pub proof fn lemma_open_folders_show_open_all(ts: Seq<FileTree>, n: nat, depth: int, opened: Seq<Seq<char>>)
    requires
        forall|k: int|
            0 <= k < folder_paths_all(ts, n).len() ==> opened.contains(#[trigger] folder_paths_all(ts, n)[k]),
    ensures
        forall|k: int|
            0 <= k < emitted_all(ts, n, depth, seq![], opened).0.len() ==> (#[trigger] emitted_all(
                ts,
                n,
                depth,
                seq![],
                opened,
            ).0[k]).file || emitted_all(ts, n, depth, seq![], opened).0[k].expanded,
    decreases ts, n,
{
    if n > 0 && n <= ts.len() {
        let a = folder_paths_all(ts, (n - 1) as nat);
        let b = folder_paths(ts[n - 1]);
        assert forall|k: int| 0 <= k < a.len() implies opened.contains(#[trigger] a[k]) by {
            assert(folder_paths_all(ts, n)[k] == a[k]);
        }
        assert forall|k: int| 0 <= k < b.len() implies opened.contains(#[trigger] b[k]) by {
            assert(folder_paths_all(ts, n)[a.len() + k] == b[k]);
        }
        lemma_open_folders_show_open_all(ts, (n - 1) as nat, depth, opened);
        lemma_open_folders_show_open(ts[n - 1], depth, opened);
        let ra = emitted_all(ts, (n - 1) as nat, depth, seq![], opened).0;
        let rb = emitted(ts[n - 1], depth, seq![], opened).0;
        let rows = emitted_all(ts, n, depth, seq![], opened).0;
        assert forall|k: int| 0 <= k < rows.len() implies (#[trigger] rows[k]).file || rows[k].expanded by {
            if k < ra.len() {
                assert(rows[k] == ra[k]);
            } else {
                assert(rows[k] == rb[k - ra.len()]);
            }
        }
    }
}

/// Activating a row of the Files pane: a file asks to be opened (its
/// path is returned); a folder opens or folds, toggling its path in
/// `expanded`.
pub fn activate_file_row(row: &FileRow, expanded: &mut Vec<String>) -> (open: Option<String>)
    requires
        distinct_texts(old(expanded)@),
    ensures
        distinct_texts(final(expanded)@),
        row.file ==> (open matches Some(p) && p@ == row.path@ && final(expanded)@ == old(expanded)@),
        !row.file ==> open is None && texts(final(expanded)@).contains(row.path@) == !texts(old(expanded)@).contains(
            row.path@,
        ),
{
    if row.file {
        return Some(row.path.clone());
    }
    toggle_text(expanded, &row.path);
    None
}

/// Activating a row of the Find in Files pane: a file header folds or
/// unfolds, toggling its path in `collapsed`; a hit asks to open its file at
/// its line.
pub fn activate_find_row(row: &FindRow, collapsed: &mut Vec<String>) -> (open: Option<(String, usize)>)
    requires
        distinct_texts(old(collapsed)@),
    ensures
        distinct_texts(final(collapsed)@),
        (match *row {
            FindRow::File { path, .. } => open is None && texts(final(collapsed)@).contains(path@) == !texts(
                old(collapsed)@,
            ).contains(path@),
            FindRow::Line { path, line, .. } => (open matches Some(o) && o.0@ == path@ && o.1 == line)
                && final(collapsed)@ == old(collapsed)@,
        }),
{
    match row {
        FindRow::File { path, .. } => {
            toggle_text(collapsed, path);
            None
        },
        FindRow::Line { path, line, .. } => Some((path.clone(), *line)),
    }
}

/// Find in Files waits for a term of at least this many characters.
pub const MIN_TERM: usize = 3;

/// The term Find in Files searches for: the input trimmed, once it has
/// `MIN_TERM` characters; None until then.
pub fn search_term(input: &str) -> (r: Option<String>)
    ensures
        match r {
            Some(t) => t@ == trimmed(input@) && trimmed(input@).len() >= MIN_TERM,
            None => trimmed(input@).len() < MIN_TERM,
        },
{
    let t = trim_text(input);
    let n = t.as_str().unicode_len();
    if n < MIN_TERM {
        None
    } else {
        Some(t)
    }
}

/// The match spans of a line once its leading whitespace, `shift` bytes of
/// it, is dropped: spans that started inside the whitespace are dropped
/// too, the others move back by `shift`.
pub open spec fn shifted_spans(spans: Seq<(usize, usize)>, shift: int) -> Seq<(usize, usize)>
    decreases spans.len(),
{
    if spans.len() == 0 {
        seq![]
    } else {
        let (a, b) = spans.last();
        shifted_spans(spans.drop_last(), shift) + if a >= shift {
            seq![((a - shift) as usize, (b - shift) as usize)]
        } else {
            seq![]
        }
    }
}

/// A Find in Files line as its row shows it: without leading whitespace,
/// with its match spans moved to suit.
pub fn find_preview(text: &str, spans: &[(usize, usize)]) -> (r: (String, Vec<(usize, usize)>))
    requires
        forall|k: int| 0 <= k < spans@.len() ==> (#[trigger] spans@[k]).0 <= spans@[k].1,
    ensures
        r.0@ == text@.skip(leading_white_space(text@, 0)),
        r.1@ == shifted_spans(spans@, encode_utf8(text@.take(leading_white_space(text@, 0))).len() as int),
{
    let cs = chars_of(text);
    let ghost s = text@;
    let mut lo: usize = 0;
    while lo < cs.len() && white_space(cs[lo])
        invariant
            cs@ == s,
            lo <= s.len(),
            leading_white_space(s, lo as int) == leading_white_space(s, 0),
        decreases cs.len() - lo,
    {
        lo += 1;
    }
    let rest = String::from_str(text.substring_char(lo, cs.len()));
    let total = text.as_bytes().len();
    let kept = rest.as_str().as_bytes().len();
    proof {
        assert(s =~= s.take(lo as int) + s.skip(lo as int));
        lemma_encode_concat(s.take(lo as int), s.skip(lo as int));
        assert(rest@ =~= s.skip(lo as int));
    }
    let shift = total - kept;
    let mut out: Vec<(usize, usize)> = Vec::new();
    let mut i: usize = 0;
    while i < spans.len()
        invariant
            i <= spans@.len(),
            forall|k: int| 0 <= k < spans@.len() ==> (#[trigger] spans@[k]).0 <= spans@[k].1,
            out@ == shifted_spans(spans@.take(i as int), shift as int),
        decreases spans.len() - i,
    {
        assert(spans@.take(i + 1).drop_last() =~= spans@.take(i as int));
        let (a, b) = spans[i];
        if a >= shift {
            out.push((a - shift, b - shift));
        }
        i += 1;
    }
    assert(spans@.take(spans@.len() as int) =~= spans@);
    (rest, out)
}


/// What the Files pane holds once it has asked for the archive listing:
/// the folder tree, the folders open in it, the file count it shows in its
/// header, whether the answer is still out, and the error that came back.
pub struct FilesPane {
    pub tree: Vec<FileNode>,
    pub expanded: Vec<String>,
    pub total: usize,
    pub loading: bool,
    pub error: Option<String>,
}

/// The count the pane shows: the listing's own total, or the number of
/// files listed where that is larger.
pub open spec fn shown_total(list: FileList) -> nat {
    if list.total >= list.files@.len() {
        list.total as nat
    } else {
        list.files@.len()
    }
}

/// The header caption for `total` files: "1 file", else "N files".
pub open spec fn files_caption_text(total: nat) -> Seq<char> {
    decimal(total) + if total == 1 {
        " file"@
    } else {
        " files"@
    }
}

/// The header caption for `total` files.
pub fn files_caption(total: usize) -> (r: String)
    ensures
        r@ == files_caption_text(total as nat),
{
    let mut s = String::new();
    append_decimal(&mut s, total as u128);
    if total == 1 {
        s.append(" file");
    } else {
        s.append(" files");
    }
    s
}

impl FilesPane {
    /// The pane as it opens: waiting for the listing, with nothing in it.
    pub fn new() -> (r: FilesPane)
        ensures
            r.loading,
            r.total == 0,
            r.tree@.len() == 0,
            r.expanded@.len() == 0,
            r.error is None,
    {
        FilesPane { tree: Vec::new(), expanded: Vec::new(), total: 0, loading: true, error: None }
    }

    /// Takes in the session's answer to the listing request. Loading ends
    /// either way. A listing becomes the folder tree, with every folder
    /// added to the open ones and the count set to the larger of the
    /// reported total and the number of files listed; an error is kept to
    /// be shown in place of the rows.
    pub fn loaded(&mut self, result: Result<FileList, String>)
        ensures
            !final(self).loading,
            match result {
                Ok(list) => {
                    &&& final(self).total == shown_total(list)
                    &&& trees_of(final(self).tree@) == archive_tree(list.files@)
                    &&& texts(final(self).expanded@) == texts(old(self).expanded@) + folder_paths_all(
                        trees_of(final(self).tree@),
                        final(self).tree@.len(),
                    )
                    &&& final(self).error == old(self).error
                },
                Err(e) => {
                    &&& final(self).error == Some(e)
                    &&& final(self).total == old(self).total
                    &&& final(self).tree@ == old(self).tree@
                    &&& final(self).expanded@ == old(self).expanded@
                },
            },
    {
        self.loading = false;
        match result {
            Ok(list) => {
                self.total = if list.total >= list.files.len() {
                    list.total
                } else {
                    list.files.len()
                };
                self.tree = build_tree(list.files.as_slice());
                let mut folders = initially_expanded(self.tree.as_slice());
                let ghost before = texts(self.expanded@);
                let ghost added = texts(folders@);
                self.expanded.append(&mut folders);
                assert(texts(self.expanded@) =~= before + added);
            },
            Err(e) => {
                self.error = Some(e);
            },
        }
    }

    /// What the pane shows in place of its rows, if anything: the error,
    /// else the loading notice, else, with `count` rows to show and none
    /// there, that nothing matches.
    pub fn notice(&self, count: usize) -> (r: Option<String>)
        ensures
            match self.error {
                Some(e) => r == Some(e),
                None => if self.loading {
                    r matches Some(t) && t@ == "Reading the source archive…"@
                } else if count == 0 {
                    r matches Some(t) && t@ == "No files match."@
                } else {
                    r is None
                },
            },
    {
        match &self.error {
            Some(e) => Some(e.clone()),
            None => {
                if self.loading {
                    Some(String::from_str("Reading the source archive…"))
                } else if count == 0 {
                    Some(String::from_str("No files match."))
                } else {
                    None
                }
            },
        }
    }
}

} // verus!
