//! Paths as text: segments separated by `/`.
//!
//! The library never touches the file system. A path is the sequence of
//! its characters, and every rule below is stated on that sequence.

use crate::text::{chars_of, str_eq};
use vstd::prelude::*;
use vstd::string::*;

verus! {

/// The index of the last `c` in `s`, or -1 where `s` holds none.
pub open spec fn last_index_of(s: Seq<char>, c: char) -> int
    decreases s.len(),
{
    if s.len() == 0 {
        -1
    } else if s.last() == c {
        s.len() - 1
    } else {
        last_index_of(s.drop_last(), c)
    }
}

/// `s` without the slashes it begins with.
pub open spec fn strip_leading_slashes(s: Seq<char>) -> Seq<char>
    decreases s.len(),
{
    if s.len() > 0 && s[0] == '/' {
        strip_leading_slashes(s.skip(1))
    } else {
        s
    }
}

/// Whether `root` names `path` itself or a directory above it: `path`
/// begins with the text of `root`, and that text ends at a segment boundary.
pub open spec fn is_under(path: Seq<char>, root: Seq<char>) -> bool {
    &&& 0 < root.len() <= path.len()
    &&& path.take(root.len() as int) == root
    &&& (path.len() == root.len() || root.last() == '/' || path[root.len() as int] == '/')
}

/// `path` as seen from `root`: what follows `root` and the slashes behind
/// it where `path` lies under `root`, and all of `path` where it does not.
pub open spec fn relative_to(path: Seq<char>, root: Seq<char>) -> Seq<char> {
    if is_under(path, root) {
        strip_leading_slashes(path.skip(root.len() as int))
    } else {
        path
    }
}

/// The directory part of a path: what stands in front of its last slash,
/// and nothing where it has none.
pub open spec fn parent_path(p: Seq<char>) -> Seq<char> {
    if last_index_of(p, '/') < 0 {
        Seq::empty()
    } else {
        p.take(last_index_of(p, '/'))
    }
}

/// The final name of a path: its last segment that is neither empty nor
/// `.`; none where that segment is `..` or where there is no such segment.
pub open spec fn file_name(p: Seq<char>) -> Option<Seq<char>>
    decreases p.len(),
{
    if p.len() == 0 {
        None
    } else {
        let k = last_index_of(p, '/');
        let seg = p.skip(k + 1);
        if seg.len() == 0 || seg == seq!['.'] {
            if 0 <= k < p.len() {
                file_name(p.take(k))
            } else {
                None
            }
        } else if seg == seq!['.', '.'] {
            None
        } else {
            Some(seg)
        }
    }
}

/// The extension of a path: what follows the last dot of its final name,
/// where that name has a dot that is not its first character.
pub open spec fn extension(p: Seq<char>) -> Option<Seq<char>> {
    match file_name(p) {
        None => None,
        Some(name) => if last_index_of(name, '.') <= 0 {
            None
        } else {
            Some(name.skip(last_index_of(name, '.') + 1))
        },
    }
}

/// Bounds of `last_index_of`, and that it finds `c` where it finds anything.
pub proof fn lemma_last_index_of(s: Seq<char>, c: char)
    ensures
        -1 <= last_index_of(s, c) < s.len(),
        last_index_of(s, c) >= 0 ==> s[last_index_of(s, c)] == c,
        forall|m: int| last_index_of(s, c) < m < s.len() ==> s[m] != c,
    decreases s.len(),
{
    if s.len() > 0 && s.last() != c {
        lemma_last_index_of(s.drop_last(), c);
        assert forall|m: int| last_index_of(s, c) < m < s.len() implies s[m] != c by {
            if m < s.len() - 1 {
                assert(s.drop_last()[m] == s[m]);
            }
        }
    }
}

/// A path that has a parent is longer than its parent.
pub proof fn lemma_parent_is_shorter(p: Seq<char>)
    requires
        p.len() > 0,
    ensures
        parent_path(p).len() < p.len(),
{
    lemma_last_index_of(p, '/');
}

/// The index of the last `c` among the first `end` characters.
fn find_last(chars: &Vec<char>, end: usize, c: char) -> (found: Option<usize>)
    requires
        end <= chars.len(),
    ensures
        match found {
            Some(k) => k < end && k as int == last_index_of(chars@.take(end as int), c),
            None => last_index_of(chars@.take(end as int), c) == -1,
        },
{
    let mut k: usize = end;
    while k > 0
        invariant
            k <= end <= chars.len(),
            last_index_of(chars@.take(end as int), c) == last_index_of(chars@.take(k as int), c),
        decreases k,
    {
        if chars[k - 1] == c {
            return Some(k - 1);
        }
        proof {
            assert(chars@.take(k as int).drop_last() =~= chars@.take(k - 1));
        }
        k -= 1;
    }
    None
}

/// Whether `chars` begins with `prefix`.
fn has_prefix(chars: &Vec<char>, prefix: &Vec<char>) -> (yes: bool)
    ensures
        yes == (prefix.len() <= chars.len() && chars@.take(prefix.len() as int) == prefix@),
{
    if prefix.len() > chars.len() {
        return false;
    }
    let mut i: usize = 0;
    while i < prefix.len()
        invariant
            i <= prefix.len() <= chars.len(),
            forall|m: int| 0 <= m < i ==> chars@[m] == prefix@[m],
        decreases prefix.len() - i,
    {
        if chars[i] != prefix[i] {
            proof {
                assert(chars@.take(prefix.len() as int)[i as int] == chars@[i as int]);
            }
            return false;
        }
        i += 1;
    }
    proof {
        assert(chars@.take(prefix.len() as int) =~= prefix@);
    }
    true
}

/// The path as seen from the root, as a slice of `path`.
pub fn relative_path<'a>(path: &'a str, repo_path: &str) -> (rel: &'a str)
    ensures
        rel@ == relative_to(path@, repo_path@),
{
    let p = chars_of(path);
    let r = chars_of(repo_path);
    if r.len() == 0 || !has_prefix(&p, &r) {
        return path;
    }
    if !(p.len() == r.len() || r[r.len() - 1] == '/' || p[r.len()] == '/') {
        return path;
    }
    let mut start: usize = r.len();
    while start < p.len() && p[start] == '/'
        invariant
            r.len() <= start <= p.len(),
            strip_leading_slashes(p@.skip(r.len() as int)) == strip_leading_slashes(
                p@.skip(start as int),
            ),
        decreases p.len() - start,
    {
        proof {
            assert(p@.skip(start as int).skip(1) =~= p@.skip(start + 1));
        }
        start += 1;
    }
    proof {
        assert(p@.subrange(start as int, p@.len() as int) =~= p@.skip(start as int));
    }
    path.substring_char(start, p.len())
}

/// The parent of a path, as a slice of it.
pub fn parent_of<'a>(path: &'a str) -> (parent: &'a str)
    ensures
        parent@ == parent_path(path@),
{
    let p = chars_of(path);
    proof {
        assert(p@.take(p@.len() as int) =~= p@);
    }
    match find_last(&p, p.len(), '/') {
        Some(k) => {
            proof {
                assert(p@.subrange(0, k as int) =~= p@.take(k as int));
            }
            path.substring_char(0, k)
        },
        None => path.substring_char(0, 0),
    }
}

/// Where the final name of the path begins and ends, if it has one.
fn file_name_range(p: &Vec<char>) -> (range: Option<(usize, usize)>)
    ensures
        match range {
            Some((from, to)) => from < to <= p.len() && file_name(p@) == Some(
                p@.subrange(from as int, to as int),
            ),
            None => file_name(p@) is None,
        },
{
    let mut end: usize = p.len();
    proof {
        assert(p@.take(end as int) =~= p@);
    }
    while end > 0
        invariant
            end <= p.len(),
            file_name(p@) == file_name(p@.take(end as int)),
        decreases end,
    {
        let ghost q = p@.take(end as int);
        let found = find_last(p, end, '/');
        let from: usize = match found {
            Some(k) => k + 1,
            None => 0,
        };
        proof {
            lemma_last_index_of(q, '/');
            assert(q.skip(from as int) =~= p@.subrange(from as int, end as int));
        }
        let len: usize = end - from;
        let dots: bool = (len == 1 && p[from] == '.') || (len == 2 && p[from] == '.' && p[from + 1]
            == '.');
        if len == 0 || (len == 1 && dots) {
            proof {
                if len == 1 {
                    assert(q.skip(from as int) =~= seq!['.']);
                }
            }
            match found {
                Some(k) => {
                    proof {
                        assert(q.take(k as int) =~= p@.take(k as int));
                    }
                    end = k;
                },
                None => {
                    return None;
                },
            }
        } else if dots {
            proof {
                assert(q.skip(from as int) =~= seq!['.', '.']);
            }
            return None;
        } else {
            proof {
                let seg = q.skip(from as int);
                if seg == seq!['.'] {
                    assert(seg.len() == 1 && seg[0] == '.');
                }
                if seg == seq!['.', '.'] {
                    assert(seg.len() == 2 && seg[0] == '.' && seg[1] == '.');
                }
            }
            return Some((from, end));
        }
    }
    None
}

/// The final name of the path, as a slice of it.
pub fn file_name_of<'a>(path: &'a str) -> (name: Option<&'a str>)
    ensures
        match name {
            Some(n) => file_name(path@) == Some(n@),
            None => file_name(path@) is None,
        },
{
    let p = chars_of(path);
    match file_name_range(&p) {
        Some((from, to)) => Some(path.substring_char(from, to)),
        None => None,
    }
}

/// The extension of the path, as a slice of it.
pub fn extension_of<'a>(path: &'a str) -> (ext: Option<&'a str>)
    ensures
        match ext {
            Some(e) => extension(path@) == Some(e@),
            None => extension(path@) is None,
        },
{
    let p = chars_of(path);
    match file_name_range(&p) {
        Some((from, to)) => {
            let ghost name = p@.subrange(from as int, to as int);
            let mut k: usize = to;
            proof {
                assert(name.take(name.len() as int) =~= name);
            }
            while k > from
                invariant
                    from <= k <= to <= p.len(),
                    from < to,
                    p@ == path@,
                    file_name(path@) == Some(name),
                    name == p@.subrange(from as int, to as int),
                    last_index_of(name, '.') == last_index_of(name.take(k - from), '.'),
                decreases k,
            {
                if p[k - 1] == '.' {
                    proof {
                        assert(name.take(k - from).len() == k - from);
                        assert(name.take(k - from).last() == p@[k - 1]);
                        assert(last_index_of(name, '.') == k - from - 1);
                        assert(name.skip(k - from) =~= p@.subrange(k as int, to as int));
                    }
                    if k - 1 == from {
                        return None;
                    }
                    return Some(path.substring_char(k, to));
                }
                proof {
                    assert(name.take(k - from).last() == p@[k - 1]);
                    assert(name.take(k - from).drop_last() =~= name.take(k - from - 1));
                }
                k -= 1;
            }
            None
        },
        None => None,
    }
}

/// Where the segment that holds position `i` ends: at the first slash at or
/// behind `i`, or at the end of the path.
pub open spec fn segment_end(p: Seq<char>, i: int) -> int
    decreases p.len() - i,
{
    if i < 0 || i >= p.len() || p[i] == '/' {
        i
    } else {
        segment_end(p, i + 1)
    }
}

/// Whether a segment begins at position `i`.
pub open spec fn starts_segment(p: Seq<char>, i: int) -> bool {
    0 <= i < p.len() && (i == 0 || p[i - 1] == '/')
}

/// The segment that begins at position `i`.
pub open spec fn segment_at(p: Seq<char>, i: int) -> Seq<char> {
    p.subrange(i, segment_end(p, i))
}

/// The names of directories that are never looked into: version-control
/// metadata, dependencies, build output, virtual environments, IDE settings.
pub open spec fn is_denied_name(name: Seq<char>) -> bool {
    ||| name == ".git"@
    ||| name == "node_modules"@
    ||| name == "target"@
    ||| name == "dist"@
    ||| name == "build"@
    ||| name == ".next"@
    ||| name == "__pycache__"@
    ||| name == ".venv"@
    ||| name == "venv"@
    ||| name == ".idea"@
    ||| name == ".vscode"@
    ||| name == "vendor"@
    ||| name == ".cargo"@
    ||| name == "deps"@
    ||| name == "_build"@
}

/// A hidden name begins with a dot.
pub open spec fn is_hidden_name(name: Seq<char>) -> bool {
    name.len() > 0 && name[0] == '.'
}

/// Whether a path relative to the repository root is left out of the walk:
/// one of its segments is a denied name or is hidden.
pub open spec fn should_ignore(rel: Seq<char>) -> bool {
    exists|i: int| #[trigger]
        starts_segment(rel, i) && (is_denied_name(segment_at(rel, i)) || is_hidden_name(
            segment_at(rel, i),
        ))
}

/// A segment of a path ends where it did when more segments are appended
/// to the path.
pub proof fn lemma_segment_end_with_more(dir: Seq<char>, more: Seq<char>, i: int)
    requires
        0 <= i <= dir.len(),
        more.len() > 0,
        more[0] == '/',
    ensures
        segment_end(dir + more, i) == segment_end(dir, i),
        i <= segment_end(dir, i) <= dir.len(),
    decreases dir.len() - i,
{
    if i < dir.len() && dir[i] != '/' {
        lemma_segment_end_with_more(dir, more, i + 1);
    }
}

/// Whatever lies below an ignored directory is ignored with it: testing
/// each path by itself leaves out the whole subtree.
pub proof fn lemma_ignored_with_all_below(dir: Seq<char>, below: Seq<char>)
    requires
        should_ignore(dir),
    ensures
        should_ignore(dir + seq!['/'] + below),
{
    let i = choose|i: int| #[trigger]
        starts_segment(dir, i) && (is_denied_name(segment_at(dir, i)) || is_hidden_name(
            segment_at(dir, i),
        ));
    let more = seq!['/'] + below;
    let longer = dir + seq!['/'] + below;
    assert(longer =~= dir + more);
    lemma_segment_end_with_more(dir, more, i);
    assert(segment_at(longer, i) =~= segment_at(dir, i));
    assert(starts_segment(longer, i));
}

/// Whether the name is on the list of denied directory names.
fn is_denied(name: &str) -> (denied: bool)
    ensures
        denied == is_denied_name(name@),
{
    str_eq(name, ".git") || str_eq(name, "node_modules") || str_eq(name, "target") || str_eq(
        name,
        "dist",
    ) || str_eq(name, "build") || str_eq(name, ".next") || str_eq(name, "__pycache__") || str_eq(
        name,
        ".venv",
    ) || str_eq(name, "venv") || str_eq(name, ".idea") || str_eq(name, ".vscode") || str_eq(
        name,
        "vendor",
    ) || str_eq(name, ".cargo") || str_eq(name, "deps") || str_eq(name, "_build")
}

/// Whether the walk leaves `path` out: seen from `repo_path`, one of its
/// segments is a denied name or begins with a dot. Every path below an
/// ignored directory is ignored with it, so testing each entry prunes whole
/// subtrees.
pub fn is_ignored(path: &str, repo_path: &str) -> (ignored: bool)
    ensures
        ignored == should_ignore(relative_to(path@, repo_path@)),
{
    let rel = relative_path(path, repo_path);
    let chars = chars_of(rel);
    let n: usize = chars.len();
    let mut i: usize = 0;
    while i < n
        invariant
            i <= n,
            n == chars.len(),
            chars@ == rel@,
            rel@ == relative_to(path@, repo_path@),
            forall|k: int|
                0 <= k < i && #[trigger] starts_segment(rel@, k) ==> !(is_denied_name(
                    segment_at(rel@, k),
                ) || is_hidden_name(segment_at(rel@, k))),
        decreases n - i,
    {
        if i == 0 || chars[i - 1] == '/' {
            let mut end: usize = i;
            while end < n && chars[end] != '/'
                invariant
                    i <= end <= n,
                    n == chars.len(),
                    chars@ == rel@,
                    segment_end(rel@, i as int) == segment_end(rel@, end as int),
                decreases n - end,
            {
                end += 1;
            }
            let name = rel.substring_char(i, end);
            assert(name@ == segment_at(rel@, i as int));
            if is_denied(name) || (end > i && chars[i] == '.') {
                proof {
                    assert(starts_segment(rel@, i as int));
                    if end > i && chars[i as int] == '.' {
                        assert(segment_at(rel@, i as int).len() == end - i);
                        assert(segment_at(rel@, i as int)[0] == rel@[i as int]);
                    }
                    assert(rel@ == relative_to(path@, repo_path@));
                }
                return true;
            }
        }
        i += 1;
    }
    false
}

} // verus!
