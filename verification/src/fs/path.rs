//! Paths as strings: the key of an entry relative to the scan root, the key of
//! its parent, joining a directory with a file name, and the order in which
//! the entries of one directory are walked.
//!
//! A path is a sequence of characters with `/` between its components.

use vstd::prelude::*;
use vstd::std_specs::iter::IteratorSpec;
use vstd::string::StrSliceExecFns;
use vstd::string::StringExecFns;

verus! {

/// The separator between the components of a path.
pub const SEPARATOR: char = '/';

/// The key of `path` relative to `root`: empty for the root itself, else what
/// follows the root and the separator after it. `None` when `path` does not
/// lie under `root`.
pub open spec fn key_of(root: Seq<char>, path: Seq<char>) -> Option<Seq<char>> {
    if path == root {
        Some(Seq::<char>::empty())
    } else if !root.is_prefix_of(path) {
        None
    } else if root.len() > 0 && root.last() == SEPARATOR {
        Some(path.skip(root.len() as int))
    } else if path[root.len() as int] == SEPARATOR {
        Some(path.skip(root.len() as int + 1))
    } else {
        None
    }
}

/// Position of the last separator in `key`, or zero where it has none.
pub open spec fn last_separator(key: Seq<char>) -> int
    decreases key.len(),
{
    if key.len() == 0 {
        0
    } else if key.last() == SEPARATOR {
        key.len() - 1
    } else {
        last_separator(key.drop_last())
    }
}

/// The key of the parent: what stands before the last separator, the empty
/// key where there is none. The empty key, which is the root's, has no parent.
pub open spec fn parent_of(key: Seq<char>) -> Option<Seq<char>> {
    if key.len() == 0 {
        None
    } else {
        Some(key.take(last_separator(key)))
    }
}

/// A file name is not empty and holds no separator.
pub open spec fn is_name(name: Seq<char>) -> bool {
    name.len() > 0 && forall|i: int| 0 <= i < name.len() ==> name[i] != SEPARATOR
}

/// The path of the entry `name` in the directory `dir`.
pub open spec fn joined(dir: Seq<char>, name: Seq<char>) -> Seq<char> {
    if dir.len() == 0 {
        name
    } else if dir.last() == SEPARATOR {
        dir + name
    } else {
        dir + seq![SEPARATOR] + name
    }
}

/// `a` comes at or before `b` in lexicographic order, comparing from
/// position `i` on.
pub open spec fn ordered_from(a: Seq<char>, b: Seq<char>, i: int) -> bool
    decreases a.len() - i,
{
    if i >= a.len() {
        true
    } else if i >= b.len() {
        false
    } else if a[i] != b[i] {
        (a[i] as u32) < (b[i] as u32)
    } else {
        ordered_from(a, b, i + 1)
    }
}

/// `a` comes at or before `b` in lexicographic order by character.
pub open spec fn ordered(a: Seq<char>, b: Seq<char>) -> bool {
    ordered_from(a, b, 0)
}

pub proof fn lemma_ordered_from_transitive(a: Seq<char>, b: Seq<char>, c: Seq<char>, i: int)
    requires
        0 <= i,
        ordered_from(a, b, i),
        ordered_from(b, c, i),
    ensures
        ordered_from(a, c, i),
    decreases a.len() - i,
{
    if i < a.len() && i < b.len() && i < c.len() && a[i] == b[i] && b[i] == c[i] {
        lemma_ordered_from_transitive(a, b, c, i + 1);
    }
}

pub proof fn lemma_ordered_from_total(a: Seq<char>, b: Seq<char>, i: int)
    requires
        0 <= i,
    ensures
        ordered_from(a, b, i) || ordered_from(b, a, i),
    decreases a.len() - i,
{
    if i < a.len() && i < b.len() {
        if a[i] == b[i] {
            lemma_ordered_from_total(a, b, i + 1);
        } else {
            vstd::utf8::char_u32_cast(a[i], a[i] as u32);
            vstd::utf8::char_u32_cast(b[i], b[i] as u32);
        }
    }
}

/// The lexicographic order is transitive.
pub proof fn lemma_ordered_transitive(a: Seq<char>, b: Seq<char>, c: Seq<char>)
    requires
        ordered(a, b),
        ordered(b, c),
    ensures
        ordered(a, c),
{
    lemma_ordered_from_transitive(a, b, c, 0);
}

/// Of two paths, one comes at or before the other.
pub proof fn lemma_ordered_total(a: Seq<char>, b: Seq<char>)
    ensures
        ordered(a, b) || ordered(b, a),
{
    lemma_ordered_from_total(a, b, 0);
}

/// The characters of a string.
pub(crate) fn to_chars(s: &str) -> (v: Vec<char>)
    ensures
        v@ == s@,
{
    let mut v: Vec<char> = Vec::new();
    for c in it: s.chars()
        invariant
            v@ == it.seq().take(it.index() as int),
            it.seq() == s@,
    {
        v.push(c);
    }
    v
}

/// Whether `a` comes at or before `b` in lexicographic order by character.
pub fn path_ordered(a: &str, b: &str) -> (result: bool)
    ensures
        result == ordered(a@, b@),
{
    broadcast use vstd::string::group_string_axioms;

    let mut x = a.chars();
    let mut y = b.chars();
    let ghost mut i: int = 0;
    loop
        invariant
            0 <= i <= a@.len(),
            i <= b@.len(),
            x.remaining() == a@.skip(i),
            y.remaining() == b@.skip(i),
            ordered(a@, b@) == ordered_from(a@, b@, i),
        decreases a@.len() - i,
    {
        let c: char = match x.next() {
            None => {
                return true;
            },
            Some(c) => c,
        };
        let d: char = match y.next() {
            None => {
                return false;
            },
            Some(d) => d,
        };
        if c != d {
            return (c as u32) < (d as u32);
        }
        proof {
            i = i + 1;
        }
    }
}

/// Whether `name` is a file name: not empty and without a separator.
pub fn is_file_name(name: &str) -> (result: bool)
    ensures
        result == is_name(name@),
{
    let chars = to_chars(name);
    if chars.len() == 0 {
        return false;
    }
    let mut i: usize = 0;
    while i < chars.len()
        invariant
            i <= chars.len(),
            chars@ == name@,
            forall|j: int| 0 <= j < i ==> name@[j] != SEPARATOR,
        decreases chars.len() - i,
    {
        if chars[i] == SEPARATOR {
            return false;
        }
        i += 1;
    }
    true
}

/// The key of `path` relative to `root`, or `None` when `path` does not lie
/// under `root`.
pub fn relative_key(root: &str, path: &str) -> (key: Option<String>)
    ensures
        key is Some <==> key_of(root@, path@) is Some,
        key matches Some(k) ==> key_of(root@, path@) == Some(k@),
{
    let r = to_chars(root);
    let p = to_chars(path);
    if r.len() > p.len() {
        return None;
    }
    let mut i: usize = 0;
    while i < r.len()
        invariant
            i <= r.len() <= p.len(),
            r@ == root@,
            p@ == path@,
            forall|j: int| 0 <= j < i ==> r@[j] == p@[j],
        decreases r.len() - i,
    {
        if r[i] != p[i] {
            assert(!root@.is_prefix_of(path@)) by {
            }
            return None;
        }
        i += 1;
    }
    if p.len() == r.len() {
        assert(path@ =~= root@);
        return Some(String::new());
    }
    let start: usize = if r.len() > 0 && r[r.len() - 1] == SEPARATOR {
        r.len()
    } else if p[r.len()] == SEPARATOR {
        r.len() + 1
    } else {
        return None;
    };
    let rest: &str = path.substring_char(start, p.len());
    Some(rest.to_owned())
}

/// The key of the parent of `key`, or `None` for the empty key.
pub fn parent_key(key: &str) -> (parent: Option<String>)
    ensures
        parent is Some <==> parent_of(key@) is Some,
        parent matches Some(k) ==> parent_of(key@) == Some(k@),
{
    let k = to_chars(key);
    if k.len() == 0 {
        return None;
    }
    let mut end: usize = k.len();
    assert(key@.take(end as int) =~= key@);
    while end > 0 && k[end - 1] != SEPARATOR
        invariant
            end <= k.len(),
            k@ == key@,
            last_separator(key@) == last_separator(key@.take(end as int)),
        decreases end,
    {
        assert(key@.take(end as int).drop_last() =~= key@.take(end - 1));
        end -= 1;
    }
    let cut: usize = if end > 0 {
        end - 1
    } else {
        0
    };
    let head: &str = key.substring_char(0, cut);
    Some(head.to_owned())
}

/// The path of the entry `name` in the directory `dir`.
pub fn join_path(dir: &str, name: &str) -> (path: String)
    ensures
        path@ == joined(dir@, name@),
{
    let d = to_chars(dir);
    if d.len() == 0 {
        return name.to_owned();
    }
    let mut path: String = dir.to_owned();
    if d[d.len() - 1] != SEPARATOR {
        proof {
            reveal_strlit("/");
        }
        path.append("/");
    }
    path.append(name);
    path
}

/// A text without a separator has its last separator at zero.
pub proof fn lemma_no_separator(name: Seq<char>)
    requires
        forall|i: int| 0 <= i < name.len() ==> name[i] != SEPARATOR,
    ensures
        last_separator(name) == 0,
    decreases name.len(),
{
    if name.len() > 0 {
        lemma_no_separator(name.drop_last());
    }
}

/// Behind a key, a separator and a file name, the last separator is the one
/// in between.
pub proof fn lemma_last_separator_before_name(key: Seq<char>, name: Seq<char>)
    requires
        forall|i: int| 0 <= i < name.len() ==> name[i] != SEPARATOR,
    ensures
        last_separator(key + seq![SEPARATOR] + name) == key.len(),
    decreases name.len(),
{
    let whole = key + seq![SEPARATOR] + name;
    if name.len() > 0 {
        assert(whole.drop_last() =~= key + seq![SEPARATOR] + name.drop_last());
        lemma_last_separator_before_name(key, name.drop_last());
    }
}

/// The entry `name` of a directory under the root lies under the root, and
/// the key of the directory is the key of its parent. The directory is the
/// root itself, or its path does not end in a separator.
pub proof fn lemma_key_of_entry(root: Seq<char>, dir: Seq<char>, name: Seq<char>)
    requires
        root.len() > 0,
        is_name(name),
        key_of(root, dir) is Some,
        dir == root || dir.last() != SEPARATOR,
    ensures
        key_of(root, joined(dir, name)) is Some,
        key_of(root, joined(dir, name))->0.len() > 0,
        parent_of(key_of(root, joined(dir, name))->0) == key_of(root, dir),
        joined(dir, name) != root,
        joined(dir, name).last() != SEPARATOR,
        joined(dir, name).len() > root.len(),
{
    let path = joined(dir, name);
    let r = root.len() as int;
    if dir == root {
        if root.last() == SEPARATOR {
            assert(path.skip(r) =~= name);
        } else {
            assert(path.skip(r + 1) =~= name);
        }
        lemma_no_separator(name);
    } else {
        if dir.len() == r {
            assert(dir.subrange(0, r) =~= dir);
        }
        let key = key_of(root, dir)->0;
        let start = if root.last() == SEPARATOR {
            r
        } else {
            r + 1
        };
        assert(path.skip(start) =~= key + seq![SEPARATOR] + name);
        lemma_last_separator_before_name(key, name);
    }
}

} // verus!
