//! Paths as text: separators, file names, extensions, parents.
//!
//! A path here is a sequence of characters whose components are separated
//! by `/`. The file name of a path is what follows its last `/`.
//!
//! This is not `std::path::Path`. There a separator at the end of a path is
//! passed over, so that `a/b.png/` has the file name `b.png`; here a path
//! that ends in `/` has an empty file name and names no file. So
//! `extension` finds none in it, `with_extension` leaves it as it is, and
//! `parent` takes off the last `/` alone: the parent of `a/b/` is `a/b`.
//! Nor are several `/` in a row taken for one.

use crate::chars::{chars_of, text_of};
use vstd::prelude::*;

verus! {

/// The path with every backslash turned into a forward slash.
pub open spec fn forward(path: Seq<char>) -> Seq<char> {
    path.map_values(
        |c: char|
            if c == '\\' {
                '/'
            } else {
                c
            },
    )
}

/// The place of the last `c` in `s`, or -1 where there is none.
pub open spec fn last_of(s: Seq<char>, c: char) -> int
    decreases s.len(),
{
    if s.len() == 0 {
        -1
    } else if s.last() == c {
        s.len() - 1
    } else {
        last_of(s.drop_last(), c)
    }
}

/// Where the file name of the path begins.
pub open spec fn name_start(path: Seq<char>) -> int {
    last_of(path, '/') + 1
}

/// The file name of the path.
pub open spec fn file_name(path: Seq<char>) -> Seq<char> {
    path.skip(name_start(path))
}

/// The path names a file: its file name is neither empty nor `.` nor `..`.
/// A path that ends in `/` names none.
pub open spec fn names_file(path: Seq<char>) -> bool {
    let name = file_name(path);
    name.len() > 0 && name != seq!['.'] && name != seq!['.', '.']
}

/// Where the extension's dot stands: the last `.` of the file name, unless
/// the file name begins with it. `None` where the path has no extension.
pub open spec fn extension_dot(path: Seq<char>) -> Option<int> {
    let dot = last_of(file_name(path), '.');
    if names_file(path) && dot > 0 {
        Some(name_start(path) + dot)
    } else {
        None
    }
}

/// The extension of the path, without its dot. A path that ends in `/`
/// has none.
pub open spec fn extension(path: Seq<char>) -> Option<Seq<char>> {
    match extension_dot(path) {
        Some(dot) => Some(path.skip(dot + 1)),
        None => None,
    }
}

/// The path without its extension.
pub open spec fn without_extension(path: Seq<char>) -> Seq<char> {
    match extension_dot(path) {
        Some(dot) => path.take(dot),
        None => path,
    }
}

/// The path with its extension replaced by `ext`, or with `ext` added where
/// it has none. An empty `ext` takes the extension away. A path that names
/// no file, as one that ends in `/`, stays as it is.
pub open spec fn with_extension(path: Seq<char>, ext: Seq<char>) -> Seq<char> {
    if !names_file(path) {
        path
    } else if ext.len() == 0 {
        without_extension(path)
    } else {
        without_extension(path) + seq!['.'] + ext
    }
}

/// The path of `child` below `base`: `child` itself where it begins at the
/// root or where `base` is empty, else `base`, a `/` unless `base` ends in
/// one, and `child`.
pub open spec fn join(base: Seq<char>, child: Seq<char>) -> Seq<char> {
    if base.len() == 0 || (child.len() > 0 && child[0] == '/') {
        child
    } else if base.last() == '/' {
        base + child
    } else {
        base + seq!['/'] + child
    }
}

/// The directory that holds the path: what stands before its last `/`, the
/// root itself for a path directly below the root, the empty path for a
/// path without `/`. `None` for the empty path and for the root. Of a path
/// that ends in `/` only that `/` is taken off.
pub open spec fn parent(path: Seq<char>) -> Option<Seq<char>> {
    let slash = last_of(path, '/');
    if path.len() == 0 || path == seq!['/'] {
        None
    } else if slash < 0 {
        Some(Seq::empty())
    } else if slash == 0 {
        Some(seq!['/'])
    } else {
        Some(path.take(slash))
    }
}

/// `prefix` stands at the front of `s`.
pub open spec fn starts_with(s: Seq<char>, prefix: Seq<char>) -> bool {
    prefix.len() <= s.len() && s.take(prefix.len() as int) == prefix
}

/// The path as seen from `root`: where the path lies below `root`, what
/// follows `root` and its `/`; else the path itself.
pub open spec fn relative_to(path: Seq<char>, root: Seq<char>) -> Seq<char> {
    if root.len() == 0 || !starts_with(path, root) {
        path
    } else if root.last() == '/' {
        path.skip(root.len() as int)
    } else if path.len() > root.len() && path[root.len() as int] == '/' {
        path.skip(root.len() as int + 1)
    } else {
        path
    }
}

/// The path without a leading `./`.
pub open spec fn without_dot_slash(path: Seq<char>) -> Seq<char> {
    if starts_with(path, seq!['.', '/']) {
        path.skip(2)
    } else {
        path
    }
}

/// A path with forward slashes holds no backslash.
pub proof fn lemma_forward_has_no_backslash(path: Seq<char>)
    ensures
        !forward(path).contains('\\'),
{
    assert forall|i: int| 0 <= i < forward(path).len() implies forward(path)[i] != '\\' by {}
}

/// A part of a sequence without `c` is without `c`.
pub proof fn lemma_part_lacks(s: Seq<char>, part: Seq<char>, from: int, c: char)
    requires
        !s.contains(c),
        0 <= from,
        from + part.len() <= s.len(),
        part == s.subrange(from, from + part.len()),
    ensures
        !part.contains(c),
{
    assert forall|i: int| 0 <= i < part.len() implies part[i] != c by {
        assert(part[i] == s[from + i]);
        assert(s.contains(s[from + i]));
    }
}

/// The extension's dot stands within the path.
pub proof fn lemma_extension_dot(path: Seq<char>)
    ensures
        0 <= name_start(path) <= path.len(),
        extension_dot(path) matches Some(dot) ==> name_start(path) < dot < path.len()
            && path[dot] == '.',
        without_extension(path) == path.subrange(0, without_extension(path).len() as int),
        without_extension(path).len() <= path.len(),
{
    lemma_last_of(path, '/');
    lemma_last_of(file_name(path), '.');
    match extension_dot(path) {
        Some(dot) => {
            assert(path.take(dot) =~= path.subrange(0, dot));
        },
        None => {
            assert(path =~= path.subrange(0, path.len() as int));
        },
    }
}

/// `last_of` gives a place of `c`, and no `c` stands after it.
pub proof fn lemma_last_of(s: Seq<char>, c: char)
    ensures
        -1 <= last_of(s, c) < s.len(),
        last_of(s, c) >= 0 ==> s[last_of(s, c)] == c,
        forall|i: int| last_of(s, c) < i < s.len() ==> s[i] != c,
    decreases s.len(),
{
    if s.len() > 0 && s.last() != c {
        lemma_last_of(s.drop_last(), c);
        assert forall|i: int| last_of(s, c) < i < s.len() implies s[i] != c by {
            if i < s.len() - 1 {
                assert(s.drop_last()[i] == s[i]);
            }
        }
    }
}

/// The place of the last `c` in `s`, or `None` where there is none.
pub fn find_last(s: &Vec<char>, c: char) -> (r: Option<usize>)
    ensures
        match r {
            Some(i) => i == last_of(s@, c),
            None => last_of(s@, c) == -1,
        },
{
    let mut i: usize = s.len();
    assert(s@.take(i as int) =~= s@);
    while i > 0
        invariant
            i <= s@.len(),
            last_of(s@, c) == last_of(s@.take(i as int), c),
        decreases i,
    {
        if s[i - 1] == c {
            assert(s@.take(i as int).last() == c);
            return Some(i - 1);
        }
        assert(s@.take(i as int).drop_last() =~= s@.take(i - 1));
        i -= 1;
    }
    assert(s@.take(0).len() == 0);
    None
}

/// The characters from `from` up to `to`.
fn copy_range(s: &Vec<char>, from: usize, to: usize) -> (r: Vec<char>)
    requires
        from <= to <= s@.len(),
    ensures
        r@ == s@.subrange(from as int, to as int),
{
    let mut r: Vec<char> = Vec::new();
    let mut i: usize = from;
    while i < to
        invariant
            from <= i <= to <= s@.len(),
            r@ == s@.subrange(from as int, i as int),
        decreases to - i,
    {
        r.push(s[i]);
        assert(s@.subrange(from as int, i + 1) =~= s@.subrange(from as int, i as int).push(
            s@[i as int],
        ));
        i += 1;
    }
    r
}

/// Appends the characters of `tail`.
fn append(r: &mut Vec<char>, tail: &Vec<char>)
    ensures
        final(r)@ == old(r)@ + tail@,
{
    let ghost start = r@;
    let mut i: usize = 0;
    while i < tail.len()
        invariant
            i <= tail@.len(),
            r@ == start + tail@.take(i as int),
        decreases tail@.len() - i,
    {
        r.push(tail[i]);
        assert(tail@.take(i + 1) =~= tail@.take(i as int).push(tail@[i as int]));
        i += 1;
    }
    assert(tail@.take(tail@.len() as int) =~= tail@);
}

/// Where the file name begins.
fn find_name_start(s: &Vec<char>) -> (r: usize)
    ensures
        r == name_start(s@),
        r <= s@.len(),
{
    proof {
        lemma_last_of(s@, '/');
    }
    let n = s.len();
    match find_last(s, '/') {
        Some(i) => {
            assert(i < n);
            i + 1
        },
        None => 0,
    }
}

/// Where the extension's dot stands.
fn find_extension_dot(s: &Vec<char>) -> (r: Option<usize>)
    ensures
        match r {
            Some(dot) => extension_dot(s@) == Some(dot as int) && dot < s@.len(),
            None => extension_dot(s@) is None,
        },
        names_file(s@) == (file_name(s@).len() > 0 && file_name(s@) != seq!['.'] && file_name(s@)
            != seq!['.', '.']),
{
    let start = find_name_start(s);
    let name = copy_range(s, start, s.len());
    assert(name@ =~= file_name(s@));
    proof {
        lemma_last_of(name@, '.');
    }
    if !has_file_name(&name) {
        return None;
    }
    match find_last(&name, '.') {
        Some(dot) => if dot > 0 {
            Some(start + dot)
        } else {
            None
        },
        None => None,
    }
}

/// Tells whether a file name is neither empty nor `.` nor `..`.
fn has_file_name(name: &Vec<char>) -> (r: bool)
    ensures
        r == (name@.len() > 0 && name@ != seq!['.'] && name@ != seq!['.', '.']),
{
    if name.len() == 0 {
        false
    } else if name.len() == 1 && name[0] == '.' {
        assert(name@ =~= seq!['.']);
        false
    } else if name.len() == 2 && name[0] == '.' && name[1] == '.' {
        assert(name@ =~= seq!['.', '.']);
        false
    } else {
        assert(name@ != seq!['.']) by {
            if name@ == seq!['.'] {
                assert(seq!['.'].len() == 1);
                assert(seq!['.'][0] == '.');
            }
        }
        assert(name@ != seq!['.', '.']) by {
            if name@ == seq!['.', '.'] {
                assert(seq!['.', '.'].len() == 2);
                assert(seq!['.', '.'][0] == '.');
                assert(seq!['.', '.'][1] == '.');
            }
        }
        true
    }
}

/// The path with every backslash turned into a forward slash.
pub fn normalize_separators(path: &str) -> (r: String)
    ensures
        r@ == forward(path@),
{
    let chars = chars_of(path);
    let r = forward_chars(&chars);
    text_of(&r)
}

/// The characters with every backslash turned into a forward slash.
pub fn forward_chars(chars: &Vec<char>) -> (r: Vec<char>)
    ensures
        r@ == forward(chars@),
{
    let mut r: Vec<char> = Vec::new();
    let mut i: usize = 0;
    while i < chars.len()
        invariant
            i <= chars@.len(),
            r@ == forward(chars@).take(i as int),
        decreases chars@.len() - i,
    {
        let c = chars[i];
        r.push(
            if c == '\\' {
                '/'
            } else {
                c
            },
        );
        assert(forward(chars@).take(i + 1) =~= forward(chars@).take(i as int).push(
            forward(chars@)[i as int],
        ));
        i += 1;
    }
    assert(forward(chars@).take(chars@.len() as int) =~= forward(chars@));
    r
}

/// The extension of the path, without its dot; `None` where it has none.
pub fn extension_of(path: &str) -> (r: Option<String>)
    ensures
        match r {
            Some(ext) => extension(path@) == Some(ext@),
            None => extension(path@) is None,
        },
{
    let chars = chars_of(path);
    match find_extension_dot(&chars) {
        Some(dot) => {
            let n = chars.len();
            assert(dot < n);
            let ext = copy_range(&chars, dot + 1, n);
            assert(ext@ =~= path@.skip(dot + 1));
            Some(text_of(&ext))
        },
        None => None,
    }
}

/// The characters of the path with its extension replaced by `ext`.
pub fn with_extension_chars(chars: &Vec<char>, ext: &Vec<char>) -> (r: Vec<char>)
    ensures
        r@ == with_extension(chars@, ext@),
{
    let dot = find_extension_dot(chars);
    let start = find_name_start(chars);
    let name = copy_range(chars, start, chars.len());
    assert(name@ =~= file_name(chars@));
    if !has_file_name(&name) {
        let r = copy_range(chars, 0, chars.len());
        assert(r@ =~= chars@);
        return r;
    }
    let stem_end = match dot {
        Some(d) => d,
        None => chars.len(),
    };
    let mut r = copy_range(chars, 0, stem_end);
    assert(r@ =~= without_extension(chars@));
    if ext.len() > 0 {
        r.push('.');
        append(&mut r, ext);
        assert(r@ =~= without_extension(chars@) + seq!['.'] + ext@);
    }
    r
}

/// The path with its extension replaced by `ext`, or with `ext` added where
/// it has none.
pub fn replace_extension(path: &str, ext: &str) -> (r: String)
    ensures
        r@ == with_extension(path@, ext@),
{
    let chars = chars_of(path);
    let ext_chars = chars_of(ext);
    let r = with_extension_chars(&chars, &ext_chars);
    text_of(&r)
}

/// The path without its extension.
pub fn strip_extension(path: &str) -> (r: String)
    ensures
        r@ == without_extension(path@),
{
    let chars = chars_of(path);
    let stem_end = match find_extension_dot(&chars) {
        Some(d) => d,
        None => chars.len(),
    };
    let r = copy_range(&chars, 0, stem_end);
    assert(r@ =~= without_extension(path@));
    text_of(&r)
}

/// The path of `child` below `base`.
pub fn join_paths(base: &str, child: &str) -> (r: String)
    ensures
        r@ == join(base@, child@),
{
    let base_chars = chars_of(base);
    let child_chars = chars_of(child);
    if base_chars.len() == 0 || (child_chars.len() > 0 && child_chars[0] == '/') {
        return text_of(&child_chars);
    }
    let mut r = copy_range(&base_chars, 0, base_chars.len());
    assert(r@ =~= base@);
    if base_chars[base_chars.len() - 1] != '/' {
        r.push('/');
    }
    append(&mut r, &child_chars);
    text_of(&r)
}

/// The directory that holds the path; `None` for the empty path and for the
/// root.
pub fn parent_of(path: &str) -> (r: Option<String>)
    ensures
        match r {
            Some(dir) => parent(path@) == Some(dir@),
            None => parent(path@) is None,
        },
{
    let chars = chars_of(path);
    proof {
        lemma_last_of(chars@, '/');
    }
    if chars.len() == 0 {
        return None;
    }
    if chars.len() == 1 && chars[0] == '/' {
        assert(chars@ =~= seq!['/']);
        return None;
    }
    assert(chars@ != seq!['/']) by {
        if chars@ == seq!['/'] {
            assert(seq!['/'].len() == 1);
            assert(seq!['/'][0] == '/');
        }
    }
    match find_last(&chars, '/') {
        None => Some(String::new()),
        Some(slash) => {
            if slash == 0 {
                let mut root: Vec<char> = Vec::new();
                root.push('/');
                assert(root@ =~= seq!['/']);
                Some(text_of(&root))
            } else {
                let dir = copy_range(&chars, 0, slash);
                assert(dir@ =~= path@.take(slash as int));
                Some(text_of(&dir))
            }
        },
    }
}

/// Tells whether `prefix` stands at the front of `s`.
fn has_prefix(s: &Vec<char>, prefix: &Vec<char>) -> (r: bool)
    ensures
        r == starts_with(s@, prefix@),
{
    if prefix.len() > s.len() {
        return false;
    }
    let mut i: usize = 0;
    while i < prefix.len()
        invariant
            i <= prefix@.len() <= s@.len(),
            forall|j: int| 0 <= j < i ==> s@[j] == prefix@[j],
        decreases prefix@.len() - i,
    {
        if s[i] != prefix[i] {
            assert(s@.take(prefix@.len() as int)[i as int] != prefix@[i as int]);
            return false;
        }
        i += 1;
    }
    assert(s@.take(prefix@.len() as int) =~= prefix@);
    true
}

/// The characters of the path as seen from `root`.
pub fn relative_chars(path: &Vec<char>, root: &Vec<char>) -> (r: Vec<char>)
    ensures
        r@ == relative_to(path@, root@),
{
    let n = root.len();
    let from = if n == 0 || !has_prefix(path, root) {
        0
    } else if root[n - 1] == '/' {
        n
    } else if path.len() > n && path[n] == '/' {
        n + 1
    } else {
        0
    };
    let r = copy_range(path, from, path.len());
    assert(r@ =~= path@.skip(from as int));
    assert(path@.skip(0) =~= path@);
    r
}

/// The characters of the path without a leading `./`.
pub fn without_dot_slash_chars(path: &Vec<char>) -> (r: Vec<char>)
    ensures
        r@ == without_dot_slash(path@),
{
    let from = if path.len() >= 2 && path[0] == '.' && path[1] == '/' {
        assert(path@.take(2) =~= seq!['.', '/']);
        2
    } else {
        assert(!starts_with(path@, seq!['.', '/'])) by {
            if starts_with(path@, seq!['.', '/']) {
                assert(seq!['.', '/'].len() == 2);
                assert(path@.take(2)[0] == '.');
                assert(path@.take(2)[1] == '/');
            }
        }
        0
    };
    let r = copy_range(path, from, path.len());
    assert(r@ =~= path@.skip(from as int));
    assert(path@.skip(0) =~= path@);
    r
}

} // verus!
