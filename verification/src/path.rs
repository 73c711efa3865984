//! File names in Unix paths.
//!
//! A path is a sequence of bytes, cut into components at its slashes. Empty
//! components do not count, and neither does `.` anywhere but at the front.

use vstd::prelude::*;

verus! {

/// `/`, which separates the components of a path.
pub const SLASH: u8 = 47;

/// `.`, which separates a file's extension from the rest of its name.
pub const DOT: u8 = 46;

/// `path` without the separators and the `.` components at its end.
pub open spec fn trimmed(path: Seq<u8>) -> Seq<u8>
    decreases path.len(),
{
    if path.len() > 0 && path.last() == SLASH {
        trimmed(path.drop_last())
    } else if path.len() > 1 && path.last() == DOT && path[path.len() - 2] == SLASH {
        trimmed(path.drop_last())
    } else {
        path
    }
}

/// Where `b` occurs last in `s`, or -1 if it does not.
pub open spec fn last_index(s: Seq<u8>, b: u8) -> int
    decreases s.len(),
{
    if s.len() == 0 {
        -1
    } else if s.last() == b {
        s.len() - 1
    } else {
        last_index(s.drop_last(), b)
    }
}

/// The last component of `path`.
pub open spec fn last_component(path: Seq<u8>) -> Seq<u8> {
    let t = trimmed(path);
    t.skip(last_index(t, SLASH) + 1)
}

/// The name of the file at `path`. A path that ends in `..`, or that has no
/// component but `.`, names none.
pub open spec fn file_name(path: Seq<u8>) -> Option<Seq<u8>> {
    let name = last_component(path);
    if name.len() == 0 || name == seq![DOT] || name == seq![DOT, DOT] {
        None
    } else {
        Some(name)
    }
}

/// The extension of the file at `path`: what is behind the last dot of its name,
/// unless that dot is the first byte of it.
pub open spec fn extension(path: Seq<u8>) -> Option<Seq<u8>> {
    match file_name(path) {
        Some(name) => if last_index(name, DOT) > 0 {
            Some(name.skip(last_index(name, DOT) + 1))
        } else {
            None
        },
        None => None,
    }
}

proof fn lemma_last_index(s: Seq<u8>, b: u8)
    ensures
        -1 <= last_index(s, b) < s.len(),
    decreases s.len(),
{
    if s.len() > 0 {
        lemma_last_index(s.drop_last(), b);
    }
}

/// Returns where the component or extension behind the last `b` in `s` starts.
fn behind_last(s: &[u8], b: u8) -> (start: usize)
    ensures
        start == last_index(s@, b) + 1,
        start <= s@.len(),
{
    let mut n: usize = s.len();
    assert(s@.take(n as int) =~= s@);
    while n > 0 && s[n - 1] != b
        invariant
            n <= s@.len(),
            last_index(s@.take(n as int), b) == last_index(s@, b),
        decreases n,
    {
        assert(s@.take(n as int).drop_last() =~= s@.take(n - 1));
        n = n - 1;
    }
    proof {
        lemma_last_index(s@, b);
    }
    n
}

/// Cuts the separators and the `.` components off the end of `path`.
fn trim(path: &[u8]) -> (t: &[u8])
    ensures
        t@ == trimmed(path@),
{
    let mut n: usize = path.len();
    assert(path@.take(n as int) =~= path@);
    while n > 0 && (path[n - 1] == SLASH || n > 1 && path[n - 1] == DOT && path[n - 2] == SLASH)
        invariant
            n <= path@.len(),
            trimmed(path@.take(n as int)) == trimmed(path@),
        decreases n,
    {
        assert(path@.take(n as int).drop_last() =~= path@.take(n - 1));
        n = n - 1;
    }
    assert(path@.take(n as int) =~= path@.subrange(0, n as int));
    &path[0..n]
}

/// Returns the extension of the file at `path`, if it has one.
pub fn extension_of(path: &[u8]) -> (ext: Option<&[u8]>)
    ensures
        match ext {
            Some(e) => extension(path@) == Some(e@),
            None => extension(path@) is None,
        },
{
    let t = trim(path);
    let start: usize = behind_last(t, SLASH);
    let name = &t[start..t.len()];
    assert(name@ =~= last_component(path@));
    if name.len() == 0 || name.len() == 1 && name[0] == DOT || name.len() == 2 && name[0] == DOT
        && name[1] == DOT {
        assert(name.len() == 1 ==> name@ =~= seq![DOT]);
        assert(name.len() == 2 ==> name@ =~= seq![DOT, DOT]);
        return None;
    }
    let dot: usize = behind_last(name, DOT);
    if dot > 1 {
        let ext = &name[dot..name.len()];
        assert(ext@ =~= name@.skip(dot as int));
        Some(ext)
    } else {
        None
    }
}

/// Whether `b` is nowhere in `s`.
pub open spec fn without(s: Seq<u8>, b: u8) -> bool {
    forall|i: int| 0 <= i < s.len() ==> #[trigger] s[i] != b
}

proof fn lemma_last_index_behind(front: Seq<u8>, b: u8, rest: Seq<u8>)
    requires
        without(rest, b),
    ensures
        last_index(front.push(b) + rest, b) == front.len(),
        last_index(rest, b) == -1,
    decreases rest.len(),
{
    let s = front.push(b) + rest;
    if rest.len() == 0 {
        assert(s =~= front.push(b));
    } else {
        let init = rest.drop_last();
        assert(forall|i: int| 0 <= i < init.len() ==> #[trigger] init[i] == rest[i]);
        lemma_last_index_behind(front, b, init);
        assert(s.drop_last() =~= front.push(b) + init);
        assert(s.last() == rest[rest.len() - 1]);
    }
}

/// Whether `dir` is what is in front of the name of a file: nothing, or something that
/// ends in a slash.
pub open spec fn is_dir(dir: Seq<u8>) -> bool {
    dir.len() == 0 || dir.last() == 47
}

proof fn lemma_name(dir: Seq<u8>, name: Seq<u8>)
    requires
        is_dir(dir),
        name.len() > 0,
        without(name, SLASH),
        name != seq![DOT] || dir.len() == 0,
    ensures
        last_component(dir + name) == name,
{
    let path = dir + name;
    assert(path.last() == name[name.len() - 1]);
    if path.len() > 1 && path[path.len() - 2] == SLASH {
        if name.len() > 1 {
            assert(path[path.len() - 2] == name[name.len() - 2]);
        } else if name[0] == DOT {
            assert(name =~= seq![DOT]);
        }
    }
    assert(trimmed(path) == path);
    if dir.len() == 0 {
        assert(path =~= name);
        lemma_last_index_behind(seq![], SLASH, name);
        assert(path.skip(0) =~= name);
    } else {
        assert(dir.drop_last().push(SLASH) =~= dir);
        lemma_last_index_behind(dir.drop_last(), SLASH, name);
        assert(path.skip(dir.len() as int) =~= name);
    }
}

/// What is behind the last dot of a file's name is its extension, whatever directory
/// the file is in.
pub proof fn law_extension(dir: Seq<u8>, stem: Seq<u8>, ext: Seq<u8>)
    requires
        is_dir(dir),
        stem.len() > 0,
        without(stem, 47),
        without(ext, 47),
        without(ext, 46),
        ext.len() > 0 || stem != seq![46u8],
    ensures
        extension(dir + stem.push(46) + ext) == Some(ext),
{
    let name = stem.push(DOT) + ext;
    assert forall|i: int| 0 <= i < name.len() implies #[trigger] name[i] != SLASH by {
        if i < stem.len() {
            assert(name[i] == stem[i]);
        } else if i > stem.len() {
            assert(name[i] == ext[i - stem.len() - 1]);
        }
    }
    assert(name.len() >= 2);
    assert(dir + stem.push(46) + ext =~= dir + name);
    lemma_name(dir, name);
    lemma_last_index_behind(stem, DOT, ext);
    if name == seq![DOT, DOT] {
        assert(stem =~= seq![name[0]]);
    }
    assert(name.skip(stem.len() as int + 1) =~= ext);
}

/// A file whose name has no dot, or none but at its front, has no extension.
pub proof fn law_no_extension(dir: Seq<u8>, name: Seq<u8>)
    requires
        is_dir(dir),
        name.len() > 0,
        without(name, 47),
        without(name.skip(1), 46),
        name != seq![46u8],
    ensures
        extension(dir + name) is None,
{
    lemma_name(dir, name);
    let rest = name.skip(1);
    if name[0] == DOT {
        lemma_last_index_behind(seq![], DOT, rest);
        assert(Seq::<u8>::empty().push(DOT) + rest =~= name);
    } else {
        assert forall|i: int| 0 <= i < name.len() implies #[trigger] name[i] != DOT by {
            if i > 0 {
                assert(rest[i - 1] == name[i]);
            }
        }
        lemma_last_index_behind(seq![], DOT, name);
    }
}

/// A slash at the end of a path, or a component that stands for the directory itself,
/// makes no difference. A path that leads to the parent of something, or to the root,
/// has no extension.
pub proof fn law_trailing(path: Seq<u8>)
    ensures
        extension(path.push(47)) == extension(path),
        extension(path.push(47).push(46)) == extension(path),
        extension(path.push(47).push(46).push(46)) is None,
        extension(Seq::empty()) is None,
        extension(seq![46u8]) is None,
        extension(seq![46u8, 46]) is None,
{
    assert(path.push(47).drop_last() =~= path);
    assert(path.push(47).push(46).drop_last() =~= path.push(47));
    let dir = path.push(47);
    let up = seq![DOT, DOT];
    assert(path.push(47).push(46).push(46) =~= dir + up);
    lemma_name(dir, up);
    let none = Seq::<u8>::empty();
    assert(none + up =~= up);
    lemma_name(none, up);
    assert(none + seq![DOT] =~= seq![DOT]);
    lemma_name(none, seq![DOT]);
    assert(trimmed(none) == none);
    assert(none.skip(0) =~= none);
}

} // verus!
