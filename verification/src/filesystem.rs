//! The root of a container's file system and the host's mount table.

use vstd::prelude::*;
use vstd::string::{StrSliceExecFns, StringExecFns};

verus! {

/// One line of the host's mount table.
pub struct Mount {
    pub source: String,
    pub target: String,
    pub fstype: String,
    pub flags: String,
}

/// A container's file system, rooted at a host directory.
pub struct Filesystem {
    root: String,
}

impl Filesystem {
    /// The file system rooted at `root`.
    pub fn new(root: String) -> (r: Filesystem)
        ensures
            r.root_path() == root@,
    {
        Filesystem { root: root }
    }

    /// The host directory that is the root.
    pub closed spec fn root_path(&self) -> Seq<char> {
        self.root@
    }

    /// The host directory that is the root.
    pub fn root(&self) -> (r: &String)
        ensures
            r@ == self.root_path(),
    {
        &self.root
    }
}

/// Where containers live on the host.
pub struct System {
    pub cdir: String,
}

/// A container: its file system and the system it runs on.
pub struct Container<'s> {
    pub fs: Filesystem,
    pub system: &'s System,
}

/// The position of the first `sep` in `s` at or behind `from`; the length
/// of `s` where there is none.
pub open spec fn first_sep(s: Seq<char>, sep: char, from: int) -> int
    decreases s.len() - from,
{
    if from < 0 || from >= s.len() {
        s.len() as int
    } else if s[from] == sep {
        from
    } else {
        first_sep(s, sep, from + 1)
    }
}

/// The position of the first space in `s` at or behind `from`.
pub open spec fn first_space(s: Seq<char>, from: int) -> int {
    first_sep(s, ' ', from)
}

/// A path in clean form: every component of `s` from `from` on that is not
/// empty, each behind one slash.
pub open spec fn clean_from(s: Seq<char>, from: int) -> Seq<char>
    decreases s.len() - from,
{
    if from < 0 || from >= s.len() {
        Seq::empty()
    } else {
        let e = first_sep(s, '/', from);
        if e <= from {
            clean_from(s, from + 1)
        } else {
            seq!['/'] + s.subrange(from, e) + clean_from(s, if e < s.len() {
                e + 1
            } else {
                s.len() as int
            })
        }
    }
}

/// The four fields of a mount-table line, where single spaces part at
/// least four fields: source, target, file-system type, flags. What follows
/// the fourth field is left out.
pub open spec fn mount_fields(s: Seq<char>) -> Option<(Seq<char>, Seq<char>, Seq<char>, Seq<char>)> {
    let e0 = first_space(s, 0);
    let e1 = first_space(s, e0 + 1);
    let e2 = first_space(s, e1 + 1);
    let e3 = first_space(s, e2 + 1);
    if e0 < s.len() && e1 < s.len() && e2 < s.len() {
        Some(
            (
                s.subrange(0, e0),
                s.subrange(e0 + 1, e1),
                s.subrange(e1 + 1, e2),
                s.subrange(e2 + 1, e3),
            ),
        )
    } else {
        None
    }
}

fn find_sep(line: &str, sep: char, from: usize, len: usize) -> (r: usize)
    requires
        from <= len == line@.len(),
    ensures
        r == first_sep(line@, sep, from as int),
        from <= r <= len,
{
    let mut i: usize = from;
    while i < len
        invariant
            from <= i <= len == line@.len(),
            first_sep(line@, sep, from as int) == first_sep(line@, sep, i as int),
        decreases len - i,
    {
        if line.get_char(i) == sep {
            return i;
        }
        i += 1;
    }
    i
}

/// The clean form of a path: doubled, leading and trailing slashes are
/// dropped, and every component stands behind one slash. A path without
/// components is empty.
pub fn clean_path(root: &str) -> (r: String)
    ensures
        r@ == clean_from(root@, 0),
{
    let len = root.unicode_len();
    let mut out = String::new();
    let mut from: usize = 0;
    while from < len
        invariant
            from <= len == root@.len(),
            out@ + clean_from(root@, from as int) == clean_from(root@, 0),
        decreases len - from,
    {
        let e = find_sep(root, '/', from, len);
        let ghost before = out@;
        if e > from {
            proof {
                reveal_strlit("/");
                assert("/"@ =~= seq!['/']);
            }
            out.append("/");
            out.append(root.substring_char(from, e));
            assert(out@ =~= before + (seq!['/'] + root@.subrange(from as int, e as int)));
        }
        let next = if e < len { e + 1 } else { len };
        proof {
            let tail = clean_from(root@, next as int);
            if e > from {
                assert(before + (seq!['/'] + root@.subrange(from as int, e as int) + tail) =~= before
                    + (seq!['/'] + root@.subrange(from as int, e as int)) + tail);
            }
        }
        from = next;
    }
    assert(out@ + clean_from(root@, len as int) =~= out@);
    out
}

/// Reads one line of the mount table. A line with fewer than four fields
/// gives nothing.
pub fn parse_mount(line: &str) -> (r: Option<Mount>)
    ensures
        match r {
            Some(m) => mount_fields(line@) == Some((m.source@, m.target@, m.fstype@, m.flags@)),
            None => mount_fields(line@) is None,
        },
{
    let len = line.unicode_len();
    let e0 = find_sep(line, ' ', 0, len);
    if e0 >= len {
        return None;
    }
    let e1 = find_sep(line, ' ', e0 + 1, len);
    if e1 >= len {
        return None;
    }
    let e2 = find_sep(line, ' ', e1 + 1, len);
    if e2 >= len {
        return None;
    }
    let e3 = find_sep(line, ' ', e2 + 1, len);
    Some(
        Mount {
            source: line.substring_char(0, e0).to_owned(),
            target: line.substring_char(e0 + 1, e1).to_owned(),
            fstype: line.substring_char(e1 + 1, e2).to_owned(),
            flags: line.substring_char(e2 + 1, e3).to_owned(),
        },
    )
}

/// Whether `target` begins with `prefix`.
pub fn is_under(target: &str, prefix: &str) -> (r: bool)
    ensures
        r == (prefix@.len() <= target@.len() && target@.subrange(0, prefix@.len() as int)
            == prefix@),
{
    let n = prefix.unicode_len();
    if n > target.unicode_len() {
        return false;
    }
    let mut i: usize = 0;
    while i < n
        invariant
            i <= n == prefix@.len() <= target@.len(),
            target@.subrange(0, i as int) == prefix@.subrange(0, i as int),
        decreases n - i,
    {
        if target.get_char(i) != prefix.get_char(i) {
            assert(target@.subrange(0, n as int)[i as int] != prefix@[i as int]);
            return false;
        }
        assert(target@.subrange(0, i + 1) =~= target@.subrange(0, i as int).push(target@[i as int]));
        assert(prefix@.subrange(0, i + 1) =~= prefix@.subrange(0, i as int).push(prefix@[i as int]));
        i += 1;
    }
    assert(prefix@.subrange(0, n as int) =~= prefix@);
    true
}

/// Whether something is mounted at `dir`.
pub fn mounted_at(mounts: &Vec<Mount>, dir: &String) -> (r: bool)
    ensures
        r == exists|i: int| 0 <= i < mounts@.len() && (#[trigger] mounts@[i]).target@ == dir@,
{
    let mut i: usize = 0;
    while i < mounts.len()
        invariant
            i <= mounts@.len(),
            forall|j: int| 0 <= j < i ==> (#[trigger] mounts@[j]).target@ != dir@,
        decreases mounts@.len() - i,
    {
        if mounts[i].target == *dir {
            return true;
        }
        i += 1;
    }
    false
}

/// How often unmounting everything under a root is tried again before a
/// failure is given up on.
pub const UNMOUNT_TRIES: u32 = 3;

/// Whether a failed unmount in round `tries`, counted from 1, ends the
/// clearing with that failure; before that, another round follows.
pub fn gives_up(tries: u32) -> (r: bool)
    ensures
        r == (tries > UNMOUNT_TRIES),
{
    tries > UNMOUNT_TRIES
}

} // verus!
