//! The host side: named byte sources that shards point into, and a host that
//! keeps its files in memory.

use vstd::prelude::*;
use crate::assoc::{assoc_find, assoc_map, lemma_assoc_push};
use crate::source::{ByteSource, MemSource, SourceError};

verus! {

/// What lies in the file `path` from `offset` on; nothing where the file is
/// missing or shorter than `offset`.
pub open spec fn file_tail(files: Map<Seq<char>, Seq<u8>>, path: Seq<char>, offset: nat) -> Seq<
    u8,
> {
    if files.contains_key(path) && offset <= files[path].len() {
        files[path].skip(offset as int)
    } else {
        Seq::empty()
    }
}

/// A place that holds files by name and opens them as byte sources.
pub trait Host<R: ByteSource>: Sized {
    /// The files of the host: name to content.
    spec fn files(&self) -> Map<Seq<char>, Seq<u8>>;

    /// Whether opening a file that exists, and every operation on the source,
    /// always succeeds.
    spec fn reliable(&self) -> bool;

    /// Whether the sources that the host opens are eager.
    spec fn eager(&self) -> bool;

    /// Opens `path` with the cursor `offset` bytes into it, or at its end
    /// where it is shorter.
    fn open(&self, path: &String, offset: u64) -> (r: Result<R, SourceError>)
        ensures
            self.reliable() && self.files().contains_key(path@) ==> r is Ok,
            r matches Ok(src) ==> {
                &&& self.files().contains_key(path@)
                &&& src.inv()
                &&& src.remaining() == file_tail(self.files(), path@, offset as nat)
                &&& self.reliable() ==> src.infallible()
                &&& self.eager() ==> src.eager()
            },
    ;
}

/// A host whose files are byte vectors in memory.
pub struct MemHost {
    entries: Vec<(String, Vec<u8>)>,
}

impl MemHost {
    /// A host without files.
    pub fn new() -> (r: MemHost)
        ensures
            r.contents() == Map::<Seq<char>, Seq<u8>>::empty(),
    {
        let r = MemHost { entries: Vec::new() };
        assert(r.contents() =~= Map::<Seq<char>, Seq<u8>>::empty());
        r
    }

    /// The files of this host.
    pub closed spec fn contents(&self) -> Map<Seq<char>, Seq<u8>> {
        let m = assoc_map(self.entries@, self.entries@.len());
        Map::new(|p: Seq<char>| m.contains_key(p), |p: Seq<char>| m[p]@)
    }

    /// Writes the file `name`, replacing what was there.
    pub fn add_file(&mut self, name: String, data: Vec<u8>)
        ensures
            final(self).contents() == old(self).contents().insert(name@, data@),
    {
        proof {
            lemma_assoc_push(self.entries@, name, data);
        }
        self.entries.push((name, data));
        assert(self.contents() =~= old(self).contents().insert(name@, data@));
    }
}

impl Host<MemSource> for MemHost {
    open spec fn files(&self) -> Map<Seq<char>, Seq<u8>> {
        self.contents()
    }

    open spec fn reliable(&self) -> bool {
        true
    }

    open spec fn eager(&self) -> bool {
        true
    }

    fn open(&self, path: &String, offset: u64) -> (r: Result<MemSource, SourceError>)
        ensures
            !self.files().contains_key(path@) ==> r == Err::<MemSource, SourceError>(
                SourceError::NotFound,
            ),
    {
        match assoc_find(&self.entries, path) {
            None => Err(SourceError::NotFound),
            Some(i) => {
                let data = self.entries[i].1.clone();
                assert(data@ == self.entries@[i as int].1@);
                let mut src = MemSource::new(data);
                let _ = src.skip(offset);
                Ok(src)
            },
        }
    }
}

} // verus!
