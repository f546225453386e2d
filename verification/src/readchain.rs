//! The chained reader: an indexed sequence of bounded byte sources, opened
//! one at a time and presented as a single stream.

use vstd::prelude::*;
use crate::source::{clip, ByteSource, SeekFrom, SourceError};

verus! {

/// An indexed factory of bounded sources.
///
/// Source `i` is opened by `at(i)`, which also gives the number of bytes the
/// chain may take from it. Implementations promise that `at` opens what
/// `bytes_at` and `limit_at` describe.
pub trait ReadChainAble<R: ByteSource>: Sized {
    /// Number of sources.
    spec fn spec_len(&self) -> nat;

    /// The bytes ahead of the cursor of source `i` as `at` hands it out.
    spec fn bytes_at(&self, i: int) -> Seq<u8>;

    /// The limit that `at` gives for source `i`.
    spec fn limit_at(&self, i: int) -> nat;

    /// Whether opening a source, and every operation on it, always succeeds.
    spec fn infallible(&self) -> bool;

    /// Whether the sources that `at` opens are eager.
    spec fn eager(&self) -> bool;

    /// Number of sources available.
    fn len(&self) -> (n: usize)
        ensures
            n == self.spec_len(),
    ;

    /// Opens source `i` and gives its limit: the chain takes at most that
    /// many bytes from it, not all there are.
    fn at(&self, i: usize) -> (r: Result<(R, usize), SourceError>)
        requires
            i < self.spec_len(),
        ensures
            self.infallible() ==> r is Ok,
            r matches Ok(p) ==> {
                &&& p.0.inv()
                &&& p.0.remaining() == self.bytes_at(i as int)
                &&& p.1 == self.limit_at(i as int)
                &&& self.infallible() ==> p.0.infallible()
                &&& self.eager() ==> p.0.eager()
            },
    ;
}

/// The bytes of the chain from source `i` on: each source clipped to its
/// limit, in order.
pub open spec fn content_from<T: ReadChainAble<R>, R: ByteSource>(it: &T, i: nat) -> Seq<u8>
    decreases it.spec_len() - i,
{
    if i >= it.spec_len() {
        Seq::empty()
    } else {
        clip(it.bytes_at(i as int), it.limit_at(i as int)) + content_from::<T, R>(it, i + 1)
    }
}

/// The length of the first `k` pieces of the chain from source `i` on that
/// are not empty; a piece is what a source holds under its limit.
pub open spec fn run_len<T: ReadChainAble<R>, R: ByteSource>(it: &T, i: nat, k: nat) -> nat
    decreases it.spec_len() - i,
{
    if i >= it.spec_len() || k == 0 {
        0
    } else {
        let p = clip(it.bytes_at(i as int), it.limit_at(i as int)).len();
        if p > 0 {
            p + run_len::<T, R>(it, i + 1, (k - 1) as nat)
        } else {
            run_len::<T, R>(it, i + 1, k)
        }
    }
}

/// Two pieces are at least as long as one.
pub proof fn lemma_run_grows<T: ReadChainAble<R>, R: ByteSource>(it: &T, i: nat)
    ensures
        run_len::<T, R>(it, i, 1) <= run_len::<T, R>(it, i, 2),
    decreases it.spec_len() - i,
{
    if i < it.spec_len() {
        lemma_run_grows::<T, R>(it, i + 1);
        assert(run_len::<T, R>(it, i + 1, 0) == 0);
    }
}

/// Where the stream from source `i` on is empty, its pieces have no length.
pub proof fn lemma_run_empty<T: ReadChainAble<R>, R: ByteSource>(it: &T, i: nat, k: nat)
    requires
        content_from::<T, R>(it, i).len() == 0,
    ensures
        run_len::<T, R>(it, i, k) == 0,
    decreases it.spec_len() - i,
{
    if i < it.spec_len() && k > 0 {
        lemma_run_empty::<T, R>(it, i + 1, k);
    }
}

/// The whole stream that a chain over `it` presents.
pub open spec fn chain_content<T: ReadChainAble<R>, R: ByteSource>(it: &T) -> Seq<u8> {
    content_from::<T, R>(it, 0)
}

/// A chain over sources that hold the parts of a byte sequence, each with a
/// limit that its part fits under, presents the parts joined in order; this
/// is what `read_to_end` returns from the start of such a chain.
pub proof fn lemma_chain_of_partition<T: ReadChainAble<R>, R: ByteSource>(
    it: &T,
    parts: Seq<Seq<u8>>,
    i: nat,
)
    requires
        it.spec_len() == parts.len(),
        i <= parts.len(),
        forall|j: int|
            0 <= j < parts.len() ==> it.bytes_at(j) == #[trigger] parts[j] && it.limit_at(j)
                >= parts[j].len(),
    ensures
        content_from::<T, R>(it, i) == parts.skip(i as int).flatten(),
        i == 0 ==> chain_content::<T, R>(it) == parts.flatten(),
    decreases parts.len() - i,
{
    let rest = parts.skip(i as int);
    if i < parts.len() {
        lemma_chain_of_partition::<T, R>(it, parts, i + 1);
        assert(rest.first() == parts[i as int]);
        assert(rest.drop_first() =~= parts.skip((i + 1) as int));
        assert(clip(it.bytes_at(i as int), it.limit_at(i as int)) =~= parts[i as int]);
    }
    if i == 0 {
        assert(rest =~= parts);
    }
}

/// Clipping commutes with skipping inside the clipped part.
pub proof fn lemma_clip_skip(bytes: Seq<u8>, limit: nat, k: nat)
    requires
        k <= limit,
        k <= bytes.len(),
    ensures
        clip(bytes, limit).skip(k as int) == clip(bytes.skip(k as int), (limit - k) as nat),
        clip(bytes, limit).take(k as int) == bytes.take(k as int),
{
    assert(clip(bytes, limit).skip(k as int) =~= clip(bytes.skip(k as int), (limit - k) as nat));
    assert(clip(bytes, limit).take(k as int) =~= bytes.take(k as int));
}

/// One step forward inside a stream: skipping `k` bytes of the source at
/// the head leaves the head's rest, clipped to what is left of its limit,
/// before the sources behind it.
pub proof fn lemma_advance_step(
    all: Seq<u8>,
    moved: nat,
    head: Seq<u8>,
    room: nat,
    rest: Seq<u8>,
    k: nat,
)
    requires
        moved <= all.len(),
        all.skip(moved as int) == clip(head, room) + rest,
        k <= room,
        k <= head.len(),
    ensures
        moved + k <= all.len(),
        all.skip((moved + k) as int) == clip(head.skip(k as int), (room - k) as nat) + rest,
        k == room || k == head.len() ==> all.skip((moved + k) as int) == rest,
{
    lemma_clip_skip(head, room, k);
    let front = clip(head, room);
    assert(k <= front.len());
    assert((front + rest).skip(k as int) =~= front.skip(k as int) + rest);
    assert(all.skip(moved as int).skip(k as int) =~= all.skip((moved + k) as int));
    if k == room || k == head.len() {
        assert(front.skip(k as int) + rest =~= rest);
    }
}

/// Chains several sources so that the next is read when the previous ended.
pub struct ReadChain<T: ReadChainAble<R>, R: ByteSource> {
    it: T,
    cur_index: usize,
    cur_size: usize,
    cur_file_consumed: usize,
    cur: Option<R>,
}

impl<T: ReadChainAble<R>, R: ByteSource> ReadChain<T, R> {
    /// The factory this chain reads from.
    pub closed spec fn factory(&self) -> &T {
        &self.it
    }

    /// Validity of the reader's state.
    pub closed spec fn wf(&self) -> bool {
        match self.cur {
            Some(src) => {
                &&& self.cur_index < self.it.spec_len() <= usize::MAX
                &&& src.inv()
                &&& self.cur_file_consumed <= self.cur_size
                &&& self.it.infallible() ==> src.infallible()
                &&& self.it.eager() ==> src.eager()
            },
            None => true,
        }
    }

    /// Whether a source is open.
    pub closed spec fn holding(&self) -> bool {
        self.cur is Some
    }

    /// How many bytes the limit of the open source still allows.
    pub closed spec fn room(&self) -> nat {
        (self.cur_size - self.cur_file_consumed) as nat
    }

    /// The index of the open source, or of the next to open where none is.
    pub closed spec fn index(&self) -> nat {
        self.cur_index as nat
    }

    /// What the open source has ahead of its cursor; nothing where none is
    /// open.
    pub closed spec fn held(&self) -> Seq<u8> {
        match self.cur {
            Some(src) => src.remaining(),
            None => Seq::empty(),
        }
    }

    /// Whether the reader stands behind the last source with none open.
    pub open spec fn at_end(&self) -> bool {
        !self.holding() && self.index() >= self.factory().spec_len()
    }

    /// The length of the first `k` pieces ahead that are not empty: what
    /// `k` steps of reading can deliver at most.
    pub open spec fn ahead(&self, k: nat) -> nat {
        if self.holding() {
            let p = clip(self.held(), self.room()).len();
            if p > 0 && k > 0 {
                p + run_len::<T, R>(self.factory(), self.index() + 1, (k - 1) as nat)
            } else {
                run_len::<T, R>(self.factory(), self.index() + 1, k)
            }
        } else {
            run_len::<T, R>(self.factory(), self.index(), k)
        }
    }

    /// The bytes ahead of the reader's position.
    pub closed spec fn content(&self) -> Seq<u8> {
        match self.cur {
            Some(src) => clip(
                src.remaining(),
                (self.cur_size - self.cur_file_consumed) as nat,
            ) + content_from::<T, R>(&self.it, (self.cur_index + 1) as nat),
            None => content_from::<T, R>(&self.it, self.cur_index as nat),
        }
    }

    /// Two pieces are at least as long as one, and as long where one piece
    /// is all there is.
    pub proof fn lemma_ahead_grows(&self)
        ensures
            self.ahead(1) <= self.ahead(2),
    {
        let it = self.factory();
        if self.holding() && clip(self.held(), self.room()).len() > 0 {
        } else if self.holding() {
            lemma_run_grows::<T, R>(it, self.index() + 1);
        } else {
            lemma_run_grows::<T, R>(it, self.index());
        }
    }

    /// At the end of the stream no piece is ahead.
    pub proof fn lemma_ahead_none(&self)
        requires
            self.wf(),
            self.content().len() == 0,
        ensures
            self.ahead(1) == 0,
            self.ahead(2) == 0,
    {
        let it = self.factory();
        if self.holding() {
            assert(clip(self.held(), self.room()).len() == 0);
            lemma_run_empty::<T, R>(it, self.index() + 1, 1);
            lemma_run_empty::<T, R>(it, self.index() + 1, 2);
        } else {
            lemma_run_empty::<T, R>(it, self.index(), 1);
            lemma_run_empty::<T, R>(it, self.index(), 2);
        }
    }

    /// A reader at the start of the chain. No source is opened yet.
    pub fn new(it: T) -> (r: ReadChain<T, R>)
        ensures
            r.wf(),
            !r.holding(),
            r.index() == 0,
            *r.factory() == it,
            r.content() == chain_content::<T, R>(&it),
    {
        ReadChain { it: it, cur_index: 0, cur_size: 0, cur_file_consumed: 0, cur: None }
    }

    /// One step of reading: bytes from the current source, of which no more
    /// is asked than its limit allows. A source is opened only when bytes
    /// are asked of it. Sources
    /// that are exhausted, or have nothing left under their limit, are
    /// released and passed over, and a source that has just yielded the last
    /// byte under its limit is released at once.
    pub fn real_read(&mut self, max: usize) -> (r: Result<Vec<u8>, SourceError>)
        requires
            old(self).wf(),
        ensures
            final(self).wf(),
            final(self).factory() == old(self).factory(),
            old(self).factory().infallible() || old(self).at_end() ==> r is Ok,
            old(self).at_end() ==> final(self).at_end() && (r matches Ok(bytes) && bytes@.len()
                == 0),
            r matches Ok(bytes) ==> {
                &&& bytes@.len() <= max
                &&& bytes@.len() <= old(self).content().len()
                &&& bytes@ == old(self).content().take(bytes@.len() as int)
                &&& max > 0 ==> final(self).content() == old(self).content().skip(
                    bytes@.len() as int,
                )
                &&& max > 0 && bytes@.len() == 0 ==> old(self).content().len() == 0
                &&& max == 0 ==> final(self).content().len() == 0
                &&& bytes@.len() == 0 ==> final(self).at_end()
                &&& final(self).holding() ==> final(self).room() > 0
                &&& max > 0 ==> bytes@.len() <= old(self).ahead(1)
                &&& max > 0 && old(self).factory().eager() ==> bytes@.len() == max || bytes@.len()
                    == old(self).ahead(1)
                &&& bytes@.len() > 0 ==> final(self).ahead(1) == if bytes@.len() == old(
                    self,
                ).ahead(1) {
                    old(self).ahead(2) - old(self).ahead(1)
                } else {
                    old(self).ahead(1) - bytes@.len()
                }
            },
    {
        let ghost a1 = old(self).ahead(1);
        let ghost a2 = old(self).ahead(2);
        loop
            invariant
                self.wf(),
                self.it == old(self).it,
                max > 0 ==> self.content() == old(self).content(),
                a1 == old(self).ahead(1),
                a2 == old(self).ahead(2),
                max > 0 ==> self.ahead(1) == a1 && self.ahead(2) == a2,
                old(self).at_end() ==> self.at_end(),
            decreases
                self.it.spec_len() + 1 - self.cur_index,
                if self.cur is Some { 0int } else { 1int },
        {
            if self.cur.is_none() {
                if self.cur_index >= self.it.len() {
                    assert(self.content().len() == 0);
                    assert(run_len::<T, R>(&self.it, self.cur_index as nat, 1) == 0);
                    return Ok(Vec::new());
                }
                let (f, s) = match self.it.at(self.cur_index) {
                    Ok(p) => p,
                    Err(e) => {
                        return Err(e);
                    },
                };
                self.cur = Some(f);
                self.cur_size = s;
                self.cur_file_consumed = 0;
            }
            let ghost idx = self.cur_index as nat;
            let ghost next1 = run_len::<T, R>(&self.it, idx + 1, 1);
            let ghost next2 = run_len::<T, R>(&self.it, idx + 1, 2);
            let ghost room = (self.cur_size - self.cur_file_consumed) as nat;
            let ghost before = self.held();
            let ghost piece = clip(before, room).len();
            let ghost keen = self.cur->Some_0.eager();
            assert(self.it.eager() ==> keen);
            proof {
                assert(run_len::<T, R>(&self.it, idx + 1, 0) == 0);
                if max > 0 {
                    assert(a1 == if piece > 0 { piece } else { next1 });
                    assert(a2 == if piece > 0 { piece + next1 } else { next2 });
                }
            }
            let mut src = self.cur.take().unwrap();
            let ghost rest = content_from::<T, R>(&self.it, (self.cur_index + 1) as nat);
            assert(self.cur_index < self.it.spec_len());
            let left = self.cur_size - self.cur_file_consumed;
            let want = if max <= left { max } else { left };
            match src.read(want) {
                Err(e) => {
                    self.cur = Some(src);
                    return Err(e);
                },
                Ok(bytes) => {
                    let rs = bytes.len();
                    if rs > 0 {
                        self.cur_file_consumed += rs;
                        if self.cur_file_consumed < self.cur_size {
                            self.cur = Some(src);
                        } else {
                            self.cur_index += 1;
                        }
                        proof {
                            lemma_clip_skip(before, room, rs as nat);
                            assert(bytes@ =~= old(self).content().take(rs as int));
                            assert(self.content() =~= old(self).content().skip(rs as int));
                            assert(rs <= piece);
                            assert(clip(before, room).skip(rs as int).len() == piece - rs);
                            if keen {
                                assert(rs == want || rs == before.len());
                                assert(rs == max || rs == piece);
                            }
                            if rs == piece {
                                assert(self.ahead(1) == next1);
                            } else {
                                assert(self.holding());
                                assert(self.ahead(1) == piece - rs);
                            }

                        }
                        return Ok(bytes);
                    }
                    proof {
                        if max > 0 {
                            assert(piece == 0);
                            assert(clip(before, room) + rest =~= rest);
                        }
                    }
                },
            }
            self.cur_index += 1;
        }
    }

    /// Moves forward from the current position by `n` bytes, or to the end
    /// of the stream where fewer are left, and returns how far it moved. A
    /// source whose limit is used up is released at once.
    fn advance(&mut self, n: u64) -> (r: Result<u64, SourceError>)
        requires
            old(self).wf(),
        ensures
            final(self).wf(),
            final(self).factory() == old(self).factory(),
            old(self).factory().infallible() ==> r is Ok,
            r matches Ok(k) ==> {
                &&& k <= n
                &&& k <= old(self).content().len()
                &&& k == n || k == old(self).content().len()
                &&& final(self).content() == old(self).content().skip(k as int)
                &&& (old(self).holding() ==> old(self).room() > 0) ==> (final(self).holding()
                    ==> final(self).room() > 0)
            },
    {
        let mut moved: u64 = 0;
        loop
            invariant
                self.wf(),
                self.it == old(self).it,
                moved <= n,
                moved <= old(self).content().len(),
                self.content() == old(self).content().skip(moved as int),
                (old(self).holding() ==> old(self).room() > 0) ==> (self.holding() ==> self.room()
                    > 0),
            decreases self.it.spec_len() + 1 - self.cur_index, n - moved,
        {
            if moved >= n {
                return Ok(moved);
            }
            if self.cur.is_none() {
                if self.cur_index >= self.it.len() {
                    assert(self.content().len() == 0);
                    return Ok(moved);
                }
                let (f, s) = match self.it.at(self.cur_index) {
                    Ok(p) => p,
                    Err(e) => {
                        return Err(e);
                    },
                };
                self.cur = Some(f);
                self.cur_size = s;
                self.cur_file_consumed = 0;
            }
            let mut src = self.cur.take().unwrap();
            let ghost before = src.remaining();
            let ghost rest = content_from::<T, R>(&self.it, (self.cur_index + 1) as nat);
            let room = self.cur_size - self.cur_file_consumed;
            let want: u64 = if (room as u64) <= n - moved { room as u64 } else { n - moved };
            let k = match src.skip(want) {
                Ok(k) => k,
                Err(e) => {
                    self.cur = Some(src);
                    return Err(e);
                },
            };
            proof {
                lemma_advance_step(old(self).content(), moved as nat, before, room as nat, rest, k as nat);
            }
            moved += k;
            self.cur_file_consumed += k as usize;
            if self.cur_file_consumed >= self.cur_size || k < want {
                self.cur_index += 1;
            } else {
                self.cur = Some(src);
            }
        }
    }

    /// Seeks to an absolute position. The reader goes back to the first
    /// source and moves forward from there; past the end of the stream it
    /// stops at the end and returns the stream's length. Positions relative
    /// to the end or to the current position are not offered: such a seek
    /// fails as not found and leaves the reader where it was.
    pub fn seek(&mut self, pos: SeekFrom) -> (r: Result<u64, SourceError>)
        requires
            old(self).wf(),
        ensures
            final(self).wf(),
            final(self).factory() == old(self).factory(),
            match pos {
                SeekFrom::Start(p) => {
                    &&& old(self).factory().infallible() || old(self).factory().spec_len() == 0
                        ==> r is Ok
                    &&& r matches Ok(k) ==> {
                        &&& k <= p
                        &&& k <= chain_content::<T, R>(old(self).factory()).len()
                        &&& k == p || k == chain_content::<T, R>(old(self).factory()).len()
                        &&& final(self).content() == chain_content::<T, R>(
                            old(self).factory(),
                        ).skip(k as int)
                        &&& final(self).holding() ==> final(self).room() > 0
                    }
                },
                _ => {
                    &&& r == Err::<u64, SourceError>(SourceError::NotFound)
                    &&& final(self).content() == old(self).content()
                    &&& final(self).holding() == old(self).holding()
                    &&& final(self).index() == old(self).index()
                    &&& final(self).held() == old(self).held()
                    &&& final(self).room() == old(self).room()
                },
            },
    {
        match pos {
            SeekFrom::Start(start) => {
                if self.it.len() < 1 {
                    proof {
                        if self.cur is Some {
                            assert(false);
                        }
                        assert(self.content() =~= chain_content::<T, R>(&self.it).skip(0));
                    }
                    return Ok(0);
                }
                self.cur_index = 0;
                self.cur = None;
                self.advance(start)
            },
            _ => Err(SourceError::NotFound),
        }
    }

    /// Reads until the stream ends and returns everything that lay ahead.
    pub fn read_to_end(&mut self) -> (r: Result<Vec<u8>, SourceError>)
        requires
            old(self).wf(),
        ensures
            final(self).wf(),
            final(self).factory() == old(self).factory(),
            old(self).factory().infallible() ==> r is Ok,
            r matches Ok(bytes) ==> bytes@ == old(self).content() && final(self).content().len()
                == 0 && (final(self).holding() ==> final(self).room() > 0),
    {
        let mut out: Vec<u8> = Vec::new();
        loop
            invariant
                self.wf(),
                self.it == old(self).it,
                out@ + self.content() == old(self).content(),
            decreases self.content().len(),
        {
            let ghost ahead = self.content();
            let mut part = match self.read(1024) {
                Ok(part) => part,
                Err(e) => {
                    return Err(e);
                },
            };
            if part.len() == 0 {
                assert(out@ + self.content() =~= out@);
                return Ok(out);
            }
            assert(out@ + part@ + ahead.skip(part@.len() as int) =~= out@ + ahead);
            out.append(&mut part);
        }
    }
}

impl<T: ReadChainAble<R>, R: ByteSource> ByteSource for ReadChain<T, R> {
    open spec fn inv(&self) -> bool {
        self.wf()
    }

    open spec fn remaining(&self) -> Seq<u8> {
        self.content()
    }

    open spec fn infallible(&self) -> bool {
        self.factory().infallible()
    }

    /// A chain takes two steps at most for one read, so it may deliver
    /// fewer bytes than are asked and left.
    open spec fn eager(&self) -> bool {
        false
    }

    /// Reads at most `max` bytes of the stream. Where the first step
    /// delivers fewer than asked, as it does at the border between two
    /// sources, a second step fills the rest, so that a short result at one
    /// border is not mistaken for the end. A read with `max == 0` passes over
    /// everything that is left.
    fn read(&mut self, max: usize) -> (r: Result<Vec<u8>, SourceError>)
        ensures
            final(self).factory() == old(self).factory(),
            r is Ok && max == 0 ==> final(self).content().len() == 0,
            r is Ok ==> (final(self).holding() ==> final(self).room() > 0),
            old(self).at_end() ==> final(self).at_end() && (r matches Ok(bytes) && bytes@.len()
                == 0),
            r matches Ok(bytes) ==> {
                &&& bytes@.len() == 0 ==> final(self).at_end()
                &&& max > 0 ==> bytes@.len() <= old(self).ahead(2)
                &&& max > 0 && old(self).factory().eager() ==> bytes@.len() == max || bytes@.len()
                    == old(self).ahead(2)
            },
    {
        proof {
            self.lemma_ahead_grows();
        }
        let mut first = match self.real_read(max) {
            Ok(bytes) => bytes,
            Err(e) => {
                return Err(e);
            },
        };
        if first.len() < max {
            let ghost mid = self.content();
            let ghost n1 = first@.len() as int;
            proof {
                if n1 == 0 {
                    old(self).lemma_ahead_none();
                }
            }
            let mut second = match self.real_read(max - first.len()) {
                Ok(bytes) => bytes,
                Err(e) => {
                    return Err(e);
                },
            };
            proof {
                let all = old(self).content();
                let n2 = second@.len() as int;
                assert(first@ + second@ =~= all.take(n1 + n2));
                assert(all.skip(n1).skip(n2) =~= all.skip(n1 + n2));
            }
            first.append(&mut second);
        }
        Ok(first)
    }

    /// Moves forward by `n` bytes, or to the end of the stream where fewer
    /// are left.
    fn skip(&mut self, n: u64) -> (r: Result<u64, SourceError>)
        ensures
            final(self).factory() == old(self).factory(),
    {
        self.advance(n)
    }
}

} // verus!
