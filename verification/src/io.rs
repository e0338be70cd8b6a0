//! Where archive bytes go and where entry data comes from.
use vstd::prelude::*;
use crate::error::TarError;
use crate::path::append_bytes;

verus! {

/// Whether `after` is `before` followed by the first bytes, possibly none or
/// all, of `p`.
pub open spec fn wrote_prefix(before: Seq<u8>, after: Seq<u8>, p: Seq<u8>) -> bool {
    &&& before.len() <= after.len() <= before.len() + p.len()
    &&& after == (before + p).take(after.len() as int)
}

/// A prefix of `p` written after `before` is a prefix of `p + q` too.
pub proof fn lemma_wrote_prefix_extend(before: Seq<u8>, after: Seq<u8>, p: Seq<u8>, q: Seq<u8>)
    requires
        wrote_prefix(before, after, p),
    ensures
        wrote_prefix(before, after, p + q),
{
    assert((before + p).take(after.len() as int) =~= (before + (p + q)).take(after.len() as int));
}

/// Writing all of `p`, then a prefix of `q`, writes a prefix of `p + q`.
pub proof fn lemma_wrote_prefix_after(before: Seq<u8>, mid: Seq<u8>, after: Seq<u8>, p: Seq<u8>, q: Seq<u8>)
    requires
        mid == before + p,
        wrote_prefix(mid, after, q),
    ensures
        wrote_prefix(before, after, p + q),
{
    assert(before + p + q =~= before + (p + q));
}

/// Nothing written after `before` is a prefix of any `p`.
pub proof fn lemma_wrote_prefix_none(before: Seq<u8>, p: Seq<u8>)
    ensures
        wrote_prefix(before, before, p),
{
    assert((before + p).take(before.len() as int) =~= before);
}

/// All of `p` written after `before` is a prefix of `p`.
pub proof fn lemma_wrote_prefix_full(before: Seq<u8>, p: Seq<u8>)
    ensures
        wrote_prefix(before, before + p, p),
{
    assert((before + p).take((before + p).len() as int) =~= before + p);
}

/// A sink of bytes that an archive is written to.
pub trait ArchiveWrite {
    /// Everything written to the sink so far.
    spec fn written(&self) -> Seq<u8>;

    /// Whether every write to the sink succeeds.
    spec fn accepts_all(&self) -> bool;

    /// The error the sink gives to a write of `buf` in its present state, if
    /// it refuses it.
    spec fn refusal(&self, buf: Seq<u8>) -> Option<TarError>;

    /// Writes all of `buf`; on success the sink holds `buf` after what it held,
    /// on failure some first bytes of `buf`, possibly none. It fails exactly
    /// where the sink refuses the write, with the sink's error.
    fn write_all(&mut self, buf: &[u8]) -> (r: Result<(), TarError>)
        ensures
            r == match old(self).refusal(buf@) {
                None => Ok::<(), TarError>(()),
                Some(e) => Err::<(), TarError>(e),
            },
            r is Ok ==> final(self).written() == old(self).written() + buf@,
            r is Err ==> wrote_prefix(old(self).written(), final(self).written(), buf@),
            old(self).accepts_all() ==> r is Ok && final(self).accepts_all(),
    ;
}

impl ArchiveWrite for Vec<u8> {
    open spec fn written(&self) -> Seq<u8> {
        self@
    }

    open spec fn accepts_all(&self) -> bool {
        true
    }

    open spec fn refusal(&self, buf: Seq<u8>) -> Option<TarError> {
        None
    }

    fn write_all(&mut self, buf: &[u8]) -> (r: Result<(), TarError>) {
        append_bytes(self, buf);
        Ok(())
    }
}

/// A source of bytes that entry data is read from.
pub trait ArchiveRead {
    /// Everything read from the source so far.
    spec fn consumed(&self) -> Seq<u8>;

    /// The bytes the source still holds, in the order it gives them.
    spec fn unread(&self) -> Seq<u8>;

    /// Whether every read from the source succeeds.
    spec fn reads_all(&self) -> bool;

    /// Reads at most `buf.len() - start` bytes into `buf` from index `start` on
    /// and says how many; the rest of `buf` is left as it was. The bytes read
    /// are the next ones the source holds; no byte read where there was room
    /// means the source holds no more.
    fn read(&mut self, buf: &mut [u8], start: usize) -> (r: Result<usize, TarError>)
        requires
            start <= old(buf)@.len(),
        ensures
            final(buf)@.len() == old(buf)@.len(),
            r matches Ok(n) ==> {
                &&& start + n <= old(buf)@.len()
                &&& final(buf)@.take(start as int) == old(buf)@.take(start as int)
                &&& final(buf)@.skip(start + n) == old(buf)@.skip(start + n)
                &&& final(self).consumed() == old(self).consumed() + final(buf)@.subrange(
                    start as int,
                    start + n,
                )
                &&& old(self).unread() == final(buf)@.subrange(start as int, start + n)
                    + final(self).unread()
                &&& n == 0 && start < old(buf)@.len() ==> final(self).unread().len() == 0
            },
            old(self).reads_all() ==> r is Ok && final(self).reads_all(),
    ;
}

/// Bytes held in memory, read from the front.
pub struct Cursor {
    bytes: Vec<u8>,
    pos: usize,
}

impl Cursor {
    /// The bytes of the cursor.
    pub closed spec fn content(&self) -> Seq<u8> {
        self.bytes@
    }

    /// How many bytes have been read.
    pub closed spec fn position(&self) -> nat {
        self.pos as nat
    }

    /// The bytes still to be read.
    pub open spec fn rest(&self) -> Seq<u8> {
        self.content().skip(self.position() as int)
    }

    pub closed spec fn wf(&self) -> bool {
        self.pos <= self.bytes@.len()
    }

    /// A cursor at the start of `bytes`.
    pub fn new(bytes: Vec<u8>) -> (r: Cursor)
        ensures
            r.wf(),
            r.content() == bytes@,
            r.position() == 0,
            r.rest() == bytes@,
    {
        let r = Cursor { bytes, pos: 0 };
        assert(r.rest() =~= bytes@);
        r
    }
}

impl ArchiveRead for Cursor {
    closed spec fn consumed(&self) -> Seq<u8> {
        self.bytes@.take(self.pos as int)
    }

    open spec fn unread(&self) -> Seq<u8> {
        if self.wf() {
            self.rest()
        } else {
            seq![]
        }
    }

    open spec fn reads_all(&self) -> bool {
        true
    }

    /// Copies as many of the remaining bytes as fit.
    fn read(&mut self, buf: &mut [u8], start: usize) -> (r: Result<usize, TarError>)
        ensures
            old(self).wf() ==> {
                let room = old(buf)@.len() - start;
                let n = if room < old(self).rest().len() {
                    room
                } else {
                    old(self).rest().len() as int
                };
                &&& final(self).wf()
                &&& r == Ok::<usize, TarError>(n as usize)
                &&& final(self).content() == old(self).content()
                &&& final(self).position() == old(self).position() + n
                &&& final(self).rest() == old(self).rest().skip(n as int)
                &&& final(buf)@.subrange(start as int, start + n) == old(self).rest().take(n as int)
            },
    {
        if self.pos > self.bytes.len() {
            return Ok(0);
        }
        let avail = self.bytes.len() - self.pos;
        let room = buf.len() - start;
        let want = if room < avail {
            room
        } else {
            avail
        };
        let mut n: usize = 0;
        while n < want
            invariant
                n <= want,
                start + want <= buf@.len(),
                buf@.len() <= usize::MAX,
                want <= avail,
                self.pos <= self.bytes@.len(),
                self.bytes@.len() <= usize::MAX,
                buf@.len() == old(buf)@.len(),
                self.bytes == old(self).bytes,
                self.pos == old(self).pos,
                avail == self.bytes@.len() - self.pos,
                forall|k: int| start <= k < start + n ==> #[trigger] buf@[k] == self.bytes@[self.pos + k - start],
                forall|k: int|
                    0 <= k < buf@.len() && !(start <= k < start + n) ==> buf@[k] == old(buf)@[k],
            decreases want - n,
        {
            buf[start + n] = self.bytes[self.pos + n];
            n = n + 1;
        }
        self.pos = self.pos + n;
        assert(buf@.skip(start + n) =~= old(buf)@.skip(start + n));
        assert(buf@.take(start as int) =~= old(buf)@.take(start as int));
        assert(self.bytes@.take(self.pos as int) =~= old(self).bytes@.take(old(self).pos as int)
            + buf@.subrange(start as int, start + n));
        proof {
            if old(self).wf() {
                assert(buf@.subrange(start as int, start + n) =~= old(self).rest().take(n as int));
                assert(self.rest() =~= old(self).rest().skip(n as int));
            }
        }
        Ok(n)
    }
}

} // verus!
