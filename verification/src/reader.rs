//! Reading an archive as a stream of bytes instead of writing it to a sink:
//! an entry is read out as its extension entries, header, data and padding.
use vstd::prelude::*;
use vstd::arithmetic::div_mod::{lemma_mod_mod, lemma_add_mod_noop, lemma_small_mod};
use crate::error::TarError;
use crate::header::{
    Header,
    HeaderMode,
    Metadata,
    new_gnu_bytes,
    with_cksum,
    with_metadata,
    checksum,
    NAME_LEN,
    CKSUM,
};
use crate::numeric::octal_value;
use crate::io::{ArchiveRead, Cursor};
use crate::builder::{
    zeros,
    pad_len,
    entry_bytes,
    extension_entry,
    name_plan,
    link_plan,
    fs_entry_plan,
    opt_bytes,
    law_fs_entry_header,
    zero_bytes,
    prefix_of,
};
use crate::path::{append_bytes, join, join_path};
use crate::walk::{
    WalkItem,
    DirEntryInfo,
    descends,
    is_child_item,
    make_child,
    copy_vec,
    rooted,
    law_child_rooted,
    step_for,
};

verus! {

/// What is left of an optional cursor.
pub open spec fn opt_rest(c: Option<Cursor>) -> Seq<u8> {
    match c {
        Some(c) => c.rest(),
        None => seq![],
    }
}

/// Whether an optional cursor is well formed.
pub open spec fn opt_wf(c: Option<Cursor>) -> bool {
    match c {
        Some(c) => c.wf(),
        None => true,
    }
}

/// What has been read from an optional source.
pub open spec fn opt_consumed<R: ArchiveRead>(d: Option<R>) -> Seq<u8> {
    match d {
        Some(d) => d.consumed(),
        None => seq![],
    }
}

/// What an optional source still holds; an absent source holds nothing.
pub open spec fn opt_unread<R: ArchiveRead>(d: Option<R>) -> Seq<u8> {
    match d {
        Some(d) => d.unread(),
        None => seq![],
    }
}

/// Whether every read from an optional source succeeds; an absent source
/// gives nothing and never fails.
pub open spec fn opt_reads_all<R: ArchiveRead>(d: Option<R>) -> bool {
    match d {
        Some(d) => d.reads_all(),
        None => true,
    }
}

/// The start of an entry read from disk, before its data: the extension
/// entries its path and link target need and its header; or why it cannot be
/// recorded.
pub open spec fn fs_entry_head(path: Seq<u8>, meta: Metadata, mode: HeaderMode, link: Option<Seq<u8>>) -> (
    Seq<u8>,
    Option<TarError>,
) {
    let np = name_plan(new_gnu_bytes(), path);
    if np.2 is Some {
        (np.1, np.2)
    } else {
        let h2 = with_metadata(np.0, meta, mode);
        match link {
            None => (np.1 + with_cksum(h2), None),
            Some(l) => {
                let lp = link_plan(h2, l);
                if lp.2 is Some {
                    (np.1 + lp.1, lp.2)
                } else {
                    (np.1 + lp.1 + with_cksum(lp.0), None)
                }
            },
        }
    }
}

/// An entry read out as bytes, the same bytes that the builder writes for it:
/// the head of the entry, then the data as the source gives it, then zeros up
/// to the next block.
pub proof fn law_reader_matches_builder(
    path: Seq<u8>,
    meta: Metadata,
    mode: HeaderMode,
    link: Option<Seq<u8>>,
    data: Seq<u8>,
)
    ensures
        fs_entry_head(path, meta, mode, link).1 == fs_entry_plan(path, meta, data, mode, link).1,
        fs_entry_head(path, meta, mode, link).1 is None ==> fs_entry_head(path, meta, mode, link).0
            + data + zeros(pad_len(data.len())) == fs_entry_plan(path, meta, data, mode, link).0,
{
    let np = name_plan(new_gnu_bytes(), path);
    if np.2 is None {
        let h2 = with_metadata(np.0, meta, mode);
        match link {
            None => {
                assert(np.1 + with_cksum(h2) + data + zeros(pad_len(data.len())) =~= np.1
                    + entry_bytes(with_cksum(h2), data));
            },
            Some(l) => {
                let lp = link_plan(h2, l);
                assert(np.1 + lp.1 + with_cksum(lp.0) + data + zeros(pad_len(data.len())) =~= np.1
                    + lp.1 + entry_bytes(with_cksum(lp.0), data));
            },
        }
    }
}

/// The head of an entry read out ends in the entry's header block, after
/// whole blocks of extension entries; its checksum field reads back as the
/// checksum of the block as written, link name included.
pub proof fn law_entry_head_header(path: Seq<u8>, meta: Metadata, mode: HeaderMode, link: Option<Seq<u8>>)
    requires
        fs_entry_head(path, meta, mode, link).1 is None,
    ensures
        ({
            let head = fs_entry_head(path, meta, mode, link).0;
            let k = head.len() - 512;
            let h = head.subrange(k, head.len() as int);
            &&& 0 <= k
            &&& k % 512 == 0
            &&& octal_value(h.subrange(CKSUM as int, CKSUM + 7)) == checksum(h)
        }),
{
    let e = Seq::<u8>::empty();
    law_reader_matches_builder(path, meta, mode, link, e);
    law_fs_entry_header(path, meta, e, mode, link);
    let head = fs_entry_head(path, meta, mode, link).0;
    assert(pad_len(0) == 0);
    assert(head + e + zeros(0) =~= head);
}

/// A read that put `n` bytes into `after` at `p`, where `before` differed from
/// `orig` only in `[start, p)`: `after` differs from `orig` only in
/// `[start, p + n)`, and holds there the bytes of `before` then the new ones.
proof fn lemma_buf_extend(
    orig: Seq<u8>,
    before: Seq<u8>,
    after: Seq<u8>,
    start: int,
    p: int,
    n: int,
)
    requires
        0 <= start <= p,
        0 <= n,
        p + n <= orig.len(),
        before.len() == orig.len(),
        after.len() == orig.len(),
        before.take(start) == orig.take(start),
        before.skip(p) == orig.skip(p),
        after.take(p) == before.take(p),
        after.skip(p + n) == before.skip(p + n),
    ensures
        after.take(start) == orig.take(start),
        after.skip(p + n) == orig.skip(p + n),
        after.subrange(start, p + n) == before.subrange(start, p) + after.subrange(p, p + n),
{
    assert forall|i: int| 0 <= i < p implies after[i] == before[i] by {
        assert(after.take(p)[i] == after[i]);
        assert(before.take(p)[i] == before[i]);
    }
    assert forall|i: int| 0 <= i < start implies before[i] == orig[i] by {
        assert(before.take(start)[i] == before[i]);
        assert(orig.take(start)[i] == orig[i]);
    }
    assert forall|i: int| p + n <= i < orig.len() implies after[i] == orig[i] by {
        assert(after.skip(p + n)[i - p - n] == before.skip(p + n)[i - p - n]);
        assert(before.skip(p)[i - p] == orig.skip(p)[i - p]);
    }
    assert(after.take(start) =~= orig.take(start));
    assert(after.skip(p + n) =~= orig.skip(p + n));
    assert(after.subrange(start, p + n) =~= before.subrange(start, p) + after.subrange(p, p + n));
}

/// A sequence is a prefix of itself followed by more.
pub proof fn lemma_concat_prefix(a: Seq<u8>, b: Seq<u8>)
    ensures
        a.is_prefix_of(a + b),
{
    assert(a =~= (a + b).subrange(0, a.len() as int));
}

/// A prefix stays a prefix with the same bytes put before both.
pub proof fn lemma_prefix_prepend(a: Seq<u8>, b: Seq<u8>, c: Seq<u8>)
    requires
        b.is_prefix_of(c),
    ensures
        (a + b).is_prefix_of(a + c),
{
    assert forall|i: int| 0 <= i < (a + b).len() implies (a + b)[i] == (a + c)[i] by {
        if i >= a.len() {
            assert(b[i - a.len()] == c.subrange(0, b.len() as int)[i - a.len()]);
        }
    }
    assert(a + b =~= (a + c).subrange(0, (a + b).len() as int));
}

/// A prefix of a prefix is a prefix.
pub proof fn lemma_prefix_trans(a: Seq<u8>, b: Seq<u8>, c: Seq<u8>)
    requires
        a.is_prefix_of(b),
        b.is_prefix_of(c),
    ensures
        a.is_prefix_of(c),
{
    assert forall|i: int| 0 <= i < a.len() implies a[i] == c[i] by {
        assert(a[i] == b.subrange(0, a.len() as int)[i]);
        assert(b[i] == c.subrange(0, b.len() as int)[i]);
    }
    assert(a =~= c.subrange(0, a.len() as int));
}

/// Adding `k` to a count kept modulo 2^64 keeps it the count modulo 2^64.
proof fn lemma_wrapping_count(count: u64, len: nat, k: nat)
    requires
        count as int == len % 0x1_0000_0000_0000_0000,
        k < 0x1_0000_0000_0000_0000,
    ensures
        (if count + k > u64::MAX {
            count + k - 0x1_0000_0000_0000_0000
        } else {
            count + k
        }) == (len + k) % 0x1_0000_0000_0000_0000,
{
    let m: int = 0x1_0000_0000_0000_0000;
    lemma_add_mod_noop(len as int, k as int, m);
    lemma_small_mod(k, m as nat);
    if count + k > u64::MAX {
        lemma_small_mod((count + k - m) as nat, m as nat);
        assert((count + k - m) % m == (count + k) % m) by {
            vstd::arithmetic::div_mod::lemma_mod_sub_multiples_vanish((count + k) as int, m);
        }
    } else {
        lemma_small_mod((count + k) as nat, m as nat);
    }
}

/// The bytes of an entry with the given header and data.
fn entry_vec(header: &Header, data: &[u8]) -> (r: Vec<u8>)
    ensures
        r@ == entry_bytes(header@, data@),
{
    let mut v: Vec<u8> = Vec::new();
    append_bytes(&mut v, header.as_bytes().as_slice());
    append_bytes(&mut v, data);
    let len = data.len() as u64;
    let remaining = 512 - (len % 512);
    if remaining < 512 {
        let mut i: u64 = 0;
        let ghost base = v@;
        while i < remaining
            invariant
                i <= remaining,
                v@ == base + zeros(i as nat),
            decreases remaining - i,
        {
            v.push(0u8);
            i = i + 1;
            assert(v@ =~= base + zeros(i as nat));
        }
    } else {
        assert(zeros(0) =~= Seq::<u8>::empty());
    }
    assert(v@ =~= entry_bytes(header@, data@));
    v
}

/// The GNU extension entry of type `ty` that carries `p`, as a cursor.
fn extension_cursor(p: &[u8], ty: u8) -> (c: Cursor)
    requires
        p@.len() < u64::MAX,
    ensures
        c.wf(),
        c.rest() == extension_entry(p@, ty),
{
    let header2 = crate::builder::prepare_header(p.len() as u64, ty);
    let mut data2 = prefix_of(p, p.len());
    assert(p@.take(p@.len() as int) =~= p@);
    data2.push(0u8);
    Cursor::new(entry_vec(&header2, data2.as_slice()))
}

/// Records `path` in the name field of `header`; a path too long for it is
/// returned as a GNU long-name entry to be read out before the header.
fn prepare_header_path_read(header: &mut Header, path: &[u8]) -> (r: Result<Option<Cursor>, TarError>)
    requires
        path@.len() < u64::MAX,
    ensures
        ({
            let plan = name_plan(old(header)@, path@);
            &&& match plan.2 {
                None => r matches Ok(o) && opt_wf(o) && opt_rest(o) == plan.1 && final(header)@
                    == plan.0,
                Some(e) => r == Err::<Option<Cursor>, TarError>(e),
            }
        }),
{
    reveal(crate::builder::field_plan);
    match header.set_path(path) {
        Ok(()) => Ok(None),
        Err(e) => {
            if path.len() < NAME_LEN {
                return Err(e);
            }
            let c = extension_cursor(path, 76u8);
            let truncated = prefix_of(path, NAME_LEN);
            header.set_path(truncated.as_slice())?;
            Ok(Some(c))
        },
    }
}

/// Records `link_name` in the link name field of `header`; a target too long
/// for it is returned as a GNU long-link entry to be read out before the
/// header, and the field keeps what the failed copy left in it.
fn prepare_header_link_read(header: &mut Header, link_name: &[u8]) -> (r: Result<
    Option<Cursor>,
    TarError,
>)
    requires
        link_name@.len() < u64::MAX,
    ensures
        ({
            let plan = link_plan(old(header)@, link_name@);
            &&& match plan.2 {
                None => r matches Ok(o) && opt_wf(o) && opt_rest(o) == plan.1 && final(header)@
                    == plan.0,
                Some(e) => r == Err::<Option<Cursor>, TarError>(e),
            }
        }),
{
    reveal(crate::builder::field_plan);
    match header.set_link_name(link_name) {
        Ok(()) => Ok(None),
        Err(e) => {
            if link_name.len() < NAME_LEN {
                return Err(e);
            }
            let c = extension_cursor(link_name, 75u8);
            Ok(Some(c))
        },
    }
}

/// Reads from `data` into `buf` from `pos` on until the source gives no more
/// bytes or `buf` is full; an absent source gives nothing. Says where the
/// bytes end and whether `buf` filled up.
fn drain_data<R: ArchiveRead>(data: &mut Option<R>, buf: &mut [u8], pos: usize) -> (r: Result<
    (usize, bool),
    TarError,
>)
    requires
        pos <= old(buf)@.len(),
    ensures
        final(buf)@.len() == old(buf)@.len(),
        r matches Ok((p, full)) ==> {
            &&& pos <= p <= old(buf)@.len()
            &&& full ==> p == old(buf)@.len()
            &&& pos < old(buf)@.len() ==> (full <==> p == old(buf)@.len())
            &&& final(buf)@.take(pos as int) == old(buf)@.take(pos as int)
            &&& final(buf)@.skip(p as int) == old(buf)@.skip(p as int)
            &&& opt_consumed(*final(data)) == opt_consumed(*old(data)) + final(buf)@.subrange(
                pos as int,
                p as int,
            )
            &&& ((*final(data)) is Some <==> (*old(data)) is Some)
            &&& opt_unread(*old(data)) == final(buf)@.subrange(pos as int, p as int) + opt_unread(
                *final(data),
            )
            &&& !full && pos < old(buf)@.len() ==> opt_unread(*final(data)).len() == 0
        },
        opt_reads_all(*old(data)) ==> r is Ok && opt_reads_all(*final(data)),
{
    match data.take() {
        None => {
            assert(buf@.subrange(pos as int, pos as int) =~= Seq::<u8>::empty());
            Ok((pos, false))
        },
        Some(mut d) => {
            let mut p = pos;
            let ghost c0 = d.consumed();
            let blen = buf.len();
            assert(buf@.subrange(pos as int, pos as int) =~= Seq::<u8>::empty());
            loop
                invariant
                    blen == buf@.len(),
                    pos <= p <= buf@.len(),
                    buf@.len() == old(buf)@.len(),
                    buf@.take(pos as int) == old(buf)@.take(pos as int),
                    buf@.skip(p as int) == old(buf)@.skip(p as int),
                    d.consumed() == c0 + buf@.subrange(pos as int, p as int),
                    opt_unread(*old(data)) == buf@.subrange(pos as int, p as int) + d.unread(),
                    c0 == opt_consumed(*old(data)),
                    (*old(data)) is Some,
                    pos < buf@.len() ==> p < buf@.len(),
                    buf@.len() <= usize::MAX,
                    opt_reads_all(*old(data)) ==> d.reads_all(),
                decreases buf@.len() - p,
            {
                let ghost before = buf@;
                match d.read(buf, p) {
                    Err(e) => {
                        *data = Some(d);
                        return Err(e);
                    },
                    Ok(n) => {
                        proof {
                            lemma_buf_extend(
                                old(buf)@,
                                before,
                                buf@,
                                pos as int,
                                p as int,
                                n as int,
                            );
                        }
                        p = p + n;
                        if n == 0 {
                            *data = Some(d);
                            return Ok((p, false));
                        }
                        if p == blen {
                            *data = Some(d);
                            return Ok((p, true));
                        }
                    },
                }
            }
        },
    }
}

/// An entry read out as bytes: the extension entries its path and link
/// target need, its header, its data from the source `R` (none where absent),
/// and zeros up to the next block.
pub struct EntryReader<R: ArchiveRead> {
    data: Option<R>,
    header: Header,
    header_path: Option<Cursor>,
    header_link: Option<Cursor>,
    header_done: bool,
    data_done: bool,
    data_read_byte_amount: u64,
    current_reader: Option<Cursor>,
    plan: Ghost<Seq<u8>>,
    produced: Ghost<Seq<u8>>,
    data_start: Ghost<nat>,
    total: Ghost<Seq<u8>>,
}

impl<R: ArchiveRead> EntryReader<R> {
    /// The bytes before the data: extension entries and header.
    pub closed spec fn head(&self) -> Seq<u8> {
        self.plan@
    }

    /// The bytes read out so far.
    pub closed spec fn produced(&self) -> Seq<u8> {
        self.produced@
    }

    /// The data read from the source so far.
    pub closed spec fn data_seen(&self) -> Seq<u8> {
        opt_consumed(self.data).skip(self.data_start@ as int)
    }

    /// The data of the entry: what the source held when the entry was made.
    pub closed spec fn data(&self) -> Seq<u8> {
        self.total@
    }

    /// The whole entry as bytes: head, data, and zeros up to the next block.
    pub open spec fn entry_stream(&self) -> Seq<u8> {
        self.head() + self.data() + zeros(pad_len(self.data().len()))
    }

    /// Whether every read from the data source succeeds.
    pub closed spec fn reads_all(&self) -> bool {
        opt_reads_all(self.data)
    }


    /// Whether the whole entry has been read out.
    pub closed spec fn is_done(&self) -> bool {
        &&& self.header_done
        &&& self.data_done
        &&& self.current_reader is None
        &&& self.header_path is None
        &&& self.header_link is None
    }

    /// Where the reader stands, with `cur` as the part underway and `produced`
    /// the bytes read out: what was read out and what the parts still hold make
    /// up the head, then the data seen, then the padding once the data ended.
    closed spec fn phase_ok(&self, cur: Option<Cursor>, produced: Seq<u8>) -> bool {
        let d = self.data_seen();
        if !self.header_done {
            &&& !self.data_done
            &&& d.len() == 0
            &&& produced + opt_rest(cur) + opt_rest(self.header_path) + opt_rest(self.header_link)
                + self.header@ == self.plan@
        } else if !self.data_done {
            &&& self.header_path is None
            &&& self.header_link is None
            &&& cur is Some ==> d.len() == 0
            &&& produced + opt_rest(cur) == self.plan@ + d
        } else {
            &&& self.header_path is None
            &&& self.header_link is None
            &&& opt_unread(self.data).len() == 0
            &&& produced + opt_rest(cur) == self.plan@ + d + zeros(pad_len(d.len()))
        }
    }

    /// The parts are well formed and the count of data bytes is the length of
    /// the data seen, modulo 2^64.
    closed spec fn basic(&self, cur: Option<Cursor>) -> bool {
        &&& opt_wf(cur)
        &&& opt_wf(self.header_path)
        &&& opt_wf(self.header_link)
        &&& self.data_start@ <= opt_consumed(self.data).len()
        &&& self.data_read_byte_amount as int == self.data_seen().len() % 0x1_0000_0000_0000_0000
        &&& self.data_seen() + opt_unread(self.data) == self.total@
    }

    /// The invariant of a reader.
    pub closed spec fn inv(&self) -> bool {
        &&& self.basic(self.current_reader)
        &&& self.phase_ok(self.current_reader, self.produced@)
    }

    closed spec fn measure(&self) -> int {
        (if self.current_reader is Some {
            1int
        } else {
            0
        }) + (if self.header_path is Some {
            2int
        } else {
            0
        }) + (if self.header_link is Some {
            2int
        } else {
            0
        }) + (if !self.header_done {
            2int
        } else {
            0
        }) + (if !self.data_done {
            3int
        } else {
            0
        })
    }

    /// A reader read out to the end has read out the head, the data and the
    /// padding to the next block.
    pub proof fn lemma_complete(&self)
        requires
            self.inv(),
            self.is_done(),
        ensures
            self.data_seen() == self.data(),
            self.produced() == self.entry_stream(),
    {
        assert(self.produced@ + opt_rest(self.current_reader) =~= self.produced@);
        assert(self.data_seen() + opt_unread(self.data) =~= self.data_seen());
    }

    /// What was read out is the start of the entry.
    pub proof fn lemma_prefix(&self)
        requires
            self.inv(),
        ensures
            self.produced().is_prefix_of(self.entry_stream()),
    {
        let d = self.data_seen();
        let cur = self.current_reader;
        let pad = zeros(pad_len(self.total@.len()));
        if !self.header_done {
            let x = opt_rest(cur) + opt_rest(self.header_path) + opt_rest(self.header_link)
                + self.header@;
            assert(self.produced@ + x =~= self.plan@);
            assert(d + opt_unread(self.data) =~= opt_unread(self.data));
            lemma_concat_prefix(self.produced@, x);
            lemma_concat_prefix(self.plan@, self.total@ + pad);
            assert(self.plan@ + (self.total@ + pad) =~= self.entry_stream());
            lemma_prefix_trans(self.produced@, self.plan@, self.entry_stream());
        } else if !self.data_done {
            lemma_concat_prefix(self.produced@, opt_rest(cur));
            lemma_concat_prefix(self.plan@ + d, opt_unread(self.data) + pad);
            assert(self.plan@ + d + (opt_unread(self.data) + pad) =~= self.entry_stream());
            lemma_prefix_trans(self.produced@, self.plan@ + d, self.entry_stream());
        } else {
            assert(d + opt_unread(self.data) =~= d);
            lemma_concat_prefix(self.produced@, opt_rest(cur));
        }
    }

    /// Reads data from the source into `buf` from `pos` on until the source
    /// ends or `buf` is full; at the end of the data, makes the padding the
    /// part underway. Says where the bytes end and whether `buf` filled up.
    fn read_data(&mut self, buf: &mut [u8], pos: usize) -> (r: Result<(usize, bool), TarError>)
        requires
            old(self).inv(),
            old(self).header_done,
            !old(self).data_done,
            old(self).current_reader is None,
            old(self).header_path is None,
            old(self).header_link is None,
            pos <= old(buf)@.len(),
            pos < old(buf)@.len(),
        ensures
            final(buf)@.len() == old(buf)@.len(),
            old(self).reads_all() ==> r is Ok && final(self).reads_all(),
            r matches Ok((p, full)) ==> {
                &&& pos <= p <= old(buf)@.len()
                &&& full ==> p == old(buf)@.len()
                &&& final(buf)@.take(pos as int) == old(buf)@.take(pos as int)
                &&& final(buf)@.skip(p as int) == old(buf)@.skip(p as int)
                &&& final(self).inv()
                &&& final(self).plan == old(self).plan
                &&& final(self).total == old(self).total
                &&& final(self).produced@ == old(self).produced@ + final(buf)@.subrange(
                    pos as int,
                    p as int,
                )
                &&& !full ==> {
                    &&& final(self).data_done
                    &&& final(self).header_done
                    &&& final(self).header_path is None
                    &&& final(self).header_link is None
                    &&& p < old(buf)@.len()
                }
            },
    {
        let ghost d0 = self.data_seen();
        let ghost u0 = opt_unread(self.data);
        let res = drain_data(&mut self.data, buf, pos);
        match res {
            Err(e) => {
                return Err(e);
            },
            Ok((p, full)) => {
                let ghost chunk = buf@.subrange(pos as int, p as int);
                let ghost prod0 = self.produced@;
                proof {
                    assert(self.data_seen() =~= d0 + chunk);
                    assert(self.data_seen() + opt_unread(self.data) =~= d0 + u0);
                }
                self.produced = Ghost(self.produced@ + chunk);
                proof {
                    assert(prod0 + opt_rest(None) == self.plan@ + d0);
                    assert(self.produced@ + opt_rest(None) =~= self.plan@ + self.data_seen());
                }
                proof {
                    lemma_wrapping_count(self.data_read_byte_amount, d0.len(), (p - pos) as nat);
                }
                self.data_read_byte_amount = self.data_read_byte_amount.wrapping_add(
                    (p - pos) as u64,
                );
                if full {
                    return Ok((p, true));
                }
                self.data_done = true;
                let pad = (512 - (self.data_read_byte_amount % 512) as usize) % 512;
                proof {
                    let dl = self.data_seen().len() as int;
                    lemma_mod_mod(dl, 512, 0x80_0000_0000_0000);
                    assert(pad == pad_len(self.data_seen().len()));
                }
                if pad > 0 {
                    self.current_reader = Some(Cursor::new(zero_bytes(pad)));
                } else {
                    assert(zeros(0) =~= Seq::<u8>::empty());
                }
                proof {
                    let d = self.data_seen();
                    assert(self.produced@ + opt_rest(self.current_reader) =~= self.plan@ + d
                        + zeros(pad_len(d.len())));
                }
                Ok((p, false))
            },
        }
    }

    /// Reads into `buf` from index `start` on, as much of the entry as fits,
    /// part after part. It returns fewer bytes than fit only at the end of the
    /// entry. Given no room, it reads nothing and changes nothing.
    pub fn read(&mut self, buf: &mut [u8], start: usize) -> (r: Result<usize, TarError>)
        requires
            old(self).inv(),
            start <= old(buf)@.len(),
        ensures
            final(buf)@.len() == old(buf)@.len(),
            r matches Ok(n) ==> {
                &&& start + n <= old(buf)@.len()
                &&& final(buf)@.take(start as int) == old(buf)@.take(start as int)
                &&& final(buf)@.skip(start + n) == old(buf)@.skip(start + n)
                &&& final(self).inv()
                &&& final(self).head() == old(self).head()
                &&& final(self).produced() == old(self).produced() + final(buf)@.subrange(
                    start as int,
                    start + n,
                )
                &&& start + n < old(buf)@.len() ==> final(self).is_done()
                &&& final(self).data() == old(self).data()
                &&& final(self).produced().is_prefix_of(
                    final(self).entry_stream(),
                )
                &&& final(self).is_done() ==> final(self).produced()
                    == final(self).entry_stream()
            },
            old(self).reads_all() ==> r is Ok && final(self).reads_all(),
            start == old(buf)@.len() ==> r == Ok::<usize, TarError>(0) && *final(self) == *old(
                self,
            ),
    {
        if start == buf.len() {
            proof {
                assert(buf@.subrange(start as int, start as int) =~= Seq::<u8>::empty());
                assert(self.produced@ + buf@.subrange(start as int, start as int) =~= self.produced@);
                self.lemma_prefix();
                if self.is_done() {
                    self.lemma_complete();
                }
            }
            return Ok(0);
        }
        let mut pos = start;
        assert(buf@.subrange(start as int, start as int) =~= Seq::<u8>::empty());
        assert(self.produced@ + buf@.subrange(start as int, pos as int) =~= self.produced@);
        loop
            invariant
                start <= pos <= buf@.len(),
                buf@.len() == old(buf)@.len(),
                buf@.take(start as int) == old(buf)@.take(start as int),
                buf@.skip(pos as int) == old(buf)@.skip(pos as int),
                self.inv(),
                self.plan == old(self).plan,
                self.total == old(self).total,
                self.produced@ == old(self).produced@ + buf@.subrange(start as int, pos as int),
                pos < buf@.len(),
                buf@.len() <= usize::MAX,
                old(self).reads_all() ==> self.reads_all(),
            decreases self.measure(),
        {
            if self.current_reader.is_some() {
                let mut reader = self.current_reader.take().unwrap();
                let ghost hp0 = self.header_path;
                let ghost hl0 = self.header_link;
                let ghost hd0 = self.header_done;
                let ghost dd0 = self.data_done;
                loop
                    invariant
                        self.header_path == hp0,
                        self.header_link == hl0,
                        self.header_done == hd0,
                        self.data_done == dd0,
                        start <= pos <= buf@.len(),
                        buf@.len() == old(buf)@.len(),
                        buf@.take(start as int) == old(buf)@.take(start as int),
                        buf@.skip(pos as int) == old(buf)@.skip(pos as int),
                        self.basic(Some(reader)),
                        self.current_reader is None,
                        self.phase_ok(Some(reader), self.produced@),
                        self.plan == old(self).plan,
                        self.total == old(self).total,
                        self.produced@ == old(self).produced@ + buf@.subrange(
                            start as int,
                            pos as int,
                        ),
                        pos < buf@.len(),
                        buf@.len() <= usize::MAX,
                        old(self).reads_all() ==> self.reads_all(),
                    ensures
                        self.phase_ok(None, self.produced@),
                        opt_wf(Some(reader)),
                    decreases buf@.len() - pos,
                {
                    let ghost before = buf@;
                    let ghost rest0 = reader.rest();
                    let ghost prod0 = self.produced@;
                    let n = match reader.read(buf, pos) {
                        Ok(n) => n,
                        Err(e) => {
                            return Err(e);
                        },
                    };
                    proof {
                        let chunk = buf@.subrange(pos as int, (pos + n) as int);
                        lemma_buf_extend(
                            old(buf)@,
                            before,
                            buf@,
                            start as int,
                            pos as int,
                            n as int,
                        );
                        assert(rest0 =~= rest0.take(n as int) + rest0.skip(n as int));
                        assert(rest0 =~= chunk + reader.rest());
                    }
                    self.produced = Ghost(self.produced@ + buf@.subrange(pos as int, (pos + n) as int));
                    proof {
                        assert(self.produced@ + opt_rest(Some(reader)) =~= prod0 + rest0);
                    }
                    pos = pos + n;
                    assert(self.produced@ =~= old(self).produced@ + buf@.subrange(
                        start as int,
                        pos as int,
                    ));
                    if n == 0 {
                        proof {
                            assert(opt_rest(Some(reader)) =~= opt_rest(None));
                            assert(self.produced@ + opt_rest(Some(reader)) =~= self.produced@
                                + opt_rest(None));
                        }
                        break ;
                    }
                    if pos == buf.len() {
                        self.current_reader = Some(reader);
                        proof {
                            self.lemma_prefix();
                        }
                        return Ok(pos - start);
                    }
                }
            } else if self.header_path.is_some() {
                let ghost hp = self.header_path;
                self.current_reader = self.header_path.take();
                proof {
                    assert(self.produced@ + opt_rest(None) + opt_rest(hp) =~= self.produced@
                        + opt_rest(hp) + opt_rest(None));
                }
            } else if self.header_link.is_some() {
                let ghost hl = self.header_link;
                self.current_reader = self.header_link.take();
                proof {
                    assert(self.produced@ + opt_rest(None) + opt_rest(None) + opt_rest(hl)
                        =~= self.produced@ + opt_rest(hl) + opt_rest(None) + opt_rest(None));
                }
            } else if !self.header_done {
                let mut v: Vec<u8> = Vec::new();
                append_bytes(&mut v, self.header.as_bytes().as_slice());
                self.current_reader = Some(Cursor::new(v));
                self.header_done = true;
                proof {
                    assert(self.produced@ + v@ =~= self.produced@ + opt_rest(None) + opt_rest(None)
                        + opt_rest(None) + self.header@);
                }
            } else if !self.data_done {
                let ghost before = buf@;
                match self.read_data(buf, pos) {
                    Err(e) => {
                        return Err(e);
                    },
                    Ok((p, full)) => {
                        proof {
                            lemma_buf_extend(
                                old(buf)@,
                                before,
                                buf@,
                                start as int,
                                pos as int,
                                (p - pos) as int,
                            );
                        }
                        assert(self.produced@ =~= old(self).produced@ + buf@.subrange(
                            start as int,
                            p as int,
                        ));
                        pos = p;
                        if full {
                            proof {
                                self.lemma_prefix();
                            }
                            return Ok(pos - start);
                        }
                    },
                }
            } else {
                proof {
                    self.lemma_prefix();
                    self.lemma_complete();
                }
                return Ok(pos - start);
            }
        }
    }
}

/// The entry of a file read from disk, to be read out as bytes: its path
/// (with a long-name entry where needed), its metadata as `mode` asks, its
/// link target where it is a link, and its data from `data` (none where
/// absent). The reader reads out `fs_entry_head`, then the data, then the
/// padding; where the head cannot be recorded, its error is returned.
pub fn append_fs_read<R: ArchiveRead>(
    path: &[u8],
    meta: &Metadata,
    data: Option<R>,
    mode: HeaderMode,
    link_name: Option<&[u8]>,
) -> (r: Result<EntryReader<R>, TarError>)
    requires
        path@.len() < u64::MAX,
        link_name matches Some(l) ==> l@.len() < u64::MAX,
    ensures
        ({
            let head = fs_entry_head(path@, *meta, mode, opt_bytes(link_name));
            match head.1 {
                None => r matches Ok(e) && {
                    &&& e.inv()
                    &&& e.head() == head.0
                    &&& e.produced() == Seq::<u8>::empty()
                    &&& e.data_seen() == Seq::<u8>::empty()
                    &&& e.reads_all() == opt_reads_all(data)
                    &&& e.data() == opt_unread(data)
                },
                Some(err) => r == Err::<EntryReader<R>, TarError>(err),
            }
        }),
{
    let mut header = Header::new_gnu();
    let header_path = prepare_header_path_read(&mut header, path)?;
    let ghost np = name_plan(new_gnu_bytes(), path@);
    header.set_metadata_in_mode(meta, mode);
    let ghost h2 = header@;
    let header_link = match link_name {
        Some(l) => prepare_header_link_read(&mut header, l)?,
        None => None,
    };
    header.set_cksum();
    let ghost c0 = opt_consumed(data);
    let ghost u0 = opt_unread(data);
    let e = EntryReader {
        data,
        header,
        header_path,
        header_link,
        header_done: false,
        data_done: false,
        data_read_byte_amount: 0,
        current_reader: None,
        plan: Ghost(opt_rest(header_path) + opt_rest(header_link) + header@),
        produced: Ghost(Seq::empty()),
        data_start: Ghost(c0.len()),
        total: Ghost(u0),
    };
    proof {
        assert(e.data_seen() =~= Seq::<u8>::empty());
        assert(e.data_seen() + opt_unread(e.data) =~= u0);
        assert(e.produced@ + opt_rest(None) + opt_rest(e.header_path) + opt_rest(e.header_link)
            + e.header@ =~= e.plan@);
        match link_name {
            None => {
                assert(opt_rest(header_path) + opt_rest(header_link) + header@ =~= np.1 + with_cksum(
                    h2,
                ));
            },
            Some(l) => {
                let lp = link_plan(h2, l@);
                assert(opt_rest(header_path) + opt_rest(header_link) + header@ =~= np.1 + lp.1
                    + with_cksum(lp.0));
            },
        }
    }
    Ok(e)
}

/// The entry of a directory whose metadata is `stat`, named `path`, to be read
/// out as bytes; it has no data.
pub fn append_dir_read<R: ArchiveRead>(path: &[u8], stat: &Metadata, mode: HeaderMode) -> (r: Result<
    EntryReader<R>,
    TarError,
>)
    requires
        path@.len() < u64::MAX,
    ensures
        ({
            let head = fs_entry_head(path@, *stat, mode, None);
            match head.1 {
                None => r matches Ok(e) && {
                    &&& e.inv()
                    &&& e.head() == head.0
                    &&& e.produced() == Seq::<u8>::empty()
                    &&& e.data_seen() == Seq::<u8>::empty()
                    &&& e.reads_all()
                    &&& e.data() == Seq::<u8>::empty()
                },
                Some(err) => r == Err::<EntryReader<R>, TarError>(err),
            }
        }),
{
    append_fs_read(path, stat, None, mode, None)
}

/// The entry of the file `file` whose metadata is `stat`, named `path`, to be
/// read out as bytes with the file's contents as data.
pub fn append_file_read<R: ArchiveRead>(path: &[u8], stat: &Metadata, file: R, mode: HeaderMode) -> (r:
    Result<EntryReader<R>, TarError>)
    requires
        path@.len() < u64::MAX,
    ensures
        ({
            let head = fs_entry_head(path@, *stat, mode, None);
            match head.1 {
                None => r matches Ok(e) && {
                    &&& e.inv()
                    &&& e.head() == head.0
                    &&& e.produced() == Seq::<u8>::empty()
                    &&& e.data_seen() == Seq::<u8>::empty()
                    &&& e.reads_all() == file.reads_all()
                    &&& e.data() == file.unread()
                },
                Some(err) => r == Err::<EntryReader<R>, TarError>(err),
            }
        }),
{
    append_fs_read(path, stat, Some(file), mode, None)
}

/// The archive stream of entries given as (head, data): each entry's head,
/// data and padding, one after the other.
pub open spec fn entries_stream(es: Seq<(Seq<u8>, Seq<u8>)>) -> Seq<u8>
    decreases es.len(),
{
    if es.len() == 0 {
        seq![]
    } else {
        entries_stream(es.drop_last()) + es.last().0 + es.last().1 + zeros(
            pad_len(es.last().1.len()),
        )
    }
}

/// What the builder writes, before its end-of-archive marker, for files
/// appended in order, each as (name, metadata, data).
pub open spec fn builder_entries(es: Seq<(Seq<u8>, Metadata, Seq<u8>)>, mode: HeaderMode) -> Seq<u8>
    decreases es.len(),
{
    if es.len() == 0 {
        seq![]
    } else {
        builder_entries(es.drop_last(), mode) + fs_entry_plan(
            es.last().0,
            es.last().1,
            es.last().2,
            mode,
            None,
        ).0
    }
}

/// The entries a reader reads out for the same files, as (head, data).
pub open spec fn reader_entries(es: Seq<(Seq<u8>, Metadata, Seq<u8>)>, mode: HeaderMode) -> Seq<
    (Seq<u8>, Seq<u8>),
> {
    Seq::new(es.len(), |i: int| (fs_entry_head(es[i].0, es[i].1, mode, None).0, es[i].2))
}

/// The entries read out for files, one after the other, are the bytes the
/// builder writes when the same files are appended in the same order, where
/// each file's name and metadata can be recorded.
pub proof fn law_stream_matches_builder(es: Seq<(Seq<u8>, Metadata, Seq<u8>)>, mode: HeaderMode)
    requires
        forall|i: int| 0 <= i < es.len() ==> (#[trigger] fs_entry_head(es[i].0, es[i].1, mode, None)).1 is None,
    ensures
        entries_stream(reader_entries(es, mode)) == builder_entries(es, mode),
    decreases es.len(),
{
    if es.len() > 0 {
        let init = es.drop_last();
        assert forall|i: int| 0 <= i < init.len() implies (#[trigger] fs_entry_head(
            init[i].0,
            init[i].1,
            mode,
            None,
        )).1 is None by {
            assert(init[i] == es[i]);
        }
        law_stream_matches_builder(init, mode);
        assert(reader_entries(es, mode).drop_last() =~= reader_entries(init, mode));
        let l = es.last();
        assert(fs_entry_head(es[es.len() - 1].0, es[es.len() - 1].1, mode, None).1 is None);
        law_reader_matches_builder(l.0, l.1, mode, None, l.2);
        assert(entries_stream(reader_entries(es, mode)) =~= entries_stream(reader_entries(init, mode))
            + (fs_entry_head(l.0, l.1, mode, None).0 + l.2 + zeros(pad_len(l.2.len()))));
    }
}

/// Which paths a reader descends into, and how it names the rest: every
/// directory is descended into, a symlink that leads to a directory only
/// where symlinks are followed, and never a path that is neither a directory
/// nor leads to one. Such a path is read as a file, named by its root name
/// where it is a root, else by the root name joined with its path below the
/// source root. A directory gets an entry under that joined name unless the
/// name is empty.
pub proof fn law_reader_descends_into_directories(follow: bool, ri: ReaderItem)
    ensures
        ({
            let t = tar_step_for(follow, ri);
            let dest = join(ri.path@, ri.item.rel@);
            &&& t.1 == ri.item.src@
            &&& ri.item.is_dir ==> t.0
            &&& !ri.item.is_dir && !ri.item.points_to_dir ==> !t.0
            &&& follow && ri.item.is_symlink && ri.item.points_to_dir ==> t.0
            &&& !t.0 && ri.item.rel@.len() == 0 ==> t.2 == Some(ri.path@)
            &&& !t.0 && ri.item.rel@.len() > 0 ==> t.2 == Some(dest)
            &&& t.0 ==> t.2 == (if dest.len() > 0 {
                Some(dest)
            } else {
                None
            })
        }),
{
}

/// With symlinks followed, the reader takes the same steps as the builder's
/// walk: it descends into the same paths, reads the same sources, gives a
/// directory an entry under the same name, and names a file below a root as
/// the walk does.
pub proof fn law_reader_steps_follow_walk(ri: ReaderItem)
    ensures
        ({
            let t = tar_step_for(true, ri);
            let w = step_for(ri.path@, true, ri.item);
            &&& t.0 <==> w.0 == 0
            &&& t.1 == w.1
            &&& t.0 ==> t.2 == (if w.3 {
                Some(w.2)
            } else {
                None
            })
            &&& !t.0 ==> w.0 == 2
            &&& !t.0 && ri.item.rel@.len() > 0 ==> t.2 == Some(w.2)
        }),
{
}

/// A path waiting to be read out, with the name `path` its root gets in the
/// archive and the root `src_path` on disk.
pub struct ReaderItem {
    pub path: Vec<u8>,
    pub src_path: Vec<u8>,
    pub item: WalkItem,
}

/// What to do before a `TarReader` reads on.
pub enum TarStep {
    /// List the directory `src` and hand its entries to `push_entries`; where
    /// `entry` is given, hand the metadata of `src` to `start_dir` with it as
    /// the name.
    Dir { src: Vec<u8>, entry: Option<Vec<u8>> },
    /// Open the file `src` and hand it, with its metadata, to `start_file`
    /// with the name `dest`.
    File { src: Vec<u8>, dest: Vec<u8> },
}

/// A step as plain values: directory or not, source, destination if any.
pub open spec fn tar_step_view(s: TarStep) -> (bool, Seq<u8>, Option<Seq<u8>>) {
    match s {
        TarStep::Dir { src, entry } => (
            true,
            src@,
            match entry {
                Some(d) => Some(d@),
                None => None,
            },
        ),
        TarStep::File { src, dest } => (false, src@, Some(dest@)),
    }
}

/// The step for the item `ri`: a directory to descend into gets an entry
/// named by its root name joined with its path below the root, unless that
/// name is empty; anything else is read as a file, a root under its root name.
pub open spec fn tar_step_for(follow: bool, ri: ReaderItem) -> (bool, Seq<u8>, Option<Seq<u8>>) {
    let dest = join(ri.path@, ri.item.rel@);
    if descends(ri.item, follow) {
        (true, ri.item.src@, if dest.len() > 0 {
            Some(dest)
        } else {
            None
        })
    } else {
        (false, ri.item.src@, Some(if ri.item.rel@.len() == 0 {
            ri.path@
        } else {
            dest
        }))
    }
}

/// How far a call of `TarReader::read` got.
pub enum ReadProgress {
    /// `n` bytes were read, and the read is over: the buffer is full, or the
    /// archive has ended.
    Done(usize),
    /// `n` bytes were read; the step must be handled before reading on.
    Next(usize, TarStep),
}

/// How many bytes a call of `TarReader::read` read.
pub open spec fn progress_len(p: ReadProgress) -> usize {
    match p {
        ReadProgress::Done(n) => n,
        ReadProgress::Next(n, _) => n,
    }
}

/// What is being read out: an entry, or the end-of-archive marker.
pub enum TarSource<R: ArchiveRead> {
    Entry(EntryReader<R>),
    Bytes(Cursor),
}

/// An archive read out as a stream of bytes: the entries of the paths handed
/// to a `BuilderReader`, then the end-of-archive marker. Reading the disk is
/// left to the caller, as each `TarStep` says.
pub struct TarReader<R: ArchiveRead> {
    stack: Vec<ReaderItem>,
    mode: HeaderMode,
    follow: bool,
    finished: bool,
    current_reader: Option<TarSource<R>>,
    listing: Option<ReaderItem>,
    produced: Ghost<Seq<u8>>,
    entries: Ghost<Seq<(Seq<u8>, Seq<u8>)>>,
}

impl<R: ArchiveRead> TarReader<R> {
    /// The paths still to visit; the last is visited next.
    pub closed spec fn pending(&self) -> Seq<ReaderItem> {
        self.stack@
    }

    /// The directory whose entries the reader waits for, if any.
    pub closed spec fn awaiting(&self) -> Option<ReaderItem> {
        self.listing
    }

    /// Whether the end-of-archive marker has been started.
    pub closed spec fn is_finished(&self) -> bool {
        self.finished
    }

    /// Whether symlinks are followed.
    pub closed spec fn follows(&self) -> bool {
        self.follow
    }

    /// How much metadata entries record.
    pub closed spec fn header_mode(&self) -> HeaderMode {
        self.mode
    }

    /// The bytes read out so far.
    pub closed spec fn produced(&self) -> Seq<u8> {
        self.produced@
    }

    /// The entries read out to the end, as (head, data).
    pub closed spec fn entries(&self) -> Seq<(Seq<u8>, Seq<u8>)> {
        self.entries@
    }


    /// Whether every read from the data of the entry underway succeeds.
    pub closed spec fn reads_all(&self) -> bool {
        match self.current_reader {
            Some(TarSource::Entry(e)) => e.reads_all(),
            _ => true,
        }
    }

    /// The entry being read out, if any, as (head, data).
    pub closed spec fn underway(&self) -> Option<(Seq<u8>, Seq<u8>)> {
        match self.current_reader {
            Some(TarSource::Entry(e)) => Some((e.head(), e.data())),
            _ => None,
        }
    }

    /// Whether, coming from `before`, the entries read out are the same and the
    /// entry underway is the same, or the entry that was underway was read out
    /// to its end and added to the entries, with none underway now.
    pub open spec fn advances_from(&self, before: &Self) -> bool {
        ||| self.entries() == before.entries() && self.underway() == before.underway()
        ||| before.underway() is Some && self.entries() == before.entries().push(
            before.underway()->Some_0,
        ) && self.underway() is None
    }

    /// The archive as far as it is known: the entries read out, the entry
    /// underway, and the end-of-archive marker once it was started.
    pub open spec fn planned(&self) -> Seq<u8> {
        entries_stream(self.entries()) + (match self.underway() {
            Some(u) => u.0 + u.1 + zeros(pad_len(u.1.len())),
            None => seq![],
        }) + (if self.is_finished() {
            zeros(1024)
        } else {
            seq![]
        })
    }

    /// Whether nothing is being read out.
    pub closed spec fn is_idle(&self) -> bool {
        self.current_reader is None
    }

    /// Whether the archive has been read out to the end.
    pub closed spec fn is_done(&self) -> bool {
        &&& self.stack@.len() == 0
        &&& self.finished
        &&& self.current_reader is None
    }

    closed spec fn source_ok(&self, cur: Option<TarSource<R>>, produced: Seq<u8>) -> bool {
        let base = entries_stream(self.entries@);
        match cur {
            None => produced == base + (if self.finished {
                zeros(1024)
            } else {
                seq![]
            }),
            Some(TarSource::Entry(e)) => {
                &&& !self.finished
                &&& produced == base + e.produced()
            },
            Some(TarSource::Bytes(c)) => {
                &&& self.finished
                &&& produced + c.rest() == base + zeros(1024)
            },
        }
    }

    closed spec fn source_basic(&self, cur: Option<TarSource<R>>) -> bool {
        &&& match cur {
            None => true,
            Some(TarSource::Entry(e)) => e.inv() && !self.finished,
            Some(TarSource::Bytes(c)) => c.wf() && self.finished,
        }
        &&& self.finished ==> self.stack@.len() == 0
        &&& self.listing is Some ==> !self.finished
        &&& forall|i: int|
            0 <= i < self.stack@.len() ==> rooted(
                (#[trigger] self.stack@[i]).item,
                self.stack@[i].src_path@,
            )
        &&& self.listing matches Some(ri) ==> rooted(ri.item, ri.src_path@)
    }

    /// The invariant of a reader.
    pub closed spec fn inv(&self) -> bool {
        &&& self.source_basic(self.current_reader)
        &&& self.source_ok(self.current_reader, self.produced@)
    }

    /// What was read out is the start of the archive as far as it is known.
    pub proof fn lemma_planned_prefix(&self)
        requires
            self.inv(),
        ensures
            self.produced().is_prefix_of(self.planned()),
    {
        let base = entries_stream(self.entries@);
        match self.current_reader {
            None => {
                lemma_concat_prefix(self.produced@, seq![]);
                assert(self.produced@ + Seq::<u8>::empty() =~= self.planned());
            },
            Some(TarSource::Entry(e)) => {
                e.lemma_prefix();
                lemma_prefix_prepend(base, e.produced(), e.entry_stream());
                assert(base + e.entry_stream() =~= self.planned());
            },
            Some(TarSource::Bytes(c)) => {
                lemma_concat_prefix(self.produced@, c.rest());
                assert(base + zeros(1024) =~= self.planned());
            },
        }
    }

    /// An archive read out to the end is its entries one after the other, then
    /// the end-of-archive marker.
    pub proof fn law_archive_stream(&self)
        requires
            self.inv(),
            self.is_done(),
        ensures
            self.produced() == entries_stream(self.entries()) + zeros(1024),
    {
    }

    /// Hands over the entries of the directory of the last step, in the order
    /// listed: they are visited last listed first.
    pub fn push_entries(&mut self, entries: &Vec<DirEntryInfo>)
        requires
            old(self).awaiting() is Some,
        ensures
            final(self).awaiting() is None,
            final(self).pending().len() == old(self).pending().len() + entries@.len(),
            forall|i: int|
                0 <= i < old(self).pending().len() ==> #[trigger] final(self).pending()[i] == old(
                    self,
                ).pending()[i],
            forall|i: int|
                0 <= i < entries@.len() ==> {
                    let c = #[trigger] final(self).pending()[old(self).pending().len() + i];
                    let parent = old(self).awaiting()->Some_0;
                    &&& c.path@ == parent.path@
                    &&& c.src_path@ == parent.src_path@
                    &&& is_child_item(c.item, parent.item, entries@[i])
                },
            old(self).inv() ==> final(self).inv(),
            final(self).produced() == old(self).produced(),
            final(self).entries() == old(self).entries(),
            final(self).is_finished() == old(self).is_finished(),
            final(self).is_idle() == old(self).is_idle(),
            final(self).follows() == old(self).follows(),
            final(self).header_mode() == old(self).header_mode(),
            final(self).reads_all() == old(self).reads_all(),
            final(self).underway() == old(self).underway(),
    {
        match self.listing.take() {
            Some(parent) => {
                let mut i: usize = 0;
                let ghost s0 = self.stack@;
                while i < entries.len()
                    invariant
                        i <= entries@.len(),
                        self.stack@.len() == s0.len() + i,
                        forall|k: int| 0 <= k < s0.len() ==> #[trigger] self.stack@[k] == s0[k],
                        forall|k: int|
                            0 <= k < i ==> {
                                let c = #[trigger] self.stack@[s0.len() + k];
                                &&& c.path@ == parent.path@
                                &&& c.src_path@ == parent.src_path@
                                &&& is_child_item(c.item, parent.item, entries@[k])
                            },
                        self.finished == old(self).finished,
                        self.current_reader == old(self).current_reader,
                        self.produced == old(self).produced,
                        self.entries == old(self).entries,
                        self.follow == old(self).follow,
                        self.mode == old(self).mode,
                        self.listing is None,
                        s0 == old(self).stack@,
                        old(self).inv() ==> forall|k: int|
                            0 <= k < self.stack@.len() ==> rooted(
                                (#[trigger] self.stack@[k]).item,
                                self.stack@[k].src_path@,
                            ),
                        old(self).inv() ==> rooted(parent.item, parent.src_path@),
                        old(self).listing == Some(parent),
                    decreases entries@.len() - i,
                {
                    let c = ReaderItem {
                        path: copy_vec(&parent.path),
                        src_path: copy_vec(&parent.src_path),
                        item: make_child(&parent.item, &entries[i]),
                    };
                    proof {
                        if old(self).inv() {
                            law_child_rooted(c.item, parent.item, entries@[i as int], parent.src_path@);
                        }
                    }
                    self.stack.push(c);
                    i = i + 1;
                }
            },
            None => {},
        }
    }

    /// Reads into `buf` from index `start` on: first what is left of the part
    /// underway; then, where buffer room is left, it pops the next path and
    /// returns the step to handle before reading on; once no path is left, it
    /// reads out the end-of-archive marker, two blocks of zeros, once. It
    /// returns fewer bytes than fit, without a step, only at the end of the
    /// archive.
    pub fn read(&mut self, buf: &mut [u8], start: usize) -> (r: Result<ReadProgress, TarError>)
        requires
            old(self).inv(),
            old(self).awaiting() is None,
            start <= old(buf)@.len(),
        ensures
            final(buf)@.len() == old(buf)@.len(),
            r matches Ok(p) ==> {
                let n = progress_len(p);
                &&& start + n <= old(buf)@.len()
                &&& final(buf)@.take(start as int) == old(buf)@.take(start as int)
                &&& final(buf)@.skip(start + n) == old(buf)@.skip(start + n)
                &&& final(self).inv()
                &&& final(self).produced() == old(self).produced() + final(buf)@.subrange(
                    start as int,
                    start + n,
                )
                &&& final(self).produced().is_prefix_of(
                    final(self).planned(),
                )
                &&& final(self).advances_from(old(self))
                &&& final(self).is_finished() ==> final(self).pending().len() == 0
                &&& final(self).follows() == old(self).follows()
                &&& final(self).header_mode() == old(self).header_mode()
                &&& match p {
                    ReadProgress::Done(n) => {
                        &&& final(self).pending() == old(self).pending()
                        &&& final(self).awaiting() is None
                        &&& start + n < old(buf)@.len() ==> final(self).is_done()
                    },
                    ReadProgress::Next(n, step) => {
                        let it = old(self).pending().last();
                        &&& old(self).pending().len() > 0
                        &&& tar_step_view(step) == tar_step_for(old(self).follows(), it)
                        &&& final(self).pending() == old(self).pending().drop_last()
                        &&& final(self).is_idle()
                        &&& !final(self).is_finished()
                        &&& final(self).awaiting() == (if descends(it.item, old(self).follows()) {
                            Some(it)
                        } else {
                            None::<ReaderItem>
                        })
                    },
                }
            },
            old(self).reads_all() ==> r is Ok && final(self).reads_all(),
            old(self).is_done() ==> r == Ok::<ReadProgress, TarError>(ReadProgress::Done(0)),
            start == old(buf)@.len() ==> r == Ok::<ReadProgress, TarError>(ReadProgress::Done(0))
                && *final(self) == *old(self),
    {
        if start == buf.len() {
            proof {
                assert(buf@.subrange(start as int, start as int) =~= Seq::<u8>::empty());
                assert(self.produced@ =~= self.produced@ + buf@.subrange(start as int, start as int));
                self.lemma_planned_prefix();
            }
            return Ok(ReadProgress::Done(0));
        }
        let mut pos = start;
        assert(buf@.subrange(start as int, start as int) =~= Seq::<u8>::empty());
        assert(self.produced@ =~= old(self).produced@ + buf@.subrange(start as int, pos as int));
        let blen = buf.len();
        match self.current_reader.take() {
            None => {},
            Some(TarSource::Entry(mut e)) => {
                let ghost h0 = e.head();
                let ghost d0 = e.data();
                loop
                    invariant
                        start <= pos <= buf@.len(),
                        blen == buf@.len(),
                        buf@.len() == old(buf)@.len(),
                        buf@.take(start as int) == old(buf)@.take(start as int),
                        buf@.skip(pos as int) == old(buf)@.skip(pos as int),
                        e.inv(),
                        old(self).inv(),
                        self.current_reader is None,
                        self.stack == old(self).stack,
                        self.finished == old(self).finished,
                        !self.finished,
                        self.listing is None,
                        self.follow == old(self).follow,
                        self.mode == old(self).mode,
                        self.entries == old(self).entries,
                        self.produced@ == old(self).produced@ + buf@.subrange(
                            start as int,
                            pos as int,
                        ),
                        pos < buf@.len() && self.produced@
                            == entries_stream(self.entries@) + e.produced(),
                        old(self).reads_all() ==> e.reads_all(),
                        e.head() == h0,
                        e.data() == d0,
                        old(self).underway() == Some((h0, d0)),
                    ensures
                        e.is_done() && self.produced@
                            == entries_stream(self.entries@) + e.produced(),
                        e.inv(),
                    decreases buf@.len() - pos,
                {
                    let ghost before = buf@;
                    let n = match e.read(buf, pos) {
                        Ok(n) => n,
                        Err(err) => {
                            return Err(err);
                        },
                    };
                    proof {
                        lemma_buf_extend(
                            old(buf)@,
                            before,
                            buf@,
                            start as int,
                            pos as int,
                            n as int,
                        );
                    }
                    self.produced = Ghost(self.produced@ + buf@.subrange(pos as int, (pos + n) as int));
                    proof {
                        assert(self.produced@ =~= entries_stream(self.entries@) + e.produced());
                    }
                    pos = pos + n;
                    assert(self.produced@ =~= old(self).produced@ + buf@.subrange(
                        start as int,
                        pos as int,
                    ));
                    if n == 0 {
                        break ;
                    }
                    if pos == blen {
                        self.current_reader = Some(TarSource::Entry(e));
                        proof {
                            self.lemma_planned_prefix();
                        }
                        return Ok(ReadProgress::Done(pos - start));
                    }
                }
                proof {
                    e.lemma_complete();
                }
                let ghost es = self.entries@;
                self.entries = Ghost(self.entries@.push((e.head(), e.data())));
                proof {
                    assert(self.entries@.drop_last() =~= es);
                    assert(self.produced@ =~= entries_stream(self.entries@));
                }
            },
            Some(TarSource::Bytes(mut c)) => {
                assert(!old(self).is_done() && old(self).underway() is None);
                loop
                    invariant
                        !old(self).is_done(),
                        old(self).underway() is None,
                        start <= pos <= buf@.len(),
                        blen == buf@.len(),
                        buf@.len() == old(buf)@.len(),
                        buf@.take(start as int) == old(buf)@.take(start as int),
                        buf@.skip(pos as int) == old(buf)@.skip(pos as int),
                        c.wf(),
                        self.current_reader is None,
                        self.stack == old(self).stack,
                        self.stack@.len() == 0,
                        self.finished,
                        self.listing is None,
                        self.follow == old(self).follow,
                        self.mode == old(self).mode,
                        self.entries == old(self).entries,
                        self.produced@ == old(self).produced@ + buf@.subrange(
                            start as int,
                            pos as int,
                        ),
                        pos < buf@.len() && self.produced@ + c.rest()
                            == entries_stream(self.entries@) + zeros(1024),
                    ensures
                        self.produced@ == entries_stream(self.entries@) + zeros(
                            1024,
                        ),
                        c.wf(),
                    decreases buf@.len() - pos,
                {
                    let ghost before = buf@;
                    let ghost rest0 = c.rest();
                    let ghost prod0 = self.produced@;
                    let n = match c.read(buf, pos) {
                        Ok(n) => n,
                        Err(err) => {
                            return Err(err);
                        },
                    };
                    proof {
                        lemma_buf_extend(
                            old(buf)@,
                            before,
                            buf@,
                            start as int,
                            pos as int,
                            n as int,
                        );
                        assert(rest0 =~= rest0.take(n as int) + rest0.skip(n as int));
                    }
                    self.produced = Ghost(self.produced@ + buf@.subrange(pos as int, (pos + n) as int));
                    proof {
                        assert(self.produced@ + c.rest() =~= prod0 + rest0);
                    }
                    pos = pos + n;
                    assert(self.produced@ =~= old(self).produced@ + buf@.subrange(
                        start as int,
                        pos as int,
                    ));
                    if n == 0 {
                        proof {
                            assert(self.produced@ + c.rest() =~= self.produced@);
                        }
                        break ;
                    }
                    if pos == blen {
                        self.current_reader = Some(TarSource::Bytes(c));
                        proof {
                            self.lemma_planned_prefix();
                        }
                        return Ok(ReadProgress::Done(pos - start));
                    }
                }
            },
        }
        assert(self.advances_from(old(self)));
        assert(old(self).is_done() ==> pos == start && self.finished && self.stack@.len() == 0);
        if self.stack.len() > 0 {
            let ri = self.stack.pop().unwrap();
            let dest = join_path(ri.path.as_slice(), ri.item.rel.as_slice());
            let src = copy_vec(&ri.item.src);
            if ri.item.is_dir || (ri.item.is_symlink && self.follow && ri.item.points_to_dir) {
                let d = if dest.len() > 0 {
                    Some(dest)
                } else {
                    None
                };
                self.listing = Some(ri);
                proof {
                    self.lemma_planned_prefix();
                }
                return Ok(ReadProgress::Next(pos - start, TarStep::Dir { src, entry: d }));
            } else {
                let name = if ri.item.rel.len() == 0 {
                    copy_vec(&ri.path)
                } else {
                    dest
                };
                proof {
                    self.lemma_planned_prefix();
                }
                return Ok(ReadProgress::Next(pos - start, TarStep::File { src, dest: name }));
            }
        }
        if !self.finished {
            assert(!old(self).is_done());
            self.finished = true;
            let mut c = Cursor::new(zero_bytes(1024));
            proof {
                assert(self.produced@ + c.rest() =~= entries_stream(self.entries@) + zeros(1024));
            }
            loop
                invariant
                    start <= pos <= buf@.len(),
                    blen == buf@.len(),
                    buf@.len() == old(buf)@.len(),
                    buf@.take(start as int) == old(buf)@.take(start as int),
                    buf@.skip(pos as int) == old(buf)@.skip(pos as int),
                    c.wf(),
                    self.current_reader is None,
                    self.stack@.len() == 0,
                    self.stack == old(self).stack,
                    self.finished,
                    self.listing is None,
                    self.follow == old(self).follow,
                    self.mode == old(self).mode,
                    self.produced@ == old(self).produced@ + buf@.subrange(start as int, pos as int),
                    pos < buf@.len() && self.produced@ + c.rest() == entries_stream(
                        self.entries@,
                    ) + zeros(1024),
                    self.advances_from(old(self)),
                    !old(self).is_done(),
                ensures
                    self.produced@ == entries_stream(self.entries@) + zeros(1024),
                    c.wf(),
                decreases buf@.len() - pos,
            {
                let ghost before = buf@;
                let ghost rest0 = c.rest();
                let ghost prod0 = self.produced@;
                let n = match c.read(buf, pos) {
                    Ok(n) => n,
                    Err(err) => {
                        return Err(err);
                    },
                };
                proof {
                    lemma_buf_extend(old(buf)@, before, buf@, start as int, pos as int, n as int);
                    assert(rest0 =~= rest0.take(n as int) + rest0.skip(n as int));
                }
                self.produced = Ghost(self.produced@ + buf@.subrange(pos as int, (pos + n) as int));
                proof {
                    assert(self.produced@ + c.rest() =~= prod0 + rest0);
                }
                pos = pos + n;
                assert(self.produced@ =~= old(self).produced@ + buf@.subrange(
                    start as int,
                    pos as int,
                ));
                if n == 0 {
                    proof {
                        assert(self.produced@ + c.rest() =~= self.produced@);
                    }
                    break ;
                }
                if pos == blen {
                    self.current_reader = Some(TarSource::Bytes(c));
                    proof {
                        self.lemma_planned_prefix();
                    }
                    return Ok(ReadProgress::Done(pos - start));
                }
            }
        }
        proof {
            self.lemma_planned_prefix();
        }
        Ok(ReadProgress::Done(pos - start))
    }

    /// Starts reading out the entry of a directory named `dest` with the
    /// metadata `stat`.
    pub fn start_dir(&mut self, dest: &[u8], stat: &Metadata) -> (r: Result<(), TarError>)
        requires
            old(self).inv(),
            old(self).is_idle(),
            !old(self).is_finished(),
            dest@.len() < u64::MAX,
        ensures
            final(self).inv(),
            final(self).pending() == old(self).pending(),
            final(self).awaiting() == old(self).awaiting(),
            final(self).produced() == old(self).produced(),
            final(self).entries() == old(self).entries(),
            final(self).is_finished() == old(self).is_finished(),
            final(self).follows() == old(self).follows(),
            final(self).header_mode() == old(self).header_mode(),
            r is Ok ==> final(self).reads_all(),
            r is Ok ==> final(self).underway() == Some(
                (fs_entry_head(dest@, *stat, old(self).header_mode(), None).0, Seq::<u8>::empty()),
            ),
            match fs_entry_head(dest@, *stat, old(self).header_mode(), None).1 {
                None => r is Ok && !final(self).is_idle(),
                Some(e) => r == Err::<(), TarError>(e) && final(self).is_idle(),
            },
    {
        let e = append_dir_read::<R>(dest, stat, self.mode)?;
        self.current_reader = Some(TarSource::Entry(e));
        proof {
            assert(self.produced@ =~= entries_stream(self.entries@) + e.produced());
        }
        Ok(())
    }

    /// Starts reading out the entry of the file `file` named `dest` with the
    /// metadata `stat`.
    pub fn start_file(&mut self, dest: &[u8], stat: &Metadata, file: R) -> (r: Result<(), TarError>)
        requires
            old(self).inv(),
            old(self).is_idle(),
            !old(self).is_finished(),
            dest@.len() < u64::MAX,
        ensures
            final(self).inv(),
            final(self).pending() == old(self).pending(),
            final(self).awaiting() == old(self).awaiting(),
            final(self).produced() == old(self).produced(),
            final(self).entries() == old(self).entries(),
            final(self).is_finished() == old(self).is_finished(),
            final(self).follows() == old(self).follows(),
            final(self).header_mode() == old(self).header_mode(),
            r is Ok ==> (final(self).reads_all() <==> file.reads_all()),
            r is Ok ==> final(self).underway() == Some(
                (fs_entry_head(dest@, *stat, old(self).header_mode(), None).0, file.unread()),
            ),
            match fs_entry_head(dest@, *stat, old(self).header_mode(), None).1 {
                None => r is Ok && !final(self).is_idle(),
                Some(e) => r == Err::<(), TarError>(e) && final(self).is_idle(),
            },
    {
        let e = append_file_read::<R>(dest, stat, file, self.mode)?;
        self.current_reader = Some(TarSource::Entry(e));
        proof {
            assert(self.produced@ =~= entries_stream(self.entries@) + e.produced());
        }
        Ok(())
    }
}

/// Whether `ri` is a root handed to a `BuilderReader`: named `path` in the
/// archive, read from `src_path`, a directory to walk or a single file.
pub open spec fn is_root_item(ri: ReaderItem, path: Seq<u8>, src_path: Seq<u8>, is_dir: bool) -> bool {
    &&& ri.path@ == path
    &&& ri.src_path@ == src_path
    &&& ri.item.src@ == src_path
    &&& ri.item.rel@ == Seq::<u8>::empty()
    &&& ri.item.is_dir == is_dir
    &&& !ri.item.is_symlink
}

/// The paths that an archive read out as bytes will hold, in the order they
/// were added.
pub struct BuilderReader {
    roots: Vec<ReaderItem>,
}

impl BuilderReader {
    /// Every root lies below its own source path: it is that path.
    #[verifier::type_invariant]
    spec fn roots_rooted(self) -> bool {
        forall|i: int|
            0 <= i < self.roots@.len() ==> rooted(
                (#[trigger] self.roots@[i]).item,
                self.roots@[i].src_path@,
            )
    }

    /// The roots handed over so far, in the order they were added, which is
    /// the order in which their entries are read out.
    pub closed spec fn roots(&self) -> Seq<ReaderItem> {
        self.roots@
    }

    /// No paths yet.
    pub fn new() -> (r: BuilderReader)
        ensures
            r.roots().len() == 0,
    {
        BuilderReader { roots: Vec::new() }
    }

    fn root(path: &[u8], src_path: &[u8], is_dir: bool) -> (ri: ReaderItem)
        ensures
            is_root_item(ri, path@, src_path@, is_dir),
    {
        let mut p: Vec<u8> = Vec::new();
        append_bytes(&mut p, path);
        let mut s: Vec<u8> = Vec::new();
        append_bytes(&mut s, src_path);
        let mut s2: Vec<u8> = Vec::new();
        append_bytes(&mut s2, src_path);
        assert(p@ =~= path@);
        assert(s@ =~= src_path@);
        assert(s2@ =~= src_path@);
        ReaderItem {
            path: p,
            src_path: s,
            item: WalkItem {
                src: s2,
                rel: Vec::new(),
                is_dir,
                is_symlink: false,
                points_to_dir: is_dir,
            },
        }
    }

    /// Adds the directory `src_path` and all it holds, named `path` and below,
    /// after the roots added before.
    pub fn append_dir_all(&mut self, path: &[u8], src_path: &[u8]) -> (r: Result<(), TarError>)
        ensures
            r is Ok,
            final(self).roots().len() == old(self).roots().len() + 1,
            final(self).roots().drop_last() == old(self).roots(),
            is_root_item(final(self).roots().last(), path@, src_path@, true),
    {
        proof {
            use_type_invariant(&*self);
        }
        let ri = Self::root(path, src_path, true);
        let mut st: Vec<ReaderItem> = Vec::new();
        std::mem::swap(&mut st, &mut self.roots);
        st.push(ri);
        self.roots = st;
        assert(self.roots@.drop_last() =~= old(self).roots@);
        Ok(())
    }

    /// Adds the file `src_path`, named `path`, after the roots added before.
    pub fn append_file(&mut self, path: &[u8], src_path: &[u8]) -> (r: Result<(), TarError>)
        ensures
            r is Ok,
            final(self).roots().len() == old(self).roots().len() + 1,
            final(self).roots().drop_last() == old(self).roots(),
            is_root_item(final(self).roots().last(), path@, src_path@, false),
    {
        proof {
            use_type_invariant(&*self);
        }
        let ri = Self::root(path, src_path, false);
        let mut st: Vec<ReaderItem> = Vec::new();
        std::mem::swap(&mut st, &mut self.roots);
        st.push(ri);
        self.roots = st;
        assert(self.roots@.drop_last() =~= old(self).roots@);
        Ok(())
    }

    /// The reader of the archive of these paths: complete metadata, symlinks
    /// followed, nothing read out yet. Its pending paths are the roots last
    /// first, so that the first root added is visited first.
    pub fn into_reader<R: ArchiveRead>(self) -> (t: TarReader<R>)
        ensures
            t.pending() == self.roots().reverse(),
            t.header_mode() == HeaderMode::Complete,
            t.follows(),
            !t.is_finished(),
            t.is_idle(),
            t.awaiting() is None,
            t.inv(),
            t.produced() == Seq::<u8>::empty(),
            t.entries() == Seq::<(Seq<u8>, Seq<u8>)>::empty(),
            t.reads_all(),
            t.underway() is None,
    {
        proof {
            use_type_invariant(&self);
        }
        let ghost orig = self.roots@;
        let mut roots = self.roots;
        let mut stack: Vec<ReaderItem> = Vec::new();
        while roots.len() > 0
            invariant
                roots@.len() + stack@.len() == orig.len(),
                roots@ == orig.take(roots@.len() as int),
                forall|i: int|
                    0 <= i < stack@.len() ==> #[trigger] stack@[i] == orig[orig.len() - 1 - i],
                forall|i: int|
                    0 <= i < orig.len() ==> rooted(
                        (#[trigger] orig[i]).item,
                        orig[i].src_path@,
                    ),
            decreases roots@.len(),
        {
            let ri = roots.pop().unwrap();
            stack.push(ri);
            assert(roots@ =~= orig.take(roots@.len() as int));
        }
        assert(stack@ =~= orig.reverse());
        let t = TarReader {
            stack,
            mode: HeaderMode::Complete,
            follow: true,
            finished: false,
            current_reader: None,
            listing: None,
            produced: Ghost(Seq::empty()),
            entries: Ghost(Seq::empty()),
            };
        assert(t.produced@ =~= entries_stream(t.entries@) + Seq::<u8>::empty());
        t
    }
}

} // verus!
