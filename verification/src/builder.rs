//! Writing entries to an archive: header block, data, zero padding to the next
//! block, GNU long-name extensions and the end-of-archive marker.
use vstd::prelude::*;
use crate::error::TarError;
use crate::header::{
    Header,
    HeaderMode,
    EntryType,
    Metadata,
    new_gnu_bytes,
    put_numeric,
    put_octal,
    with_cksum,
    with_metadata,
    MODE,
    UID,
    GID,
    MTIME,
    SIZE,
    TYPEFLAG,
    NAME,
    LINKNAME,
    NAME_LEN,
};
use crate::io::{
    ArchiveWrite,
    wrote_prefix,
    lemma_wrote_prefix_extend,
    lemma_wrote_prefix_after,
    lemma_wrote_prefix_full,
    lemma_wrote_prefix_none,
};
use crate::walk::DirWalk;
use crate::header::{
    checksum,
    kept_fields,
    lemma_keeps_fields,
    lemma_cksum_reads_back,
    law_metadata_fields,
    DETERMINISTIC_TIMESTAMP,
    CKSUM,
};
use crate::numeric::numeric_value;
use crate::path::law_plain_name_copy;
use crate::numeric::{
    splice,
    octal_value,
    octal_digits,
    lemma_octal_roundtrip,
    lemma_octal_digits_len,
    lemma_splice_frame,
    pow8,
};
use crate::path::{path_copy, field_after_copy, lemma_path_copy_fits, lemma_field_after_copy_len};
use crate::header::{
    lemma_put_numeric_len,
    lemma_put_octal_len,
    lemma_with_cksum_len,
    lemma_with_metadata_len,
    lemma_new_gnu_len,
};

verus! {

/// `n` zero bytes.
pub open spec fn zeros(n: nat) -> Seq<u8> {
    Seq::new(n, |i: int| 0u8)
}

/// How many zero bytes extend `len` bytes to a whole number of 512-byte blocks.
pub open spec fn pad_len(len: nat) -> nat {
    if len % 512 == 0 {
        0
    } else {
        (512 - len % 512) as nat
    }
}

/// An entry as it stands in the archive: the header block, the data, and zeros
/// up to the next block boundary.
pub open spec fn entry_bytes(header: Seq<u8>, data: Seq<u8>) -> Seq<u8> {
    header + data + zeros(pad_len(data.len()))
}

/// The name `././@LongLink` that GNU tar gives its long-name entries.
pub open spec fn long_link_name() -> Seq<u8> {
    seq![46u8, 47u8, 46u8, 47u8, 64u8, 76u8, 111u8, 110u8, 103u8, 76u8, 105u8, 110u8, 107u8]
}

/// The header of a GNU long-name entry of type `ty` whose data is a name of
/// `size` bytes and its terminating nul: the name `././@LongLink`, mode 0o644,
/// owner, group and time zero, size `size + 1`, and its checksum.
pub open spec fn long_link_header(size: nat, ty: u8) -> Seq<u8> {
    let h0 = splice(new_gnu_bytes(), 0, long_link_name());
    let h1 = put_octal(h0, MODE as int, 8, 0o644);
    let h2 = put_numeric(h1, UID as int, 8, 0);
    let h3 = put_numeric(h2, GID as int, 8, 0);
    let h4 = put_numeric(h3, MTIME as int, 12, 0);
    let h5 = put_numeric(h4, SIZE as int, 12, (size + 1) as u64);
    with_cksum(h5.update(TYPEFLAG as int, ty))
}

/// The GNU entry of type `ty` (`L` for a name, `K` for a link target) that
/// carries the long value `p`, nul-terminated.
pub open spec fn extension_entry(p: Seq<u8>, ty: u8) -> Seq<u8> {
    entry_bytes(long_link_header(p.len(), ty), p.push(0u8))
}

/// How a value `p` is recorded in the field of a header `h` at `start`, with
/// a GNU extension entry of type `ty` where it does not fit: the header after,
/// the bytes written to the archive before the header, and the error, if any.
/// A value that fails to fit although shorter than the field is refused
/// with that error; a longer one goes into an extension entry. A path then
/// gets its first 100 bytes copied into the field again; a link target keeps
/// what its first copy left in the field.
#[verifier::opaque]
pub open spec fn field_plan(h: Seq<u8>, start: int, p: Seq<u8>, is_link: bool, ty: u8) -> (
    Seq<u8>,
    Seq<u8>,
    Option<TarError>,
) {
    let first = path_copy(p, NAME_LEN as nat, is_link);
    let h1 = field_after_copy(h, start, NAME_LEN as nat, first.0);
    if first.1 is None {
        (h1, seq![], None)
    } else if p.len() < NAME_LEN {
        (h1, seq![], first.1)
    } else if is_link {
        (h1, extension_entry(p, ty), None)
    } else {
        let second = path_copy(p.take(NAME_LEN as int), NAME_LEN as nat, is_link);
        (
            field_after_copy(h1, start, NAME_LEN as nat, second.0),
            extension_entry(p, ty),
            second.1,
        )
    }
}

/// How the path of an entry is recorded (`L` extension).
pub open spec fn name_plan(h: Seq<u8>, p: Seq<u8>) -> (Seq<u8>, Seq<u8>, Option<TarError>) {
    field_plan(h, NAME as int, p, false, 76u8)
}

/// How the target of a link is recorded (`K` extension).
pub open spec fn link_plan(h: Seq<u8>, p: Seq<u8>) -> (Seq<u8>, Seq<u8>, Option<TarError>) {
    field_plan(h, LINKNAME as int, p, true, 75u8)
}

/// What appending a file from disk writes: the extension entries its path and
/// link target need, then the entry with its metadata and data; and the error
/// that stops it, if any, with what was written before.
pub open spec fn fs_entry_plan(
    path: Seq<u8>,
    meta: Metadata,
    data: Seq<u8>,
    mode: HeaderMode,
    link: Option<Seq<u8>>,
) -> (Seq<u8>, Option<TarError>) {
    let np = name_plan(new_gnu_bytes(), path);
    if np.2 is Some {
        (np.1, np.2)
    } else {
        let h2 = with_metadata(np.0, meta, mode);
        match link {
            None => (np.1 + entry_bytes(with_cksum(h2), data), None),
            Some(l) => {
                let lp = link_plan(h2, l);
                if lp.2 is Some {
                    (np.1 + lp.1, lp.2)
                } else {
                    (np.1 + lp.1 + entry_bytes(with_cksum(lp.0), data), None)
                }
            },
        }
    }
}

/// What appending a file from disk under `name` writes, after its type: a
/// regular file with its contents, a directory without data, a symlink with
/// its target; any other type is refused.
pub open spec fn path_entry_plan(
    name: Seq<u8>,
    stat: Metadata,
    contents: Seq<u8>,
    link_name: Seq<u8>,
    mode: HeaderMode,
) -> (Seq<u8>, Option<TarError>) {
    if stat.spec_is_file() {
        fs_entry_plan(name, stat, contents, mode, None)
    } else if stat.spec_is_dir() {
        fs_entry_plan(name, stat, seq![], mode, None)
    } else if stat.spec_is_symlink() {
        fs_entry_plan(name, stat, seq![], mode, Some(link_name))
    } else {
        (seq![], Some(TarError::UnknownFileType))
    }
}

/// How an operation that planned to write `plan.0` and to end with the error
/// `plan.1` went, seen from the sink: on success the plan was written and had
/// no error; on failure the sink got some first bytes of the plan; a plan
/// that fails before writing anything fails with its error and leaves the
/// sink as it was; a sink that accepts every write holds the planned bytes
/// and the operation reports the planned error.
pub open spec fn outcome<W: ArchiveWrite>(
    before: W,
    after: W,
    plan: (Seq<u8>, Option<TarError>),
    r: Result<(), TarError>,
) -> bool {
    &&& r is Ok ==> plan.1 is None && after.written() == before.written() + plan.0
    &&& r is Err ==> wrote_prefix(before.written(), after.written(), plan.0)
    &&& plan.0.len() == 0 ==> match plan.1 {
        Some(e) => r == Err::<(), TarError>(e) && after.written() == before.written(),
        None => true,
    }
    &&& before.accepts_all() ==> {
        &&& after.accepts_all()
        &&& after.written() == before.written() + plan.0
        &&& match plan.1 {
            None => r is Ok,
            Some(e) => r == Err::<(), TarError>(e),
        }
    }
}

/// An entry with a 512-byte header is a whole number of 512-byte blocks.
pub proof fn law_entry_whole_blocks(header: Seq<u8>, data: Seq<u8>)
    requires
        header.len() == 512,
    ensures
        entry_bytes(header, data).len() % 512 == 0,
{
    let n = data.len();
    assert((512 + n + pad_len(n)) % 512 == 0) by {
        if n % 512 != 0 {
            assert(n + (512 - n % 512) == (n / 512 + 1) * 512);
        } else {
            assert(n == (n / 512) * 512);
        }
    }
}

pub proof fn lemma_long_link_header_len(size: nat, ty: u8)
    ensures
        long_link_header(size, ty).len() == 512,
{
    lemma_new_gnu_len();
    let h0 = splice(new_gnu_bytes(), 0, long_link_name());
    let h1 = put_octal(h0, MODE as int, 8, 0o644);
    lemma_put_octal_len(h0, MODE as int, 8, 0o644);
    let h2 = put_numeric(h1, UID as int, 8, 0);
    lemma_put_numeric_len(h1, UID as int, 8, 0);
    let h3 = put_numeric(h2, GID as int, 8, 0);
    lemma_put_numeric_len(h2, GID as int, 8, 0);
    let h4 = put_numeric(h3, MTIME as int, 12, 0);
    lemma_put_numeric_len(h3, MTIME as int, 12, 0);
    let h5 = put_numeric(h4, SIZE as int, 12, (size + 1) as u64);
    lemma_put_numeric_len(h4, SIZE as int, 12, (size + 1) as u64);
    lemma_with_cksum_len(h5.update(TYPEFLAG as int, ty));
}

/// The header of a GNU long-name entry is named `././@LongLink`, has the
/// entry type asked for, and records as its size the length of the value
/// plus one, for its nul.
pub proof fn law_long_link_header(size: nat, ty: u8)
    requires
        size + 1 < 8589934592,
    ensures
        long_link_header(size, ty).subrange(0, 13) == long_link_name(),
        long_link_header(size, ty)[TYPEFLAG as int] == ty,
        octal_value(long_link_header(size, ty).subrange(SIZE as int, SIZE + 11)) == size + 1,
{
    reveal(with_cksum);
    lemma_new_gnu_len();
    let h0 = splice(new_gnu_bytes(), 0, long_link_name());
    let h1 = put_octal(h0, MODE as int, 8, 0o644);
    lemma_put_octal_len(h0, MODE as int, 8, 0o644);
    let h2 = put_numeric(h1, UID as int, 8, 0);
    lemma_put_numeric_len(h1, UID as int, 8, 0);
    let h3 = put_numeric(h2, GID as int, 8, 0);
    lemma_put_numeric_len(h2, GID as int, 8, 0);
    let h4 = put_numeric(h3, MTIME as int, 12, 0);
    lemma_put_numeric_len(h3, MTIME as int, 12, 0);
    let h5 = put_numeric(h4, SIZE as int, 12, (size + 1) as u64);
    lemma_put_numeric_len(h4, SIZE as int, 12, (size + 1) as u64);
    let h6 = h5.update(TYPEFLAG as int, ty);
    let c = crate::header::checksum(h6);
    lemma_octal_digits_len(c, 7);
    lemma_octal_digits_len((size + 1) as nat, 11);
    lemma_octal_digits_len(0, 11);
    lemma_octal_digits_len(0, 7);
    lemma_octal_digits_len(0o644, 7);
    crate::numeric::lemma_numeric_field_len(0, 8);
    let h7 = with_cksum(h6);
    assert(h7.subrange(0, 13) =~= long_link_name());
    assert(h7.subrange(SIZE as int, SIZE + 11) =~= octal_digits((size + 1) as nat, 11));
    assert(pow8(11) == 8589934592) by {
        reveal_with_fuel(pow8, 12);
    }
    lemma_octal_roundtrip((size + 1) as nat, 11);
}

/// An entry holds at least its header block.
pub proof fn lemma_extension_len_pos(h: Seq<u8>, d: Seq<u8>)
    ensures
        entry_bytes(h, d).len() >= h.len(),
{
}

/// An extension entry holds at least its header block.
pub proof fn lemma_extension_entry_nonempty(p: Seq<u8>, ty: u8)
    ensures
        extension_entry(p, ty).len() >= 512,
{
    lemma_long_link_header_len(p.len(), ty);
}

/// The header block of an entry written for a file from disk, found where it
/// stands: after the extension entries, which are whole blocks, and before the
/// data and the padding. Its checksum field reads back as the checksum of the
/// block as written, link name included; in `Deterministic` mode its owner and
/// group read back as 0 and its time as the fixed one, in `Complete` mode as
/// the file's; and a long name without slashes or nul bytes, which goes into a
/// long-name entry, leaves its first 100 bytes in the name field.
pub proof fn law_fs_entry_header(
    path: Seq<u8>,
    meta: Metadata,
    data: Seq<u8>,
    mode: HeaderMode,
    link: Option<Seq<u8>>,
)
    requires
        fs_entry_plan(path, meta, data, mode, link).1 is None,
    ensures
        ({
            let out = fs_entry_plan(path, meta, data, mode, link).0;
            let k = out.len() - (512 + data.len() + pad_len(data.len()));
            let h = out.subrange(k, k + 512);
            &&& 0 <= k
            &&& k % 512 == 0
            &&& out.subrange(k + 512, out.len() as int) == data + zeros(pad_len(data.len()))
            &&& octal_value(h.subrange(CKSUM as int, CKSUM + 7)) == checksum(h)
            &&& mode == HeaderMode::Deterministic ==> {
                &&& numeric_value(h.subrange(108, 116)) == 0
                &&& numeric_value(h.subrange(116, 124)) == 0
                &&& numeric_value(h.subrange(136, 148)) == DETERMINISTIC_TIMESTAMP
            }
            &&& mode == HeaderMode::Complete ==> {
                &&& numeric_value(h.subrange(136, 148)) == meta.mtime
                &&& meta.uid < 0x8000_0000_0000_0000 ==> numeric_value(h.subrange(108, 116))
                    == meta.uid
                &&& meta.gid < 0x8000_0000_0000_0000 ==> numeric_value(h.subrange(116, 124))
                    == meta.gid
            }
            &&& (path.len() > 100 && forall|i: int|
                0 <= i < path.len() ==> path[i] != 47u8 && path[i] != 0u8) ==> h.subrange(0, 100)
                == path.take(100)
        }),
{
    lemma_new_gnu_len();
    let np = name_plan(new_gnu_bytes(), path);
    lemma_field_plan_blocks(new_gnu_bytes(), NAME as int, path, false, 76u8);
    let hm = with_metadata(np.0, meta, mode);
    law_metadata_fields(np.0, meta, mode);
    let (pre, hx) = match link {
        None => (np.1, hm),
        Some(l) => {
            let lp = link_plan(hm, l);
            lemma_field_plan_blocks(hm, LINKNAME as int, l, true, 75u8);
            (np.1 + lp.1, lp.0)
        },
    };
    assert(kept_fields(hx) == kept_fields(hm)) by {
        if let Some(l) = link {
            reveal(field_plan);
            let first = path_copy(l, NAME_LEN as nat, true);
            lemma_path_copy_fits(l, NAME_LEN as nat, true);
            if first.0.len() > 0 && first.0.len() < NAME_LEN {
                lemma_keeps_fields(hm, LINKNAME as int, first.0.push(0u8));
            } else if first.0.len() > 0 {
                lemma_keeps_fields(hm, LINKNAME as int, first.0);
            }
        }
    }
    assert(pre.len() % 512 == 0) by {
        if let Some(l) = link {
            lemma_blocks_concat(np.1.len(), link_plan(hm, l).1.len());
        }
    }
    let h = with_cksum(hx);
    assert(kept_fields(h) == kept_fields(hx)) by {
        reveal(with_cksum);
        lemma_octal_digits_len(checksum(hx), 7);
        lemma_keeps_fields(hx, CKSUM as int, octal_digits(checksum(hx), 7));
    }
    lemma_with_cksum_len(hx);
    lemma_cksum_reads_back(hx);
    let out = fs_entry_plan(path, meta, data, mode, link).0;
    assert(out =~= pre + h + (data + zeros(pad_len(data.len()))));
    let k = pre.len() as int;
    assert(out.subrange(k, k + 512) =~= h);
    assert(out.subrange(k + 512, out.len() as int) =~= data + zeros(pad_len(data.len())));
    assert(h.subrange(108, 116) == hm.subrange(108, 116));
    assert(h.subrange(116, 124) == hm.subrange(116, 124));
    assert(h.subrange(136, 148) == hm.subrange(136, 148));
    assert(h.subrange(0, 100) == hm.subrange(0, 100));
    if path.len() > 100 && forall|i: int|
        0 <= i < path.len() ==> path[i] != 47u8 && path[i] != 0u8 {
        reveal(field_plan);
        law_plain_name_copy(path, NAME_LEN as nat);
        let q = path.take(NAME_LEN as int);
        law_plain_name_copy(q, NAME_LEN as nat);
        assert(field_after_copy(new_gnu_bytes(), 0, NAME_LEN as nat, Seq::<u8>::empty())
            == new_gnu_bytes());
        lemma_splice_frame(new_gnu_bytes(), 0, q, 0, 100);
        assert(np.0 == splice(new_gnu_bytes(), 0, q));
    }
}

/// How a value is recorded leaves a 512-byte header and writes whole blocks.
pub proof fn lemma_field_plan_blocks(h: Seq<u8>, start: int, p: Seq<u8>, is_link: bool, ty: u8)
    requires
        h.len() == 512,
        0 <= start,
        start + NAME_LEN <= 512,
    ensures
        field_plan(h, start, p, is_link, ty).0.len() == 512,
        field_plan(h, start, p, is_link, ty).1.len() % 512 == 0,
{
    reveal(field_plan);
    let first = path_copy(p, NAME_LEN as nat, is_link);
    lemma_path_copy_fits(p, NAME_LEN as nat, is_link);
    lemma_field_after_copy_len(h, start, NAME_LEN as nat, first.0);
    let h1 = field_after_copy(h, start, NAME_LEN as nat, first.0);
    let second = path_copy(p.take(NAME_LEN as int), NAME_LEN as nat, is_link);
    lemma_path_copy_fits(p.take(NAME_LEN as int), NAME_LEN as nat, is_link);
    lemma_field_after_copy_len(h1, start, NAME_LEN as nat, second.0);
    lemma_long_link_header_len(p.len(), ty);
    law_entry_whole_blocks(long_link_header(p.len(), ty), p.push(0u8));
}

/// Everything written for a file from disk, extension entries included, is
/// a whole number of 512-byte blocks, also what was written before an error:
/// an archive that was whole blocks stays whole blocks.
pub proof fn law_fs_entry_whole_blocks(
    path: Seq<u8>,
    meta: Metadata,
    data: Seq<u8>,
    mode: HeaderMode,
    link: Option<Seq<u8>>,
)
    ensures
        fs_entry_plan(path, meta, data, mode, link).0.len() % 512 == 0,
{
    lemma_new_gnu_len();
    let np = name_plan(new_gnu_bytes(), path);
    lemma_field_plan_blocks(new_gnu_bytes(), NAME as int, path, false, 76u8);
    if np.2 is None {
        let h2 = with_metadata(np.0, meta, mode);
        lemma_with_metadata_len(np.0, meta, mode);
        match link {
            None => {
                lemma_with_cksum_len(h2);
                law_entry_whole_blocks(with_cksum(h2), data);
                lemma_blocks_concat(np.1.len(), entry_bytes(with_cksum(h2), data).len());
            },
            Some(l) => {
                lemma_field_plan_blocks(h2, LINKNAME as int, l, true, 75u8);
                let lp = link_plan(h2, l);
                lemma_blocks_concat(np.1.len(), lp.1.len());
                if lp.2 is None {
                    lemma_with_cksum_len(lp.0);
                    law_entry_whole_blocks(with_cksum(lp.0), data);
                    lemma_blocks_concat(
                        np.1.len() + lp.1.len(),
                        entry_bytes(with_cksum(lp.0), data).len(),
                    );
                }
            },
        }
    }
}

proof fn lemma_blocks_concat(a: nat, b: nat)
    requires
        a % 512 == 0,
        b % 512 == 0,
    ensures
        (a + b) % 512 == 0,
{
    assert(a == (a / 512) * 512);
    assert(b == (b / 512) * 512);
    assert(a + b == (a / 512 + b / 512) * 512);
}

/// Everything written for a path on disk, whatever its type, is a whole
/// number of 512-byte blocks.
pub proof fn law_path_entry_whole_blocks(
    name: Seq<u8>,
    stat: Metadata,
    contents: Seq<u8>,
    link_name: Seq<u8>,
    mode: HeaderMode,
)
    ensures
        path_entry_plan(name, stat, contents, link_name, mode).0.len() % 512 == 0,
{
    law_fs_entry_whole_blocks(name, stat, contents, mode, None);
    law_fs_entry_whole_blocks(name, stat, seq![], mode, None);
    law_fs_entry_whole_blocks(name, stat, seq![], mode, Some(link_name));
}

/// `n` zero bytes.
pub(crate) fn zero_bytes(n: usize) -> (r: Vec<u8>)
    ensures
        r@ == zeros(n as nat),
{
    let mut v: Vec<u8> = Vec::new();
    let mut i: usize = 0;
    while i < n
        invariant
            i <= n,
            v@ == zeros(i as nat),
        decreases n - i,
    {
        v.push(0u8);
        i = i + 1;
        assert(v@ =~= zeros(i as nat));
    }
    v
}

/// Writes an entry: the header block, the data, and zeros up to the next block.
fn append<W: ArchiveWrite>(dst: &mut W, header: &Header, data: &[u8]) -> (r: Result<(), TarError>)
    ensures
        r is Ok ==> final(dst).written() == old(dst).written() + entry_bytes(header@, data@),
        old(dst).accepts_all() ==> r is Ok && final(dst).accepts_all(),
        r is Err ==> wrote_prefix(old(dst).written(), final(dst).written(), entry_bytes(header@, data@)),
{
    let ghost w0 = dst.written();
    let ghost pad_bytes = zeros(pad_len(data@.len()));
    assert(entry_bytes(header@, data@) =~= header@ + (data@ + pad_bytes));
    let block = header.as_bytes();
    let r1 = dst.write_all(block.as_slice());
    if r1.is_err() {
        proof {
            lemma_wrote_prefix_extend(w0, dst.written(), header@, data@ + pad_bytes);
        }
        return r1;
    }
    let ghost w1 = dst.written();
    let r2 = dst.write_all(data);
    if r2.is_err() {
        proof {
            lemma_wrote_prefix_extend(w1, dst.written(), data@, pad_bytes);
            lemma_wrote_prefix_after(w0, w1, dst.written(), header@, data@ + pad_bytes);
        }
        return r2;
    }
    let ghost w2 = dst.written();
    let len = data.len() as u64;
    let remaining = 512 - (len % 512);
    if remaining < 512 {
        let pad = zero_bytes(remaining as usize);
        let r3 = dst.write_all(pad.as_slice());
        if r3.is_err() {
            proof {
                assert(w2 =~= w0 + (header@ + data@));
                lemma_wrote_prefix_after(w0, w2, dst.written(), header@ + data@, pad_bytes);
                assert(header@ + data@ + pad_bytes =~= entry_bytes(header@, data@));
            }
            return r3;
        }
        assert(dst.written() =~= old(dst).written() + entry_bytes(header@, data@));
    } else {
        assert(dst.written() =~= old(dst).written() + entry_bytes(header@, data@));
    }
    Ok(())
}

/// The header of a GNU long-name entry of type `entry_type` for a value of
/// `size` bytes.
pub(crate) fn prepare_header(size: u64, entry_type: u8) -> (h: Header)
    requires
        size < u64::MAX,
    ensures
        h@ == long_link_header(size as nat, entry_type),
{
    let mut header = Header::new_gnu();
    let name: [u8; 13] = [46u8, 47u8, 46u8, 47u8, 64u8, 76u8, 111u8, 110u8, 103u8, 76u8, 105u8, 110u8, 107u8];
    assert(name@ =~= long_link_name());
    header.set_name_raw(name.as_slice());
    header.set_mode(0o644);
    header.set_uid(0);
    header.set_gid(0);
    header.set_mtime(0);
    header.set_size(size + 1);
    header.set_entry_type(EntryType::new(entry_type));
    header.set_cksum();
    header
}

/// The first `n` bytes of `p`.
pub(crate) fn prefix_of(p: &[u8], n: usize) -> (r: Vec<u8>)
    requires
        n <= p@.len(),
    ensures
        r@ == p@.take(n as int),
{
    let mut v: Vec<u8> = Vec::new();
    let mut i: usize = 0;
    while i < n
        invariant
            i <= n <= p@.len(),
            v@ == p@.take(i as int),
        decreases n - i,
    {
        v.push(p[i]);
        i = i + 1;
        assert(v@ =~= p@.take(i as int));
    }
    v
}

/// `p` followed by a nul byte.
fn nul_terminated(p: &[u8]) -> (r: Vec<u8>)
    ensures
        r@ == p@.push(0u8),
{
    let mut v = prefix_of(p, p.len());
    assert(p@.take(p@.len() as int) =~= p@);
    v.push(0u8);
    v
}

/// Records `path` in the name field of `header`; a path too long for it goes
/// first into a GNU long-name entry written to `dst`, and the field keeps
/// its first 100 bytes.
fn prepare_header_path<W: ArchiveWrite>(dst: &mut W, header: &mut Header, path: &[u8]) -> (r: Result<
    (),
    TarError,
>)
    requires
        path@.len() < u64::MAX,
    ensures
        ({
            let plan = name_plan(old(header)@, path@);
            &&& r is Ok ==> plan.2 is None && final(header)@ == plan.0 && final(dst).written()
                == old(dst).written() + plan.1
            &&& old(dst).accepts_all() ==> {
                &&& final(dst).accepts_all()
                &&& final(header)@ == plan.0
                &&& final(dst).written() == old(dst).written() + plan.1
                &&& match plan.2 {
                    None => r is Ok,
                    Some(e) => r == Err::<(), TarError>(e),
                }
            }
            &&& r is Err ==> wrote_prefix(old(dst).written(), final(dst).written(), plan.1)
            &&& plan.1.len() == 0 ==> {
                &&& final(dst).written() == old(dst).written()
                &&& final(header)@ == plan.0
                &&& match plan.2 {
                    None => r is Ok,
                    Some(e) => r == Err::<(), TarError>(e),
                }
            }
        }),
{
    reveal(field_plan);
    match header.set_path(path) {
        Ok(()) => Ok(()),
        Err(e) => {
            if path.len() < NAME_LEN {
                proof {
                    lemma_wrote_prefix_none(dst.written(), seq![]);
                }
                return Err(e);
            }
            let header2 = prepare_header(path.len() as u64, 76u8);
            let data2 = nul_terminated(path);
            proof {
                lemma_extension_entry_nonempty(path@, 76u8);
            }
            let ghost w0 = dst.written();
            assert(entry_bytes(header2@, data2@) == extension_entry(path@, 76u8));
            append(dst, &header2, data2.as_slice())?;
            let truncated = prefix_of(path, NAME_LEN);
            let r2 = header.set_path(truncated.as_slice());
            proof {
                lemma_wrote_prefix_full(w0, extension_entry(path@, 76u8));
            }
            r2
        },
    }
}

/// Records `link_name` in the link name field of `header`; a target too long
/// for it goes first into a GNU long-link entry written to `dst`, and the
/// field keeps what the failed copy left in it.
fn prepare_header_link<W: ArchiveWrite>(dst: &mut W, header: &mut Header, link_name: &[u8]) -> (r:
    Result<(), TarError>)
    requires
        link_name@.len() < u64::MAX,
    ensures
        ({
            let plan = link_plan(old(header)@, link_name@);
            &&& r is Ok ==> plan.2 is None && final(header)@ == plan.0 && final(dst).written()
                == old(dst).written() + plan.1
            &&& old(dst).accepts_all() ==> {
                &&& final(dst).accepts_all()
                &&& final(header)@ == plan.0
                &&& final(dst).written() == old(dst).written() + plan.1
                &&& match plan.2 {
                    None => r is Ok,
                    Some(e) => r == Err::<(), TarError>(e),
                }
            }
            &&& r is Err ==> wrote_prefix(old(dst).written(), final(dst).written(), plan.1)
            &&& plan.1.len() == 0 ==> {
                &&& final(dst).written() == old(dst).written()
                &&& final(header)@ == plan.0
                &&& match plan.2 {
                    None => r is Ok,
                    Some(e) => r == Err::<(), TarError>(e),
                }
            }
        }),
{
    reveal(field_plan);
    match header.set_link_name(link_name) {
        Ok(()) => Ok(()),
        Err(e) => {
            if link_name.len() < NAME_LEN {
                proof {
                    lemma_wrote_prefix_none(dst.written(), seq![]);
                }
                return Err(e);
            }
            let header2 = prepare_header(link_name.len() as u64, 75u8);
            let data2 = nul_terminated(link_name);
            proof {
                lemma_extension_entry_nonempty(link_name@, 75u8);
            }
            assert(entry_bytes(header2@, data2@) == extension_entry(link_name@, 75u8));
            append(dst, &header2, data2.as_slice())

        },
    }
}

/// The optional link target as bytes.
pub open spec fn opt_bytes(o: Option<&[u8]>) -> Option<Seq<u8>> {
    match o {
        Some(l) => Some(l@),
        None => None,
    }
}

/// Writes the entry of a file from disk: its path (with a long-name entry
/// where needed), its metadata as `mode` asks, its link target where it is a
/// link, its checksum, then its data.
fn append_fs<W: ArchiveWrite>(
    dst: &mut W,
    path: &[u8],
    meta: &Metadata,
    data: &[u8],
    mode: HeaderMode,
    link_name: Option<&[u8]>,
) -> (r: Result<(), TarError>)
    requires
        path@.len() < u64::MAX,
        link_name matches Some(l) ==> l@.len() < u64::MAX,
    ensures
        outcome(*old(dst), *final(dst), fs_entry_plan(path@, *meta, data@, mode, opt_bytes(link_name)), r),
{
    let ghost w0 = dst.written();
    let ghost np = name_plan(new_gnu_bytes(), path@);
    let ghost plan = fs_entry_plan(path@, *meta, data@, mode, opt_bytes(link_name));
    let mut header = Header::new_gnu();
    let r1 = prepare_header_path(dst, &mut header, path);
    if r1.is_err() {
        proof {
            if np.2 is None {
                lemma_wrote_prefix_extend(w0, dst.written(), np.1, plan.0.skip(np.1.len() as int));
                assert(np.1 + plan.0.skip(np.1.len() as int) =~= plan.0);
            }
        }
        return r1;
    }
    let ghost w1 = dst.written();
    header.set_metadata_in_mode(meta, mode);
    let ghost h2 = header@;
    match link_name {
        Some(l) => {
            let lr = prepare_header_link(dst, &mut header, l);
            if lr.is_err() {
                proof {
                    let lp = link_plan(h2, l@);
                    let tail = plan.0.skip((np.1.len() + lp.1.len()) as int);
                    lemma_wrote_prefix_extend(w1, dst.written(), lp.1, tail);
                    lemma_wrote_prefix_after(w0, w1, dst.written(), np.1, lp.1 + tail);
                    assert(np.1 + (lp.1 + tail) =~= plan.0);
                    if plan.0.len() == 0 {
                        assert(lp.1.len() == 0);
                    }
                    if old(dst).accepts_all() {
                        assert(dst.written() =~= w0 + plan.0);
                    }
                }
                return lr;
            }
        },
        None => {},
    }
    let ghost w2 = dst.written();
    let ghost pre = w2.skip(w0.len() as int);
    proof {
        assert(w2 =~= w0 + pre);
        assert(plan.0 =~= pre + plan.0.skip(pre.len() as int));
    }
    header.set_cksum();
    let r = append(dst, &header, data);
    proof {
        let ent = entry_bytes(header@, data@);
        assert(plan.0.skip(pre.len() as int) =~= ent);
        if r is Err {
            lemma_wrote_prefix_after(w0, w2, dst.written(), pre, ent);
        }
        if r is Ok || old(dst).accepts_all() {
            assert(dst.written() =~= old(dst).written() + plan.0);
        }
        lemma_extension_len_pos(header@, data@);
    }
    r
}

/// A builder of an archive, written into the sink `W`.
pub struct Builder<W: ArchiveWrite> {
    mode: HeaderMode,
    follow: bool,
    finished: bool,
    obj: W,
}

impl<W: ArchiveWrite> Builder<W> {
    /// How much metadata entries read from disk record.
    pub closed spec fn header_mode(&self) -> HeaderMode {
        self.mode
    }

    /// Whether symlinks on disk are archived as what they point to.
    pub closed spec fn follows(&self) -> bool {
        self.follow
    }

    /// Whether the end-of-archive marker has been written.
    pub closed spec fn is_finished(&self) -> bool {
        self.finished
    }

    /// The sink the archive is written to.
    pub closed spec fn sink(&self) -> W {
        self.obj
    }

    /// Whether `other` has the same mode, symlink setting and finished state.
    pub open spec fn same_settings(&self, other: &Self) -> bool {
        &&& self.header_mode() == other.header_mode()
        &&& self.follows() == other.follows()
        &&& self.is_finished() == other.is_finished()
    }

    /// A builder that writes into `obj`, recording complete metadata and
    /// following symlinks.
    pub fn new(obj: W) -> (b: Builder<W>)
        ensures
            b.header_mode() == HeaderMode::Complete,
            b.follows(),
            !b.is_finished(),
            b.sink() == obj,
    {
        Builder { mode: HeaderMode::Complete, follow: true, finished: false, obj }
    }

    /// Sets how much metadata entries read from disk record; headers given to
    /// `append` are written as they are.
    pub fn mode(&mut self, mode: HeaderMode)
        ensures
            final(self).header_mode() == mode,
            final(self).follows() == old(self).follows(),
            final(self).is_finished() == old(self).is_finished(),
            final(self).sink() == old(self).sink(),
    {
        self.mode = mode;
    }

    /// Sets whether symlinks on disk are archived as the files they point to
    /// (the default) rather than as links.
    pub fn follow_symlinks(&mut self, follow: bool)
        ensures
            final(self).follows() == follow,
            final(self).header_mode() == old(self).header_mode(),
            final(self).is_finished() == old(self).is_finished(),
            final(self).sink() == old(self).sink(),
    {
        self.follow = follow;
    }

    /// Whether symlinks on disk are archived as the files they point to.
    pub fn follows_symlinks(&self) -> (r: bool)
        ensures
            r == self.follows(),
    {
        self.follow
    }

    /// The sink the archive is written to.
    pub fn get_ref(&self) -> (r: &W)
        ensures
            *r == self.sink(),
    {
        &self.obj
    }

    /// The sink the archive is written to, to write to or flush directly.
    pub fn get_mut(&mut self) -> (r: &mut W)
        ensures
            *r == old(self).sink(),
            final(self).sink() == *final(r),
            final(self).same_settings(old(self)),
    {
        &mut self.obj
    }

    /// The sink, after the end-of-archive marker where it was not yet written.
    pub fn into_inner(self) -> (r: Result<W, TarError>)
        ensures
            self.is_finished() ==> r == Ok::<W, TarError>(self.sink()),
            !self.is_finished() ==> (r matches Ok(w) ==> w.written() == self.sink().written()
                + zeros(1024)),
            !self.is_finished() && self.sink().accepts_all() ==> r is Ok,
            !self.is_finished() ==> match self.sink().refusal(zeros(1024)) {
                None => r is Ok,
                Some(e) => r == Err::<W, TarError>(e),
            },
    {
        let mut this = self;
        if !this.finished {
            this.finish()?;
        }
        Ok(this.obj)
    }

    /// Appends an entry: the header as given, the data, and zeros up to the
    /// next block. The header's size should be the length of the data and its
    /// checksum set.
    pub fn append(&mut self, header: &Header, data: &[u8]) -> (r: Result<(), TarError>)
        ensures
            final(self).same_settings(old(self)),
            outcome(old(self).sink(), final(self).sink(), (entry_bytes(header@, data@), None), r),
    {
        append(&mut self.obj, header, data)
    }

    /// Appends an entry with the given path: the path is set in the header
    /// (with a GNU long-name entry first where it is too long), its checksum
    /// updated, and then the header and data appended. No other field of the
    /// header changes.
    pub fn append_data(&mut self, header: &mut Header, path: &[u8], data: &[u8]) -> (r: Result<
        (),
        TarError,
    >)
        requires
            path@.len() < u64::MAX,
        ensures
            ({
                let plan = name_plan(old(header)@, path@);
                &&& final(self).same_settings(old(self))
                &&& outcome(
                    old(self).sink(),
                    final(self).sink(),
                    if plan.2 is Some {
                        (plan.1, plan.2)
                    } else {
                        (plan.1 + entry_bytes(with_cksum(plan.0), data@), None)
                    },
                    r,
                )
                &&& r is Ok ==> final(header)@ == with_cksum(plan.0)
                &&& old(self).sink().accepts_all() && plan.2 is Some ==> final(header)@ == plan.0
            }),
    {
        let ghost w0 = self.obj.written();
        let ghost plan = name_plan(old(header)@, path@);
        let r1 = prepare_header_path(&mut self.obj, header, path);
        if r1.is_err() {
            proof {
                if plan.2 is None {
                    lemma_wrote_prefix_extend(
                        w0,
                        self.obj.written(),
                        plan.1,
                        entry_bytes(with_cksum(plan.0), data@),
                    );
                }
            }
            return r1;
        }
        let ghost w1 = self.obj.written();
        header.set_cksum();
        let r = append(&mut self.obj, header, data);
        proof {
            if r is Err {
                lemma_wrote_prefix_after(
                    w0,
                    w1,
                    self.obj.written(),
                    plan.1,
                    entry_bytes(with_cksum(plan.0), data@),
                );
            }
            if r is Ok || old(self).sink().accepts_all() {
                assert(self.obj.written() =~= old(self).sink().written() + (plan.1 + entry_bytes(
                    with_cksum(plan.0),
                    data@,
                )));
            }
        }
        r
    }

    /// Appends the file `path` read from disk, under its own name: `stat` is
    /// its metadata (of the link itself where symlinks are not followed),
    /// `contents` its data where it is a regular file, `link_name` its target
    /// where it is a symlink.
    pub fn append_path(
        &mut self,
        path: &[u8],
        stat: &Metadata,
        contents: &[u8],
        link_name: &[u8],
    ) -> (r: Result<(), TarError>)
        requires
            path@.len() < u64::MAX,
            link_name@.len() < u64::MAX,
        ensures
            final(self).same_settings(old(self)),
            outcome(
                old(self).sink(),
                final(self).sink(),
                path_entry_plan(path@, *stat, contents@, link_name@, old(self).header_mode()),
                r,
            ),
    {
        self.append_path_with_name(path, stat, contents, link_name)
    }

    /// Appends a file read from disk under the name `name`: `stat` is its
    /// metadata, `contents` its data where it is a regular file, `link_name`
    /// its target where it is a symlink. A directory is appended as an entry of
    /// its own, without what it holds.
    pub fn append_path_with_name(
        &mut self,
        name: &[u8],
        stat: &Metadata,
        contents: &[u8],
        link_name: &[u8],
    ) -> (r: Result<(), TarError>)
        requires
            name@.len() < u64::MAX,
            link_name@.len() < u64::MAX,
        ensures
            final(self).same_settings(old(self)),
            outcome(
                old(self).sink(),
                final(self).sink(),
                path_entry_plan(name@, *stat, contents@, link_name@, old(self).header_mode()),
                r,
            ),
    {
        let mode = self.mode;
        if stat.is_file() {
            append_fs(&mut self.obj, name, stat, contents, mode, None)
        } else if stat.is_dir() {
            let empty: [u8; 0] = [];
            assert(empty@ =~= Seq::<u8>::empty());
            append_fs(&mut self.obj, name, stat, empty.as_slice(), mode, None)
        } else if stat.is_symlink() {
            let empty: [u8; 0] = [];
            assert(empty@ =~= Seq::<u8>::empty());
            append_fs(&mut self.obj, name, stat, empty.as_slice(), mode, Some(link_name))
        } else {
            proof {
                lemma_wrote_prefix_none(self.obj.written(), seq![]);
            }
            Err(TarError::UnknownFileType)
        }
    }

    /// Appends a file under the name `path`, with the metadata `stat` and the
    /// data `contents` read from it.
    pub fn append_file(&mut self, path: &[u8], stat: &Metadata, contents: &[u8]) -> (r: Result<
        (),
        TarError,
    >)
        requires
            path@.len() < u64::MAX,
        ensures
            final(self).same_settings(old(self)),
            outcome(
                old(self).sink(),
                final(self).sink(),
                fs_entry_plan(path@, *stat, contents@, old(self).header_mode(), None),
                r,
            ),
    {
        let mode = self.mode;
        append_fs(&mut self.obj, path, stat, contents, mode, None)
    }

    /// Appends a directory under the name `path`, with the metadata `stat` of
    /// the directory on disk; what it holds is not appended.
    pub fn append_dir(&mut self, path: &[u8], stat: &Metadata) -> (r: Result<(), TarError>)
        requires
            path@.len() < u64::MAX,
        ensures
            final(self).same_settings(old(self)),
            outcome(
                old(self).sink(),
                final(self).sink(),
                fs_entry_plan(path@, *stat, seq![], old(self).header_mode(), None),
                r,
            ),
    {
        let mode = self.mode;
        let empty: [u8; 0] = [];
        assert(empty@ =~= Seq::<u8>::empty());
        append_fs(&mut self.obj, path, stat, empty.as_slice(), mode, None)
    }

    /// Starts adding the directory `src_path` and all it holds, named `path`
    /// and below in the archive: the walk says, path by path, what to read
    /// from disk and how to append it, with this builder's symlink setting.
    pub fn append_dir_all(&self, path: &[u8], src_path: &[u8]) -> (w: DirWalk)
        ensures
            w.root_name() == path@,
            w.source_root() == src_path@,
            w.wf(),
            w.follows() == self.follows(),
            w.pending().len() == 1,
            w.pending()[0].src@ == src_path@,
            w.pending()[0].rel@ == Seq::<u8>::empty(),
            w.pending()[0].is_dir,
            !w.pending()[0].is_symlink,
            w.awaiting() is None,
    {
        DirWalk::new(path, src_path, self.follow)
    }

    /// Writes the end-of-archive marker, two blocks of zeros, unless it was
    /// already written: a second call writes nothing.
    pub fn finish(&mut self) -> (r: Result<(), TarError>)
        ensures
            old(self).is_finished() ==> r is Ok && *final(self) == *old(self),
            !old(self).is_finished() ==> {
                &&& final(self).is_finished()
                &&& final(self).header_mode() == old(self).header_mode()
                &&& final(self).follows() == old(self).follows()
                &&& outcome(old(self).sink(), final(self).sink(), (zeros(1024), None), r)
                &&& r == match old(self).sink().refusal(zeros(1024)) {
                    None => Ok::<(), TarError>(()),
                    Some(e) => Err::<(), TarError>(e),
                }
            },
    {
        if self.finished {
            return Ok(());
        }
        self.finished = true;
        let marker = zero_bytes(1024);
        self.obj.write_all(marker.as_slice())
    }
}

} // verus!
