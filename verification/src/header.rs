//! The 512-byte header block of a tar entry, in the GNU layout.
use vstd::prelude::*;
use crate::error::TarError;
use crate::numeric::{
    splice,
    numeric_field,
    octal_digits,
    octal_value,
    write_numeric,
    write_octal,
    lemma_octal_digits_len,
    lemma_octal_roundtrip,
    pow8,
    numeric_value,
    lemma_splice_frame,
    lemma_numeric_field_len,
    law_numeric_reads_back,
};
use crate::path::{copy_path_into, path_copy, field_after_copy};

verus! {

/// Offset of the name field (100 bytes).
pub const NAME: usize = 0;

/// Offset of the permission bits field (8 bytes).
pub const MODE: usize = 100;

/// Offset of the owner id field (8 bytes).
pub const UID: usize = 108;

/// Offset of the group id field (8 bytes).
pub const GID: usize = 116;

/// Offset of the size field (12 bytes).
pub const SIZE: usize = 124;

/// Offset of the modification time field (12 bytes).
pub const MTIME: usize = 136;

/// Offset of the checksum field (8 bytes).
pub const CKSUM: usize = 148;

/// Offset of the entry type byte.
pub const TYPEFLAG: usize = 156;

/// Offset of the link name field (100 bytes).
pub const LINKNAME: usize = 157;

/// Offset of the device major number field of a GNU header (8 bytes).
pub const DEV_MAJOR: usize = 329;

/// Offset of the device minor number field of a GNU header (8 bytes).
pub const DEV_MINOR: usize = 337;

/// Length of the name and of the link name fields.
pub const NAME_LEN: usize = 100;

/// The modification time that `HeaderMode::Deterministic` records.
pub const DETERMINISTIC_TIMESTAMP: u64 = 1153704088;

/// How much of a file's metadata a header records.
#[derive(Clone, Copy, Debug, PartialEq, Eq)]
pub enum HeaderMode {
    /// All the metadata: times, owner, group and permissions as on disk.
    Complete,
    /// Only what keeps archives reproducible: a fixed time, owner and group 0,
    /// and permissions 0o755 or 0o644 after the user's execute bit.
    Deterministic,
}

/// The type byte of an entry.
#[derive(Clone, Copy, Debug, PartialEq, Eq)]
pub struct EntryType {
    pub byte: u8,
}

impl EntryType {
    /// The entry type written as `byte`.
    pub fn new(byte: u8) -> (r: EntryType)
        ensures
            r.byte == byte,
    {
        EntryType { byte }
    }

    /// The byte that this entry type is written as.
    pub fn as_byte(&self) -> (r: u8)
        ensures
            r == self.byte,
    {
        self.byte
    }
}

/// What a header records of a file on disk: its mode with the file type bits,
/// owner, group, modification time and length.
#[derive(Clone, Copy, Debug, PartialEq, Eq)]
pub struct Metadata {
    pub mode: u32,
    pub uid: u64,
    pub gid: u64,
    pub mtime: u64,
    pub len: u64,
}

/// The file type bits of a mode (what `S_IFMT` masks), shifted down.
pub open spec fn file_type_bits(mode: u32) -> u32 {
    ((mode / 4096) % 16) as u32
}

impl Metadata {
    pub open spec fn spec_is_dir(&self) -> bool {
        file_type_bits(self.mode) == 4
    }

    pub open spec fn spec_is_file(&self) -> bool {
        file_type_bits(self.mode) == 8
    }

    pub open spec fn spec_is_symlink(&self) -> bool {
        file_type_bits(self.mode) == 10
    }

    /// Whether the file is a directory.
    #[verifier::when_used_as_spec(spec_is_dir)]
    pub fn is_dir(&self) -> (r: bool)
        ensures
            r == self.spec_is_dir(),
    {
        (self.mode / 4096) % 16 == 4
    }

    /// Whether the file is a regular file.
    #[verifier::when_used_as_spec(spec_is_file)]
    pub fn is_file(&self) -> (r: bool)
        ensures
            r == self.spec_is_file(),
    {
        (self.mode / 4096) % 16 == 8
    }

    /// Whether the file is a symbolic link.
    #[verifier::when_used_as_spec(spec_is_symlink)]
    pub fn is_symlink(&self) -> (r: bool)
        ensures
            r == self.spec_is_symlink(),
    {
        (self.mode / 4096) % 16 == 10
    }
}

/// The entry type byte for a file of the given mode: `0` regular file, `2`
/// symlink, `3` character device, `4` block device, `5` directory, `6` fifo,
/// and a space for anything else.
pub open spec fn entry_type_byte(mode: u32) -> u8 {
    let t = file_type_bits(mode);
    if t == 8 {
        48u8
    } else if t == 10 {
        50u8
    } else if t == 2 {
        51u8
    } else if t == 6 {
        52u8
    } else if t == 4 {
        53u8
    } else if t == 1 {
        54u8
    } else {
        32u8
    }
}

/// `h` with `v` written into the numeric field of `len` bytes at `start`.
pub open spec fn put_numeric(h: Seq<u8>, start: int, len: nat, v: u64) -> Seq<u8> {
    splice(h, start, numeric_field(v, len))
}

/// `h` with `v` written in octal into the field of `len` bytes at `start`; the
/// last byte of the field is left as it was.
pub open spec fn put_octal(h: Seq<u8>, start: int, len: nat, v: nat) -> Seq<u8> {
    splice(h, start, octal_digits(v, (len - 1) as nat))
}

/// Zeros with the GNU magic `ustar ` and version ` \0`.
pub open spec fn gnu_template() -> Seq<u8> {
    Seq::new(
        512,
        |i: int|
            if i == 257 {
                117u8
            } else if i == 258 {
                115u8
            } else if i == 259 {
                116u8
            } else if i == 260 {
                97u8
            } else if i == 261 {
                114u8
            } else if i == 262 || i == 263 {
                32u8
            } else {
                0u8
            },
    )
}

/// A fresh GNU header: the template with a modification time of zero.
pub open spec fn new_gnu_bytes() -> Seq<u8> {
    put_numeric(gnu_template(), MTIME as int, 12, 0)
}

/// The byte at `i` as the checksum counts it: the checksum field counts as
/// spaces.
pub open spec fn cksum_byte(h: Seq<u8>, i: int) -> nat {
    if CKSUM <= i < CKSUM + 8 {
        32
    } else {
        h[i] as nat
    }
}

/// The sum of the first `n` bytes as the checksum counts them.
pub open spec fn cksum_prefix(h: Seq<u8>, n: nat) -> nat
    decreases n,
{
    if n == 0 {
        0
    } else {
        cksum_prefix(h, (n - 1) as nat) + cksum_byte(h, n - 1)
    }
}

/// The checksum of a header: the sum of its bytes, the checksum field counted
/// as eight spaces.
pub open spec fn checksum(h: Seq<u8>) -> nat {
    cksum_prefix(h, 512)
}

/// `h` with its checksum written in octal into the checksum field.
#[verifier::opaque]
pub open spec fn with_cksum(h: Seq<u8>) -> Seq<u8> {
    put_octal(h, CKSUM as int, 8, checksum(h))
}

/// `h` with the metadata of a file written in, as `mode` asks.
#[verifier::opaque]
pub open spec fn with_metadata(h: Seq<u8>, meta: Metadata, mode: HeaderMode) -> Seq<u8> {
    let h1 = match mode {
        HeaderMode::Complete => put_octal(
            put_numeric(
                put_numeric(put_numeric(h, MTIME as int, 12, meta.mtime), UID as int, 8, meta.uid),
                GID as int,
                8,
                meta.gid,
            ),
            MODE as int,
            8,
            meta.mode as nat,
        ),
        HeaderMode::Deterministic => put_octal(
            put_numeric(
                put_numeric(
                    put_numeric(h, MTIME as int, 12, DETERMINISTIC_TIMESTAMP),
                    UID as int,
                    8,
                    0,
                ),
                GID as int,
                8,
                0,
            ),
            MODE as int,
            8,
            if meta.spec_is_dir() || (meta.mode / 64) % 2 == 1 {
                0o755
            } else {
                0o644
            },
        ),
    };
    let h2 = h1.update(TYPEFLAG as int, entry_type_byte(meta.mode));
    let h3 = put_numeric(
        h2,
        SIZE as int,
        12,
        if meta.spec_is_dir() || meta.spec_is_symlink() {
            0
        } else {
            meta.len
        },
    );
    put_octal(put_octal(h3, DEV_MAJOR as int, 8, 0), DEV_MINOR as int, 8, 0)
}

/// A 512-byte tar header block.
pub struct Header {
    bytes: [u8; 512],
}

impl View for Header {
    type V = Seq<u8>;

    closed spec fn view(&self) -> Seq<u8> {
        self.bytes@
    }
}

/// The name field, the owner, group and time fields of `s`.
pub open spec fn kept_fields(s: Seq<u8>) -> (Seq<u8>, Seq<u8>, Seq<u8>, Seq<u8>) {
    (s.subrange(0, 100), s.subrange(108, 116), s.subrange(116, 124), s.subrange(136, 148))
}

/// Writing `piece` at `start`, away from the name, owner, group and time
/// fields, leaves them as they were.
pub proof fn lemma_keeps_fields(s: Seq<u8>, start: int, piece: Seq<u8>)
    requires
        s.len() == 512,
        start + piece.len() <= 512,
        (100 <= start && start + piece.len() <= 108) || (124 <= start && start + piece.len()
            <= 136) || 148 <= start,
    ensures
        splice(s, start, piece).len() == 512,
        kept_fields(splice(s, start, piece)) == kept_fields(s),
{
    lemma_splice_frame(s, start, piece, 0, 100);
    lemma_splice_frame(s, start, piece, 108, 116);
    lemma_splice_frame(s, start, piece, 116, 124);
    lemma_splice_frame(s, start, piece, 136, 148);
}

/// Writing a numeric field and reading it back, with the other fields kept.
proof fn lemma_put_field(s: Seq<u8>, start: int, len: nat, v: u64)
    requires
        s.len() == 512,
        len == 8 || len == 12,
        0 <= start,
        start + len <= 512,
    ensures
        put_numeric(s, start, len, v).len() == 512,
        len == 12 || v < 0x8000_0000_0000_0000 ==> numeric_value(
            put_numeric(s, start, len, v).subrange(start, start + len),
        ) == v,
        forall|x: int, y: int|
            0 <= x <= y <= 512 && (y <= start || start + len <= x) ==> #[trigger] put_numeric(
                s,
                start,
                len,
                v,
            ).subrange(x, y) == s.subrange(x, y),
{
    lemma_numeric_field_len(v, len);
    if len == 12 || v < 0x8000_0000_0000_0000 {
        law_numeric_reads_back(s, start, len, v);
    }
    assert forall|x: int, y: int|
        0 <= x <= y <= 512 && (y <= start || start + len <= x) implies #[trigger] put_numeric(
            s,
            start,
            len,
            v,
        ).subrange(x, y) == s.subrange(x, y) by {
        lemma_splice_frame(s, start, numeric_field(v, len), x, y);
    }
}

/// What a header records of a file's owner, group and time, read back from
/// its fields: in `Deterministic` mode owner and group 0 and the fixed time,
/// whatever the file's; in `Complete` mode the file's own (owner and group
/// where they fit the base-256 form). The name field is left as it was.
pub proof fn law_metadata_fields(h: Seq<u8>, meta: Metadata, mode: HeaderMode)
    requires
        h.len() == 512,
    ensures
        ({
            let w = with_metadata(h, meta, mode);
            &&& w.len() == 512
            &&& w.subrange(0, 100) == h.subrange(0, 100)
            &&& mode == HeaderMode::Deterministic ==> {
                &&& numeric_value(w.subrange(108, 116)) == 0
                &&& numeric_value(w.subrange(116, 124)) == 0
                &&& numeric_value(w.subrange(136, 148)) == DETERMINISTIC_TIMESTAMP
            }
            &&& mode == HeaderMode::Complete ==> {
                &&& numeric_value(w.subrange(136, 148)) == meta.mtime
                &&& meta.uid < 0x8000_0000_0000_0000 ==> numeric_value(w.subrange(108, 116))
                    == meta.uid
                &&& meta.gid < 0x8000_0000_0000_0000 ==> numeric_value(w.subrange(116, 124))
                    == meta.gid
            }
        }),
{
    reveal(with_metadata);
    let (t, u, g, m) = match mode {
        HeaderMode::Complete => (meta.mtime, meta.uid, meta.gid, meta.mode as nat),
        HeaderMode::Deterministic => (
            DETERMINISTIC_TIMESTAMP,
            0u64,
            0u64,
            if meta.spec_is_dir() || (meta.mode / 64) % 2 == 1 {
                0o755nat
            } else {
                0o644nat
            },
        ),
    };
    let ha = put_numeric(h, MTIME as int, 12, t);
    lemma_put_field(h, MTIME as int, 12, t);
    let hb = put_numeric(ha, UID as int, 8, u);
    lemma_put_field(ha, UID as int, 8, u);
    assert(hb.subrange(136, 148) == ha.subrange(136, 148));
    assert(hb.subrange(0, 100) == ha.subrange(0, 100));
    assert(ha.subrange(0, 100) == h.subrange(0, 100));
    let hc = put_numeric(hb, GID as int, 8, g);
    lemma_put_field(hb, GID as int, 8, g);
    assert(hc.subrange(136, 148) == hb.subrange(136, 148));
    assert(hc.subrange(108, 116) == hb.subrange(108, 116));
    assert(hc.subrange(0, 100) == hb.subrange(0, 100));
    let hd = put_octal(hc, MODE as int, 8, m);
    lemma_octal_digits_len(m, 7);
    lemma_keeps_fields(hc, MODE as int, octal_digits(m, 7));
    let he = hd.update(TYPEFLAG as int, entry_type_byte(meta.mode));
    assert(kept_fields(he) == kept_fields(hd)) by {
        assert(he.subrange(0, 100) =~= hd.subrange(0, 100));
        assert(he.subrange(108, 116) =~= hd.subrange(108, 116));
        assert(he.subrange(116, 124) =~= hd.subrange(116, 124));
        assert(he.subrange(136, 148) =~= hd.subrange(136, 148));
    }
    let size = if meta.spec_is_dir() || meta.spec_is_symlink() {
        0
    } else {
        meta.len
    };
    let hf = put_numeric(he, SIZE as int, 12, size);
    lemma_numeric_field_len(size, 12);
    lemma_keeps_fields(he, SIZE as int, numeric_field(size, 12));
    let hg = put_octal(hf, DEV_MAJOR as int, 8, 0);
    lemma_octal_digits_len(0, 7);
    lemma_keeps_fields(hf, DEV_MAJOR as int, octal_digits(0, 7));
    let hh = put_octal(hg, DEV_MINOR as int, 8, 0);
    lemma_keeps_fields(hg, DEV_MINOR as int, octal_digits(0, 7));
    assert(hh == with_metadata(h, meta, mode));
}

/// A header holds 512 bytes.
pub proof fn lemma_header_len(h: &Header)
    ensures
        h@.len() == 512,
{
}

pub proof fn lemma_put_numeric_len(h: Seq<u8>, start: int, len: nat, v: u64)
    requires
        len == 8 || len == 12,
        0 <= start,
        start + len <= h.len(),
    ensures
        put_numeric(h, start, len, v).len() == h.len(),
{
    crate::numeric::lemma_numeric_field_len(v, len);
}

pub proof fn lemma_put_octal_len(h: Seq<u8>, start: int, len: nat, v: nat)
    requires
        1 <= len,
        0 <= start,
        start + len <= h.len(),
    ensures
        put_octal(h, start, len, v).len() == h.len(),
{
    lemma_octal_digits_len(v, (len - 1) as nat);
}

pub proof fn lemma_with_cksum_len(h: Seq<u8>)
    requires
        h.len() == 512,
    ensures
        with_cksum(h).len() == 512,
{
    reveal(with_cksum);
    lemma_put_octal_len(h, CKSUM as int, 8, checksum(h));
}

pub proof fn lemma_with_metadata_len(h: Seq<u8>, meta: Metadata, mode: HeaderMode)
    requires
        h.len() == 512,
    ensures
        with_metadata(h, meta, mode).len() == 512,
{
    reveal(with_metadata);
    lemma_octal_digits_len(meta.mode as nat, 7);
    lemma_octal_digits_len(0o755, 7);
    lemma_octal_digits_len(0o644, 7);
    lemma_octal_digits_len(0, 7);
    crate::numeric::lemma_numeric_field_len(meta.mtime, 12);
    crate::numeric::lemma_numeric_field_len(DETERMINISTIC_TIMESTAMP, 12);
    crate::numeric::lemma_numeric_field_len(meta.uid, 8);
    crate::numeric::lemma_numeric_field_len(meta.gid, 8);
    crate::numeric::lemma_numeric_field_len(0, 8);
    crate::numeric::lemma_numeric_field_len(
        if meta.spec_is_dir() || meta.spec_is_symlink() {
            0
        } else {
            meta.len
        },
        12,
    );
}

pub proof fn lemma_new_gnu_len()
    ensures
        new_gnu_bytes().len() == 512,
{
    crate::numeric::lemma_numeric_field_len(0, 12);
}

proof fn lemma_cksum_prefix_bound(h: Seq<u8>, n: nat)
    ensures
        cksum_prefix(h, n) <= 255 * n,
    decreases n,
{
    if n > 0 {
        lemma_cksum_prefix_bound(h, (n - 1) as nat);
    }
}

proof fn lemma_cksum_prefix_same(h: Seq<u8>, g: Seq<u8>, n: nat)
    requires
        forall|i: int| 0 <= i < n ==> cksum_byte(h, i) == cksum_byte(g, i),
    ensures
        cksum_prefix(h, n) == cksum_prefix(g, n),
    decreases n,
{
    if n > 0 {
        lemma_cksum_prefix_same(h, g, (n - 1) as nat);
    }
}

/// Writing the checksum leaves the checksum unchanged, and the checksum field
/// then reads back, in octal, as the sum of the header's bytes with the
/// checksum field counted as spaces.
pub proof fn lemma_cksum_reads_back(h: Seq<u8>)
    requires
        h.len() == 512,
    ensures
        checksum(with_cksum(h)) == checksum(h),
        octal_value(with_cksum(h).subrange(CKSUM as int, CKSUM + 7)) == checksum(with_cksum(h)),
{
    reveal(with_cksum);
    let g = with_cksum(h);
    lemma_octal_digits_len(checksum(h), 7);
    assert forall|i: int| 0 <= i < 512 implies cksum_byte(h, i) == cksum_byte(g, i) by {}
    lemma_cksum_prefix_same(h, g, 512);
    lemma_cksum_prefix_bound(h, 512);
    assert(pow8(7) == 2097152) by {
        reveal_with_fuel(pow8, 8);
    }
    lemma_octal_roundtrip(checksum(h), 7);
    assert(g.subrange(CKSUM as int, CKSUM + 7) =~= octal_digits(checksum(h), 7));
}

/// The checksum of the 512 bytes of `b`.
fn compute_cksum(b: &[u8; 512]) -> (r: u32)
    ensures
        r == checksum(b@),
{
    let mut acc: u32 = 0;
    let mut i: usize = 0;
    while i < 512
        invariant
            i <= 512,
            b@.len() == 512,
            acc == cksum_prefix(b@, i as nat),
        decreases 512 - i,
    {
        proof {
            lemma_cksum_prefix_bound(b@, i as nat);
        }
        if CKSUM <= i && i < CKSUM + 8 {
            acc = acc + 32;
        } else {
            acc = acc + b[i] as u32;
        }
        i = i + 1;
    }
    acc
}

impl Header {
    /// A blank header in the GNU format: zeros, the GNU magic and version, and
    /// a modification time of zero.
    pub fn new_gnu() -> (h: Header)
        ensures
            h@ == new_gnu_bytes(),
    {
        let mut bytes = [0u8; 512];
        bytes[257] = 117u8;
        bytes[258] = 115u8;
        bytes[259] = 116u8;
        bytes[260] = 97u8;
        bytes[261] = 114u8;
        bytes[262] = 32u8;
        bytes[263] = 32u8;
        assert(bytes@ =~= gnu_template());
        write_numeric(&mut bytes, MTIME, 12, 0);
        Header { bytes }
    }

    /// The 512 bytes of the header.
    pub fn as_bytes(&self) -> (r: &[u8; 512])
        ensures
            r@ == self@,
    {
        &self.bytes
    }

    /// Copies `raw` into the front of the name field, byte for byte.
    pub(crate) fn set_name_raw(&mut self, raw: &[u8])
        requires
            raw@.len() <= NAME_LEN,
        ensures
            final(self)@ == splice(old(self)@, NAME as int, raw@),
    {
        let mut i: usize = 0;
        while i < raw.len()
            invariant
                i <= raw@.len() <= NAME_LEN,
                self.bytes@.len() == 512,
                self.bytes@ == splice(old(self).bytes@, NAME as int, raw@.take(i as int)),
            decreases raw@.len() - i,
        {
            self.bytes[NAME + i] = raw[i];
            i = i + 1;
            assert(self.bytes@ =~= splice(old(self).bytes@, NAME as int, raw@.take(i as int)));
        }
        assert(raw@.take(raw@.len() as int) =~= raw@);
    }

    /// Records the permission bits, in octal.
    pub fn set_mode(&mut self, mode: u32)
        ensures
            final(self)@ == put_octal(old(self)@, MODE as int, 8, mode as nat),
    {
        write_octal(&mut self.bytes, MODE, 7, mode as u64);
    }

    /// Records the owner id.
    pub fn set_uid(&mut self, uid: u64)
        ensures
            final(self)@ == put_numeric(old(self)@, UID as int, 8, uid),
    {
        write_numeric(&mut self.bytes, UID, 8, uid);
    }

    /// Records the group id.
    pub fn set_gid(&mut self, gid: u64)
        ensures
            final(self)@ == put_numeric(old(self)@, GID as int, 8, gid),
    {
        write_numeric(&mut self.bytes, GID, 8, gid);
    }

    /// Records the size of the entry's data.
    pub fn set_size(&mut self, size: u64)
        ensures
            final(self)@ == put_numeric(old(self)@, SIZE as int, 12, size),
    {
        write_numeric(&mut self.bytes, SIZE, 12, size);
    }

    /// Records the modification time.
    pub fn set_mtime(&mut self, mtime: u64)
        ensures
            final(self)@ == put_numeric(old(self)@, MTIME as int, 12, mtime),
    {
        write_numeric(&mut self.bytes, MTIME, 12, mtime);
    }

    /// Records the type of the entry.
    pub fn set_entry_type(&mut self, ty: EntryType)
        ensures
            final(self)@ == old(self)@.update(TYPEFLAG as int, ty.byte),
    {
        self.bytes[TYPEFLAG] = ty.byte;
    }

    /// Writes the checksum of the header into its checksum field.
    pub fn set_cksum(&mut self)
        ensures
            final(self)@ == with_cksum(old(self)@),
    {
        let c = compute_cksum(&self.bytes);
        write_octal(&mut self.bytes, CKSUM, 7, c as u64);
        proof {
            reveal(with_cksum);
        }
    }

    /// Writes `path` into the name field, as `path_copy` describes for a name:
    /// relative, without `..`, with at least one component, at most 100 bytes
    /// and without nul bytes. On failure the field holds what was copied
    /// before the failure.
    pub fn set_path(&mut self, path: &[u8]) -> (r: Result<(), TarError>)
        ensures
            ({
                let (out, err) = path_copy(path@, NAME_LEN as nat, false);
                &&& final(self)@ == field_after_copy(old(self)@, NAME as int, NAME_LEN as nat, out)
                &&& match err {
                    None => r is Ok,
                    Some(e) => r == Err::<(), TarError>(e),
                }
            }),
    {
        copy_path_into(&mut self.bytes, NAME, NAME_LEN, path, false)
    }

    /// Writes `link_name` into the link name field, as `path_copy` describes
    /// for a link target: any component is kept, at most 100 bytes and without
    /// nul bytes.
    pub fn set_link_name(&mut self, link_name: &[u8]) -> (r: Result<(), TarError>)
        ensures
            ({
                let (out, err) = path_copy(link_name@, NAME_LEN as nat, true);
                &&& final(self)@ == field_after_copy(
                    old(self)@,
                    LINKNAME as int,
                    NAME_LEN as nat,
                    out,
                )
                &&& match err {
                    None => r is Ok,
                    Some(e) => r == Err::<(), TarError>(e),
                }
            }),
    {
        copy_path_into(&mut self.bytes, LINKNAME, NAME_LEN, link_name, true)
    }

    /// Writes the metadata of a file into the header as `mode` asks: time,
    /// owner, group, permissions, entry type, size (zero for directories and
    /// symlinks) and zero device numbers.
    pub fn set_metadata_in_mode(&mut self, meta: &Metadata, mode: HeaderMode)
        ensures
            final(self)@ == with_metadata(old(self)@, *meta, mode),
    {
        match mode {
            HeaderMode::Complete => {
                self.set_mtime(meta.mtime);
                self.set_uid(meta.uid);
                self.set_gid(meta.gid);
                self.set_mode(meta.mode);
            },
            HeaderMode::Deterministic => {
                self.set_mtime(DETERMINISTIC_TIMESTAMP);
                self.set_uid(0);
                self.set_gid(0);
                let fs_mode: u32 = if meta.is_dir() || (meta.mode / 64) % 2 == 1 {
                    0o755
                } else {
                    0o644
                };
                self.set_mode(fs_mode);
            },
        }
        let t = (meta.mode / 4096) % 16;
        let ty: u8 = if t == 8 {
            48u8
        } else if t == 10 {
            50u8
        } else if t == 2 {
            51u8
        } else if t == 6 {
            52u8
        } else if t == 4 {
            53u8
        } else if t == 1 {
            54u8
        } else {
            32u8
        };
        self.set_entry_type(EntryType::new(ty));
        let size = if meta.is_dir() || meta.is_symlink() {
            0
        } else {
            meta.len
        };
        self.set_size(size);
        write_octal(&mut self.bytes, DEV_MAJOR, 7, 0);
        write_octal(&mut self.bytes, DEV_MINOR, 7, 0);
        proof {
            reveal(with_metadata);
        }
    }

    /// Writes the metadata of a file into the header, all of it.
    pub fn set_metadata(&mut self, meta: &Metadata)
        ensures
            final(self)@ == with_metadata(old(self)@, *meta, HeaderMode::Complete),
    {
        self.set_metadata_in_mode(meta, HeaderMode::Complete);
    }
}

} // verus!
