//! Numeric fields of a tar header: ASCII octal digits, or the GNU base-256
//! extension for values that do not fit in the octal digits of the field.
use vstd::prelude::*;
use vstd::arithmetic::div_mod::lemma_div_denominator;

verus! {

/// `8` raised to the power `n`.
pub open spec fn pow8(n: nat) -> nat
    decreases n,
{
    if n == 0 {
        1
    } else {
        8 * pow8((n - 1) as nat)
    }
}

/// `256` raised to the power `n`.
pub open spec fn pow256(n: nat) -> nat
    decreases n,
{
    if n == 0 {
        1
    } else {
        256 * pow256((n - 1) as nat)
    }
}

/// The ASCII character of the lowest octal digit of `v`.
pub open spec fn octal_digit(v: nat) -> u8 {
    (48 + v % 8) as u8
}

/// The `n` lowest octal digits of `v` in ASCII, most significant first.
pub open spec fn octal_digits(v: nat, n: nat) -> Seq<u8>
    decreases n,
{
    if n == 0 {
        seq![]
    } else {
        octal_digits(v / 8, (n - 1) as nat).push(octal_digit(v))
    }
}

/// The number that a string of ASCII octal digits stands for.
pub open spec fn octal_value(s: Seq<u8>) -> int
    decreases s.len(),
{
    if s.len() == 0 {
        0
    } else {
        octal_value(s.drop_last()) * 8 + (s.last() as int - 48)
    }
}

/// The `n` lowest base-256 digits of `v`, most significant first.
pub open spec fn be_bytes(v: nat, n: nat) -> Seq<u8>
    decreases n,
{
    if n == 0 {
        seq![]
    } else {
        be_bytes(v / 256, (n - 1) as nat).push((v % 256) as u8)
    }
}

/// The number that a big-endian sequence of bytes stands for.
pub open spec fn be_value(s: Seq<u8>) -> int
    decreases s.len(),
{
    if s.len() == 0 {
        0
    } else {
        be_value(s.drop_last()) * 256 + s.last() as int
    }
}

/// `piece` written over `s` from index `start` on.
pub open spec fn splice(s: Seq<u8>, start: int, piece: Seq<u8>) -> Seq<u8> {
    s.subrange(0, start) + piece + s.subrange(start + piece.len(), s.len() as int)
}

/// Whether a numeric field of `len` bytes holds `v` in the base-256 extension
/// rather than in octal: the octal form of a 12-byte field ends at 8^11, that of
/// an 8-byte field at 8^7.
pub open spec fn uses_base256(v: u64, len: nat) -> bool {
    v >= 8589934592 || (v >= 2097152 && len == 8)
}

/// The bytes written into a numeric field of `len` bytes for `v`. In octal the
/// last byte of the field is not written, so the result has `len - 1` bytes; in
/// the base-256 extension it has `len` bytes, the value right-aligned and the
/// first byte marked by its high bit.
pub open spec fn numeric_field(v: u64, len: nat) -> Seq<u8> {
    if uses_base256(v, len) {
        let raw = Seq::new((len - 8) as nat, |i: int| 0u8) + be_bytes(v as nat, 8);
        raw.update(0, raw[0] | 0x80u8)
    } else {
        octal_digits(v as nat, (len - 1) as nat)
    }
}

/// Writing `piece` at `start` leaves the length, and every range outside the
/// piece, as they were, and puts the piece where it was written.
pub proof fn lemma_splice_frame(s: Seq<u8>, start: int, piece: Seq<u8>, x: int, y: int)
    requires
        0 <= start,
        start + piece.len() <= s.len(),
        0 <= x <= y <= s.len(),
    ensures
        splice(s, start, piece).len() == s.len(),
        y <= start || start + piece.len() <= x ==> splice(s, start, piece).subrange(x, y)
            == s.subrange(x, y),
        splice(s, start, piece).subrange(start, start + piece.len()) == piece,
{
    let t = splice(s, start, piece);
    if y <= start || start + piece.len() <= x {
        assert forall|i: int| 0 <= i < y - x implies t.subrange(x, y)[i] == s.subrange(x, y)[i] by {
            if x + i < start {
                assert(t[x + i] == s[x + i]);
            } else {
                assert(t[x + i] == s.subrange(start + piece.len(), s.len() as int)[x + i - start
                    - piece.len()]);
            }
        }
        assert(t.subrange(x, y) =~= s.subrange(x, y));
    }
    assert(t.subrange(start, start + piece.len()) =~= piece);
}

/// A numeric field takes `len - 1` bytes in octal, `len` bytes in base 256.
pub proof fn lemma_numeric_field_len(v: u64, len: nat)
    requires
        len == 8 || len == 12,
    ensures
        numeric_field(v, len).len() == if uses_base256(v, len) {
            len
        } else {
            (len - 1) as nat
        },
{
    lemma_octal_digits_len(v as nat, (len - 1) as nat);
    lemma_be_bytes_len(v as nat, 8);
}

pub proof fn lemma_pow8_pos(n: nat)
    ensures
        pow8(n) > 0,
    decreases n,
{
    if n > 0 {
        lemma_pow8_pos((n - 1) as nat);
    }
}

pub proof fn lemma_pow256_pos(n: nat)
    ensures
        pow256(n) > 0,
    decreases n,
{
    if n > 0 {
        lemma_pow256_pos((n - 1) as nat);
    }
}

pub proof fn lemma_octal_digits_len(v: nat, n: nat)
    ensures
        octal_digits(v, n).len() == n,
    decreases n,
{
    if n > 0 {
        lemma_octal_digits_len(v / 8, (n - 1) as nat);
    }
}

pub proof fn lemma_be_bytes_len(v: nat, n: nat)
    ensures
        be_bytes(v, n).len() == n,
    decreases n,
{
    if n > 0 {
        lemma_be_bytes_len(v / 256, (n - 1) as nat);
    }
}

/// The digits of `v` taken one more to the left.
#[verifier::spinoff_prover]
proof fn lemma_octal_digits_front(v: nat, k: nat)
    ensures
        octal_digits(v, k + 1) == seq![octal_digit(v / pow8(k))] + octal_digits(v, k),
    decreases k,
{
    if k == 0 {
        reveal_with_fuel(octal_digits, 2);
        assert(pow8(0) == 1);
        assert(octal_digits(v, 1) =~= seq![octal_digit(v)]);
    } else {
        lemma_octal_digits_front(v / 8, (k - 1) as nat);
        lemma_pow8_pos((k - 1) as nat);
        lemma_div_denominator(v as int, 8, pow8((k - 1) as nat) as int);
        assert(octal_digits(v, k + 1) =~= seq![octal_digit(v / pow8(k))] + octal_digits(v, k));
    }
}

#[verifier::spinoff_prover]
proof fn lemma_be_bytes_front(v: nat, k: nat)
    ensures
        be_bytes(v, k + 1) == seq![((v / pow256(k)) % 256) as u8] + be_bytes(v, k),
    decreases k,
{
    if k == 0 {
        reveal_with_fuel(be_bytes, 2);
        assert(pow256(0) == 1);
        assert(be_bytes(v, 1) =~= seq![(v % 256) as u8]);
    } else {
        lemma_be_bytes_front(v / 256, (k - 1) as nat);
        lemma_pow256_pos((k - 1) as nat);
        lemma_div_denominator(v as int, 256, pow256((k - 1) as nat) as int);
        assert(be_bytes(v, k + 1) =~= seq![((v / pow256(k)) % 256) as u8] + be_bytes(v, k));
    }
}

/// Reading back the octal digits of a value that fits gives the value.
pub proof fn lemma_octal_roundtrip(v: nat, n: nat)
    requires
        v < pow8(n),
    ensures
        octal_value(octal_digits(v, n)) == v,
    decreases n,
{
    if n > 0 {
        let p = pow8((n - 1) as nat);
        assert(v / 8 < p) by (nonlinear_arith)
            requires
                v < 8 * p,
        ;
        lemma_octal_roundtrip(v / 8, (n - 1) as nat);
        let d = octal_digits(v / 8, (n - 1) as nat).push(octal_digit(v));
        assert(d.drop_last() =~= octal_digits(v / 8, (n - 1) as nat));
    }
}

/// Reading back the base-256 digits of a value that fits gives the value.
pub proof fn lemma_be_roundtrip(v: nat, n: nat)
    requires
        v < pow256(n),
    ensures
        be_value(be_bytes(v, n)) == v,
    decreases n,
{
    if n > 0 {
        let p = pow256((n - 1) as nat);
        assert(v / 256 < p) by (nonlinear_arith)
            requires
                v < 256 * p,
        ;
        lemma_be_roundtrip(v / 256, (n - 1) as nat);
        let d = be_bytes(v / 256, (n - 1) as nat).push((v % 256) as u8);
        assert(d.drop_last() =~= be_bytes(v / 256, (n - 1) as nat));
    }
}

/// Every character of an octal field is an ASCII octal digit.
pub proof fn lemma_octal_digits_are_digits(v: nat, n: nat)
    ensures
        forall|i: int|
            0 <= i < n ==> 48 <= #[trigger] octal_digits(v, n)[i] && octal_digits(v, n)[i] <= 55,
    decreases n,
{
    if n > 0 {
        lemma_octal_digits_are_digits(v / 8, (n - 1) as nat);
        lemma_octal_digits_len(v / 8, (n - 1) as nat);
    }
}

/// The value that a numeric field holds: in the base-256 extension where
/// its first byte has the high bit set, the rest of that byte and the bytes
/// after it taken big-endian; else the octal digits before its last byte.
pub open spec fn numeric_value(field: Seq<u8>) -> int {
    if field[0] >= 128 {
        be_value(field.update(0, (field[0] - 128) as u8))
    } else {
        octal_value(field.take(field.len() - 1))
    }
}

proof fn lemma_be_value_zeros(k: nat)
    ensures
        be_value(Seq::new(k, |i: int| 0u8)) == 0,
    decreases k,
{
    if k > 0 {
        lemma_be_value_zeros((k - 1) as nat);
        assert(Seq::new(k, |i: int| 0u8).drop_last() =~= Seq::new((k - 1) as nat, |i: int| 0u8));
    }
}

proof fn lemma_be_value_leading_zeros(k: nat, s: Seq<u8>)
    ensures
        be_value(Seq::new(k, |i: int| 0u8) + s) == be_value(s),
    decreases s.len(),
{
    let z = Seq::new(k, |i: int| 0u8);
    if s.len() == 0 {
        assert(z + s =~= z);
        lemma_be_value_zeros(k);
    } else {
        lemma_be_value_leading_zeros(k, s.drop_last());
        assert((z + s).drop_last() =~= z + s.drop_last());
    }
}

/// A numeric field reads back the value written into it: always in a
/// 12-byte field, and in an 8-byte field for values below 2^63, whose base-256
/// form leaves the high bit of its first byte free for the marker.
pub proof fn law_numeric_reads_back(h: Seq<u8>, start: int, len: nat, v: u64)
    requires
        len == 8 || len == 12,
        0 <= start,
        start + len <= h.len(),
        len == 8 ==> v < 0x8000_0000_0000_0000,
    ensures
        numeric_value(splice(h, start, numeric_field(v, len)).subrange(start, start + len)) == v,
{
    lemma_numeric_field_len(v, len);
    let f = splice(h, start, numeric_field(v, len)).subrange(start, start + len);
    if uses_base256(v, len) {
        let z = Seq::new((len - 8) as nat, |i: int| 0u8);
        let b = be_bytes(v as nat, 8);
        lemma_be_bytes_len(v as nat, 8);
        let raw = z + b;
        let b0 = raw[0];
        assert(b0 < 128) by {
            if len == 8 {
                lemma_be_bytes_front(v as nat, 7);
                assert(pow256(7) == 0x100_0000_0000_0000) by {
                    reveal_with_fuel(pow256, 8);
                }
                assert(b0 == ((v as nat / pow256(7)) % 256) as u8);
                assert(v as nat / 0x100_0000_0000_0000 < 128) by (nonlinear_arith)
                    requires
                        v < 0x8000_0000_0000_0000,
                ;
            }
        }
        assert(b0 | 0x80u8 == (b0 + 128) as u8) by (bit_vector)
            requires
                b0 < 128,
        ;
        assert(f =~= raw.update(0, b0 | 0x80u8));
        assert(f.update(0, (f[0] - 128) as u8) =~= raw);
        lemma_be_value_leading_zeros((len - 8) as nat, b);
        assert(pow256(8) == 0x1_0000_0000_0000_0000) by {
            reveal_with_fuel(pow256, 9);
        }
        lemma_be_roundtrip(v as nat, 8);
    } else {
        let d = octal_digits(v as nat, (len - 1) as nat);
        lemma_octal_digits_len(v as nat, (len - 1) as nat);
        lemma_octal_digits_are_digits(v as nat, (len - 1) as nat);
        assert(f.take(len - 1) =~= d);
        assert(f[0] == d[0]);
        assert(pow8(7) == 2097152 && pow8(11) == 8589934592) by {
            reveal_with_fuel(pow8, 12);
        }
        lemma_octal_roundtrip(v as nat, (len - 1) as nat);
    }
}

/// Writes the `width` lowest octal digits of `v` in ASCII at `start`.
pub fn write_octal(bytes: &mut [u8; 512], start: usize, width: usize, v: u64)
    requires
        start + width <= 512,
    ensures
        final(bytes)@ == splice(old(bytes)@, start as int, octal_digits(v as nat, width as nat)),
{
    let mut cur = v;
    let mut k: usize = 0;
    proof {
        assert(pow8(0) == 1);
        assert(splice(bytes@, (start + width) as int, octal_digits(v as nat, 0)) =~= bytes@);
    }
    while k < width
        invariant
            k <= width,
            start + width <= 512,
            bytes@.len() == 512,
            old(bytes)@.len() == 512,
            cur as nat == v as nat / pow8(k as nat),
            bytes@ == splice(
                old(bytes)@,
                (start + width - k) as int,
                octal_digits(v as nat, k as nat),
            ),
        decreases width - k,
    {
        proof {
            lemma_octal_digits_front(v as nat, k as nat);
            lemma_octal_digits_len(v as nat, k as nat);
            lemma_octal_digits_len(v as nat, (k + 1) as nat);
            lemma_pow8_pos(k as nat);
            lemma_div_denominator(v as int, pow8(k as nat) as int, 8);
        }
        let pos = start + width - 1 - k;
        let digit = (48 + cur % 8) as u8;
        bytes[pos] = digit;
        cur = cur / 8;
        k = k + 1;
        assert(bytes@ =~= splice(
            old(bytes)@,
            (start + width - k) as int,
            octal_digits(v as nat, k as nat),
        ));
    }
}

/// Writes the `width` lowest base-256 digits of `v` at `start`.
pub fn write_be(bytes: &mut [u8; 512], start: usize, width: usize, v: u64)
    requires
        start + width <= 512,
    ensures
        final(bytes)@ == splice(old(bytes)@, start as int, be_bytes(v as nat, width as nat)),
{
    let mut cur = v;
    let mut k: usize = 0;
    proof {
        assert(pow256(0) == 1);
        assert(splice(bytes@, (start + width) as int, be_bytes(v as nat, 0)) =~= bytes@);
    }
    while k < width
        invariant
            k <= width,
            start + width <= 512,
            bytes@.len() == 512,
            old(bytes)@.len() == 512,
            cur as nat == v as nat / pow256(k as nat),
            bytes@ == splice(old(bytes)@, (start + width - k) as int, be_bytes(v as nat, k as nat)),
        decreases width - k,
    {
        proof {
            lemma_be_bytes_front(v as nat, k as nat);
            lemma_be_bytes_len(v as nat, k as nat);
            lemma_be_bytes_len(v as nat, (k + 1) as nat);
            lemma_pow256_pos(k as nat);
            lemma_div_denominator(v as int, pow256(k as nat) as int, 256);
        }
        let pos = start + width - 1 - k;
        let b = (cur % 256) as u8;
        bytes[pos] = b;
        cur = cur / 256;
        k = k + 1;
        assert(bytes@ =~= splice(
            old(bytes)@,
            (start + width - k) as int,
            be_bytes(v as nat, k as nat),
        ));
    }
}

/// Writes `v` into the numeric field of `len` bytes at `start`: in octal where
/// it fits, else in the base-256 extension.
pub fn write_numeric(bytes: &mut [u8; 512], start: usize, len: usize, v: u64)
    requires
        len == 8 || len == 12,
        start + len <= 512,
    ensures
        final(bytes)@ == splice(old(bytes)@, start as int, numeric_field(v, len as nat)),
{
    if v >= 8589934592 || (v >= 2097152 && len == 8) {
        let mut i: usize = 0;
        while i < len - 8
            invariant
                i <= len - 8,
                len == 8 || len == 12,
                start + len <= 512,
                bytes@.len() == 512,
                old(bytes)@.len() == 512,
                bytes@ == splice(old(bytes)@, start as int, Seq::new(i as nat, |j: int| 0u8)),
            decreases len - 8 - i,
        {
            bytes[start + i] = 0;
            i = i + 1;
            assert(bytes@ =~= splice(old(bytes)@, start as int, Seq::new(i as nat, |j: int| 0u8)));
        }
        let ghost zeroed = bytes@;
        write_be(bytes, start + len - 8, 8, v);
        proof {
            lemma_be_bytes_len(v as nat, 8);
        }
        let first = bytes[start];
        bytes[start] = first | 0x80;
        proof {
            let raw = Seq::new((len - 8) as nat, |j: int| 0u8) + be_bytes(v as nat, 8);
            assert(splice(old(bytes)@, start as int, raw) =~= splice(
                zeroed,
                (start + len - 8) as int,
                be_bytes(v as nat, 8),
            ));
            assert(bytes@ =~= splice(old(bytes)@, start as int, numeric_field(v, len as nat)));
        }
    } else {
        write_octal(bytes, start, len - 1, v);
    }
}

} // verus!
