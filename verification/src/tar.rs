//! Parsing of TAR physical records: the 12-byte numeric content-length field
//! (ASCII octal or packed big-endian binary) and the derived classifications
//! of one 512-byte header record.

use vstd::prelude::*;

verus! {

/// Error returned when a numeric header field is malformed.
#[derive(Clone, Copy, Debug)]
pub struct ParseNumericError;

/// Bytes per physical TAR record.
pub const RECORD_LEN: usize = 512;

/// Offset of the type-flag byte inside a header record.
pub const TYPE_FLAG_OFFSET: usize = 156;

/// Offset of the 12-byte content-length field inside a header record.
pub const CONTENT_LEN_OFFSET: usize = 124;

pub open spec fn is_octal_digit(b: u8) -> bool {
    0x30 <= b <= 0x37
}

/// Space and NUL terminate or pad an octal field without contributing digits.
pub open spec fn is_octal_filler(b: u8) -> bool {
    b == 0x00 || b == 0x20
}

pub open spec fn octal_field_valid(s: Seq<u8>) -> bool {
    forall|i: int| 0 <= i < s.len() ==> is_octal_digit(#[trigger] s[i]) || is_octal_filler(s[i])
}

/// Value of an ASCII octal field: digits accumulate base 8, fillers are skipped.
pub open spec fn octal_value(s: Seq<u8>, acc: int) -> int
    decreases s.len(),
{
    if s.len() == 0 {
        acc
    } else if is_octal_digit(s[0]) {
        octal_value(s.drop_first(), acc * 8 + (s[0] - 0x30))
    } else {
        octal_value(s.drop_first(), acc)
    }
}

/// Byte `i` of a packed-binary field, with the marker bit of byte 0 cleared.
pub open spec fn packed_byte(s: Seq<u8>, i: int) -> u8 {
    if i == 0 {
        (s[0] & 0x7f) as u8
    } else {
        s[i]
    }
}

/// Big-endian value of the field's bytes from `i` to the end.
pub open spec fn packed_value(s: Seq<u8>, i: int, acc: int) -> int
    decreases s.len() - i,
{
    if i >= s.len() {
        acc
    } else {
        packed_value(s, i + 1, acc * 256 + packed_byte(s, i))
    }
}

/// A packed field overflows unless every byte before the last 8 is zero
/// (after clearing the marker bit).
pub open spec fn packed_fits(s: Seq<u8>) -> bool {
    forall|i: int| 0 <= i < s.len() - 8 ==> #[trigger] packed_byte(s, i) == 0
}

/// What `parse_numeric` returns: the packed branch when the marker bit of the
/// first byte is set, the ASCII octal branch otherwise.
pub open spec fn spec_parse_numeric(s: Seq<u8>) -> Result<u64, ParseNumericError>
    recommends
        s.len() >= 1,
{
    if s[0] & 0x80 != 0 {
        if packed_fits(s) {
            Ok(packed_value(s, s.len() - 8, 0) as u64)
        } else {
            Err(ParseNumericError)
        }
    } else {
        if octal_field_valid(s) {
            Ok(octal_value(s, 0) as u64)
        } else {
            Err(ParseNumericError)
        }
    }
}

pub open spec fn pow8(n: nat) -> int
    decreases n,
{
    if n == 0 {
        1
    } else {
        8 * pow8((n - 1) as nat)
    }
}

proof fn lemma_pow8_increases(m: nat, n: nat)
    requires
        m <= n,
    ensures
        pow8(m) <= pow8(n),
    decreases n,
{
    if m < n {
        lemma_pow8_increases(m, (n - 1) as nat);
        assert(pow8(n) == 8 * pow8((n - 1) as nat));
        assert(pow8(m) >= 1) by {
            lemma_pow8_positive(m);
        }
    }
}

proof fn lemma_pow8_positive(n: nat)
    ensures
        pow8(n) >= 1,
    decreases n,
{
    if n > 0 {
        lemma_pow8_positive((n - 1) as nat);
    }
}

proof fn lemma_pow8_21()
    ensures
        pow8(21) == 0x8000000000000000,
{
    reveal_with_fuel(pow8, 22);
}

/// Value of the bytes from `i` on, as a big-endian integer, is bounded by the
/// number of bytes remaining.
proof fn lemma_packed_value_bound(s: Seq<u8>, i: int, acc: int)
    requires
        0 <= i <= s.len(),
        acc >= 0,
    ensures
        packed_value(s, i, acc) < (acc + 1) * pow256((s.len() - i) as nat),
        packed_value(s, i, acc) >= acc,
    decreases s.len() - i,
{
    let n = (s.len() - i) as nat;
    if i >= s.len() {
        assert(pow256(0) == 1);
    } else {
        let b = packed_byte(s, i) as int;
        let acc2 = acc * 256 + b;
        assert(0 <= b <= 255);
        assert(acc2 >= acc) by (nonlinear_arith)
            requires
                acc >= 0,
                b >= 0,
                acc2 == acc * 256 + b,
        ;
        lemma_packed_value_bound(s, i + 1, acc2);
        let rest = (s.len() - i - 1) as nat;
        assert(pow256(n) == 256 * pow256(rest));
        lemma_pow256_positive(rest);
        assert((acc2 + 1) * pow256(rest) <= (acc + 1) * pow256(n)) by (nonlinear_arith)
            requires
                acc2 == acc * 256 + b,
                0 <= b <= 255,
                acc >= 0,
                pow256(rest) >= 1,
                pow256(n) == 256 * pow256(rest),
        ;
    }
}

pub open spec fn pow256(n: nat) -> int
    decreases n,
{
    if n == 0 {
        1
    } else {
        256 * pow256((n - 1) as nat)
    }
}

proof fn lemma_pow256_positive(n: nat)
    ensures
        pow256(n) >= 1,
    decreases n,
{
    if n > 0 {
        lemma_pow256_positive((n - 1) as nat);
    }
}

proof fn lemma_pow256_8()
    ensures
        pow256(8) == 0x10000000000000000,
{
    reveal_with_fuel(pow256, 9);
}

/// Parses a TAR numeric field, either ASCII octal (digits with space/NUL
/// fillers) or, when the top bit of the first byte is set, packed big-endian
/// binary whose bytes before the last 8 must be zero.
///
/// The length bounds keep the accumulators inside `u64`: an octal field of up
/// to 21 digits and the 8 value bytes of a packed field cannot overflow.
pub fn parse_numeric(input: &[u8]) -> (r: Result<u64, ParseNumericError>)
    requires
        input@.len() >= 1,
        input@[0] & 0x80 == 0 ==> input@.len() <= 21,
        input@[0] & 0x80 != 0 ==> input@.len() >= 8,
    ensures
        r == spec_parse_numeric(input@),
{
    let len = input.len();
    if input[0] & 0x80 != 0 {
        // Packed binary format: all bits before the final 8 bytes, apart from
        // the marker bit itself, must be zero or the value exceeds 64 bits.
        let mut i: usize = 0;
        while i < len - 8
            invariant
                0 <= i <= len - 8,
                len == input@.len(),
                input@[0] & 0x80 != 0,
                forall|j: int| 0 <= j < i ==> #[trigger] packed_byte(input@, j) == 0,
            decreases len - 8 - i,
        {
            let b = if i == 0 {
                input[0] & 0x7f
            } else {
                input[i]
            };
            if b != 0 {
                assert(packed_byte(input@, i as int) != 0);
                assert(!packed_fits(input@));
                return Err(ParseNumericError);
            }
            i += 1;
        }
        assert(packed_fits(input@));
        let mut acc: u64 = 0;
        let mut i: usize = len - 8;
        while i < len
            invariant
                len - 8 <= i <= len,
                len == input@.len(),
                len >= 8,
                acc < pow256((i - (len - 8)) as nat),
                packed_value(input@, len - 8, 0) == packed_value(input@, i as int, acc as int),
            decreases len - i,
        {
            let b = if i == 0 {
                input[0] & 0x7f
            } else {
                input[i]
            };
            assert(b == packed_byte(input@, i as int));
            proof {
                let k = (i - (len - 8)) as nat;
                lemma_pow256_positive(k);
                lemma_pow256_8();
                assert(pow256(k) <= pow256(8)) by {
                    lemma_pow256_increases(k, 8);
                }
                assert(pow256((k + 1) as nat) == 256 * pow256(k));
                assert(acc * 256 + b < 256 * pow256(k)) by (nonlinear_arith)
                    requires
                        acc < pow256(k),
                        b < 256,
                ;
                assert(256 * pow256(k) <= 256 * pow256(7) ==> acc * 256 + b <= 0xffffffffffffffff);
                lemma_pow256_increases(k, 7);
                reveal_with_fuel(pow256, 9);
            }
            acc = acc * 256 + (b as u64);
            i += 1;
        }
        assert(packed_value(input@, len - 8, 0) == acc as int);
        proof {
            lemma_packed_value_bound(input@, len - 8 as int, 0);
        }
        Ok(acc)
    } else {
        // ASCII octal format.
        assert(input@.skip(0) =~= input@);
        let mut acc: u64 = 0;
        let mut i: usize = 0;
        while i < len
            invariant
                0 <= i <= len <= 21,
                len == input@.len(),
                input@[0] & 0x80 == 0,
                acc <= pow8(i as nat) - 1,
                forall|j: int|
                    0 <= j < i ==> is_octal_digit(#[trigger] input@[j]) || is_octal_filler(
                        input@[j],
                    ),
                octal_value(input@, 0) == octal_value(input@.skip(i as int), acc as int),
            decreases len - i,
        {
            let b = input[i];
            proof {
                assert(input@.skip(i as int).len() == len - i);
                assert(input@.skip(i as int)[0] == input@[i as int]);
                assert(input@.skip(i as int).drop_first() =~= input@.skip(i as int + 1));
                lemma_pow8_increases(i as nat, 21);
                lemma_pow8_21();
                assert(pow8((i + 1) as nat) == 8 * pow8(i as nat));
            }
            if 0x30 <= b && b <= 0x37 {
                proof {
                    lemma_pow8_increases((i + 1) as nat, 21);
                }
                acc = acc * 8 + ((b - 0x30) as u64);
            } else if b == 0x00 || b == 0x20 {
                // filler byte: contributes nothing
            } else {
                assert(!octal_field_valid(input@));
                return Err(ParseNumericError);
            }
            i += 1;
        }
        assert(input@.skip(len as int).len() == 0);
        assert(octal_value(input@, 0) == acc as int);
        assert(octal_field_valid(input@));
        Ok(acc)
    }
}

proof fn lemma_pow256_increases(m: nat, n: nat)
    requires
        m <= n,
    ensures
        pow256(m) <= pow256(n),
    decreases n,
{
    if m < n {
        lemma_pow256_increases(m, (n - 1) as nat);
        lemma_pow256_positive(m);
    }
}

/// The low `n` octal digits of `v`, most significant first, as ASCII.
pub open spec fn octal_digits(v: int, n: nat) -> Seq<u8>
    decreases n,
{
    if n == 0 {
        Seq::<u8>::empty()
    } else {
        octal_digits(v / 8, (n - 1) as nat).push((0x30 + v % 8) as u8)
    }
}

/// The standard 12-byte length field: 11 octal digits and a trailing NUL.
pub open spec fn octal12_encoding(v: u64) -> Seq<u8> {
    octal_digits(v as int, 11).push(0)
}

/// The low `n` bytes of `v`, big endian.
pub open spec fn be_bytes(v: int, n: nat) -> Seq<u8>
    decreases n,
{
    if n == 0 {
        Seq::<u8>::empty()
    } else {
        be_bytes(v / 256, (n - 1) as nat).push((v % 256) as u8)
    }
}

/// A 12-byte packed-binary length field: marker byte, three zero bytes, then
/// the value big endian.
pub open spec fn packed12_encoding(v: u64) -> Seq<u8> {
    seq![0x80u8, 0u8, 0u8, 0u8] + be_bytes(v as int, 8)
}

/// Appending a digit multiplies the accumulated octal value by 8; appending
/// a filler leaves it alone.
proof fn lemma_octal_value_push(s: Seq<u8>, acc: int, b: u8)
    ensures
        is_octal_digit(b) ==> octal_value(s.push(b), acc) == 8 * octal_value(s, acc) + (b - 0x30),
        !is_octal_digit(b) ==> octal_value(s.push(b), acc) == octal_value(s, acc),
    decreases s.len(),
{
    if s.len() == 0 {
        assert(s.push(b)[0] == b);
        assert(s.push(b).drop_first() =~= Seq::<u8>::empty());
        assert(octal_value(s, acc) == acc);
        if is_octal_digit(b) {
            assert(octal_value(s.push(b), acc) == octal_value(
                Seq::<u8>::empty(),
                acc * 8 + (b - 0x30),
            ));
            assert(octal_value(Seq::<u8>::empty(), acc * 8 + (b - 0x30)) == acc * 8 + (b - 0x30));
        } else {
            assert(octal_value(s.push(b), acc) == octal_value(Seq::<u8>::empty(), acc));
            assert(octal_value(Seq::<u8>::empty(), acc) == acc);
        }
    } else {
        assert(s.push(b)[0] == s[0]);
        assert(s.push(b).drop_first() =~= s.drop_first().push(b));
        if is_octal_digit(s[0]) {
            lemma_octal_value_push(s.drop_first(), acc * 8 + (s[0] - 0x30), b);
        } else {
            lemma_octal_value_push(s.drop_first(), acc, b);
        }
    }
}

proof fn lemma_octal_digits_shape(v: int, n: nat)
    requires
        v >= 0,
    ensures
        octal_digits(v, n).len() == n,
        forall|i: int| 0 <= i < n ==> is_octal_digit(#[trigger] octal_digits(v, n)[i]),
    decreases n,
{
    if n > 0 {
        lemma_octal_digits_shape(v / 8, (n - 1) as nat);
        let prev = octal_digits(v / 8, (n - 1) as nat);
        assert(forall|i: int| 0 <= i < n - 1 ==> octal_digits(v, n)[i] == #[trigger] prev[i]);
        assert(octal_digits(v, n)[n - 1] == (0x30 + v % 8) as u8);
    }
}

/// Parsing the octal digits of `v` on top of `acc` scales `acc` past them
/// and adds `v`.
proof fn lemma_octal_digits_value(v: int, n: nat, acc: int)
    requires
        0 <= v < pow8(n),
    ensures
        octal_value(octal_digits(v, n), acc) == acc * pow8(n) + v,
    decreases n,
{
    if n == 0 {
        assert(octal_value(Seq::<u8>::empty(), acc) == acc);
    } else {
        let m = (n - 1) as nat;
        assert(pow8(n) == 8 * pow8(m));
        lemma_pow8_positive(m);
        assert(v / 8 < pow8(m)) by (nonlinear_arith)
            requires
                0 <= v < 8 * pow8(m),
                pow8(m) >= 1,
        ;
        lemma_octal_digits_value(v / 8, m, acc);
        let d = (0x30 + v % 8) as u8;
        assert(is_octal_digit(d));
        lemma_octal_value_push(octal_digits(v / 8, m), acc, d);
        assert(8 * (acc * pow8(m) + v / 8) + (v % 8) == acc * (8 * pow8(m)) + v)
            by (nonlinear_arith)
            requires
                v >= 0,
        ;
    }
}

/// Every byte of `s` is a space or NUL filler.
pub open spec fn all_fillers(s: Seq<u8>) -> bool {
    forall|i: int| 0 <= i < s.len() ==> is_octal_filler(#[trigger] s[i])
}

/// Fillers ahead of the digits contribute nothing to the value.
proof fn lemma_octal_value_skip_front(pre: Seq<u8>, rest: Seq<u8>, acc: int)
    requires
        all_fillers(pre),
    ensures
        octal_value(pre + rest, acc) == octal_value(rest, acc),
    decreases pre.len(),
{
    if pre.len() == 0 {
        assert(pre + rest =~= rest);
    } else {
        let s = pre + rest;
        assert(s[0] == pre[0]);
        assert(is_octal_filler(pre[0]));
        assert(!is_octal_digit(pre[0]));
        assert(s.drop_first() =~= pre.drop_first() + rest);
        assert(all_fillers(pre.drop_first())) by {
            assert(forall|i: int|
                0 <= i < pre.drop_first().len() ==> #[trigger] pre.drop_first()[i] == pre[i + 1]);
        }
        lemma_octal_value_skip_front(pre.drop_first(), rest, acc);
    }
}

/// Fillers after the digits contribute nothing to the value.
proof fn lemma_octal_value_skip_back(s: Seq<u8>, post: Seq<u8>, acc: int)
    requires
        all_fillers(post),
    ensures
        octal_value(s + post, acc) == octal_value(s, acc),
    decreases post.len(),
{
    if post.len() == 0 {
        assert(s + post =~= s);
    } else {
        let b = post.last();
        assert(is_octal_filler(b));
        assert(!is_octal_digit(b));
        assert(s + post =~= (s + post.drop_last()).push(b));
        assert(all_fillers(post.drop_last())) by {
            assert(forall|i: int|
                0 <= i < post.drop_last().len() ==> #[trigger] post.drop_last()[i] == post[i]);
        }
        lemma_octal_value_push(s + post.drop_last(), acc, b);
        lemma_octal_value_skip_back(s, post.drop_last(), acc);
    }
}

/// Any ASCII-octal encoding of `v` — its `n` octal digits with whatever
/// space/NUL padding before and termination after — parses back to `v`.
/// The length bound is the parser's own, keeping the accumulator in `u64`.
pub proof fn lemma_octal_round_trip_general(pre: Seq<u8>, v: u64, n: nat, post: Seq<u8>)
    requires
        all_fillers(pre),
        all_fillers(post),
        1 <= n,
        pre.len() + n + post.len() <= 21,
        v < pow8(n),
    ensures
        spec_parse_numeric(pre + octal_digits(v as int, n) + post) == Ok::<u64, ParseNumericError>(
            v,
        ),
{
    let digits = octal_digits(v as int, n);
    lemma_octal_digits_shape(v as int, n);
    let s = pre + digits + post;
    let b0 = s[0];
    assert(b0 == if pre.len() > 0 {
        pre[0]
    } else {
        digits[0]
    });
    assert(b0 == 0 || b0 == 0x20 || (0x30 <= b0 <= 0x37));
    assert(b0 & 0x80 == 0) by (bit_vector)
        requires
            b0 == 0 || b0 == 0x20 || (0x30 <= b0 <= 0x37),
    ;
    assert(octal_field_valid(s)) by {
        assert forall|i: int| 0 <= i < s.len() implies is_octal_digit(#[trigger] s[i])
            || is_octal_filler(s[i]) by {
            if i < pre.len() {
                assert(s[i] == pre[i]);
            } else if i < pre.len() + n {
                assert(s[i] == digits[i - pre.len()]);
            } else {
                assert(s[i] == post[i - pre.len() - n]);
            }
        }
    }
    assert(s =~= pre + (digits + post));
    lemma_octal_value_skip_front(pre, digits + post, 0);
    lemma_octal_value_skip_back(digits, post, 0);
    lemma_octal_digits_value(v as int, n, 0);
    assert(octal_value(s, 0) == v as int);
}

/// A value below eight to the eleventh, encoded as the standard 12-byte
/// ASCII octal length field, parses back to itself.
pub proof fn lemma_octal_round_trip(v: u64)
    requires
        v < 0x200000000,
    ensures
        spec_parse_numeric(octal12_encoding(v)) == Ok::<u64, ParseNumericError>(v),
{
    assert(pow8(11) == 0x200000000) by {
        reveal_with_fuel(pow8, 12);
    }
    lemma_octal_round_trip_general(Seq::<u8>::empty(), v, 11, seq![0u8]);
    assert(Seq::<u8>::empty() + octal_digits(v as int, 11) + seq![0u8] =~= octal12_encoding(v));
}

/// Appending one byte to the field multiplies the accumulated big-endian
/// value by 256.
proof fn lemma_packed_value_push(s: Seq<u8>, i: int, acc: int, b: u8)
    requires
        1 <= i <= s.len(),
    ensures
        packed_value(s.push(b), i, acc) == packed_value(s, i, acc) * 256 + b,
    decreases s.len() - i,
{
    if i == s.len() {
        assert(packed_value(s, i, acc) == acc);
        assert(packed_byte(s.push(b), i) == b);
        assert(packed_value(s.push(b), i + 1, acc * 256 + b) == acc * 256 + b);
    } else {
        assert(packed_byte(s.push(b), i) == packed_byte(s, i));
        lemma_packed_value_push(s, i + 1, acc * 256 + packed_byte(s, i), b);
    }
}

proof fn lemma_be_bytes_len(v: int, n: nat)
    ensures
        be_bytes(v, n).len() == n,
    decreases n,
{
    if n > 0 {
        lemma_be_bytes_len(v / 256, (n - 1) as nat);
    }
}

/// Parsing the big-endian bytes of `v` after `prefix` on top of `acc`
/// scales `acc` past them and adds `v`.
proof fn lemma_be_bytes_value(v: int, n: nat, prefix: Seq<u8>, acc: int)
    requires
        0 <= v < pow256(n),
        prefix.len() >= 1,
    ensures
        packed_value(prefix + be_bytes(v, n), prefix.len() as int, acc) == acc * pow256(n) + v,
    decreases n,
{
    lemma_be_bytes_len(v, n);
    if n == 0 {
        assert(prefix + be_bytes(v, n) =~= prefix);
        assert(packed_value(prefix, prefix.len() as int, acc) == acc);
    } else {
        let m = (n - 1) as nat;
        assert(pow256(n) == 256 * pow256(m));
        lemma_pow256_positive(m);
        assert(v / 256 < pow256(m)) by (nonlinear_arith)
            requires
                0 <= v < 256 * pow256(m),
                pow256(m) >= 1,
        ;
        lemma_be_bytes_value(v / 256, m, prefix, acc);
        let b = (v % 256) as u8;
        let shorter = prefix + be_bytes(v / 256, m);
        assert(prefix + be_bytes(v, n) =~= shorter.push(b)) by {
            lemma_be_bytes_len(v / 256, m);
        }
        lemma_packed_value_push(shorter, prefix.len() as int, acc, b);
        assert((acc * pow256(m) + v / 256) * 256 + (v % 256) == acc * (256 * pow256(m)) + v)
            by (nonlinear_arith)
            requires
                v >= 0,
        ;
    }
}

/// Any 64-bit value, encoded as the 12-byte packed-binary length field,
/// parses back to itself; wider values cannot be encoded at all, and fields
/// carrying set bits before the last 8 bytes are rejected by
/// [`spec_parse_numeric`].
pub proof fn lemma_packed_round_trip(v: u64)
    ensures
        spec_parse_numeric(packed12_encoding(v)) == Ok::<u64, ParseNumericError>(v),
{
    let prefix = seq![0x80u8, 0u8, 0u8, 0u8];
    let s = packed12_encoding(v);
    lemma_be_bytes_len(v as int, 8);
    assert(s.len() == 12);
    assert(s[0] == 0x80);
    assert(0x80u8 & 0x80u8 != 0) by (bit_vector);
    assert(0x80u8 & 0x7fu8 == 0) by (bit_vector);
    assert(packed_fits(s)) by {
        assert(packed_byte(s, 0) == 0x80u8 & 0x7fu8);
        assert(s[1] == 0 && s[2] == 0 && s[3] == 0);
    }
    assert(pow256(8) == 0x10000000000000000) by {
        lemma_pow256_8();
    }
    lemma_be_bytes_value(v as int, 8, prefix, 0);
    assert(packed_value(s, 4, 0) == v as int);
}

/// An all-zero record: every one of its 512 bytes is zero. At a frame
/// start such a record is end-of-archive padding.
pub open spec fn spec_is_null_record(s: Seq<u8>) -> bool {
    forall|i: int| 0 <= i < 512 ==> s[i] == 0
}

/// A record whose content is metadata for the next physical entry.
pub open spec fn spec_is_prefix_record(s: Seq<u8>) -> bool {
    s[156] == 0x78 || s[156] == 0x4b || s[156] == 0x4c
}

/// Read-only view over one 512-byte physical TAR record.
#[derive(Clone, Copy, Debug)]
pub struct Header<'a>(pub &'a [u8]);

impl<'a> Header<'a> {
    /// A header always borrows exactly one physical record.
    pub open spec fn wf(self) -> bool {
        self.0@.len() == RECORD_LEN
    }

    pub open spec fn view(self) -> Seq<u8> {
        self.0@
    }

    /// Spec of the 12-byte content-length field of this record.
    pub open spec fn spec_content_len(self) -> Result<u64, ParseNumericError> {
        spec_parse_numeric(self@.subrange(124, 136))
    }

    /// Content length, parsed from bytes 124..136.
    pub fn content_len(self) -> (r: Result<u64, ParseNumericError>)
        requires
            self.wf(),
        ensures
            r == self.spec_content_len(),
    {
        let bytes: &[u8] = vstd::slice::slice_subrange(self.0, 124, 136);
        parse_numeric(bytes)
    }

    /// Type flag at byte 156.
    pub fn type_flag(self) -> (r: u8)
        requires
            self.wf(),
        ensures
            r == self@[156],
    {
        *vstd::slice::slice_index_get(self.0, 156)
    }

    pub open spec fn spec_is_null(self) -> bool {
        spec_is_null_record(self@)
    }

    /// Whether every byte of the record is zero; at a frame start such a
    /// record is end-of-archive padding.
    pub fn is_null(self) -> (r: bool)
        requires
            self.wf(),
        ensures
            r == self.spec_is_null(),
    {
        let mut i: usize = 0;
        while i < 512
            invariant
                0 <= i <= 512,
                self.wf(),
                forall|j: int| 0 <= j < i ==> self@[j] == 0,
            decreases 512 - i,
        {
            if *vstd::slice::slice_index_get(self.0, i) != 0 {
                return false;
            }
            i += 1;
        }
        true
    }

    pub open spec fn spec_is_prefix(self) -> bool {
        spec_is_prefix_record(self@)
    }

    /// Records whose content is metadata for the next physical entry:
    /// `x` (PAX attributes), `K` (GNU long linkname), `L` (GNU long name).
    pub fn is_prefix(self) -> (r: bool)
        requires
            self.wf(),
        ensures
            r == self.spec_is_prefix(),
    {
        let flag = self.type_flag();
        flag == 0x78 || flag == 0x4b || flag == 0x4c
    }
}

} // verus!
