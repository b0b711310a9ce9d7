//! CRC-32 shingle hash.
//!
//! The least significant bit of the first byte of the message is the
//! coefficient of the highest-power term in the message polynomial. The
//! divisor below is the reflected form of the CRC-32C polynomial, the one
//! x86_64 SSE4.2 hardware acceleration computes, so a portable table-driven
//! computation and a hardware-accelerated one agree bit for bit.
//!
//! The specification [`crc32c`] processes the message one bit at a time; the
//! executable [`hash_portable`] is proved equal to it while consuming 16 bits
//! per lookup (8 for a trailing odd byte).

use vstd::prelude::*;

verus! {

pub type ShingleHash = u32;

/// Reflected CRC-32C divisor: bit 0 is the coefficient of x^31, the
/// coefficient of x^32 is implied.
pub const DIVISOR: u32 = 0x82F63B78;

/// One bit of CRC work: shift the accumulator right and fold the divisor in
/// if a one bit fell out.
pub open spec fn crc_step(a: u32) -> u32 {
    if a & 1 == 1 {
        (a >> 1) ^ DIVISOR
    } else {
        a >> 1
    }
}

/// `n` bits of CRC work.
pub open spec fn crc_steps(a: u32, n: nat) -> u32
    decreases n,
{
    if n == 0 {
        a
    } else {
        crc_step(crc_steps(a, (n - 1) as nat))
    }
}

/// Folding one message byte into the accumulator.
pub open spec fn crc_byte(a: u32, b: u8) -> u32 {
    crc_steps(a ^ (b as u32), 8)
}

/// Folding a whole message into the accumulator, front to back.
pub open spec fn crc_accum(a: u32, s: Seq<u8>) -> u32
    decreases s.len(),
{
    if s.len() == 0 {
        a
    } else {
        crc_accum(crc_byte(a, s[0]), s.drop_first())
    }
}

/// The shingle hash of a byte string: CRC with the accumulator seeded to
/// all-ones and the result complemented.
pub open spec fn crc32c(s: Seq<u8>) -> ShingleHash {
    !crc_accum(0xFFFFFFFFu32, s)
}

/// The bit step distributes over exclusive or.
proof fn lemma_crc_step_linear(x: u32, y: u32)
    ensures
        crc_step(x ^ y) == crc_step(x) ^ crc_step(y),
{
    assert(((x ^ y) & 1 == 1) == ((x & 1 == 1) != (y & 1 == 1))) by (bit_vector);
    assert(((x ^ y) >> 1) == (x >> 1) ^ (y >> 1)) by (bit_vector);
    let d = DIVISOR;
    if x & 1 == 1 && y & 1 == 1 {
        assert(((x >> 1) ^ d) ^ ((y >> 1) ^ d) == (x >> 1) ^ (y >> 1)) by (bit_vector);
    } else if x & 1 == 1 {
        assert(((x >> 1) ^ d) ^ (y >> 1) == ((x >> 1) ^ (y >> 1)) ^ d) by (bit_vector);
    } else if y & 1 == 1 {
        assert((x >> 1) ^ ((y >> 1) ^ d) == ((x >> 1) ^ (y >> 1)) ^ d) by (bit_vector);
    }
}

/// Any number of bit steps distributes over exclusive or.
proof fn lemma_crc_steps_linear(x: u32, y: u32, n: nat)
    ensures
        crc_steps(x ^ y, n) == crc_steps(x, n) ^ crc_steps(y, n),
    decreases n,
{
    if n > 0 {
        lemma_crc_steps_linear(x, y, (n - 1) as nat);
        lemma_crc_step_linear(crc_steps(x, (n - 1) as nat), crc_steps(y, (n - 1) as nat));
    }
}

/// Bit steps compose.
proof fn lemma_crc_steps_add(a: u32, m: nat, n: nat)
    ensures
        crc_steps(a, m + n) == crc_steps(crc_steps(a, m), n),
    decreases n,
{
    if n > 0 {
        lemma_crc_steps_add(a, m, (n - 1) as nat);
    }
}

/// On an accumulator whose low 8 bits are clear, 8 bit steps are a plain
/// shift: no one bit ever falls out.
proof fn lemma_crc_steps_low8(x: u32)
    requires
        x & 0xFF == 0,
    ensures
        crc_steps(x, 8) == x >> 8,
{
    reveal_with_fuel(crc_steps, 9);
    assert(x & 1 == 0 && x >> 1 == x >> 1 && (x >> 1) & 1 == 0 && (x >> 1) >> 1 == x >> 2 && (x
        >> 2) & 1 == 0 && (x >> 2) >> 1 == x >> 3 && (x >> 3) & 1 == 0 && (x >> 3) >> 1 == x >> 4
        && (x >> 4) & 1 == 0 && (x >> 4) >> 1 == x >> 5 && (x >> 5) & 1 == 0 && (x >> 5) >> 1 == x
        >> 6 && (x >> 6) & 1 == 0 && (x >> 6) >> 1 == x >> 7 && (x >> 7) & 1 == 0 && (x >> 7) >> 1
        == x >> 8) by (bit_vector)
        requires
            x & 0xFF == 0,
    ;
    assert(crc_steps(x, 1) == x >> 1);
    assert(crc_steps(x, 2) == x >> 2);
    assert(crc_steps(x, 3) == x >> 3);
    assert(crc_steps(x, 4) == x >> 4);
    assert(crc_steps(x, 5) == x >> 5);
    assert(crc_steps(x, 6) == x >> 6);
    assert(crc_steps(x, 7) == x >> 7);
    assert(crc_steps(x, 8) == x >> 8);
}

/// With the low 16 bits clear, 16 bit steps are a 16-bit shift.
proof fn lemma_crc_steps_low16(x: u32)
    requires
        x & 0xFFFF == 0,
    ensures
        crc_steps(x, 16) == x >> 16,
{
    lemma_crc_steps_add(x, 8, 8);
    assert(x & 0xFF == 0) by (bit_vector)
        requires
            x & 0xFFFF == 0,
    ;
    lemma_crc_steps_low8(x);
    assert((x >> 8) & 0xFF == 0 && (x >> 8) >> 8 == x >> 16) by (bit_vector)
        requires
            x & 0xFFFF == 0,
    ;
    lemma_crc_steps_low8(x >> 8);
}

/// Two byte folds equal 16 bit steps on the accumulator xored with the
/// little-endian 16-bit chunk of the two bytes.
proof fn lemma_crc_two_bytes(a: u32, b0: u8, b1: u8)
    ensures
        crc_byte(crc_byte(a, b0), b1) == crc_steps(a ^ ((b0 as u32) | ((b1 as u32) << 8)), 16),
{
    let chunk = (b0 as u32) | ((b1 as u32) << 8);
    // left side: fold b0, then b1
    lemma_crc_steps_linear(a ^ (b0 as u32), b1 as u32, 8);
    assert((crc_steps(a ^ (b0 as u32), 8)) ^ (b1 as u32) == (crc_steps(a ^ (b0 as u32), 8) ^ (
    b1 as u32)));
    lemma_crc_steps_add(a ^ (b0 as u32), 8, 8);
    // steps(steps(a^b0,8) ^ b1, 8) == steps(steps(a^b0,8),8) ^ steps(b1,8)
    lemma_crc_steps_linear(crc_steps(a ^ (b0 as u32), 8), b1 as u32, 8);
    // right side: split the chunk
    assert(a ^ chunk == (a ^ (b0 as u32)) ^ ((b1 as u32) << 8)) by (bit_vector)
        requires
            chunk == (b0 as u32) | ((b1 as u32) << 8),
    ;
    lemma_crc_steps_linear(a ^ (b0 as u32), (b1 as u32) << 8, 16);
    // the shifted byte shifts back down over the first 8 steps
    lemma_crc_steps_add((b1 as u32) << 8, 8, 8);
    assert(((b1 as u32) << 8) & 0xFF == 0 && ((b1 as u32) << 8) >> 8 == (b1 as u32))
        by (bit_vector);
    lemma_crc_steps_low8((b1 as u32) << 8);
    lemma_crc_steps_add(a ^ (b0 as u32), 8, 8);
}

/// One 16-bit table lookup performs two byte folds.
proof fn lemma_lut16_step(a: u32, b0: u8, b1: u8)
    ensures
        crc_steps((a & 0xFFFF) ^ ((b0 as u32) | ((b1 as u32) << 8)), 16) ^ (a >> 16) == crc_byte(
            crc_byte(a, b0),
            b1,
        ),
{
    let chunk = (b0 as u32) | ((b1 as u32) << 8);
    let idx = (a & 0xFFFF) ^ chunk;
    let hi = a & 0xFFFF0000u32;
    lemma_crc_two_bytes(a, b0, b1);
    assert(a ^ chunk == idx ^ hi) by (bit_vector)
        requires
            idx == (a & 0xFFFF) ^ chunk,
            hi == a & 0xFFFF0000u32,
    ;
    lemma_crc_steps_linear(idx, hi, 16);
    assert(hi & 0xFFFF == 0 && hi >> 16 == a >> 16) by (bit_vector)
        requires
            hi == a & 0xFFFF0000u32,
    ;
    lemma_crc_steps_low16(hi);
}

/// One 8-bit table lookup performs one byte fold.
proof fn lemma_lut8_step(a: u32, b: u8)
    ensures
        crc_steps((a & 0xFF) ^ (b as u32), 8) ^ (a >> 8) == crc_byte(a, b),
{
    let idx = (a & 0xFF) ^ (b as u32);
    let hi = a & 0xFFFFFF00u32;
    assert(a ^ (b as u32) == idx ^ hi) by (bit_vector)
        requires
            idx == (a & 0xFF) ^ (b as u32),
            hi == a & 0xFFFFFF00u32,
    ;
    lemma_crc_steps_linear(idx, hi, 8);
    assert(hi & 0xFF == 0 && hi >> 8 == a >> 8) by (bit_vector)
        requires
            hi == a & 0xFFFFFF00u32,
    ;
    lemma_crc_steps_low8(hi);
}

/// Folding one more byte extends the accumulated message by one.
proof fn lemma_crc_accum_push(a: u32, s: Seq<u8>, b: u8)
    ensures
        crc_accum(a, s.push(b)) == crc_byte(crc_accum(a, s), b),
    decreases s.len(),
{
    if s.len() == 0 {
        assert(s.push(b)[0] == b);
        assert(s.push(b).drop_first() =~= Seq::<u8>::empty());
        assert(crc_accum(a, s.push(b)) == crc_accum(crc_byte(a, b), s.push(b).drop_first()));
        assert(crc_accum(crc_byte(a, b), s.push(b).drop_first()) == crc_byte(a, b));
        assert(crc_accum(a, s) == a);
    } else {
        assert(s.push(b)[0] == s[0]);
        assert(s.push(b).drop_first() =~= s.drop_first().push(b));
        lemma_crc_accum_push(crc_byte(a, s[0]), s.drop_first(), b);
    }
}

/// Powers of two.
pub open spec fn pow2n(k: nat) -> nat
    decreases k,
{
    if k == 0 {
        1
    } else {
        2 * pow2n((k - 1) as nat)
    }
}

/// Base-2 logarithm, rounded down.
pub open spec fn lg(n: nat) -> nat
    decreases n,
{
    if n <= 1 {
        0
    } else {
        1 + lg(n / 2)
    }
}

proof fn lemma_pow2n_increases(m: nat, n: nat)
    requires
        m < n,
    ensures
        pow2n(m) < pow2n(n),
    decreases n,
{
    lemma_pow2n_positive(m);
    if m < n - 1 {
        lemma_pow2n_increases(m, (n - 1) as nat);
    }
}

proof fn lemma_pow2n_positive(n: nat)
    ensures
        pow2n(n) >= 1,
    decreases n,
{
    if n > 0 {
        lemma_pow2n_positive((n - 1) as nat);
    }
}

/// Lookup table for hashing `lg(N)` bits of the message in one go.
/// `N` must be a power of two; entry `i` is `lg(N)` bit steps applied to `i`.
pub fn generate_lut<const N: usize>() -> (r: Vec<u32>)
    requires
        pow2n(lg(N as nat)) == N,
        N <= 0x100000000,
    ensures
        r@.len() == N,
        forall|i: int| 0 <= i < N ==> r@[i] == crc_steps(i as u32, lg(N as nat)),
{
    let ghost bits = lg(N as nat);
    let mut lut: Vec<u32> = Vec::new();
    let mut msg_frag: usize = 0;
    while msg_frag < N
        invariant
            0 <= msg_frag <= N,
            N <= 0x100000000,
            pow2n(bits) == N,
            bits == lg(N as nat),
            lut@.len() == msg_frag,
            forall|i: int| 0 <= i < msg_frag ==> lut@[i] == crc_steps(i as u32, bits),
        decreases N - msg_frag,
    {
        let mut accum: u32 = msg_frag as u32;
        let mut bit: usize = 1;
        let ghost mut j: nat = 0nat;
        proof {
            lemma_pow2n_positive(bits);
        }
        while bit < N
            invariant
                bit >= 1,
                bit == pow2n(j),
                pow2n(j) <= N,
                pow2n(bits) == N,
                accum == crc_steps(msg_frag as u32, j),
            decreases N - bit,
        {
            let ghost a0 = accum;
            let bit_shifted_out = accum & 1 != 0;
            accum = accum >> 1;
            if bit_shifted_out {
                accum = accum ^ DIVISOR;
            }
            proof {
                assert(a0 & 1 == 0 || a0 & 1 == 1) by (bit_vector);
                assert(accum == crc_step(a0));
                assert(crc_steps(msg_frag as u32, j + 1) == crc_step(crc_steps(msg_frag as u32, j)));
                // bit == pow2n(j) is still below N == pow2n(bits), so j < bits
                // and doubling bit cannot pass N
                if j >= bits {
                    if j > bits {
                        lemma_pow2n_increases(bits, j);
                    }
                    assert(false);
                }
                if j + 1 < bits {
                    lemma_pow2n_increases(j + 1, bits);
                }
                assert(pow2n(j + 1) == 2 * pow2n(j));
                j = j + 1nat;
            }
            bit = bit * 2;
        }
        proof {
            // bit reached N exactly, so exactly lg(N) steps were taken
            if j < bits {
                lemma_pow2n_increases(j, bits);
            }
            if j > bits {
                lemma_pow2n_increases(bits, j);
            }
            assert(j == bits);
        }
        lut.push(accum);
        msg_frag = msg_frag + 1;
    }
    lut
}

/// CRC of `input[start..end]` using the two lookup tables, 16 bits at a time
/// with an 8-bit step for a trailing odd byte.
fn hash_range(lut8: &Vec<u32>, lut16: &Vec<u32>, input: &[u8], start: usize, end: usize) -> (r:
    ShingleHash)
    requires
        lut8@.len() == 256,
        forall|i: int| 0 <= i < 256 ==> lut8@[i] == crc_steps(i as u32, 8),
        lut16@.len() == 65536,
        forall|i: int| 0 <= i < 65536 ==> lut16@[i] == crc_steps(i as u32, 16),
        start <= end <= input@.len(),
    ensures
        r == crc32c(input@.subrange(start as int, end as int)),
{
    let mut accum: u32 = 0xFFFFFFFF;
    let mut i: usize = start;
    proof {
        assert(input@.subrange(start as int, start as int) =~= Seq::<u8>::empty());
    }
    while end - i >= 2
        invariant
            start <= i <= end <= input@.len(),
            accum == crc_accum(0xFFFFFFFFu32, input@.subrange(start as int, i as int)),
            lut8@.len() == 256,
            forall|k: int| 0 <= k < 256 ==> lut8@[k] == crc_steps(k as u32, 8),
            lut16@.len() == 65536,
            forall|k: int| 0 <= k < 65536 ==> lut16@[k] == crc_steps(k as u32, 16),
        decreases end - i,
    {
        let b0 = *vstd::slice::slice_index_get(input, i);
        let b1 = *vstd::slice::slice_index_get(input, i + 1);
        let chunk: u32 = (b0 as u32) | ((b1 as u32) << 8u32);
        let idx: u32 = (accum & 0xFFFF) ^ chunk;
        assert(idx < 65536) by (bit_vector)
            requires
                idx == (accum & 0xFFFF) ^ chunk,
                chunk == (b0 as u32) | ((b1 as u32) << 8u32),
        ;
        let looked_up = lut16[idx as usize];
        proof {
            lemma_lut16_step(accum, b0, b1);
            let prefix = input@.subrange(start as int, i as int);
            lemma_crc_accum_push(0xFFFFFFFFu32, prefix, b0);
            lemma_crc_accum_push(0xFFFFFFFFu32, prefix.push(b0), b1);
            assert(prefix.push(b0).push(b1) =~= input@.subrange(start as int, i + 2));
        }
        accum = looked_up ^ (accum >> 16);
        i = i + 2;
    }
    if i < end {
        let b = *vstd::slice::slice_index_get(input, i);
        let idx: u32 = (accum & 0xFF) ^ (b as u32);
        assert(idx < 256) by (bit_vector)
            requires
                idx == (accum & 0xFF) ^ (b as u32),
        ;
        let looked_up = lut8[idx as usize];
        proof {
            lemma_lut8_step(accum, b);
            let prefix = input@.subrange(start as int, i as int);
            lemma_crc_accum_push(0xFFFFFFFFu32, prefix, b);
            assert(prefix.push(b) =~= input@.subrange(start as int, i + 1));
        }
        accum = looked_up ^ (accum >> 8);
        i = i + 1;
    }
    !accum
}

/// Hardware-independent shingle hash: the CRC-32C of `input`, computed with
/// lookup tables and proved equal to the bit-level specification [`crc32c`].
pub fn hash_portable(input: &[u8]) -> (r: ShingleHash)
    ensures
        r == crc32c(input@),
{
    let tables = HashTables::new();
    let r = tables.hash_range(input, 0, input.len());
    proof {
        assert(input@.subrange(0, input@.len() as int) =~= input@);
    }
    r
}

/// The two CRC lookup tables, built once and reused across many windows.
pub struct HashTables {
    lut8: Vec<u32>,
    lut16: Vec<u32>,
}

impl HashTables {
    pub closed spec fn wf(self) -> bool {
        &&& self.lut8@.len() == 256
        &&& forall|i: int| 0 <= i < 256 ==> self.lut8@[i] == crc_steps(i as u32, 8)
        &&& self.lut16@.len() == 65536
        &&& forall|i: int| 0 <= i < 65536 ==> self.lut16@[i] == crc_steps(i as u32, 16)
    }

    pub fn new() -> (r: HashTables)
        ensures
            r.wf(),
    {
        proof {
            assert(lg(256) == 8 && lg(65536) == 16) by {
                reveal_with_fuel(lg, 20);
            }
            assert(pow2n(8) == 256 && pow2n(16) == 65536) by {
                reveal_with_fuel(pow2n, 20);
            }
        }
        let lut8 = generate_lut::<256>();
        let lut16 = generate_lut::<65536>();
        HashTables { lut8, lut16 }
    }

    /// CRC-32C of `input[start..end]`.
    pub fn hash_range(&self, input: &[u8], start: usize, end: usize) -> (r: ShingleHash)
        requires
            self.wf(),
            start <= end <= input@.len(),
        ensures
            r == crc32c(input@.subrange(start as int, end as int)),
    {
        hash_range(&self.lut8, &self.lut16, input, start, end)
    }
}

} // verus!
