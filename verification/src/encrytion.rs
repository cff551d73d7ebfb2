use crate::endian::{le_u64, lemma_le_u64_roundtrip, u64_le_bytes, u64_to_le_bytes};
use vstd::arithmetic::div_mod::{lemma_add_mod_noop, lemma_mod_twice, lemma_small_mod};
use vstd::prelude::*;

verus! {

pub const GOLDEN: u64 = 0x61C8_8646_80B5_83EBu64;

pub const GOLDEN32: u32 = 2_654_435_761u32;

/// Most bytes one write hands to the inner writer.
pub const CHUNK: usize = 16 * 256;

/// The 64-bit finaliser that `mix` computes.
pub open spec fn mix_spec(v: u64) -> u64 {
    let t = 0xBF58_476D_1CE4_E5B9u64.wrapping_mul(v ^ (v >> 30u64));
    let u = t ^ (t >> 27u64);
    let w = 0x94D0_49BB_1331_11EBu64.wrapping_mul(u);
    w ^ (w >> 31u64)
}

/// The seed that a 32-bit key is spread into before mixing.
pub open spec fn seed_of(key: u32) -> u64 {
    (((key as u64) << 32u64) ^ ((GOLDEN32 as u64 * key as u64 + 1) as u64)).wrapping_sub(GOLDEN)
}

/// The sixteen key-stream bytes derived from a 32-bit key: the little-endian bytes of
/// the mixed seed, then those of the mixed seed less the golden constant.
pub open spec fn key_bytes(key: u32) -> Seq<u8> {
    u64_le_bytes(mix_spec(seed_of(key))) + u64_le_bytes(mix_spec(seed_of(key).wrapping_sub(GOLDEN)))
}

/// The bytes `data` become when XOR-ed with the repeating sixteen-byte `key`, the first
/// byte meeting key byte `phase`.
pub open spec fn xor_stream(key: Seq<u8>, phase: nat, data: Seq<u8>) -> Seq<u8> {
    Seq::new(data.len(), |i: int| data[i] ^ key[(phase + i) % 16])
}

/// What a key pad is: its sixteen key bytes and the position in them that the next
/// byte meets.
pub struct PadState {
    pub key: Seq<u8>,
    pub phase: nat,
}

/// A sixteen-byte repeating key stream and the position reached in it.
pub struct XorPad {
    pad: [u8; 16],
    phase: usize,
}

impl View for XorPad {
    type V = PadState;

    closed spec fn view(&self) -> PadState {
        PadState { key: self.pad@, phase: self.phase as nat }
    }
}

impl XorPad {
    #[verifier::type_invariant]
    spec fn phase_in_range(&self) -> bool {
        self.phase < 16
    }

    pub fn new(pad: [u8; 16]) -> (p: XorPad)
        ensures
            p@.key == pad@,
            p@.phase == 0,
    {
        XorPad { pad, phase: 0 }
    }

    /// XORs `buf` in place with the key stream from the current position on, and
    /// moves the position on by the length of `buf`.
    pub fn apply(&mut self, buf: &mut [u8])
        ensures
            final(self)@.key == old(self)@.key,
            final(self)@.phase == (old(self)@.phase + old(buf)@.len()) % 16,
            final(buf)@ == xor_stream(old(self)@.key, old(self)@.phase, old(buf)@),
            final(buf)@.len() == old(buf)@.len(),
            forall|i: int|
                0 <= i < old(buf)@.len() ==> #[trigger] final(buf)@[i] == old(buf)@[i] ^ old(
                    self,
                )@.key[(old(self)@.phase + i) % 16],
    {
        proof {
            use_type_invariant(&*self);
        }
        let ghost key = self.pad@;
        let ghost p0 = self.phase as nat;
        let ghost orig = buf@;
        let mut i: usize = 0;
        while i < buf.len()
            invariant
                i <= buf@.len(),
                buf@.len() == orig.len(),
                self.pad@ == key,
                key.len() == 16,
                self.phase < 16,
                self.phase == (p0 + i) % 16,
                forall|j: int| 0 <= j < i ==> #[trigger] buf@[j] == orig[j] ^ key[(p0 + j) % 16],
                forall|j: int| i <= j < buf@.len() ==> #[trigger] buf@[j] == orig[j],
            decreases buf@.len() - i,
        {
            let phase = self.phase;
            let take = if 16 - phase < buf.len() - i {
                16 - phase
            } else {
                buf.len() - i
            };
            let mut j: usize = 0;
            while j < take
                invariant
                    i + take <= buf@.len(),
                    buf@.len() <= usize::MAX,
                    phase + take <= 16,
                    j <= take,
                    buf@.len() == orig.len(),
                    self.pad@ == key,
                    key.len() == 16,
                    phase == (p0 + i) % 16,
                    forall|k: int| 0 <= k < i + j ==> #[trigger] buf@[k] == orig[k] ^ key[(p0 + k) % 16],
                    forall|k: int| i + j <= k < buf@.len() ==> #[trigger] buf@[k] == orig[k],
                decreases take - j,
            {
                proof {
                    lemma_add_mod_noop((p0 + i) as int, j as int, 16);
                    lemma_small_mod(j as nat, 16);
                    lemma_small_mod((phase + j) as nat, 16);
                }
                let idx = i + j;
                buf[idx] = buf[idx] ^ self.pad[phase + j];
                j += 1;
            }
            proof {
                lemma_add_mod_noop((p0 + i) as int, take as int, 16);
                lemma_add_mod_noop(phase as int, take as int, 16);
                lemma_small_mod(phase as nat, 16);
                let s = (phase + take) as usize;
                assert(s & 15 == s % 16) by (bit_vector);
            }
            i += take;
            self.phase = (phase + take) & 15;
        }
        assert(buf@ =~= xor_stream(key, p0, orig));
    }
}

/// XORs `data` in place with the key stream of `key`, from its first byte on.
pub fn apply_key(data: &mut [u8], key: &[u8; 16])
    ensures
        final(data)@ == xor_stream(key@, 0, old(data)@),
        final(data)@.len() == old(data)@.len(),
        forall|i: int|
            0 <= i < old(data)@.len() ==> #[trigger] final(data)@[i] == old(data)@[i] ^ key@[i % 16],
{
    let mut pad = XorPad::new(*key);
    pad.apply(data);
}

/// Each byte of the key stream's output is the input byte XOR-ed with the key byte that
/// the position has reached: key byte `(phase + i) % 16` for byte `i`, whatever the key.
pub proof fn lemma_xor_stream_bytes(key: Seq<u8>, phase: nat, data: Seq<u8>)
    ensures
        xor_stream(key, phase, data).len() == data.len(),
        forall|i: int|
            0 <= i < data.len() ==> #[trigger] xor_stream(key, phase, data)[i] ^ data[i] == key[(phase
                + i) % 16],
{
    assert forall|i: int| 0 <= i < data.len() implies #[trigger] xor_stream(key, phase, data)[i]
        ^ data[i] == key[(phase + i) % 16] by {
        let (x, k) = (data[i], key[(phase + i) % 16]);
        assert((x ^ k) ^ x == k) by (bit_vector);
    }
}

/// `n` zero bytes.
pub open spec fn zeros(n: nat) -> Seq<u8> {
    Seq::new(n, |j: int| 0u8)
}

/// Applying the key stream to zero bytes reveals it: the key bytes from `phase` on,
/// over and over.
pub proof fn lemma_xor_stream_of_zeros(key: Seq<u8>, phase: nat, n: nat)
    ensures
        forall|i: int|
            0 <= i < n ==> #[trigger] xor_stream(key, phase, zeros(n))[i] == key[(
            phase + i) % 16],
{
    assert forall|i: int| 0 <= i < n implies #[trigger] xor_stream(
        key,
        phase,
        zeros(n),
    )[i] == key[(phase + i) % 16] by {
        let k = key[(phase + i) % 16];
        assert(0u8 ^ k == k) by (bit_vector);
    }
}

/// Starting the key stream at position `phase` is starting the key turned left by
/// `phase` at its first byte.
pub proof fn lemma_xor_stream_rotate(key: Seq<u8>, phase: nat, data: Seq<u8>)
    requires
        key.len() == 16,
        phase < 16,
    ensures
        xor_stream(key, phase, data) == xor_stream(
            key.subrange(phase as int, 16) + key.take(phase as int),
            0,
            data,
        ),
{
    let rotated = key.subrange(phase as int, 16) + key.take(phase as int);
    assert forall|i: int| 0 <= i < data.len() implies #[trigger] data[i] ^ key[(phase + i) % 16] == data[i] ^ rotated[(0 + i) % 16] by {
        lemma_add_mod_noop(phase as int, i, 16);
        lemma_small_mod(phase, 16);
        if phase + i % 16 < 16 {
            lemma_small_mod((phase + i % 16) as nat, 16);
        } else {
            vstd::arithmetic::div_mod::lemma_mod_sub_multiples_vanish((phase + i % 16) as int, 16);
            lemma_small_mod((phase + i % 16 - 16) as nat, 16);
        }
        assert((0 + i) % 16 == i % 16);
    }
    assert(xor_stream(key, phase, data) =~= xor_stream(rotated, 0, data));
}

/// Applying the key stream to two pieces in turn, the second from where the first
/// left the position, is applying it to the two pieces joined: the bytes agree, and so
/// does the position reached.
pub proof fn lemma_xor_stream_split(key: Seq<u8>, phase: nat, a: Seq<u8>, b: Seq<u8>)
    requires
        phase < 16,
    ensures
        xor_stream(key, phase, a + b) == xor_stream(key, phase, a) + xor_stream(
            key,
            (phase + a.len()) % 16,
            b,
        ),
        ((phase + a.len()) % 16 + b.len()) % 16 == (phase + (a + b).len()) % 16,
{
    let lhs = xor_stream(key, phase, a + b);
    let rhs = xor_stream(key, phase, a) + xor_stream(key, (phase + a.len()) % 16, b);
    assert forall|i: int| 0 <= i < lhs.len() implies lhs[i] == rhs[i] by {
        if i >= a.len() {
            lemma_add_mod_noop((phase + a.len()) as int, i - a.len(), 16);
            let k = i - a.len();
            lemma_small_mod(((phase + a.len()) % 16) as nat, 16);
            lemma_add_mod_noop(((phase + a.len()) % 16) as int, k, 16);
        }
    }
    assert(lhs =~= rhs);
    lemma_add_mod_noop((phase + a.len()) as int, b.len() as int, 16);
    lemma_small_mod(((phase + a.len()) % 16) as nat, 16);
    lemma_add_mod_noop(((phase + a.len()) % 16) as int, b.len() as int, 16);
}

/// Applying the same key stream twice from the same position gives the data back.
pub proof fn lemma_xor_stream_involution(key: Seq<u8>, phase: nat, data: Seq<u8>)
    ensures
        xor_stream(key, phase, xor_stream(key, phase, data)) == data,
        xor_stream(key, phase, data).len() == data.len(),
{
    let once = xor_stream(key, phase, data);
    let twice = xor_stream(key, phase, once);
    assert forall|i: int| 0 <= i < data.len() implies twice[i] == data[i] by {
        let (x, k) = (data[i], key[(phase + i) % 16]);
        assert((x ^ k) ^ k == x) by (bit_vector);
    }
    assert(twice =~= data);
}

/// `mix_spec` undone: each xor-shift and each multiplication by an odd constant in turn.
pub open spec fn unmix_spec(y: u64) -> u64 {
    let w = y ^ (y >> 31u64) ^ (y >> 62u64);
    let u = (0x3196_42B2_D24D_8EC3u64 * w) as u64;
    let t = u ^ (u >> 27u64) ^ (u >> 54u64);
    let a = (0x96DE_1B17_3F11_9089u64 * t) as u64;
    a ^ (a >> 30u64) ^ (a >> 60u64)
}

/// A wrapping multiplication is the product cut to 64 bits.
proof fn lemma_wrapping_mul_cut(c: u64, x: u64)
    ensures
        c.wrapping_mul(x) == (c * x) as u64,
{
    assert(((c * x) % 0x10000000000000000) as u64 == (c * x) as u64) by (bit_vector);
}

/// `mix` is a bijection on 64-bit values: `unmix_spec` undoes it and it undoes
/// `unmix_spec`, so two different inputs never mix to the same output.
pub proof fn lemma_mix_bijective(x: u64, y: u64)
    ensures
        unmix_spec(mix_spec(x)) == x,
        mix_spec(unmix_spec(y)) == y,
        mix_spec(x) == mix_spec(y) ==> x == y,
{
    lemma_unmix_mix(x);
    lemma_unmix_mix(y);
    lemma_mix_unmix(y);
}

proof fn lemma_unmix_mix(x: u64)
    ensures
        unmix_spec(mix_spec(x)) == x,
{
    let a = x ^ (x >> 30u64);
    let t = (0xBF58_476D_1CE4_E5B9u64 * a) as u64;
    let u = t ^ (t >> 27u64);
    let w = (0x94D0_49BB_1331_11EBu64 * u) as u64;
    let m = w ^ (w >> 31u64);
    lemma_wrapping_mul_cut(0xBF58_476D_1CE4_E5B9u64, a);
    lemma_wrapping_mul_cut(0x94D0_49BB_1331_11EBu64, u);
    assert(mix_spec(x) == m);
    assert(m ^ (m >> 31u64) ^ (m >> 62u64) == w) by (bit_vector)
        requires
            m == w ^ (w >> 31u64),
    ;
    assert((0x3196_42B2_D24D_8EC3u64 * w) as u64 == u) by (bit_vector)
        requires
            w == (0x94D0_49BB_1331_11EBu64 * u) as u64,
    ;
    assert(u ^ (u >> 27u64) ^ (u >> 54u64) == t) by (bit_vector)
        requires
            u == t ^ (t >> 27u64),
    ;
    assert((0x96DE_1B17_3F11_9089u64 * t) as u64 == a) by (bit_vector)
        requires
            t == (0xBF58_476D_1CE4_E5B9u64 * a) as u64,
    ;
    assert(a ^ (a >> 30u64) ^ (a >> 60u64) == x) by (bit_vector)
        requires
            a == x ^ (x >> 30u64),
    ;
}

proof fn lemma_mix_unmix(y: u64)
    ensures
        mix_spec(unmix_spec(y)) == y,
{
    let w2 = y ^ (y >> 31u64) ^ (y >> 62u64);
    let u2 = (0x3196_42B2_D24D_8EC3u64 * w2) as u64;
    let t2 = u2 ^ (u2 >> 27u64) ^ (u2 >> 54u64);
    let a2 = (0x96DE_1B17_3F11_9089u64 * t2) as u64;
    let x2 = a2 ^ (a2 >> 30u64) ^ (a2 >> 60u64);
    assert(unmix_spec(y) == x2);
    lemma_wrapping_mul_cut(0xBF58_476D_1CE4_E5B9u64, x2 ^ (x2 >> 30u64));
    assert(x2 ^ (x2 >> 30u64) == a2) by (bit_vector)
        requires
            x2 == a2 ^ (a2 >> 30u64) ^ (a2 >> 60u64),
    ;
    assert((0xBF58_476D_1CE4_E5B9u64 * a2) as u64 == t2) by (bit_vector)
        requires
            a2 == (0x96DE_1B17_3F11_9089u64 * t2) as u64,
    ;
    assert(t2 ^ (t2 >> 27u64) == u2) by (bit_vector)
        requires
            t2 == u2 ^ (u2 >> 27u64) ^ (u2 >> 54u64),
    ;
    lemma_wrapping_mul_cut(0x94D0_49BB_1331_11EBu64, u2);
    assert((0x94D0_49BB_1331_11EBu64 * u2) as u64 == w2) by (bit_vector)
        requires
            u2 == (0x3196_42B2_D24D_8EC3u64 * w2) as u64,
    ;
    assert(w2 ^ (w2 >> 31u64) == y) by (bit_vector)
        requires
            w2 == y ^ (y >> 31u64) ^ (y >> 62u64),
    ;
}

/// What a key stream is made of, read back through `unmix_spec`: its first eight bytes
/// are the mix of the key's seed and its last eight the mix of that seed less
/// 0x61C8864680B583EB; the seed plus 0x61C8864680B583EB has the low 32 bits of
/// `2654435761 * key + 1` and, above them, the key XOR-ed with that product's high 32 bits.
pub proof fn lemma_key_gen_halves(key: u32)
    ensures
        ({
            let ks = key_bytes(key);
            let lo = unmix_spec(le_u64(ks.take(8)));
            let hi = unmix_spec(le_u64(ks.subrange(8, 16)));
            let pre = lo.wrapping_add(0x61C8_8646_80B5_83EBu64);
            &&& ks.len() == 16
            &&& hi == lo.wrapping_sub(0x61C8_8646_80B5_83EBu64)
            &&& pre as u32 == (2654435761u64 * key as u64 + 1) as u32
            &&& (pre >> 32u64) as u32 == key ^ (((2654435761u64 * key as u64 + 1) as u64) >> 32u64) as u32
        }),
{
    let ks = key_bytes(key);
    let seed = seed_of(key);
    let seed2 = seed.wrapping_sub(GOLDEN);
    lemma_le_u64_roundtrip(mix_spec(seed));
    lemma_le_u64_roundtrip(mix_spec(seed2));
    assert(ks.take(8) =~= u64_le_bytes(mix_spec(seed)));
    assert(ks.subrange(8, 16) =~= u64_le_bytes(mix_spec(seed2)));
    lemma_mix_bijective(seed, seed2);
    lemma_mix_bijective(seed2, seed);
    let k = key as u64;
    let p = (k << 32u64) ^ ((2654435761u64 * k + 1) as u64);
    assert(GOLDEN32 as u64 * key as u64 + 1 <= u64::MAX) by (nonlinear_arith)
        requires
            key <= u32::MAX,
    ;
    assert(seed == p.wrapping_sub(GOLDEN));
    assert(seed.wrapping_add(GOLDEN) == p);
    assert(p as u32 == (2654435761u64 * k + 1) as u32 && (p >> 32u64) as u32 == key ^ (((
    2654435761u64 * k + 1) as u64) >> 32u64) as u32) by (bit_vector)
        requires
            k == key as u64,
            p == (k << 32u64) ^ ((2654435761u64 * k + 1) as u64),
            2654435761u64 * k + 1 <= 0xFFFF_FFFF_FFFF_FFFFu64,
    ;
}

/// The mixing function with its wrapping products written as products cut to 64 bits.
pub open spec fn mix_cut(v: u64) -> u64 {
    let t = (0xBF58_476D_1CE4_E5B9u64 * (v ^ (v >> 30u64))) as u64;
    let u = t ^ (t >> 27u64);
    let w = (0x94D0_49BB_1331_11EBu64 * u) as u64;
    w ^ (w >> 31u64)
}

proof fn lemma_mix_cut(v: u64)
    ensures
        mix_spec(v) == mix_cut(v),
{
    lemma_wrapping_mul_cut(0xBF58_476D_1CE4_E5B9u64, v ^ (v >> 30u64));
    let t = (0xBF58_476D_1CE4_E5B9u64 * (v ^ (v >> 30u64))) as u64;
    lemma_wrapping_mul_cut(0x94D0_49BB_1331_11EBu64, t ^ (t >> 27u64));
}

/// The key stream of `key` from its spread value `p`, its two seeds `s` and `s2` and
/// their mixes `lo` and `hi`.
proof fn lemma_key_bytes_at(key: u32, p: u64, s: u64, s2: u64, lo: u64, hi: u64)
    requires
        ((key as u64) << 32u64) ^ ((2654435761u64 * key as u64 + 1) as u64) == p,
        p.wrapping_sub(GOLDEN) == s,
        s.wrapping_sub(GOLDEN) == s2,
        mix_cut(s) == lo,
        mix_cut(s2) == hi,
    ensures
        key_bytes(key) == u64_le_bytes(lo) + u64_le_bytes(hi),
{
    assert(GOLDEN32 as u64 * key as u64 + 1 <= u64::MAX) by (nonlinear_arith)
        requires
            key <= u32::MAX,
    ;
    assert(seed_of(key) == s);
    lemma_mix_cut(s);
    lemma_mix_cut(s2);
}

#[verifier::rlimit(50)]
proof fn lemma_key_bytes_0()
    ensures
        key_bytes(0u32) == seq![193u8, 92, 2, 137, 236, 45, 10, 145, 103, 236, 142, 101, 161, 141, 235, 190],
{
    let key = 0u32;
    assert(((key as u64) << 32u64) ^ ((2654435761u64 * key as u64 + 1) as u64) == 0x1u64) by (bit_vector)
        requires
            key == 0u32,
    ;
    assert(mix_cut(0x9e3779b97f4a7c16u64) == 0x910a2dec89025cc1u64) by (bit_vector);
    assert(mix_cut(0x3c6ef372fe94f82bu64) == 0xbeeb8da1658eec67u64) by (bit_vector);
    lemma_key_bytes_at(key, 0x1u64, 0x9e3779b97f4a7c16u64, 0x3c6ef372fe94f82bu64, 0x910a2dec89025cc1u64, 0xbeeb8da1658eec67u64);
    assert((0x910a2dec89025cc1u64 as u8) == 193u8 && ((0x910a2dec89025cc1u64 >> 8u64) as u8) == 92u8 && ((0x910a2dec89025cc1u64 >> 16u64) as u8) == 2u8 && ((0x910a2dec89025cc1u64 >> 24u64) as u8) == 137u8 && ((0x910a2dec89025cc1u64 >> 32u64) as u8) == 236u8 && ((0x910a2dec89025cc1u64 >> 40u64) as u8) == 45u8 && ((0x910a2dec89025cc1u64 >> 48u64) as u8) == 10u8 && ((0x910a2dec89025cc1u64 >> 56u64) as u8) == 145u8) by (bit_vector);
    assert((0xbeeb8da1658eec67u64 as u8) == 103u8 && ((0xbeeb8da1658eec67u64 >> 8u64) as u8) == 236u8 && ((0xbeeb8da1658eec67u64 >> 16u64) as u8) == 142u8 && ((0xbeeb8da1658eec67u64 >> 24u64) as u8) == 101u8 && ((0xbeeb8da1658eec67u64 >> 32u64) as u8) == 161u8 && ((0xbeeb8da1658eec67u64 >> 40u64) as u8) == 141u8 && ((0xbeeb8da1658eec67u64 >> 48u64) as u8) == 235u8 && ((0xbeeb8da1658eec67u64 >> 56u64) as u8) == 190u8) by (bit_vector);
    assert(seq![193u8, 92, 2, 137, 236, 45, 10, 145, 103, 236, 142, 101, 161, 141, 235, 190] =~= u64_le_bytes(0x910a2dec89025cc1u64) + u64_le_bytes(0xbeeb8da1658eec67u64));
}

#[verifier::rlimit(50)]
proof fn lemma_key_bytes_4()
    ensures
        key_bytes(4u32) == seq![28u8, 145, 184, 193, 188, 165, 135, 89, 59, 200, 12, 93, 21, 143, 25, 68],
{
    let key = 4u32;
    assert(((key as u64) << 32u64) ^ ((2654435761u64 * key as u64 + 1) as u64) == 0x678dde6c5u64) by (bit_vector)
        requires
            key == 4u32,
    ;
    assert(mix_cut(0x9e3779bff82862dau64) == 0x5987a5bcc1b8911cu64) by (bit_vector);
    assert(mix_cut(0x3c6ef3797772deefu64) == 0x44198f155d0cc83bu64) by (bit_vector);
    lemma_key_bytes_at(key, 0x678dde6c5u64, 0x9e3779bff82862dau64, 0x3c6ef3797772deefu64, 0x5987a5bcc1b8911cu64, 0x44198f155d0cc83bu64);
    assert((0x5987a5bcc1b8911cu64 as u8) == 28u8 && ((0x5987a5bcc1b8911cu64 >> 8u64) as u8) == 145u8 && ((0x5987a5bcc1b8911cu64 >> 16u64) as u8) == 184u8 && ((0x5987a5bcc1b8911cu64 >> 24u64) as u8) == 193u8 && ((0x5987a5bcc1b8911cu64 >> 32u64) as u8) == 188u8 && ((0x5987a5bcc1b8911cu64 >> 40u64) as u8) == 165u8 && ((0x5987a5bcc1b8911cu64 >> 48u64) as u8) == 135u8 && ((0x5987a5bcc1b8911cu64 >> 56u64) as u8) == 89u8) by (bit_vector);
    assert((0x44198f155d0cc83bu64 as u8) == 59u8 && ((0x44198f155d0cc83bu64 >> 8u64) as u8) == 200u8 && ((0x44198f155d0cc83bu64 >> 16u64) as u8) == 12u8 && ((0x44198f155d0cc83bu64 >> 24u64) as u8) == 93u8 && ((0x44198f155d0cc83bu64 >> 32u64) as u8) == 21u8 && ((0x44198f155d0cc83bu64 >> 40u64) as u8) == 143u8 && ((0x44198f155d0cc83bu64 >> 48u64) as u8) == 25u8 && ((0x44198f155d0cc83bu64 >> 56u64) as u8) == 68u8) by (bit_vector);
    assert(seq![28u8, 145, 184, 193, 188, 165, 135, 89, 59, 200, 12, 93, 21, 143, 25, 68] =~= u64_le_bytes(0x5987a5bcc1b8911cu64) + u64_le_bytes(0x44198f155d0cc83bu64));
}

#[verifier::rlimit(50)]
proof fn lemma_key_bytes_max()
    ensures
        key_bytes(0xFFFF_FFFFu32) == seq![240u8, 238, 191, 103, 35, 105, 111, 170, 104, 4, 253, 238, 35, 29, 55, 203],
{
    let key = 0xFFFF_FFFFu32;
    assert(((key as u64) << 32u64) ^ ((2654435761u64 * key as u64 + 1) as u64) == 0x61c8864f61c88650u64) by (bit_vector)
        requires
            key == 0xFFFF_FFFFu32,
    ;
    assert(mix_cut(0x8e1130265u64) == 0xaa6f692367bfeef0u64) by (bit_vector);
    assert(mix_cut(0x9e3779c2605d7e7au64) == 0xcb371d23eefd0468u64) by (bit_vector);
    lemma_key_bytes_at(key, 0x61c8864f61c88650u64, 0x8e1130265u64, 0x9e3779c2605d7e7au64, 0xaa6f692367bfeef0u64, 0xcb371d23eefd0468u64);
    assert((0xaa6f692367bfeef0u64 as u8) == 240u8 && ((0xaa6f692367bfeef0u64 >> 8u64) as u8) == 238u8 && ((0xaa6f692367bfeef0u64 >> 16u64) as u8) == 191u8 && ((0xaa6f692367bfeef0u64 >> 24u64) as u8) == 103u8 && ((0xaa6f692367bfeef0u64 >> 32u64) as u8) == 35u8 && ((0xaa6f692367bfeef0u64 >> 40u64) as u8) == 105u8 && ((0xaa6f692367bfeef0u64 >> 48u64) as u8) == 111u8 && ((0xaa6f692367bfeef0u64 >> 56u64) as u8) == 170u8) by (bit_vector);
    assert((0xcb371d23eefd0468u64 as u8) == 104u8 && ((0xcb371d23eefd0468u64 >> 8u64) as u8) == 4u8 && ((0xcb371d23eefd0468u64 >> 16u64) as u8) == 253u8 && ((0xcb371d23eefd0468u64 >> 24u64) as u8) == 238u8 && ((0xcb371d23eefd0468u64 >> 32u64) as u8) == 35u8 && ((0xcb371d23eefd0468u64 >> 40u64) as u8) == 29u8 && ((0xcb371d23eefd0468u64 >> 48u64) as u8) == 55u8 && ((0xcb371d23eefd0468u64 >> 56u64) as u8) == 203u8) by (bit_vector);
    assert(seq![240u8, 238, 191, 103, 35, 105, 111, 170, 104, 4, 253, 238, 35, 29, 55, 203] =~= u64_le_bytes(0xaa6f692367bfeef0u64) + u64_le_bytes(0xcb371d23eefd0468u64));
}

/// Key streams of a few keys, as the key derivation has always produced them: each byte
/// of the last half among them depends on taking the golden constant off a second time.
pub proof fn lemma_key_gen_known_answers()
    ensures
        key_bytes(0u32) == seq![193u8, 92, 2, 137, 236, 45, 10, 145, 103, 236, 142, 101, 161, 141, 235, 190],
        key_bytes(4u32) == seq![28u8, 145, 184, 193, 188, 165, 135, 89, 59, 200, 12, 93, 21, 143, 25, 68],
        key_bytes(0xFFFF_FFFFu32) == seq![240u8, 238, 191, 103, 35, 105, 111, 170, 104, 4, 253, 238, 35, 29, 55, 203],
{
    lemma_key_bytes_0();
    lemma_key_bytes_4();
    lemma_key_bytes_max();
}

/// Different keys give different key streams: already the first eight bytes differ.
pub proof fn lemma_key_gen_injective(a: u32, b: u32)
    requires
        a != b,
    ensures
        key_bytes(a).take(8) != key_bytes(b).take(8),
        key_bytes(a) != key_bytes(b),
{
    let sa = seed_of(a);
    let sb = seed_of(b);
    if key_bytes(a).take(8) == key_bytes(b).take(8) {
        assert(key_bytes(a).take(8) =~= u64_le_bytes(mix_spec(sa)));
        assert(key_bytes(b).take(8) =~= u64_le_bytes(mix_spec(sb)));
        lemma_le_u64_roundtrip(mix_spec(sa));
        lemma_le_u64_roundtrip(mix_spec(sb));
        lemma_mix_bijective(sa, sb);
        let pa = ((a as u64) << 32u64) ^ ((GOLDEN32 as u64 * a as u64 + 1) as u64);
        let pb = ((b as u64) << 32u64) ^ ((GOLDEN32 as u64 * b as u64 + 1) as u64);
        assert(pa == pb);
        assert(pa == pb ==> a == b) by (bit_vector)
            requires
                pa == ((a as u64) << 32u64) ^ ((2654435761u64 * a as u64 + 1) as u64),
                pb == ((b as u64) << 32u64) ^ ((2654435761u64 * b as u64 + 1) as u64),
        ;
    }
    if key_bytes(a) == key_bytes(b) {
        assert(key_bytes(a).take(8) == key_bytes(b).take(8));
    }
}

fn mix(v: u64) -> (r: u64)
    ensures
        r == mix_spec(v),
{
    let t = 0xBF58_476D_1CE4_E5B9u64.wrapping_mul(v ^ (v >> 30));
    let u = t ^ (t >> 27);
    let w = 0x94D0_49BB_1331_11EBu64.wrapping_mul(u);
    w ^ (w >> 31)
}

/// Derives the sixteen-byte key stream of a 32-bit key.
pub fn key_gen(key: u32) -> (ks: [u8; 16])
    ensures
        ks@ == key_bytes(key),
{
    assert(GOLDEN32 as u64 * key as u64 + 1 <= u64::MAX) by (nonlinear_arith)
        requires
            key <= u32::MAX,
    ;
    let seed = ((key as u64) << 32) ^ (GOLDEN32 as u64 * key as u64 + 1);
    let seed = seed.wrapping_sub(GOLDEN);
    let lo = u64_to_le_bytes(mix(seed));
    let hi = u64_to_le_bytes(mix(seed.wrapping_sub(GOLDEN)));
    let mut ks = [0u8; 16];
    let mut i: usize = 0;
    while i < 8
        invariant
            i <= 8,
            lo@ == u64_le_bytes(mix_spec(seed_of(key))),
            hi@ == u64_le_bytes(mix_spec(seed_of(key).wrapping_sub(GOLDEN))),
            ks@.len() == 16,
            forall|j: int| 0 <= j < i ==> ks@[j] == lo@[j] && ks@[j + 8] == hi@[j],
        decreases 8 - i,
    {
        ks[i] = lo[i];
        ks[i + 8] = hi[i];
        i += 1;
    }
    assert(ks@ =~= key_bytes(key));
    ks
}


/// The smaller of a buffer's length and `CHUNK`: how many bytes one write passes on.
pub open spec fn chunk_len(len: nat) -> nat {
    if len < CHUNK { len } else { CHUNK as nat }
}

/// The pad state after `n` bytes of the key stream were used.
pub open spec fn advanced(s: PadState, n: nat) -> PadState {
    PadState { key: s.key, phase: (s.phase + n) % 16 }
}

/// A reader whose bytes come out XOR-ed with a key stream.
pub struct XorReader<R> {
    inner: R,
    pad: XorPad,
}

impl<R> XorReader<R> {
    /// The wrapped reader.
    pub closed spec fn wrapped(&self) -> R {
        self.inner
    }

    /// The key stream and the position reached in it.
    pub closed spec fn pad_state(&self) -> PadState {
        self.pad@
    }

    pub fn new(inner: R, key: [u8; 16]) -> (r: XorReader<R>)
        ensures
            r.wrapped() == inner,
            r.pad_state() == (PadState { key: key@, phase: 0 }),
    {
        XorReader { inner, pad: XorPad::new(key) }
    }

    pub fn get_ref(&self) -> (r: &R)
        ensures
            *r == self.wrapped(),
    {
        &self.inner
    }

    pub fn get_mut(&mut self) -> (r: &mut R)
        ensures
            *r == old(self).wrapped(),
            final(self).wrapped() == *final(r),
            final(self).pad_state() == old(self).pad_state(),
    {
        &mut self.inner
    }

    pub fn into_inner(self) -> (r: R)
        ensures
            r == self.wrapped(),
    {
        self.inner
    }

    /// Unmasks the `n` bytes that the wrapped reader has just put at the start of `buf`,
    /// moving the key stream on by exactly `n`; the rest of `buf` is left alone.
    /// Returns `n`.
    pub fn finish_read(&mut self, buf: &mut [u8], n: usize) -> (r: usize)
        requires
            n <= old(buf)@.len(),
        ensures
            r == n,
            final(self).wrapped() == old(self).wrapped(),
            final(self).pad_state() == advanced(old(self).pad_state(), n as nat),
            final(buf)@ == xor_stream(
                old(self).pad_state().key,
                old(self).pad_state().phase,
                old(buf)@.take(n as int),
            ) + old(buf)@.skip(n as int),
    {
        let (head, tail) = buf.split_at_mut(n);
        self.pad.apply(head);
        n
    }
}

/// How one write through a `XorWriter` ended.
#[derive(Clone, Copy, PartialEq, Eq, Debug, Structural)]
pub enum WriteOutcome {
    /// The wrapped writer took this many bytes (at least one).
    Written(usize),
    /// The wrapped writer took no byte: the write fails as a zero-length write.
    WriteZero,
    /// The wrapped writer failed: its error is passed on.
    Failed,
}

/// A writer that XORs what it is given with a key stream before passing it on.
pub struct XorWriter<W> {
    inner: W,
    pad: XorPad,
}

impl<W> XorWriter<W> {
    /// The wrapped writer.
    pub closed spec fn wrapped(&self) -> W {
        self.inner
    }

    /// The key stream and the position reached in it.
    pub closed spec fn pad_state(&self) -> PadState {
        self.pad@
    }

    pub fn new(inner: W, key: [u8; 16]) -> (w: XorWriter<W>)
        ensures
            w.wrapped() == inner,
            w.pad_state() == (PadState { key: key@, phase: 0 }),
    {
        XorWriter { inner, pad: XorPad::new(key) }
    }

    pub fn get_ref(&self) -> (r: &W)
        ensures
            *r == self.wrapped(),
    {
        &self.inner
    }

    pub fn get_mut(&mut self) -> (r: &mut W)
        ensures
            *r == old(self).wrapped(),
            final(self).wrapped() == *final(r),
            final(self).pad_state() == old(self).pad_state(),
    {
        &mut self.inner
    }

    pub fn into_inner(self) -> (r: W)
        ensures
            r == self.wrapped(),
    {
        self.inner
    }

    /// The bytes to hand to the wrapped writer for a write of `buf`: `None` for an empty
    /// `buf` (such a write takes nothing and reports zero bytes), else the first
    /// `min(len, CHUNK)` bytes of `buf` XOR-ed with the key stream from the current
    /// position. The position itself does not move here.
    pub fn begin_write(&self, buf: &[u8]) -> (r: Option<Vec<u8>>)
        ensures
            r is None <==> buf@.len() == 0,
            r matches Some(chunk) ==> chunk@ == xor_stream(
                self.pad_state().key,
                self.pad_state().phase,
                buf@.take(chunk_len(buf@.len()) as int),
            ),
    {
        if buf.len() == 0 {
            return None;
        }
        let take = if buf.len() < CHUNK {
            buf.len()
        } else {
            CHUNK
        };
        let mut tmp: Vec<u8> = Vec::with_capacity(take);
        let mut i: usize = 0;
        while i < take
            invariant
                take <= buf@.len(),
                i <= take,
                tmp@ == buf@.take(i as int),
            decreases take - i,
        {
            tmp.push(buf[i]);
            i += 1;
            assert(tmp@ =~= buf@.take(i as int));
        }
        proof {
            use_type_invariant(&self.pad);
        }
        let mut pad = XorPad { pad: self.pad.pad, phase: self.pad.phase };
        pad.apply(tmp.as_mut_slice());
        Some(tmp)
    }

    /// Settles a write after the wrapped writer answered: `Some(n)` when it took `n` bytes,
    /// `None` when it failed. Only bytes it really took move the key stream on, so that a
    /// caller who retries with the rest of its buffer meets the right key bytes.
    pub fn commit_write(&mut self, taken: Option<usize>) -> (r: WriteOutcome)
        ensures
            final(self).wrapped() == old(self).wrapped(),
            match taken {
                Some(n) => if n == 0 {
                    &&& r == WriteOutcome::WriteZero
                    &&& final(self).pad_state() == old(self).pad_state()
                } else {
                    &&& r == WriteOutcome::Written(n)
                    &&& final(self).pad_state() == advanced(old(self).pad_state(), n as nat)
                },
                None => {
                    &&& r == WriteOutcome::Failed
                    &&& final(self).pad_state() == old(self).pad_state()
                },
            },
    {
        proof {
            use_type_invariant(&self.pad);
        }
        match taken {
            Some(n) => {
                if n == 0 {
                    WriteOutcome::WriteZero
                } else {
                    let phase = self.pad.phase;
                    let s = phase + n % 16;
                    proof {
                        lemma_add_mod_noop(phase as int, n as int, 16);
                        lemma_small_mod(phase as nat, 16);
                        lemma_mod_twice(n as int, 16);
                        lemma_add_mod_noop(phase as int, (n % 16) as int, 16);
                        assert(s & 15 == s % 16) by (bit_vector);
                    }
                    self.pad.phase = s & 15;
                    WriteOutcome::Written(n)
                }
            },
            None => WriteOutcome::Failed,
        }
    }
}


/// A write whose wrapped writer took `n` of the bytes offered: the bytes it took are the
/// key stream over the first `n` bytes of `buf`, and the key stream over the rest of
/// `buf` from the position `commit_write` moved to continues them into the key stream
/// over all of `buf`. So retrying with `buf[n..]` writes exactly what one write of `buf`
/// would have.
pub proof fn lemma_write_resume(s: PadState, buf: Seq<u8>, n: nat)
    requires
        s.phase < 16,
        n <= chunk_len(buf.len()),
    ensures
        xor_stream(s.key, s.phase, buf.take(chunk_len(buf.len()) as int)).take(n as int)
            == xor_stream(s.key, s.phase, buf.take(n as int)),
        xor_stream(s.key, s.phase, buf.take(n as int)) + xor_stream(
            advanced(s, n).key,
            advanced(s, n).phase,
            buf.skip(n as int),
        ) == xor_stream(s.key, s.phase, buf),
{
    let c = chunk_len(buf.len()) as int;
    assert(xor_stream(s.key, s.phase, buf.take(c)).take(n as int) =~= xor_stream(
        s.key,
        s.phase,
        buf.take(n as int),
    ));
    lemma_xor_stream_split(s.key, s.phase, buf.take(n as int), buf.skip(n as int));
    assert(buf.take(n as int) + buf.skip(n as int) =~= buf);
}


/// One write through a `XorWriter`: the buffer offered to `begin_write`, and how many
/// bytes the wrapped writer took of the chunk (zero when it took none or failed, which
/// `commit_write` settles without moving the key stream; with the phase below sixteen,
/// moving on by zero bytes leaves the state as it is).
pub struct WriteStep {
    pub buf: Seq<u8>,
    pub taken: nat,
}

/// Every step took no more than the chunk it was offered.
pub open spec fn steps_valid(steps: Seq<WriteStep>) -> bool {
    forall|j: int| 0 <= j < steps.len() ==> #[trigger] steps[j].taken <= chunk_len(steps[j].buf.len())
}

/// What the wrapped writer received over a sequence of writes from pad state `s`: of
/// each chunk `begin_write` offered, the part it took, the key stream moved on by
/// `commit_write` between them.
pub open spec fn written_bytes(s: PadState, steps: Seq<WriteStep>) -> Seq<u8>
    decreases steps.len(),
{
    if steps.len() == 0 {
        Seq::empty()
    } else {
        let st = steps[0];
        xor_stream(s.key, s.phase, st.buf.take(chunk_len(st.buf.len()) as int)).take(st.taken as int)
            + written_bytes(advanced(s, st.taken), steps.drop_first())
    }
}

/// The pad state after a sequence of writes from pad state `s`.
pub open spec fn pad_after_writes(s: PadState, steps: Seq<WriteStep>) -> PadState
    decreases steps.len(),
{
    if steps.len() == 0 {
        s
    } else {
        pad_after_writes(advanced(s, steps[0].taken), steps.drop_first())
    }
}

/// The plain bytes that a sequence of writes got accepted: of each buffer, the part taken.
pub open spec fn accepted_bytes(steps: Seq<WriteStep>) -> Seq<u8>
    decreases steps.len(),
{
    if steps.len() == 0 {
        Seq::empty()
    } else {
        steps[0].buf.take(steps[0].taken as int) + accepted_bytes(steps.drop_first())
    }
}

/// Over any sequence of writes, partial or refused ones included, what the wrapped
/// writer received is the key stream over the accepted bytes from where the writer
/// started, and the writer ends as far on in the stream as it accepted bytes.
pub proof fn lemma_writes_concat(s: PadState, steps: Seq<WriteStep>)
    requires
        s.phase < 16,
        steps_valid(steps),
    ensures
        written_bytes(s, steps) == xor_stream(s.key, s.phase, accepted_bytes(steps)),
        pad_after_writes(s, steps) == advanced(s, accepted_bytes(steps).len()),
    decreases steps.len(),
{
    if steps.len() == 0 {
        assert(xor_stream(s.key, s.phase, accepted_bytes(steps)) =~= Seq::<u8>::empty());
        lemma_small_mod(s.phase, 16);
    } else {
        let st = steps[0];
        let rest = steps.drop_first();
        let s1 = advanced(s, st.taken);
        assert(steps[0].taken <= chunk_len(steps[0].buf.len()));
        assert forall|j: int| 0 <= j < rest.len() implies #[trigger] rest[j].taken <= chunk_len(
            rest[j].buf.len(),
        ) by {
            assert(rest[j] == steps[j + 1]);
        }
        lemma_writes_concat(s1, rest);
        lemma_write_resume(s, st.buf, st.taken);
        let a = st.buf.take(st.taken as int);
        lemma_xor_stream_split(s.key, s.phase, a, accepted_bytes(rest));
    }
}

/// The steps of a `write_all` of `d`: each offers what is still unwritten, and together
/// they take all of it.
pub open spec fn writes_all(d: Seq<u8>, steps: Seq<WriteStep>) -> bool
    decreases steps.len(),
{
    if steps.len() == 0 {
        d.len() == 0
    } else {
        &&& steps[0].buf == d
        &&& steps[0].taken <= d.len()
        &&& writes_all(d.skip(steps[0].taken as int), steps.drop_first())
    }
}

/// Writing all of `d` through a writer, however the wrapped writer splits it up, hands
/// it exactly `d` XOR-ed with the key stream, as one `apply` would.
pub proof fn lemma_write_all(s: PadState, d: Seq<u8>, steps: Seq<WriteStep>)
    requires
        s.phase < 16,
        steps_valid(steps),
        writes_all(d, steps),
    ensures
        accepted_bytes(steps) == d,
        written_bytes(s, steps) == xor_stream(s.key, s.phase, d),
        pad_after_writes(s, steps) == advanced(s, d.len()),
{
    lemma_accepted_all(d, steps);
    lemma_writes_concat(s, steps);
}

proof fn lemma_accepted_all(d: Seq<u8>, steps: Seq<WriteStep>)
    requires
        writes_all(d, steps),
    ensures
        accepted_bytes(steps) == d,
    decreases steps.len(),
{
    if steps.len() == 0 {
        assert(d =~= Seq::<u8>::empty());
    } else {
        let n = steps[0].taken as int;
        lemma_accepted_all(d.skip(n), steps.drop_first());
        assert(d.take(n) + d.skip(n) =~= d);
    }
}

/// What a reader unmasks over successive reads of `pieces` from pad state `s`, each
/// `finish_read` moving the key stream on by the bytes it read.
pub open spec fn read_bytes(s: PadState, pieces: Seq<Seq<u8>>) -> Seq<u8>
    decreases pieces.len(),
{
    if pieces.len() == 0 {
        Seq::empty()
    } else {
        xor_stream(s.key, s.phase, pieces[0]) + read_bytes(
            advanced(s, pieces[0].len()),
            pieces.drop_first(),
        )
    }
}

/// Reading in pieces unmasks the joined pieces with one key stream, however the reads
/// fall.
pub proof fn lemma_reads_concat(s: PadState, pieces: Seq<Seq<u8>>)
    requires
        s.phase < 16,
    ensures
        read_bytes(s, pieces) == xor_stream(s.key, s.phase, pieces.flatten()),
    decreases pieces.len(),
{
    if pieces.len() == 0 {
        assert(xor_stream(s.key, s.phase, pieces.flatten()) =~= Seq::<u8>::empty());
    } else {
        lemma_reads_concat(advanced(s, pieces[0].len()), pieces.drop_first());
        lemma_xor_stream_split(s.key, s.phase, pieces[0], pieces.drop_first().flatten());
    }
}

/// What a writer with key `key` handed on reads back through a reader with the same key,
/// both starting at the key's first byte, however the writes and the reads were split:
/// the reader gives back exactly the bytes the writer accepted.
pub proof fn lemma_write_then_read(key: Seq<u8>, steps: Seq<WriteStep>, pieces: Seq<Seq<u8>>)
    requires
        steps_valid(steps),
        pieces.flatten() == written_bytes(PadState { key, phase: 0 }, steps),
    ensures
        read_bytes(PadState { key, phase: 0 }, pieces) == accepted_bytes(steps),
{
    let s = PadState { key, phase: 0 };
    lemma_writes_concat(s, steps);
    lemma_reads_concat(s, pieces);
    lemma_xor_stream_involution(key, 0, accepted_bytes(steps));
}

} // verus!
