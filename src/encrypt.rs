use vstd::prelude::*;
use vstd::array::ArrayAdditionalExecFns;
use vstd::wrapping::u32_specs::wrapping_add;
use crate::memory::{be32, u32_bytes, u64_bytes, write_u64};

verus! {

/// Byte length of an MD5 digest.
pub const MD5_SIZE: u32 = 16;

/// Byte length of a SHA-1 (and SHA-0) digest.
pub const SHA1_SIZE: u32 = 20;

/// Byte length of a SHA-256 digest.
pub const SHA256_SIZE: u32 = 32;

/// Byte length of a SHA-384 digest.
pub const SHA384_SIZE: u32 = 48;

/// Byte length of a SHA-512 digest.
pub const SHA512_SIZE: u32 = 64;

/// A 20-byte digest.
pub type Sha1Sum = [u8; 20];

/// `v` rotated left by `bits` (1 to 31).
pub open spec fn spec_rol(bits: u32, v: u32) -> u32 {
    (v << bits) | (v >> (32u32 - bits))
}

/// Word `t` (0 to 79) of the message schedule of a 64-byte block.
pub open spec fn word(block: Seq<u8>, t: int) -> u32
    decreases t,
{
    if t < 0 {
        0
    } else if t < 16 {
        be32(block[4 * t], block[4 * t + 1], block[4 * t + 2], block[4 * t + 3])
    } else {
        word(block, t - 3) ^ word(block, t - 8) ^ word(block, t - 14) ^ word(block, t - 16)
    }
}

/// Working variables after the first `t` rounds over `block`, from `h`.
pub open spec fn rounds(block: Seq<u8>, h: (u32, u32, u32, u32, u32), t: int) -> (u32, u32, u32, u32, u32)
    decreases t,
{
    if t <= 0 {
        h
    } else {
        let (a, b, c, d, e) = rounds(block, h, t - 1);
        let base = wrapping_add(wrapping_add(spec_rol(5, a), e), word(block, t - 1));
        (round_value(base, t - 1, b, c, d), a, spec_rol(30, b), c, d)
    }
}

/// New value of the first working variable in round `t`.
pub open spec fn round_value(base: u32, t: int, b: u32, c: u32, d: u32) -> u32 {
    if t < 20 {
        wrapping_add(wrapping_add(base, d ^ (b & (c ^ d))), 0x5A827999)
    } else if t < 40 {
        wrapping_add(wrapping_add(base, b ^ c ^ d), 0x6ED9EBA1)
    } else if t < 60 {
        wrapping_add(wrapping_add(base, (b & c) | (d & (b | c))), 0x8F1BBCDC)
    } else {
        wrapping_add(wrapping_add(base, b ^ c ^ d), 0xCA62C1D6)
    }
}

/// The chaining value after compressing one 64-byte block into `h`.
pub open spec fn compress(h: (u32, u32, u32, u32, u32), block: Seq<u8>) -> (u32, u32, u32, u32, u32) {
    let (a, b, c, d, e) = rounds(block, h, 80);
    (wrapping_add(h.0, a), wrapping_add(h.1, b), wrapping_add(h.2, c), wrapping_add(h.3, d), wrapping_add(h.4, e))
}

/// The chaining value before any block.
pub open spec fn initial_chain() -> (u32, u32, u32, u32, u32) {
    (0x67452301, 0xEFCDAB89, 0x98BADCFE, 0x10325476, 0xC3D2E1F0)
}

/// The chaining value after compressing the 64-byte blocks of `x` in order.
pub open spec fn blocks_chain(x: Seq<u8>) -> (u32, u32, u32, u32, u32)
    decreases x.len(),
{
    if x.len() < 64 {
        initial_chain()
    } else {
        compress(blocks_chain(x.take(x.len() - 64)), x.subrange(x.len() - 64, x.len() as int))
    }
}

/// Length of the whole blocks at the start of `m`.
pub open spec fn full_len(m: Seq<u8>) -> int {
    m.len() - m.len() % 64
}

/// Number of zero bytes that padding puts after the 0x80 byte.
pub open spec fn zeros_needed(len: nat) -> int {
    (119 - len % 64) % 64
}

/// `n` zero bytes.
pub open spec fn zero_bytes(n: nat) -> Seq<u8> {
    Seq::new(n, |i: int| 0u8)
}

/// The message followed by its SHA-0 padding and its bit length.
pub open spec fn padded(m: Seq<u8>) -> Seq<u8> {
    m + seq![0x80u8] + zero_bytes(zeros_needed(m.len()) as nat) + u64_bytes((m.len() * 8) as u64)
}

/// The 20 digest bytes of a chaining value.
pub open spec fn digest_of(h: (u32, u32, u32, u32, u32)) -> Seq<u8> {
    u32_bytes(h.0) + u32_bytes(h.1) + u32_bytes(h.2) + u32_bytes(h.3) + u32_bytes(h.4)
}

/// SHA-0 digest of `m`.
pub open spec fn sha0_of(m: Seq<u8>) -> Seq<u8> {
    digest_of(blocks_chain(padded(m)))
}

/// `value` rotated left by `bits`.
fn rol(bits: u32, value: u32) -> (r: u32)
    requires
        1 <= bits <= 31,
    ensures
        r == spec_rol(bits, value),
{
    (value << bits) | (value >> (32 - bits))
}

/// SHA-0 state: bytes hashed so far, the partial block, and the chaining value.
pub struct Sha0Context {
    count: u64,
    buf: [u8; 64],
    state: [u32; 8],
    msg: Ghost<Seq<u8>>,
}

impl Sha0Context {
    /// The first five state words.
    pub closed spec fn chain(&self) -> (u32, u32, u32, u32, u32) {
        (self.state[0], self.state[1], self.state[2], self.state[3], self.state[4])
    }

    /// The 64-byte buffer.
    pub closed spec fn block(&self) -> Seq<u8> {
        self.buf@
    }

    /// Number of bytes hashed so far.
    pub closed spec fn hashed(&self) -> u64 {
        self.count
    }

    /// The bytes hashed so far.
    pub closed spec fn message(&self) -> Seq<u8> {
        self.msg@
    }

    /// The first 20 bytes of the buffer, where `final_hash` leaves the digest.
    pub closed spec fn digest_bytes(&self) -> Seq<u8> {
        self.buf@.take(20)
    }

    /// The count matches the message, the state holds the chaining value of
    /// its whole blocks, and the buffer starts with the rest.
    pub closed spec fn wf(&self) -> bool {
        let m = self.msg@;
        &&& self.count == m.len()
        &&& self.chain() == blocks_chain(m.take(full_len(m)))
        &&& forall|k: int| 0 <= k < m.len() % 64 ==> self.buf@[k] == m[full_len(m) + k]
    }

    /// Resets to the start of a new message.
    pub fn init(&mut self)
        ensures
            final(self).wf(),
            final(self).message() == Seq::<u8>::empty(),
    {
        self.state.set(0, 0x67452301);
        self.state.set(1, 0xEFCDAB89);
        self.state.set(2, 0x98BADCFE);
        self.state.set(3, 0x10325476);
        self.state.set(4, 0xC3D2E1F0);
        self.count = 0;
        self.msg = Ghost(Seq::empty());
        assert(self.msg@.take(0) =~= Seq::<u8>::empty());
    }

    /// A context at the start of a new message.
    pub fn new() -> (r: Sha0Context)
        ensures
            r.wf(),
            r.message() == Seq::<u8>::empty(),
    {
        let mut ctx = Sha0Context { count: 0, buf: [0; 64], state: [0; 8], msg: Ghost(Seq::empty()) };
        ctx.init();
        ctx
    }

    /// Compresses the full block in the buffer into the state.
    pub fn transform(&mut self)
        ensures
            final(self).chain() == compress(old(self).chain(), old(self).block()),
            final(self).block() == old(self).block(),
            final(self).hashed() == old(self).hashed(),
            final(self).message() == old(self).message(),
    {
        let ghost block = self.buf@;
        let mut w: Vec<u32> = Vec::with_capacity(80);
        let mut t: usize = 0;
        while t < 16
            invariant
                t <= 16,
                w@.len() == t,
                block == self.buf@,
                forall|k: int| 0 <= k < t ==> w@[k] == word(block, k),
            decreases 16 - t,
        {
            let p = 4 * t;
            let v = ((self.buf[p] as u32) << 24u32) | ((self.buf[p + 1] as u32) << 16u32) | ((self.buf[p + 2] as u32)
                << 8u32) | (self.buf[p + 3] as u32);
            w.push(v);
            t += 1;
        }
        while t < 80
            invariant
                16 <= t <= 80,
                w@.len() == t,
                forall|k: int| 0 <= k < t ==> w@[k] == word(block, k),
            decreases 80 - t,
        {
            let v = w[t - 3] ^ w[t - 8] ^ w[t - 14] ^ w[t - 16];
            proof {
                let ti = t as int;
                assert(w@[ti - 3] == word(block, ti - 3));
                assert(w@[ti - 8] == word(block, ti - 8));
                assert(w@[ti - 14] == word(block, ti - 14));
                assert(w@[ti - 16] == word(block, ti - 16));
                assert(v == word(block, ti));
            }
            w.push(v);
            t += 1;
        }
        let ghost h = self.chain();
        let mut a = self.state[0];
        let mut b = self.state[1];
        let mut c = self.state[2];
        let mut d = self.state[3];
        let mut e = self.state[4];
        t = 0;
        while t < 80
            invariant
                t <= 80,
                w@.len() == 80,
                forall|k: int| 0 <= k < 80 ==> w@[k] == word(block, k),
                (a, b, c, d, e) == rounds(block, h, t as int),
            decreases 80 - t,
        {
            let mut tmp = rol(5, a).wrapping_add(e).wrapping_add(w[t]);
            if t < 20 {
                tmp = tmp.wrapping_add(d ^ (b & (c ^ d))).wrapping_add(0x5A827999);
            } else if t < 40 {
                tmp = tmp.wrapping_add(b ^ c ^ d).wrapping_add(0x6ED9EBA1);
            } else if t < 60 {
                tmp = tmp.wrapping_add((b & c) | (d & (b | c))).wrapping_add(0x8F1BBCDC);
            } else {
                tmp = tmp.wrapping_add(b ^ c ^ d).wrapping_add(0xCA62C1D6);
            }
            e = d;
            d = c;
            c = rol(30, b);
            b = a;
            a = tmp;
            t += 1;
        }
        let s0 = self.state[0].wrapping_add(a);
        let s1 = self.state[1].wrapping_add(b);
        let s2 = self.state[2].wrapping_add(c);
        let s3 = self.state[3].wrapping_add(d);
        let s4 = self.state[4].wrapping_add(e);
        self.state.set(0, s0);
        self.state.set(1, s1);
        self.state.set(2, s2);
        self.state.set(3, s3);
        self.state.set(4, s4);
    }
}

/// Padding ends its zeros exactly where the length reaches 56 modulo 64.
proof fn lemma_pad_zeros(len: nat, z: int)
    requires
        0 <= z <= zeros_needed(len),
    ensures
        ((len + 1 + z) % 64 == 56) == (z == zeros_needed(len)),
{
    let r = len % 64;
    assert(len == 64 * (len / 64) + r);
    assert((len + 1 + z) % 64 == (r + 1 + z) % 64);
}

/// Appending one byte keeps the chaining value of the whole blocks when no
/// block completes, and compresses the completed block when one does.
proof fn lemma_chain_push(m: Seq<u8>, d: u8)
    ensures
        m.len() % 64 != 63 ==> blocks_chain(m.push(d).take(full_len(m.push(d)))) == blocks_chain(m.take(full_len(m))),
        m.len() % 64 == 63 ==> blocks_chain(m.push(d).take(full_len(m.push(d)))) == compress(
            blocks_chain(m.take(full_len(m))),
            m.push(d).subrange(full_len(m), full_len(m) + 64),
        ),
{
    let n = m.push(d);
    if m.len() % 64 != 63 {
        assert(full_len(n) == full_len(m));
        assert(n.take(full_len(n)) =~= m.take(full_len(m)));
    } else {
        let l = full_len(m);
        assert(full_len(n) == l + 64);
        let x = n.take(l + 64);
        assert(x.take(l) =~= m.take(l));
        assert(x.subrange(l, l + 64) =~= n.subrange(l, l + 64));
    }
}

impl Sha0Context {
    /// Hashes `data` after the bytes hashed so far.
    pub fn update(&mut self, data: &[u8])
        requires
            old(self).wf(),
            old(self).message().len() + data@.len() <= u64::MAX,
        ensures
            final(self).wf(),
            final(self).message() == old(self).message() + data@,
    {
        let c = self.count;
        assert(c & 63 == c % 64) by (bit_vector);
        let mut i = (self.count & 63) as usize;
        let l = data.len();
        let ghost m0 = self.msg@;
        let mut j: usize = 0;
        while j < l
            invariant
                l == data@.len(),
                0 <= j <= l,
                self.count == m0.len(),
                m0.len() + l <= u64::MAX,
                self.msg@ == m0 + data@.take(j as int),
                i == self.msg@.len() % 64,
                self.chain() == blocks_chain(self.msg@.take(full_len(self.msg@))),
                forall|k: int| 0 <= k < i ==> self.buf@[k] == self.msg@[full_len(self.msg@) + k],
            decreases l - j,
        {
            let d = data[j];
            let ghost m = self.msg@;
            proof {
                lemma_chain_push(m, d);
                assert(m0 + data@.take(j as int + 1) =~= m.push(d));
            }
            self.buf.set(i, d);
            self.msg = Ghost(m.push(d));
            i += 1;
            if i == 64 {
                assert(self.buf@ =~= m.push(d).subrange(full_len(m), full_len(m) + 64));
                self.transform();
                i = 0;
            }
            j += 1;
        }
        assert(data@.take(l as int) =~= data@);
        self.count = self.count + l as u64;
    }

    /// Hashes the padding of the message: the 0x80 byte, zeros up to 56
    /// modulo 64, then the bit length.
    fn pad_message(&mut self)
        requires
            old(self).wf(),
            old(self).message().len() < 0x2000_0000_0000_0000,
        ensures
            final(self).wf(),
            final(self).message() == padded(old(self).message()),
    {
        let ghost m = self.msg@;
        let cnt = self.count * 8;
        let mut one: Vec<u8> = Vec::new();
        one.push(0x80);
        self.update(one.as_slice());
        let mut zero: Vec<u8> = Vec::new();
        zero.push(0);
        let ghost need = zeros_needed(m.len());
        assert(zero@ =~= seq![0u8]);
        assert(one@ =~= seq![0x80u8]);
        let ghost mut z: int = 0;
        assert(self.msg@ =~= m + seq![0x80u8] + zero_bytes(0));
        loop
            invariant
                self.wf(),
                0 <= z <= need,
                need == zeros_needed(m.len()),
                need < 64,
                zero@ == seq![0u8],
                cnt == (m.len() * 8) as u64,
                m.len() < 0x2000_0000_0000_0000,
                self.msg@ == m + seq![0x80u8] + zero_bytes(z as nat),
            ensures
                self.wf(),
                m.len() < 0x2000_0000_0000_0000,
                cnt == (m.len() * 8) as u64,
                self.msg@ == m + seq![0x80u8] + zero_bytes(zeros_needed(m.len()) as nat),
            decreases need - z,
        {
            let c = self.count;
            assert(c & 63 == c % 64) by (bit_vector);
            if self.count & 63 == 56 {
                proof {
                    lemma_pad_zeros(m.len(), z);
                }
                break;
            }
            proof {
                assert(z < need);
            }
            self.update(zero.as_slice());
            proof {
                z = z + 1;
                assert(self.msg@ =~= m + seq![0x80u8] + zero_bytes(z as nat));
            }
        }
        let mut lb: Vec<u8> = Vec::new();
        write_u64(&mut lb, cnt);
        self.update(lb.as_slice());
        assert(self.msg@ =~= padded(m));
    }

    /// Writes the digest of the chaining value into the first 20 bytes of the buffer.
    fn write_digest(&mut self)
        ensures
            final(self).digest_bytes() == digest_of(old(self).chain()),
    {
        let ghost h = self.chain();
        let mut i: usize = 0;
        while i < 5
            invariant
                i <= 5,
                self.chain() == h,
                forall|k: int| 0 <= k < 4 * i ==> self.buf@[k] == digest_of(h)[k],
            decreases 5 - i,
        {
            let tmp = self.state[i];
            let p = 4 * i;
            self.buf.set(p, #[verifier::truncate] ((tmp >> 24u32) as u8));
            self.buf.set(p + 1, #[verifier::truncate] ((tmp >> 16u32) as u8));
            self.buf.set(p + 2, #[verifier::truncate] ((tmp >> 8u32) as u8));
            self.buf.set(p + 3, #[verifier::truncate] (tmp as u8));
            proof {
                let d = digest_of(h);
                assert(d[4 * i as int] == u32_bytes(tmp)[0]);
                assert(d[4 * i as int + 1] == u32_bytes(tmp)[1]);
                assert(d[4 * i as int + 2] == u32_bytes(tmp)[2]);
                assert(d[4 * i as int + 3] == u32_bytes(tmp)[3]);
            }
            i += 1;
        }
        assert(self.buf@.take(20) =~= digest_of(h));
    }

    /// Pads the message and hashes the padding; the digest of the message
    /// is then in the first 20 bytes of the buffer.
    pub fn final_hash(&mut self)
        requires
            old(self).wf(),
            old(self).message().len() < 0x2000_0000_0000_0000,
        ensures
            final(self).digest_bytes() == sha0_of(old(self).message()),
    {
        let ghost m = self.msg@;
        self.pad_message();
        let ghost full = self.msg@;
        assert(full.len() % 64 == 0);
        assert(full.take(full_len(full)) =~= full);
        self.write_digest();
    }
}

/// SHA-0 digest of `data`.
pub fn sha0(data: &[u8]) -> (r: Sha1Sum)
    requires
        data@.len() < 0x2000_0000_0000_0000,
    ensures
        r@ == sha0_of(data@),
{
    let mut ctx = Sha0Context::new();
    ctx.update(data);
    assert(Seq::<u8>::empty() + data@ =~= data@);
    ctx.final_hash();
    let mut ret = [0u8; 20];
    let mut k: usize = 0;
    while k < 20
        invariant
            k <= 20,
            ctx.digest_bytes() == sha0_of(data@),
            forall|j: int| 0 <= j < k ==> ret@[j] == sha0_of(data@)[j],
        decreases 20 - k,
    {
        ret.set(k, ctx.buf[k]);
        k += 1;
    }
    assert(ret@ =~= sha0_of(data@));
    ret
}

} // verus!
