//! SHA-256 and HMAC-SHA-256 over byte sequences.
use vstd::prelude::*;

verus! {

/// Bytes in one block of the compression function.
pub const BLOCK: usize = 64;

/// First 32 bits of the fractional parts of the cube roots of the first 64 primes.
pub const K: [u32; 64] = [
    0x428a2f98, 0x71374491, 0xb5c0fbcf, 0xe9b5dba5, 0x3956c25b, 0x59f111f1, 0x923f82a4, 0xab1c5ed5,
    0xd807aa98, 0x12835b01, 0x243185be, 0x550c7dc3, 0x72be5d74, 0x80deb1fe, 0x9bdc06a7, 0xc19bf174,
    0xe49b69c1, 0xefbe4786, 0x0fc19dc6, 0x240ca1cc, 0x2de92c6f, 0x4a7484aa, 0x5cb0a9dc, 0x76f988da,
    0x983e5152, 0xa831c66d, 0xb00327c8, 0xbf597fc7, 0xc6e00bf3, 0xd5a79147, 0x06ca6351, 0x14292967,
    0x27b70a85, 0x2e1b2138, 0x4d2c6dfc, 0x53380d13, 0x650a7354, 0x766a0abb, 0x81c2c92e, 0x92722c85,
    0xa2bfe8a1, 0xa81a664b, 0xc24b8b70, 0xc76c51a3, 0xd192e819, 0xd6990624, 0xf40e3585, 0x106aa070,
    0x19a4c116, 0x1e376c08, 0x2748774c, 0x34b0bcb5, 0x391c0cb3, 0x4ed8aa4a, 0x5b9cca4f, 0x682e6ff3,
    0x748f82ee, 0x78a5636f, 0x84c87814, 0x8cc70208, 0x90befffa, 0xa4506ceb, 0xbef9a3f7, 0xc67178f2,
];

/// The eight working words of the hash.
#[derive(Clone, Copy)]
pub struct Words {
    pub a: u32,
    pub b: u32,
    pub c: u32,
    pub d: u32,
    pub e: u32,
    pub f: u32,
    pub g: u32,
    pub h: u32,
}

/// First 32 bits of the fractional parts of the square roots of the first 8 primes.
pub open spec fn initial_spec() -> Words {
    Words {
        a: 0x6a09e667,
        b: 0xbb67ae85,
        c: 0x3c6ef372,
        d: 0xa54ff53a,
        e: 0x510e527f,
        f: 0x9b05688c,
        g: 0x1f83d9ab,
        h: 0x5be0cd19,
    }
}

/// Sum modulo 2^32.
pub open spec fn sum32(x: u32, y: u32) -> u32 {
    ((x + y) % 0x1_0000_0000) as u32
}

/// Rotation to the right by `n` bits.
pub open spec fn rotr(x: u32, n: u32) -> u32 {
    (x >> n) | (x << ((32 - n) as u32))
}

pub open spec fn small_sigma0(x: u32) -> u32 {
    rotr(x, 7) ^ rotr(x, 18) ^ (x >> 3u32)
}

pub open spec fn small_sigma1(x: u32) -> u32 {
    rotr(x, 17) ^ rotr(x, 19) ^ (x >> 10u32)
}

pub open spec fn big_sigma0(x: u32) -> u32 {
    rotr(x, 2) ^ rotr(x, 13) ^ rotr(x, 22)
}

pub open spec fn big_sigma1(x: u32) -> u32 {
    rotr(x, 6) ^ rotr(x, 11) ^ rotr(x, 25)
}

/// Bitwise choice of `y` or `z` by `x`.
pub open spec fn ch(x: u32, y: u32, z: u32) -> u32 {
    (x & y) ^ (!x & z)
}

/// Bitwise majority.
pub open spec fn maj(x: u32, y: u32, z: u32) -> u32 {
    (x & y) ^ (x & z) ^ (y & z)
}

/// The big-endian word at byte `i`.
pub open spec fn word_at(s: Seq<u8>, i: int) -> u32 {
    (s[i] * 0x100_0000 + s[i + 1] * 0x1_0000 + s[i + 2] * 0x100 + s[i + 3]) as u32
}

/// Word `t` of the message schedule of one block.
pub open spec fn schedule(block: Seq<u8>, t: nat) -> u32
    decreases t,
{
    if t < 16 {
        word_at(block, 4 * t as int)
    } else {
        sum32(
            sum32(
                small_sigma1(schedule(block, (t - 2) as nat)),
                schedule(block, (t - 7) as nat),
            ),
            sum32(
                small_sigma0(schedule(block, (t - 15) as nat)),
                schedule(block, (t - 16) as nat),
            ),
        )
    }
}

/// One round on the working words.
pub open spec fn round(v: Words, k: u32, w: u32) -> Words {
    let t1 = sum32(sum32(sum32(v.h, big_sigma1(v.e)), sum32(ch(v.e, v.f, v.g), k)), w);
    let t2 = sum32(big_sigma0(v.a), maj(v.a, v.b, v.c));
    Words {
        a: sum32(t1, t2),
        b: v.a,
        c: v.b,
        d: v.c,
        e: sum32(v.d, t1),
        f: v.e,
        g: v.f,
        h: v.g,
    }
}

/// The working words after the first `t` rounds on a block.
pub open spec fn rounds(v: Words, block: Seq<u8>, t: nat) -> Words
    decreases t,
{
    if t == 0 {
        v
    } else {
        round(rounds(v, block, (t - 1) as nat), K[t - 1], schedule(block, (t - 1) as nat))
    }
}

/// Wordwise sum modulo 2^32.
pub open spec fn sum_words(x: Words, y: Words) -> Words {
    Words {
        a: sum32(x.a, y.a),
        b: sum32(x.b, y.b),
        c: sum32(x.c, y.c),
        d: sum32(x.d, y.d),
        e: sum32(x.e, y.e),
        f: sum32(x.f, y.f),
        g: sum32(x.g, y.g),
        h: sum32(x.h, y.h),
    }
}

/// The compression function.
pub open spec fn compress(v: Words, block: Seq<u8>) -> Words {
    sum_words(v, rounds(v, block, 64))
}

/// Compression of the whole blocks of `data`, from the first to the last.
pub open spec fn compress_all(v: Words, data: Seq<u8>) -> Words
    decreases data.len(),
{
    if data.len() < BLOCK {
        v
    } else {
        compress_all(compress(v, data.take(BLOCK as int)), data.skip(BLOCK as int))
    }
}

/// `n` as four bytes, the most significant first.
pub open spec fn be32(n: u32) -> Seq<u8> {
    seq![
        (n / 0x100_0000) as u8,
        (n / 0x1_0000 % 0x100) as u8,
        (n / 0x100 % 0x100) as u8,
        (n % 0x100) as u8,
    ]
}

/// How many zero bytes the padding of `len` bytes holds.
pub open spec fn zero_count(len: nat) -> nat {
    ((119 - len % 64) % 64) as nat
}

/// The length in bits of `len` bytes, modulo 2^64.
pub open spec fn bit_count(len: nat) -> nat {
    (8 * len) % 0x1_0000_0000_0000_0000
}

/// A message, one set bit, zeros up to 8 bytes before a block's end, the bit count.
pub open spec fn padded(data: Seq<u8>) -> Seq<u8> {
    data + seq![0x80u8] + Seq::new(zero_count(data.len()), |i: int| 0u8)
        + be32((bit_count(data.len()) / 0x1_0000_0000) as u32)
        + be32((bit_count(data.len()) % 0x1_0000_0000) as u32)
}

/// The words one after another, big-endian.
pub open spec fn words_bytes(v: Words) -> Seq<u8> {
    be32(v.a) + be32(v.b) + be32(v.c) + be32(v.d) + be32(v.e) + be32(v.f) + be32(v.g) + be32(v.h)
}

/// The SHA-256 digest of `data`.
pub open spec fn sha256_spec(data: Seq<u8>) -> Seq<u8> {
    words_bytes(compress_all(initial_spec(), padded(data)))
}

/// A key of at most one block as it is, a longer one by its digest, zero-filled to one block.
pub open spec fn block_key(key: Seq<u8>) -> Seq<u8> {
    let short = if key.len() > BLOCK {
        sha256_spec(key)
    } else {
        key
    };
    Seq::new(
        BLOCK as nat,
        |i: int|
            if i < short.len() {
                short[i]
            } else {
                0
            },
    )
}

/// Every byte of `s` combined with `mask` by exclusive or.
pub open spec fn masked(s: Seq<u8>, mask: u8) -> Seq<u8> {
    Seq::new(s.len(), |i: int| s[i] ^ mask)
}

/// The HMAC-SHA-256 code of `message` under `key`.
pub open spec fn hmac_sha256_spec(key: Seq<u8>, message: Seq<u8>) -> Seq<u8> {
    sha256_spec(
        masked(block_key(key), 0x5c) + sha256_spec(masked(block_key(key), 0x36) + message),
    )
}

fn initial() -> (r: Words)
    ensures
        r == initial_spec(),
{
    Words {
        a: 0x6a09e667,
        b: 0xbb67ae85,
        c: 0x3c6ef372,
        d: 0xa54ff53a,
        e: 0x510e527f,
        f: 0x9b05688c,
        g: 0x1f83d9ab,
        h: 0x5be0cd19,
    }
}

fn wrap_sum(x: u32, y: u32) -> (r: u32)
    ensures
        r == sum32(x, y),
{
    x.wrapping_add(y)
}

fn rotate(x: u32, n: u32) -> (r: u32)
    requires
        0 < n < 32,
    ensures
        r == rotr(x, n),
{
    (x >> n) | (x << (32 - n))
}

fn read_word(s: &[u8], i: usize) -> (r: u32)
    requires
        i + 4 <= s@.len(),
    ensures
        r == word_at(s@, i as int),
{
    s[i] as u32 * 0x100_0000 + s[i + 1] as u32 * 0x1_0000 + s[i + 2] as u32 * 0x100
        + s[i + 3] as u32
}

fn step(v: Words, k: u32, w: u32) -> (r: Words)
    ensures
        r == round(v, k, w),
{
    let s1: u32 = rotate(v.e, 6) ^ rotate(v.e, 11) ^ rotate(v.e, 25);
    let choice: u32 = (v.e & v.f) ^ (!v.e & v.g);
    let t1: u32 = wrap_sum(wrap_sum(wrap_sum(v.h, s1), wrap_sum(choice, k)), w);
    let s0: u32 = rotate(v.a, 2) ^ rotate(v.a, 13) ^ rotate(v.a, 22);
    let majority: u32 = (v.a & v.b) ^ (v.a & v.c) ^ (v.b & v.c);
    let t2: u32 = wrap_sum(s0, majority);
    Words {
        a: wrap_sum(t1, t2),
        b: v.a,
        c: v.b,
        d: v.c,
        e: wrap_sum(v.d, t1),
        f: v.e,
        g: v.f,
        h: v.g,
    }
}

/// The whole message schedule of the block at byte `at`.
fn expand(data: &[u8], at: usize) -> (w: Vec<u32>)
    requires
        at + BLOCK <= data@.len(),
    ensures
        w@.len() == 64,
        forall|t: int|
            0 <= t < 64 ==> #[trigger] w@[t] == schedule(
                data@.subrange(at as int, at + BLOCK),
                t as nat,
            ),
{
    let ghost block = data@.subrange(at as int, at + BLOCK);
    let n: usize = data.len();
    let mut w: Vec<u32> = Vec::new();
    let mut t: usize = 0;
    while t < 16
        invariant
            t <= 16,
            n == data@.len(),
            at + BLOCK <= data@.len(),
            block == data@.subrange(at as int, at + BLOCK),
            w@.len() == t,
            forall|i: int| 0 <= i < t ==> #[trigger] w@[i] == schedule(block, i as nat),
        decreases 16 - t,
    {
        w.push(read_word(data, at + 4 * t));
        t = t + 1;
    }
    while t < 64
        invariant
            16 <= t <= 64,
            w@.len() == t,
            forall|i: int| 0 <= i < t ==> #[trigger] w@[i] == schedule(block, i as nat),
        decreases 64 - t,
    {
        let x0: u32 = w[t - 15];
        let x1: u32 = w[t - 2];
        let s0: u32 = rotate(x0, 7) ^ rotate(x0, 18) ^ (x0 >> 3u32);
        let s1: u32 = rotate(x1, 17) ^ rotate(x1, 19) ^ (x1 >> 10u32);
        let next: u32 = wrap_sum(wrap_sum(s1, w[t - 7]), wrap_sum(s0, w[t - 16]));
        assert(next == schedule(block, t as nat));
        w.push(next);
        t = t + 1;
    }
    w
}

fn compress_at(v: Words, data: &[u8], at: usize) -> (r: Words)
    requires
        at + BLOCK <= data@.len(),
    ensures
        r == compress(v, data@.subrange(at as int, at + BLOCK)),
{
    let ghost block = data@.subrange(at as int, at + BLOCK);
    let w = expand(data, at);
    let mut x = v;
    let mut t: usize = 0;
    while t < 64
        invariant
            t <= 64,
            w@.len() == 64,
            forall|i: int| 0 <= i < 64 ==> #[trigger] w@[i] == schedule(block, i as nat),
            x == rounds(v, block, t as nat),
        decreases 64 - t,
    {
        x = step(x, K[t], w[t]);
        t = t + 1;
    }
    Words {
        a: wrap_sum(v.a, x.a),
        b: wrap_sum(v.b, x.b),
        c: wrap_sum(v.c, x.c),
        d: wrap_sum(v.d, x.d),
        e: wrap_sum(v.e, x.e),
        f: wrap_sum(v.f, x.f),
        g: wrap_sum(v.g, x.g),
        h: wrap_sum(v.h, x.h),
    }
}

fn push_be32(out: &mut Vec<u8>, n: u32)
    ensures
        final(out)@ == old(out)@ + be32(n),
{
    out.push((n / 0x100_0000) as u8);
    out.push((n / 0x1_0000 % 0x100) as u8);
    out.push((n / 0x100 % 0x100) as u8);
    out.push((n % 0x100) as u8);
    assert(out@ =~= old(out)@ + be32(n));
}

fn push_bytes(out: &mut Vec<u8>, bytes: &[u8])
    ensures
        final(out)@ == old(out)@ + bytes@,
{
    let mut i: usize = 0;
    while i < bytes.len()
        invariant
            i <= bytes@.len(),
            out@ == old(out)@ + bytes@.take(i as int),
        decreases bytes@.len() - i,
    {
        out.push(bytes[i]);
        i = i + 1;
        assert(bytes@.take(i as int) =~= bytes@.take(i - 1).push(bytes@[i - 1]));
    }
    assert(bytes@.take(i as int) =~= bytes@);
}

fn pad(data: &[u8]) -> (r: Vec<u8>)
    ensures
        r@ == padded(data@),
{
    let mut out: Vec<u8> = Vec::new();
    push_bytes(&mut out, data);
    out.push(0x80);
    let zeros: usize = (119 - data.len() % 64) % 64;
    let ghost head = out@;
    let mut i: usize = 0;
    while i < zeros
        invariant
            i <= zeros,
            out@ == head + Seq::new(i as nat, |j: int| 0u8),
        decreases zeros - i,
    {
        out.push(0);
        i = i + 1;
        assert(Seq::new(i as nat, |j: int| 0u8) =~= Seq::new((i - 1) as nat, |j: int| 0u8).push(0u8));
    }
    let bits: u64 = (data.len() as u64).wrapping_mul(8);
    assert(bits as nat == bit_count(data@.len()));
    push_be32(&mut out, (bits / 0x1_0000_0000) as u32);
    push_be32(&mut out, (bits % 0x1_0000_0000) as u32);
    assert(out@ =~= padded(data@));
    out
}

/// The SHA-256 digest of `data`.
pub fn sha256(data: &[u8]) -> (r: Vec<u8>)
    ensures
        r@ == sha256_spec(data@),
{
    let all = pad(data);
    let mut v = initial();
    let mut at: usize = 0;
    assert(all@.skip(0) =~= all@);
    while all.len() - at >= BLOCK
        invariant
            at <= all@.len(),
            compress_all(initial_spec(), all@) == compress_all(v, all@.skip(at as int)),
        decreases all@.len() - at,
    {
        proof {
            let rest = all@.skip(at as int);
            assert(rest.take(BLOCK as int) =~= all@.subrange(at as int, at + BLOCK));
            assert(rest.skip(BLOCK as int) =~= all@.skip(at + BLOCK));
        }
        v = compress_at(v, all.as_slice(), at);
        at = at + BLOCK;
    }
    let mut out: Vec<u8> = Vec::new();
    push_be32(&mut out, v.a);
    push_be32(&mut out, v.b);
    push_be32(&mut out, v.c);
    push_be32(&mut out, v.d);
    push_be32(&mut out, v.e);
    push_be32(&mut out, v.f);
    push_be32(&mut out, v.g);
    push_be32(&mut out, v.h);
    assert(out@ =~= words_bytes(v));
    out
}

fn key_block(key: &[u8], mask: u8) -> (r: Vec<u8>)
    ensures
        r@ == masked(block_key(key@), mask),
{
    let mut short: Vec<u8> = Vec::new();
    if key.len() > BLOCK {
        short = sha256(key);
    } else {
        push_bytes(&mut short, key);
    }
    let ghost full = block_key(key@);
    let mut out: Vec<u8> = Vec::new();
    let mut i: usize = 0;
    while i < BLOCK
        invariant
            i <= BLOCK,
            full == block_key(key@),
            short@ == (if key@.len() > BLOCK {
                sha256_spec(key@)
            } else {
                key@
            }),
            out@.len() == i,
            forall|j: int| 0 <= j < i ==> #[trigger] out@[j] == full[j] ^ mask,
        decreases BLOCK - i,
    {
        let byte: u8 = if i < short.len() {
            short[i]
        } else {
            0
        };
        out.push(byte ^ mask);
        i = i + 1;
    }
    assert(out@ =~= masked(full, mask));
    out
}

/// The HMAC-SHA-256 code of `message` under `key`.
pub fn hmac_sha256(key: &[u8], message: &[u8]) -> (r: Vec<u8>)
    ensures
        r@ == hmac_sha256_spec(key@, message@),
{
    let mut inner = key_block(key, 0x36);
    push_bytes(&mut inner, message);
    let digest = sha256(inner.as_slice());
    let mut outer = key_block(key, 0x5c);
    push_bytes(&mut outer, digest.as_slice());
    sha256(outer.as_slice())
}

proof fn words_bytes_length(v: Words)
    ensures
        words_bytes(v).len() == 32,
{
}

/// A digest is 32 bytes, and so is an authentication code.
pub proof fn digest_length(key: Seq<u8>, data: Seq<u8>)
    ensures
        sha256_spec(data).len() == 32,
        hmac_sha256_spec(key, data).len() == 32,
{
    words_bytes_length(compress_all(initial_spec(), padded(data)));
    let outer = masked(block_key(key), 0x5c) + sha256_spec(
        masked(block_key(key), 0x36) + data,
    );
    words_bytes_length(compress_all(initial_spec(), padded(outer)));
}

} // verus!
