//! The digest and the authentication code as their standards describe them:
//! what the padding holds, how blocks are chained, what a block does to the
//! words, and how a key enters a code.
use crate::sha256::{
    be32, big_sigma0, big_sigma1, bit_count, block_key, ch, compress, compress_all, digest_length,
    hmac_sha256_spec, initial_spec, maj, masked, padded, round, rounds, schedule, sha256_spec,
    small_sigma0, small_sigma1, sum32, words_bytes, zero_count, Words, K,
};
use vstd::arithmetic::div_mod::{lemma_add_mod_noop, lemma_add_mod_noop_right};
use vstd::prelude::*;

verus! {

/// The number that four bytes at `i` stand for, the most significant first.
pub open spec fn number_at(s: Seq<u8>, i: int) -> int {
    s[i] * 0x100_0000 + s[i + 1] * 0x1_0000 + s[i + 2] * 0x100 + s[i + 3]
}

/// A padded message is whole blocks and no block longer than it need be. It
/// holds the message, a byte with the highest bit set, zeros, and in its last
/// eight bytes the number of bits of the message, the most significant byte
/// first.
pub proof fn padding_ends_with_the_length(data: Seq<u8>, i: int)
    ensures
        ({
            let p = padded(data);
            let n = data.len() as int;
            &&& p.len() % 64 == 0
            &&& n + 9 <= p.len() < n + 9 + 64
            &&& 0 <= i < n ==> p[i] == data[i]
            &&& p[n] == 0x80
            &&& n < i < p.len() - 8 ==> p[i] == 0
            &&& number_at(p, p.len() - 8) * 0x1_0000_0000 + number_at(p, p.len() - 4) == (8 * n)
                % 0x1_0000_0000_0000_0000
            &&& n < 0x2000_0000_0000_0000 ==> number_at(p, p.len() - 8) * 0x1_0000_0000 + number_at(
                p,
                p.len() - 4,
            ) == 8 * n
        }),
{
    let p = padded(data);
    let n = data.len() as int;
    let bits = bit_count(data.len());
    let high = (bits / 0x1_0000_0000) as u32;
    let low = (bits % 0x1_0000_0000) as u32;
    assert(p.len() == n + 1 + zero_count(data.len()) + 8);
    assert(p.len() % 64 == 0) by {
        let m = n % 64;
        assert(n == 64 * (n / 64) + m);
        if m <= 55 {
            assert(zero_count(data.len()) == 55 - m);
        } else {
            assert(zero_count(data.len()) == 119 - m);
        }
    }
    assert(p[p.len() - 8] == (high / 0x100_0000) as u8);
    assert(p[p.len() - 7] == (high / 0x1_0000 % 0x100) as u8);
    assert(p[p.len() - 6] == (high / 0x100 % 0x100) as u8);
    assert(p[p.len() - 5] == (high % 0x100) as u8);
    assert(p[p.len() - 4] == (low / 0x100_0000) as u8);
    assert(p[p.len() - 3] == (low / 0x1_0000 % 0x100) as u8);
    assert(p[p.len() - 2] == (low / 0x100 % 0x100) as u8);
    assert(p[p.len() - 1] == (low % 0x100) as u8);
    four_bytes(high);
    four_bytes(low);
}

proof fn four_bytes(n: u32)
    ensures
        ((n / 0x100_0000) as u8) * 0x100_0000 + ((n / 0x1_0000 % 0x100) as u8) * 0x1_0000 + ((n
            / 0x100 % 0x100) as u8) * 0x100 + ((n % 0x100) as u8) == n,
{
}

/// Blocks are taken one after another: the words after two texts of whole
/// blocks are those after the second, begun with those after the first. One
/// block alone is compressed once, and what is shorter than a block is not.
pub proof fn blocks_are_chained(v: Words, a: Seq<u8>, b: Seq<u8>, block: Seq<u8>)
    requires
        a.len() % 64 == 0,
        block.len() == 64,
    ensures
        compress_all(v, a + b) == compress_all(compress_all(v, a), b),
        compress_all(v, block) == compress(v, block),
        b.len() < 64 ==> compress_all(v, b) == v,
{
    chain(v, a, b);
    one_block(v, block);
}

proof fn chain(v: Words, a: Seq<u8>, b: Seq<u8>)
    requires
        a.len() % 64 == 0,
    ensures
        compress_all(v, a + b) == compress_all(compress_all(v, a), b),
    decreases a.len(),
{
    if a.len() == 0 {
        assert(a + b =~= b);
    } else {
        let next = compress(v, a.take(64));
        assert((a + b).take(64) =~= a.take(64));
        assert((a + b).skip(64) =~= a.skip(64) + b);
        chain(next, a.skip(64), b);
    }
}

proof fn one_block(v: Words, block: Seq<u8>)
    requires
        block.len() == 64,
    ensures
        compress_all(v, block) == compress(v, block),
{
    let next = compress(v, block);
    assert(block.take(64) =~= block);
    assert(block.skip(64).len() == 0);
    assert(compress_all(next, block.skip(64)) == next);
}

/// The bits of a word turned to the right.
pub open spec fn turned(x: u32, n: u32) -> u32 {
    (x >> n) | (x << ((32 - n) as u32))
}

/// Whether word `t` of a schedule is made from four words before it.
pub open spec fn word_follows(w: Seq<u32>, t: int) -> bool {
    let s0 = turned(w[t - 15], 7) ^ turned(w[t - 15], 18) ^ (w[t - 15] >> 3u32);
    let s1 = turned(w[t - 2], 17) ^ turned(w[t - 2], 19) ^ (w[t - 2] >> 10u32);
    w[t] == (s1 + w[t - 7] + s0 + w[t - 16]) % 0x1_0000_0000
}

/// Whether `w` is the message schedule of a block: its sixteen words, and
/// forty-eight more, each made from four before it.
pub open spec fn scheduled(block: Seq<u8>, w: Seq<u32>) -> bool {
    &&& w.len() == 64
    &&& forall|t: int| 0 <= t < 16 ==> #[trigger] w[t] == number_at(block, 4 * t)
    &&& forall|t: int| 16 <= t < 64 ==> #[trigger] word_follows(w, t)
}

proof fn sum_of_two(a: u32, b: u32)
    ensures
        sum32(a, b) == (a + b) % 0x1_0000_0000,
{
}

proof fn sum_of_four(a: u32, b: u32, c: u32, d: u32)
    ensures
        sum32(sum32(a, b), sum32(c, d)) == (a + b + c + d) % 0x1_0000_0000,
{
    sum_of_two(a, b);
    sum_of_two(c, d);
    sum_of_two(sum32(a, b), sum32(c, d));
}

proof fn sums_of_a_round(h: u32, s: u32, c: u32, k: u32, w: u32, p: u32, q: u32, d: u32)
    ensures
        ({
            let t1 = sum32(sum32(sum32(h, s), sum32(c, k)), w);
            &&& sum32(t1, sum32(p, q)) == (h + s + c + k + w + (p + q)) % 0x1_0000_0000
            &&& sum32(d, t1) == (d + (h + s + c + k + w)) % 0x1_0000_0000
        }),
{
    let m = 0x1_0000_0000int;
    let four = sum32(sum32(h, s), sum32(c, k));
    let t1 = sum32(four, w);
    let all = h + s + c + k + w;
    sum_of_four(h, s, c, k);
    lemma_add_mod_noop_right(w as int, h + s + c + k, m);
    assert(t1 == all % m);
    lemma_add_mod_noop(all, p + q, m);
    lemma_add_mod_noop_right(d as int, all, m);
}

/// Whether `next` are the words that come after `v` in round `t`.
pub open spec fn one_round(v: Words, next: Words, k: u32, w: u32) -> bool {
    let t1 = v.h + (turned(v.e, 6) ^ turned(v.e, 11) ^ turned(v.e, 25)) + ((v.e & v.f) ^ (!v.e
        & v.g)) + k + w;
    let t2 = (turned(v.a, 2) ^ turned(v.a, 13) ^ turned(v.a, 22)) + ((v.a & v.b) ^ (v.a & v.c) ^ (
    v.b & v.c));
    &&& next.a == (t1 + t2) % 0x1_0000_0000
    &&& next.b == v.a
    &&& next.c == v.b
    &&& next.d == v.c
    &&& next.e == (v.d + t1) % 0x1_0000_0000
    &&& next.f == v.e
    &&& next.g == v.f
    &&& next.h == v.g
}

proof fn schedule_is_the_one(block: Seq<u8>, w: Seq<u32>, t: nat)
    requires
        block.len() == 64,
        scheduled(block, w),
        t < 64,
    ensures
        schedule(block, t) == w[t as int],
    decreases t,
{
    if t >= 16 {
        schedule_is_the_one(block, w, (t - 2) as nat);
        schedule_is_the_one(block, w, (t - 7) as nat);
        schedule_is_the_one(block, w, (t - 15) as nat);
        schedule_is_the_one(block, w, (t - 16) as nat);
        assert(word_follows(w, t as int));
        let x0 = w[t - 15];
        let x1 = w[t - 2];
        sum_of_four(small_sigma1(x1), w[t - 7], small_sigma0(x0), w[t - 16]);
    } else {
        assert(w[t as int] == number_at(block, 4 * t as int));
    }
}

proof fn round_is_the_one(v: Words, next: Words, k: u32, w: u32)
    requires
        one_round(v, next, k, w),
    ensures
        round(v, k, w) == next,
{
    sums_of_a_round(
        v.h,
        big_sigma1(v.e),
        ch(v.e, v.f, v.g),
        k,
        w,
        big_sigma0(v.a),
        maj(v.a, v.b, v.c),
        v.d,
    );
}

proof fn rounds_are_those(v: Words, block: Seq<u8>, w: Seq<u32>, states: Seq<Words>, t: nat)
    requires
        block.len() == 64,
        scheduled(block, w),
        states.len() == 65,
        states[0] == v,
        forall|i: int|
            0 <= i < 64 ==> one_round(#[trigger] states[i], states[i + 1], K[i], w[i]),
        t <= 64,
    ensures
        rounds(v, block, t) == states[t as int],
    decreases t,
{
    if t > 0 {
        let i = t - 1;
        rounds_are_those(v, block, w, states, i as nat);
        schedule_is_the_one(block, w, i as nat);
        assert(one_round(states[i], states[i + 1], K[i], w[i]));
        round_is_the_one(states[i], states[t as int], K[i], w[i]);
    }
}

/// A block of sixty-four bytes goes through sixty-four rounds by its schedule,
/// and the words that come out are added to those that went in.
pub proof fn a_block_is_compressed_by_the_rounds(
    v: Words,
    block: Seq<u8>,
    w: Seq<u32>,
    states: Seq<Words>,
)
    requires
        block.len() == 64,
        scheduled(block, w),
        states.len() == 65,
        states[0] == v,
        forall|i: int|
            0 <= i < 64 ==> one_round(#[trigger] states[i], states[i + 1], K[i], w[i]),
    ensures
        ({
            let r = compress(v, block);
            let last = states[64];
            &&& r.a == (v.a + last.a) % 0x1_0000_0000
            &&& r.b == (v.b + last.b) % 0x1_0000_0000
            &&& r.c == (v.c + last.c) % 0x1_0000_0000
            &&& r.d == (v.d + last.d) % 0x1_0000_0000
            &&& r.e == (v.e + last.e) % 0x1_0000_0000
            &&& r.f == (v.f + last.f) % 0x1_0000_0000
            &&& r.g == (v.g + last.g) % 0x1_0000_0000
            &&& r.h == (v.h + last.h) % 0x1_0000_0000
        }),
{
    rounds_are_those(v, block, w, states, 64);
}

/// A digest is the words after the last block of the padded message, each as
/// four bytes, the most significant first.
pub proof fn a_digest_is_the_last_words(data: Seq<u8>)
    ensures
        ({
            let d = sha256_spec(data);
            let v = compress_all(initial_spec(), padded(data));
            &&& d.len() == 32
            &&& number_at(d, 0) == v.a
            &&& number_at(d, 4) == v.b
            &&& number_at(d, 8) == v.c
            &&& number_at(d, 12) == v.d
            &&& number_at(d, 16) == v.e
            &&& number_at(d, 20) == v.f
            &&& number_at(d, 24) == v.g
            &&& number_at(d, 28) == v.h
        }),
{
    let v = compress_all(initial_spec(), padded(data));
    digest_length(data, data);
    words_in_bytes(v);
}

proof fn words_in_bytes(v: Words)
    ensures
        ({
            let d = words_bytes(v);
            &&& number_at(d, 0) == v.a
            &&& number_at(d, 4) == v.b
            &&& number_at(d, 8) == v.c
            &&& number_at(d, 12) == v.d
            &&& number_at(d, 16) == v.e
            &&& number_at(d, 20) == v.f
            &&& number_at(d, 24) == v.g
            &&& number_at(d, 28) == v.h
        }),
{
    let d = words_bytes(v);
    assert(d.subrange(0, 4) =~= be32(v.a));
    assert(d.subrange(4, 8) =~= be32(v.b));
    assert(d.subrange(8, 12) =~= be32(v.c));
    assert(d.subrange(12, 16) =~= be32(v.d));
    assert(d.subrange(16, 20) =~= be32(v.e));
    assert(d.subrange(20, 24) =~= be32(v.f));
    assert(d.subrange(24, 28) =~= be32(v.g));
    assert(d.subrange(28, 32) =~= be32(v.h));
    word_in_bytes(d, 0, v.a);
    word_in_bytes(d, 4, v.b);
    word_in_bytes(d, 8, v.c);
    word_in_bytes(d, 12, v.d);
    word_in_bytes(d, 16, v.e);
    word_in_bytes(d, 20, v.f);
    word_in_bytes(d, 24, v.g);
    word_in_bytes(d, 28, v.h);
}

proof fn word_in_bytes(d: Seq<u8>, i: int, n: u32)
    requires
        0 <= i,
        i + 4 <= d.len(),
        d.subrange(i, i + 4) == be32(n),
    ensures
        number_at(d, i) == n,
{
    let part = d.subrange(i, i + 4);
    assert(part[0] == d[i] && part[1] == d[i + 1] && part[2] == d[i + 2] && part[3] == d[i + 3]);
    four_bytes(n);
}

/// Whether `pad` is a key of at most one block, filled up with zeros, each
/// byte combined with `mask`.
pub open spec fn pads(key: Seq<u8>, mask: u8, pad: Seq<u8>) -> bool {
    &&& key.len() <= 64
    &&& pad.len() == 64
    &&& forall|i: int|
        0 <= i < 64 ==> #[trigger] pad[i] == (if i < key.len() {
            key[i]
        } else {
            0u8
        }) ^ mask
}

/// The code of a message under a key is the digest of the outer pad of the key
/// and the digest of the inner pad and the message. A key longer than a block
/// counts by its digest.
pub proof fn a_code_is_a_digest_of_a_digest(
    key: Seq<u8>,
    message: Seq<u8>,
    inner: Seq<u8>,
    outer: Seq<u8>,
)
    ensures
        pads(key, 0x36, inner) && pads(key, 0x5c, outer) ==> hmac_sha256_spec(key, message)
            == sha256_spec(outer + sha256_spec(inner + message)),
        key.len() > 64 ==> hmac_sha256_spec(key, message) == hmac_sha256_spec(
            sha256_spec(key),
            message,
        ),
{
    if pads(key, 0x36, inner) && pads(key, 0x5c, outer) {
        assert(masked(block_key(key), 0x36) =~= inner);
        assert(masked(block_key(key), 0x5c) =~= outer);
    }
    if key.len() > 64 {
        digest_length(key, key);
        assert(block_key(key) =~= block_key(sha256_spec(key)));
    }
}

} // verus!
