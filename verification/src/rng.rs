//! Random draws, one generator per call site.
//!
//! A request's latency draw must not depend on what else the service is doing.
//! A fresh generator for each `(seed, request_id, downstream_id, attempt)`
//! makes that structural: the draws of one call site are the same numbers
//! whatever else is in flight.

use rand::Rng;
use rand::RngCore;
use rand::SeedableRng;
use rand_chacha::ChaCha8Rng;
use vstd::arithmetic::div_mod::lemma_fundamental_div_mod_converse;
use vstd::arithmetic::power2::lemma2_to64;
use vstd::arithmetic::power2::lemma_pow2_adds;
use vstd::arithmetic::power2::lemma_pow2_pos;
use vstd::arithmetic::power2::pow2;
use vstd::prelude::*;

use crate::binary64::lemma_size_increases;
use crate::binary64::size_of_magnitude;
use crate::binary64::unity;
use crate::binary64::zero;
use crate::binary64::Binary64;
use crate::binary64::HIDDEN;
use crate::binary64::ONE;
use crate::conversion::from_u64;
use crate::conversion::whole;
use crate::digest::lemma_mixed_injective;
use crate::digest::mixed;
use crate::digest::splitmix64;
use crate::ranks::has_digits;
use crate::ranks::lemma_scales;
use crate::ranks::lemma_settled_short;
use crate::ranks::lemma_share_of;
use crate::ranks::lemma_unity;
use crate::rounding::lemma_powers;

verus! {

/// The generator of `rand_chacha`.
#[verifier::external_type_specification]
#[verifier::external_body]
pub struct ExChaCha8Rng(ChaCha8Rng);

/// The 64-bit words that a generator has yet to hand out, from the next one on.
pub uninterp spec fn words(rng: ChaCha8Rng) -> Map<nat, u64>;

/// The words of the generator that starts from `seed`.
pub uninterp spec fn chacha8_words(seed: u64) -> Map<nat, u64>;

/// A number below `n` drawn from a stream of words, and the words left after.
pub uninterp spec fn uniform_draw(words: Map<nat, u64>, n: u64) -> (u64, Map<nat, u64>);

/// The stream without its first word.
pub open spec fn shifted(words: Map<nat, u64>) -> Map<nat, u64> {
    Map::new(|i: nat| true, |i: nat| words[i + 1])
}

/// 2^-53.
pub const UNIT_STEP: u64 = 0x3CA0_0000_0000_0000;

/// The number in `[0, 1)` that the leading 53 bits of a word stand for.
pub open spec fn unit(word: u64) -> Binary64 {
    (Binary64 { bits: UNIT_STEP }).times(whole((word / 2048) as nat))
}

/// `ChaCha8Rng::seed_from_u64`: the words of the new generator are a function
/// of `state`.
#[verifier::external_body]
fn seed_from_u64(state: u64) -> (r: ChaCha8Rng)
    ensures
        words(r) == chacha8_words(state),
{
    ChaCha8Rng::seed_from_u64(state)
}

/// `RngCore::next_u64` of `ChaCha8Rng`: hands out the next word, and no other.
#[verifier::external_body]
fn next_u64(rng: &mut ChaCha8Rng) -> (r: u64)
    ensures
        r == words(*old(rng))[0],
        words(*final(rng)) == shifted(words(*old(rng))),
{
    rng.next_u64()
}

/// `Rng::gen_range` of `ChaCha8Rng` over `0 .. n`: a number below `n`. It, and
/// how many words it takes, depend on the words and on `n` alone. An empty
/// range would panic.
#[verifier::external_body]
fn gen_range(rng: &mut ChaCha8Rng, n: u64) -> (r: u64)
    requires
        n > 0,
    ensures
        r < n,
        (r, words(*final(rng))) == uniform_draw(words(*old(rng)), n),
{
    rng.gen_range(0..n)
}

/// A number in `[0, 1)`.
pub fn unit_draw(rng: &mut ChaCha8Rng) -> (r: Binary64)
    ensures
        r == unit(words(*old(rng))[0]),
        words(*final(rng)) == shifted(words(*old(rng))),
{
    let word: u64 = next_u64(rng);
    Binary64::from_bits(UNIT_STEP).mul(from_u64(word / 2048))
}

/// The smallest number above zero that has all its digits: 2^-1022.
pub const MIN_POSITIVE: u64 = 0x0010_0000_0000_0000;

/// The number above zero that a word stands for: zero is lifted to the
/// smallest, so that it has a logarithm.
pub open spec fn open_unit(word: u64) -> Binary64 {
    unit(word).greater(Binary64 { bits: MIN_POSITIVE })
}

/// A number in `(0, 1)`.
pub fn open_unit_draw(rng: &mut ChaCha8Rng) -> (r: Binary64)
    ensures
        r == open_unit(words(*old(rng))[0]),
        words(*final(rng)) == shifted(words(*old(rng))),
{
    unit_draw(rng).max(Binary64::from_bits(MIN_POSITIVE))
}

/// An index below `n`.
pub fn index_draw(rng: &mut ChaCha8Rng, n: usize) -> (r: usize)
    requires
        n > 0,
    ensures
        r < n,
        (r as u64, words(*final(rng))) == uniform_draw(words(*old(rng)), n as u64),
{
    gen_range(rng, n as u64) as usize
}

/// A call site as one integer: attempt in the low 8 bits, downstream in the
/// next 16, request in the upper 40. What exceeds its width is cut off.
pub open spec fn key(request_id: u64, downstream_id: u16, attempt: u32) -> nat {
    ((request_id % 0x100_0000_0000) * 0x100_0000 + downstream_id * 0x100 + attempt % 0x100) as nat
}

/// Packs a call site into one integer, each field in its own bit range.
pub fn call_key(request_id: u64, downstream_id: u16, attempt: u32) -> (r: u64)
    ensures
        r == key(request_id, downstream_id, attempt),
{
    let ds: u64 = downstream_id as u64;
    let at: u64 = attempt as u64;
    assert((request_id << 24u64) | (ds << 8u64) | (at & 0xFF) == (request_id % 0x100_0000_0000)
        * 0x100_0000 + ds * 0x100 + at % 0x100) by (bit_vector)
        requires
            ds < 0x1_0000,
    ;
    (request_id << 24u64) | (ds << 8u64) | (at & 0xFF)
}

/// Within the widths of the fields, no two call sites share a key.
pub proof fn lemma_keys_distinct(r1: u64, d1: u16, a1: u32, r2: u64, d2: u16, a2: u32)
    requires
        r1 < 0x100_0000_0000,
        r2 < 0x100_0000_0000,
        a1 < 0x100,
        a2 < 0x100,
        key(r1, d1, a1) == key(r2, d2, a2),
    ensures
        r1 == r2,
        d1 == d2,
        a1 == a2,
{
}

/// The seed of a call site's generator.
pub open spec fn call_seed(seed: u64, request_id: u64, downstream_id: u16, attempt: u32) -> u64 {
    mixed(seed ^ mixed(key(request_id, downstream_id, attempt) as u64))
}

/// The seed of the arrival timeline's generator.
pub open spec fn arrival_seed(seed: u64) -> u64 {
    mixed(seed ^ 0xA771_7A17_A771_7A17)
}

/// The seed of the generator that assigns request classes.
pub open spec fn class_seed(seed: u64) -> u64 {
    mixed(seed ^ 0xC1A5_5C1A_55C1_A55C)
}

/// The value that a downstream returns for a request.
pub open spec fn digest_of_call(seed: u64, request_id: u64, downstream_id: u16) -> u64 {
    mixed(seed ^ 0xD16E_5700_D16E_5700 ^ mixed(key(request_id, downstream_id, 0) as u64))
}

/// The nonce of a request.
pub open spec fn nonce_of(seed: u64, request_id: u64) -> u64 {
    mixed(seed ^ mixed(request_id ^ 0x9051_0AD9_0510_AD90))
}

/// The generator of one downstream call.
pub fn call_rng(seed: u64, request_id: u64, downstream_id: u16, attempt: u32) -> (r: ChaCha8Rng)
    ensures
        words(r) == chacha8_words(call_seed(seed, request_id, downstream_id, attempt)),
{
    let key: u64 = call_key(request_id, downstream_id, attempt);
    seed_from_u64(splitmix64(seed ^ splitmix64(key)))
}

/// The generator of the arrival timeline, used up before the run starts.
pub fn arrival_rng(seed: u64) -> (r: ChaCha8Rng)
    ensures
        words(r) == chacha8_words(arrival_seed(seed)),
{
    seed_from_u64(splitmix64(seed ^ 0xA771_7A17_A771_7A17))
}

/// The generator that assigns request classes. A stream of its own, so that
/// changing the class mix leaves the arrival times as they are.
pub fn class_rng(seed: u64) -> (r: ChaCha8Rng)
    ensures
        words(r) == chacha8_words(class_seed(seed)),
{
    seed_from_u64(splitmix64(seed ^ 0xC1A5_5C1A_55C1_A55C))
}

/// The value that a downstream returns. It has no attempt field: a retry gets
/// the same value.
pub fn call_digest(seed: u64, request_id: u64, downstream_id: u16) -> (r: u64)
    ensures
        r == digest_of_call(seed, request_id, downstream_id),
{
    let key: u64 = call_key(request_id, downstream_id, 0);
    splitmix64(seed ^ 0xD16E_5700_D16E_5700 ^ splitmix64(key))
}

/// The nonce of a request, unique to it.
pub fn payload_nonce(seed: u64, request_id: u64) -> (r: u64)
    ensures
        r == nonce_of(seed, request_id),
{
    splitmix64(seed ^ splitmix64(request_id ^ 0x9051_0AD9_0510_AD90))
}

proof fn lemma_xor_injective(s: u64, a: u64, b: u64)
    requires
        s ^ a == s ^ b,
    ensures
        a == b,
{
    assert(a == b) by (bit_vector)
        requires
            s ^ a == s ^ b,
    ;
}

/// Distinct call sites draw from generators with distinct seeds, whatever
/// fields they differ in.
pub proof fn lemma_call_seeds_distinct(
    seed: u64,
    r1: u64,
    d1: u16,
    a1: u32,
    r2: u64,
    d2: u16,
    a2: u32,
)
    requires
        r1 < 0x100_0000_0000,
        r2 < 0x100_0000_0000,
        a1 < 0x100,
        a2 < 0x100,
        call_seed(seed, r1, d1, a1) == call_seed(seed, r2, d2, a2),
    ensures
        r1 == r2,
        d1 == d2,
        a1 == a2,
{
    let k1 = key(r1, d1, a1) as u64;
    let k2 = key(r2, d2, a2) as u64;
    lemma_mixed_injective(seed ^ mixed(k1), seed ^ mixed(k2));
    lemma_xor_injective(seed, mixed(k1), mixed(k2));
    lemma_mixed_injective(k1, k2);
    lemma_keys_distinct(r1, d1, a1, r2, d2, a2);
}

/// Distinct calls return distinct values, so no answer stands in for another.
pub proof fn lemma_call_digests_distinct(seed: u64, r1: u64, d1: u16, r2: u64, d2: u16)
    requires
        r1 < 0x100_0000_0000,
        r2 < 0x100_0000_0000,
        digest_of_call(seed, r1, d1) == digest_of_call(seed, r2, d2),
    ensures
        r1 == r2,
        d1 == d2,
{
    let k1 = key(r1, d1, 0) as u64;
    let k2 = key(r2, d2, 0) as u64;
    let s = seed ^ 0xD16E_5700_D16E_5700;
    lemma_mixed_injective(s ^ mixed(k1), s ^ mixed(k2));
    lemma_xor_injective(s, mixed(k1), mixed(k2));
    lemma_mixed_injective(k1, k2);
    lemma_keys_distinct(r1, d1, 0, r2, d2, 0);
}

/// Distinct requests have distinct nonces.
pub proof fn lemma_nonces_distinct(seed: u64, r1: u64, r2: u64)
    requires
        nonce_of(seed, r1) == nonce_of(seed, r2),
    ensures
        r1 == r2,
{
    let c: u64 = 0x9051_0AD9_0510_AD90;
    lemma_mixed_injective(seed ^ mixed(r1 ^ c), seed ^ mixed(r2 ^ c));
    lemma_xor_injective(seed, mixed(r1 ^ c), mixed(r2 ^ c));
    lemma_mixed_injective(r1 ^ c, r2 ^ c);
    assert(r1 == r2) by (bit_vector)
        requires
            r1 ^ c == r2 ^ c,
    ;
}

/// Arrivals and classes are drawn from differently seeded generators: the
/// class mix does not touch the arrival times.
pub proof fn lemma_streams_distinct(seed: u64)
    ensures
        arrival_seed(seed) != class_seed(seed),
{
    let a: u64 = 0xA771_7A17_A771_7A17;
    let c: u64 = 0xC1A5_5C1A_55C1_A55C;
    if arrival_seed(seed) == class_seed(seed) {
        lemma_mixed_injective(seed ^ a, seed ^ c);
        lemma_xor_injective(seed, a, c);
    }
}

/// What a call returns is not the seed of its latency.
pub proof fn lemma_digest_is_no_seed(seed: u64, request_id: u64, downstream_id: u16)
    ensures
        digest_of_call(seed, request_id, downstream_id) != call_seed(
            seed,
            request_id,
            downstream_id,
            0,
        ),
{
    let k = mixed(key(request_id, downstream_id, 0) as u64);
    let c: u64 = 0xD16E_5700_D16E_5700;
    if mixed(seed ^ c ^ k) == mixed(seed ^ k) {
        lemma_mixed_injective(seed ^ c ^ k, seed ^ k);
        assert(c == 0) by (bit_vector)
            requires
                seed ^ c ^ k == seed ^ k,
        ;
    }
}

/// A number drawn from a word has 53 binary digits behind the point, and lies
/// in `[0, 1)`.
pub proof fn lemma_unit(word: u64)
    ensures
        has_digits(unit(word), (word / 2048) as nat),
        zero().less_or_equal(unit(word)),
        unit(word).less(unity()),
{
    let k = (word / 2048) as nat;
    let c = pow2(1021);
    let step = Binary64 { bits: UNIT_STEP };
    lemma_powers();
    lemma_scales();
    lemma_unity();
    lemma_pow2_adds(52, 969);
    lemma_fundamental_div_mod_converse(UNIT_STEP as int, HIDDEN as int, 970, 0);
    assert(has_digits(step, 1));
    lemma_share_of(step, 1, k);
    assert(step.size() * k == k * c) by (nonlinear_arith)
        requires
            step.size() == 1 * c,
    ;
    lemma_settled_short(k, 1021);
    assert(k * c < 0x20_0000_0000_0000 * c) by (nonlinear_arith)
        requires
            k < 0x20_0000_0000_0000,
            c > 0,
    ;
    assert(k * c >= 0) by (nonlinear_arith);
    assert(size_of_magnitude(0) == 0);
}

/// Lifted above zero, it lies in `(0, 1)`.
pub proof fn lemma_open_unit(word: u64)
    ensures
        open_unit(word).positive(),
        open_unit(word).less(unity()),
{
    lemma_unit(word);
    assert(size_of_magnitude(0) == 0);
    lemma_size_increases(0, MIN_POSITIVE as nat);
    lemma_size_increases(MIN_POSITIVE as nat, ONE as nat);
}

/// Only zero is lifted, and only as far as the smallest number that has all its
/// digits.
pub proof fn lemma_lifted(word: u64)
    ensures
        word >= 2048 ==> open_unit(word) == unit(word),
        word < 2048 ==> open_unit(word).size() == 0x10_0000_0000_0000,
{
    let k = (word / 2048) as nat;
    let c = pow2(1021);
    let least = Binary64 { bits: MIN_POSITIVE };
    lemma_unit(word);
    lemma_scales();
    assert(size_of_magnitude(0) == 0);
    lemma_powers();
    lemma2_to64();
    lemma_fundamental_div_mod_converse(MIN_POSITIVE as int, HIDDEN as int, 1, 0);
    assert(MIN_POSITIVE as nat / HIDDEN as nat == 1 && MIN_POSITIVE as nat % HIDDEN as nat == 0);
    assert(pow2(0) == 1);
    assert((HIDDEN as nat + 0) * pow2(0) == 0x10_0000_0000_0000) by (nonlinear_arith)
        requires
            pow2(0) == 1,
    ;
    assert(least.magnitude() == MIN_POSITIVE);
    assert(least.size() == 0x10_0000_0000_0000);
    if word >= 2048 {
        lemma_pow2_adds(64, 957);
        lemma_pow2_pos(957);
        assert(k * c >= c) by (nonlinear_arith)
            requires
                k >= 1,
                c > 0,
        ;
        assert(unit(word).size() > least.size());
    } else {
        assert(k * c == 0) by (nonlinear_arith)
            requires
                k == 0,
        ;
    }
}

} // verus!
