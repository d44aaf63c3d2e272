//! Response digests.

use vstd::arithmetic::div_mod::lemma_mul_mod_noop_left;
use vstd::arithmetic::div_mod::lemma_small_mod;
use vstd::prelude::*;
use vstd::seq_lib::lemma_sorted_unique;

use crate::sort::ascending;
use crate::sort::sort;

verus! {

/// Scrambles 64 bits: a step of the splitmix64 generator.
pub open spec fn mixed(z: u64) -> u64 {
    let a = z.wrapping_add(0x9E37_79B9_7F4A_7C15);
    let b = (a ^ (a >> 30)).wrapping_mul(0xBF58_476D_1CE4_E5B9);
    let c = (b ^ (b >> 27)).wrapping_mul(0x94D0_49BB_1331_11EB);
    c ^ (c >> 31)
}

/// Each digest in turn, mixed into what came before.
pub open spec fn chained(start: u64, digests: Seq<u64>) -> u64
    decreases digests.len(),
{
    if digests.len() == 0 {
        start
    } else {
        mixed(chained(start, digests.drop_last()) ^ digests.last())
    }
}

/// The digest of a response: the nonce, then the call digests in ascending
/// order.
pub open spec fn folded(nonce: u64, digests: Seq<u64>) -> u64 {
    chained(mixed(nonce), digests.sort_by(ascending()))
}

/// splitmix64 finalizer. Written out rather than taken from a hasher whose
/// output may change between releases.
pub fn splitmix64(z: u64) -> (r: u64)
    ensures
        r == mixed(z),
{
    let a: u64 = z.wrapping_add(0x9E37_79B9_7F4A_7C15);
    let b: u64 = (a ^ (a >> 30)).wrapping_mul(0xBF58_476D_1CE4_E5B9);
    let c: u64 = (b ^ (b >> 27)).wrapping_mul(0x94D0_49BB_1331_11EB);
    c ^ (c >> 31)
}

/// Folds per-call digests into a response digest, whatever order the calls
/// were made in.
pub fn fold_digest(nonce: u64, call_digests: &mut Vec<u64>) -> (r: u64)
    ensures
        r == folded(nonce, old(call_digests)@),
        final(call_digests)@ == old(call_digests)@.sort_by(ascending()),
{
    sort(call_digests);
    let mut acc: u64 = splitmix64(nonce);
    let mut i: usize = 0;
    while i < call_digests.len()
        invariant
            i <= call_digests.len(),
            acc == chained(mixed(nonce), call_digests@.take(i as int)),
        decreases call_digests.len() - i,
    {
        proof {
            let next = call_digests@.take(i + 1);
            assert(next.drop_last() =~= call_digests@.take(i as int));
            assert(next.last() == call_digests[i as int]);
        }
        acc = splitmix64(acc ^ call_digests[i]);
        i = i + 1;
    }
    assert(call_digests@.take(i as int) =~= call_digests@);
    acc
}

/// Multiplying by a number that has an inverse loses nothing.
proof fn lemma_wrapping_mul_injective(a: u64, b: u64, c: u64, inverse: u64)
    requires
        (c * inverse) % 0x1_0000_0000_0000_0000 == 1,
        a.wrapping_mul(c) == b.wrapping_mul(c),
    ensures
        a == b,
{
    let m: int = 0x1_0000_0000_0000_0000;
    lemma_undone(a, c, inverse);
    lemma_undone(b, c, inverse);
}

proof fn lemma_undone(a: u64, c: u64, inverse: u64)
    requires
        (c * inverse) % 0x1_0000_0000_0000_0000 == 1,
    ensures
        (a.wrapping_mul(c) * inverse) % 0x1_0000_0000_0000_0000 == a,
{
    let m: int = 0x1_0000_0000_0000_0000;
    let p = a * c;
    assert(a.wrapping_mul(c) == p % m);
    lemma_mul_mod_noop_left(p, inverse as int, m);
    assert(p * inverse == (c * inverse) * a) by (nonlinear_arith)
        requires
            p == a * c,
    ;
    lemma_mul_mod_noop_left(c * inverse, a as int, m);
    lemma_small_mod(a as nat, m as nat);
}

/// No two inputs mix to the same output.
pub proof fn lemma_mixed_injective(x: u64, y: u64)
    requires
        mixed(x) == mixed(y),
    ensures
        x == y,
{
    let ax = x.wrapping_add(0x9E37_79B9_7F4A_7C15);
    let ay = y.wrapping_add(0x9E37_79B9_7F4A_7C15);
    let sx = ax ^ (ax >> 30);
    let sy = ay ^ (ay >> 30);
    let bx = sx.wrapping_mul(0xBF58_476D_1CE4_E5B9);
    let by_ = sy.wrapping_mul(0xBF58_476D_1CE4_E5B9);
    let tx = bx ^ (bx >> 27);
    let ty = by_ ^ (by_ >> 27);
    let cx = tx.wrapping_mul(0x94D0_49BB_1331_11EB);
    let cy = ty.wrapping_mul(0x94D0_49BB_1331_11EB);
    assert(cx == cy) by (bit_vector)
        requires
            cx ^ (cx >> 31) == cy ^ (cy >> 31),
    ;
    lemma_wrapping_mul_injective(tx, ty, 0x94D0_49BB_1331_11EB, 0x3196_42B2_D24D_8EC3);
    assert(bx == by_) by (bit_vector)
        requires
            bx ^ (bx >> 27) == by_ ^ (by_ >> 27),
    ;
    lemma_wrapping_mul_injective(sx, sy, 0xBF58_476D_1CE4_E5B9, 0x96DE_1B17_3F11_9089);
    assert(ax == ay) by (bit_vector)
        requires
            ax ^ (ax >> 30) == ay ^ (ay >> 30),
    ;
}

/// Call order is unconstrained: the fold sees only which digests there are.
pub proof fn lemma_fold_order_independent(nonce: u64, a: Seq<u64>, b: Seq<u64>)
    requires
        a.to_multiset() == b.to_multiset(),
    ensures
        folded(nonce, a) == folded(nonce, b),
{
    a.lemma_sort_by_ensures(ascending());
    b.lemma_sort_by_ensures(ascending());
    lemma_sorted_unique(a.sort_by(ascending()), b.sort_by(ascending()), ascending());
}

proof fn lemma_chained_injective(x: u64, y: u64, digests: Seq<u64>)
    requires
        chained(x, digests) == chained(y, digests),
    ensures
        x == y,
    decreases digests.len(),
{
    if digests.len() > 0 {
        let a = chained(x, digests.drop_last());
        let b = chained(y, digests.drop_last());
        let d = digests.last();
        lemma_mixed_injective(a ^ d, b ^ d);
        assert(a == b) by (bit_vector)
            requires
                a ^ d == b ^ d,
        ;
        lemma_chained_injective(x, y, digests.drop_last());
    }
}

/// The same call digests under another nonce fold to another digest, so an
/// answer kept from one request fails for the next.
pub proof fn lemma_fold_separates_nonces(m: u64, n: u64, digests: Seq<u64>)
    requires
        folded(m, digests) == folded(n, digests),
    ensures
        m == n,
{
    lemma_chained_injective(mixed(m), mixed(n), digests.sort_by(ascending()));
    lemma_mixed_injective(m, n);
}

} // verus!
