//! The order in which the senders are served in one block: a pseudo-random
//! rearrangement of their places, fixed by the block's seed.

use rand_chacha::rand_core::{RngCore, SeedableRng};
use rand_chacha::ChaChaRng;
use vstd::prelude::*;

verus! {

/// The first `count` 32-bit words of the ChaCha20 stream keyed by `seed`.
pub uninterp spec fn chacha_stream(seed: Seq<u8>, count: nat) -> Seq<u32>;

/// Draws `count` words from a ChaCha generator made by
/// `ChaChaRng::from_seed(seed)`, each by `next_u32`. The generator is a pure
/// function of its seed, so the words are those of the stream of that seed.
#[verifier::external_body]
pub(crate) fn chacha_words(seed: &[u8; 32], count: usize) -> (words: Vec<u32>)
    ensures
        words@ == chacha_stream(seed@, count as nat),
        words@.len() == count,
{
    let mut rng = ChaChaRng::from_seed(*seed);
    let mut words = Vec::new();
    for _ in 0..count {
        words.push(rng.next_u32());
    }
    words
}

/// The seed of a block: the first 32 bytes of `hash`, with zeros where
/// `hash` is shorter.
pub open spec fn padded_seed(hash: Seq<u8>) -> Seq<u8> {
    Seq::new(
        32,
        |i: int|
            if i < hash.len() {
                hash[i]
            } else {
                0u8
            },
    )
}

/// The places `0..draws.len()` after the first `n` swaps: swap number `i`
/// exchanges place `i` with the place that `draws[i]` names, taken modulo
/// the number of places.
pub open spec fn shuffle_after(draws: Seq<u32>, n: nat) -> Seq<usize>
    decreases n,
{
    if n == 0 {
        Seq::new(draws.len(), |i: int| i as usize)
    } else {
        let before = shuffle_after(draws, (n - 1) as nat);
        let i = n - 1;
        let j = draws[i] as int % draws.len() as int;
        before.update(i, before[j]).update(j, before[i])
    }
}

/// The places `0..draws.len()` after all the swaps.
pub open spec fn swap_shuffle(draws: Seq<u32>) -> Seq<usize> {
    shuffle_after(draws, draws.len())
}

/// Whether `order` names each of the places `0..order.len()` exactly once.
pub open spec fn is_permutation(order: Seq<usize>) -> bool {
    &&& forall|k: int| 0 <= k < order.len() ==> (#[trigger] order[k]) < order.len()
    &&& order.no_duplicates()
}

/// Swapping keeps every place named exactly once.
pub proof fn lemma_shuffle_after_is_permutation(draws: Seq<u32>, n: nat)
    requires
        n <= draws.len() <= usize::MAX,
    ensures
        shuffle_after(draws, n).len() == draws.len(),
        is_permutation(shuffle_after(draws, n)),
    decreases n,
{
    if n == 0 {
        let start = shuffle_after(draws, 0);
        assert forall|k: int| 0 <= k < start.len() implies #[trigger] start[k] == k by {}
    } else {
        lemma_shuffle_after_is_permutation(draws, (n - 1) as nat);
        let before = shuffle_after(draws, (n - 1) as nat);
        let i = n - 1;
        let j = draws[i] as int % draws.len() as int;
        let after = shuffle_after(draws, n);
        assert forall|a: int, b: int| 0 <= a < after.len() && 0 <= b < after.len() && a
            != b implies after[a] != after[b] by {
            let a0 = if a == i { j } else if a == j { i } else { a };
            let b0 = if b == i { j } else if b == j { i } else { b };
            assert(after[a] == before[a0]);
            assert(after[b] == before[b0]);
        }
        assert forall|k: int| 0 <= k < after.len() implies (#[trigger] after[k])
            < after.len() by {
            let k0 = if k == i { j } else if k == j { i } else { k };
            assert(after[k] == before[k0]);
        }
    }
}

/// The dispatch order is a rearrangement of the places: each sender gets
/// its turn exactly once before any gets a second.
pub proof fn lemma_swap_shuffle_is_permutation(draws: Seq<u32>)
    requires
        draws.len() <= usize::MAX,
    ensures
        swap_shuffle(draws).len() == draws.len(),
        is_permutation(swap_shuffle(draws)),
{
    lemma_shuffle_after_is_permutation(draws, draws.len());
}

/// The block's seed from the hash of its parent.
pub fn pad_seed(hash: &Vec<u8>) -> (seed: [u8; 32])
    ensures
        seed@ == padded_seed(hash@),
{
    let mut seed: [u8; 32] = [0u8; 32];
    let mut i: usize = 0;
    while i < 32 && i < hash.len()
        invariant
            i <= 32,
            i <= hash.len(),
            seed@.len() == 32,
            forall|k: int| 0 <= k < i ==> seed@[k] == hash@[k],
            forall|k: int| i <= k < 32 ==> seed@[k] == 0u8,
        decreases 32 - i,
    {
        seed[i] = hash[i];
        i += 1;
    }
    assert(seed@ =~= padded_seed(hash@));
    seed
}

/// The dispatch order that the given draws lead to.
pub fn shuffle_from(draws: &Vec<u32>) -> (order: Vec<usize>)
    ensures
        order@ == swap_shuffle(draws@),
        order@.len() == draws@.len(),
        is_permutation(order@),
{
    let len = draws.len();
    let mut order: Vec<usize> = Vec::new();
    let mut k: usize = 0;
    while k < len
        invariant
            k <= len,
            order@ == Seq::new(k as nat, |i: int| i as usize),
        decreases len - k,
    {
        order.push(k);
        k += 1;
        assert(order@ =~= Seq::new(k as nat, |i: int| i as usize));
    }
    let mut i: usize = 0;
    while i < len
        invariant
            i <= len,
            len == draws.len(),
            order@ == shuffle_after(draws@, i as nat),
            order@.len() == len,
        decreases len - i,
    {
        let j = (draws[i] as usize) % len;
        let a = order[i];
        let b = order[j];
        order[i] = b;
        order[j] = a;
        i += 1;
        proof {
            lemma_shuffle_after_is_permutation(draws@, i as nat);
        }
    }
    proof {
        lemma_swap_shuffle_is_permutation(draws@);
    }
    order
}

/// The order in which `len` senders are served in the block whose parent
/// has the given hash: the swap shuffle on the first `len` words of the
/// ChaCha20 stream of the padded hash.
pub fn create_shuffle(parent_hash: &Vec<u8>, len: usize) -> (order: Vec<usize>)
    ensures
        order@ == swap_shuffle(chacha_stream(padded_seed(parent_hash@), len as nat)),
        order@.len() == len,
        is_permutation(order@),
{
    let seed = pad_seed(parent_hash);
    let draws = chacha_words(&seed, len);
    shuffle_from(&draws)
}

} // verus!
