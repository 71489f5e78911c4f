//! Length-prefixed fragments: how a message is framed inside a page, and
//! how the next one is read off the front of a page.

use parity_scale_codec::{Decode, Encode};
use vstd::prelude::*;
use vstd::slice::slice_subrange;

verus! {

/// The compact encoding of a length below 2^32: one, two, four or five
/// bytes, the two lowest bits of the first giving the width.
pub open spec fn compact_length(n: nat) -> Seq<u8> {
    if n < 0x40 {
        seq![(4 * n) as u8]
    } else if n < 0x4000 {
        seq![((4 * n + 1) % 0x100) as u8, ((4 * n + 1) / 0x100) as u8]
    } else if n < 0x4000_0000 {
        seq![
            ((4 * n + 2) % 0x100) as u8,
            ((4 * n + 2) / 0x100 % 0x100) as u8,
            ((4 * n + 2) / 0x1_0000 % 0x100) as u8,
            ((4 * n + 2) / 0x100_0000) as u8,
        ]
    } else {
        seq![
            3u8,
            (n % 0x100) as u8,
            (n / 0x100 % 0x100) as u8,
            (n / 0x1_0000 % 0x100) as u8,
            (n / 0x100_0000) as u8,
        ]
    }
}

/// A fragment on the wire: the compact encoding of the payload's length,
/// then the payload.
pub open spec fn fragment_encoding(payload: Seq<u8>) -> Seq<u8> {
    compact_length(payload.len()) + payload
}

/// Whether `input` is the fragment of `payload` followed by `rest`.
pub open spec fn splits(input: Seq<u8>, payload: Seq<u8>, rest: Seq<u8>) -> bool {
    payload.len() <= u32::MAX && input == fragment_encoding(payload) + rest
}

/// Whether `input` begins with a whole fragment.
pub open spec fn has_fragment(input: Seq<u8>) -> bool {
    exists|payload: Seq<u8>, rest: Seq<u8>| splits(input, payload, rest)
}

/// The payload of the fragment that `input` begins with, and what follows
/// the fragment.
pub open spec fn first_fragment(input: Seq<u8>) -> (Seq<u8>, Seq<u8>) {
    choose|split: (Seq<u8>, Seq<u8>)| splits(input, split.0, split.1)
}

/// The length that the compact encoding at the front of `bytes` stands for.
pub open spec fn compact_value(bytes: Seq<u8>) -> nat {
    if bytes[0] % 4 == 0 {
        (bytes[0] / 4) as nat
    } else if bytes[0] % 4 == 1 {
        ((bytes[0] + 0x100 * bytes[1]) / 4) as nat
    } else if bytes[0] % 4 == 2 {
        ((bytes[0] + 0x100 * bytes[1] + 0x1_0000 * bytes[2] + 0x100_0000 * bytes[3]) / 4) as nat
    } else {
        (bytes[1] + 0x100 * bytes[2] + 0x1_0000 * bytes[3] + 0x100_0000 * bytes[4]) as nat
    }
}

/// A number below 2^32 is the sum of its four bytes, each at its place.
proof fn lemma_four_bytes(v: nat)
    requires
        v < 0x1_0000_0000,
    ensures
        v == v % 0x100 + 0x100 * (v / 0x100 % 0x100) + 0x1_0000 * (v / 0x1_0000 % 0x100)
            + 0x100_0000 * (v / 0x100_0000),
        v / 0x100_0000 < 0x100,
        (v % 0x100) % 4 == v % 4,
{
}

/// A compact encoding of one byte gives its length back.
proof fn lemma_compact_value_one(n: nat, bytes: Seq<u8>)
    requires
        n < 0x40,
        bytes.len() >= 1,
        bytes[0] == compact_length(n)[0],
    ensures
        compact_value(bytes) == n,
{
}

/// A compact encoding of two bytes gives its length back.
proof fn lemma_compact_value_two(n: nat, bytes: Seq<u8>)
    requires
        0x40 <= n < 0x4000,
        bytes.len() >= 2,
        bytes[0] == compact_length(n)[0],
        bytes[1] == compact_length(n)[1],
    ensures
        compact_value(bytes) == n,
{
    let v = 4 * n + 1;
    lemma_four_bytes(v);
    assert(v / 0x100 < 0x100);
    assert(bytes[0] == v % 0x100);
    assert(bytes[1] == v / 0x100);
}

/// A compact encoding of four bytes gives its length back.
proof fn lemma_compact_value_four(n: nat, bytes: Seq<u8>)
    requires
        0x4000 <= n < 0x4000_0000,
        bytes.len() >= 4,
        bytes[0] == compact_length(n)[0],
        bytes[1] == compact_length(n)[1],
        bytes[2] == compact_length(n)[2],
        bytes[3] == compact_length(n)[3],
    ensures
        compact_value(bytes) == n,
{
    let v = 4 * n + 2;
    lemma_four_bytes(v);
    assert(bytes[0] == v % 0x100);
    assert(bytes[1] == v / 0x100 % 0x100);
    assert(bytes[2] == v / 0x1_0000 % 0x100);
    assert(bytes[3] == v / 0x100_0000);
}

/// A compact encoding of five bytes gives its length back.
proof fn lemma_compact_value_five(n: nat, bytes: Seq<u8>)
    requires
        0x4000_0000 <= n <= u32::MAX,
        bytes.len() >= 5,
        bytes[0] == compact_length(n)[0],
        bytes[1] == compact_length(n)[1],
        bytes[2] == compact_length(n)[2],
        bytes[3] == compact_length(n)[3],
        bytes[4] == compact_length(n)[4],
    ensures
        compact_value(bytes) == n,
{
    lemma_four_bytes(n);
    assert(bytes[0] == 3);
    assert(bytes[1] == n % 0x100);
    assert(bytes[2] == n / 0x100 % 0x100);
    assert(bytes[3] == n / 0x1_0000 % 0x100);
    assert(bytes[4] == n / 0x100_0000);
}

/// A compact encoding gives its length back, whatever follows it.
pub proof fn lemma_compact_value(n: nat, tail: Seq<u8>)
    requires
        n <= u32::MAX,
    ensures
        compact_value(compact_length(n) + tail) == n,
        1 <= compact_length(n).len() <= 5,
{
    let head = compact_length(n);
    let bytes = head + tail;
    assert(bytes[0] == head[0]);
    if n < 0x40 {
        lemma_compact_value_one(n, bytes);
    } else if n < 0x4000 {
        assert(bytes[1] == head[1]);
        lemma_compact_value_two(n, bytes);
    } else if n < 0x4000_0000 {
        assert(bytes[1] == head[1]);
        assert(bytes[2] == head[2]);
        assert(bytes[3] == head[3]);
        lemma_compact_value_four(n, bytes);
    } else {
        assert(bytes[1] == head[1]);
        assert(bytes[2] == head[2]);
        assert(bytes[3] == head[3]);
        assert(bytes[4] == head[4]);
        lemma_compact_value_five(n, bytes);
    }
}

/// A page begins with one fragment at most: payload and rest are determined
/// by the bytes.
pub proof fn lemma_split_unique(
    input: Seq<u8>,
    payload: Seq<u8>,
    rest: Seq<u8>,
    other_payload: Seq<u8>,
    other_rest: Seq<u8>,
)
    requires
        splits(input, payload, rest),
        splits(input, other_payload, other_rest),
    ensures
        payload == other_payload,
        rest == other_rest,
{
    lemma_compact_value(payload.len(), payload + rest);
    lemma_compact_value(other_payload.len(), other_payload + other_rest);
    assert(input =~= compact_length(payload.len()) + (payload + rest));
    assert(input =~= compact_length(other_payload.len()) + (other_payload + other_rest));
    let width = compact_length(payload.len()).len() as int;
    let n = payload.len() as int;
    assert(payload =~= input.subrange(width, width + n));
    assert(other_payload =~= input.subrange(width, width + n));
    assert(rest =~= input.skip(width + n));
    assert(other_rest =~= input.skip(width + n));
}

/// Where a page begins with a fragment, `first_fragment` gives its parts.
pub proof fn lemma_first_fragment(input: Seq<u8>, payload: Seq<u8>, rest: Seq<u8>)
    requires
        splits(input, payload, rest),
    ensures
        has_fragment(input),
        first_fragment(input) == (payload, rest),
        rest.len() < input.len(),
{
    let found = first_fragment(input);
    assert(splits(input, (payload, rest).0, (payload, rest).1));
    lemma_split_unique(input, payload, rest, found.0, found.1);
    lemma_compact_value(payload.len(), rest);
}

/// Where a page begins with a fragment, the page is that fragment followed
/// by the rest, and the rest is shorter than the page.
pub proof fn lemma_has_fragment(input: Seq<u8>)
    requires
        has_fragment(input),
    ensures
        splits(input, first_fragment(input).0, first_fragment(input).1),
        first_fragment(input).1.len() < input.len(),
{
    let (payload, rest) = choose|payload: Seq<u8>, rest: Seq<u8>| splits(input, payload, rest);
    lemma_first_fragment(input, payload, rest);
}

/// Frames `payload` as a fragment, by `Encode::encode` of the SCALE codec on
/// a byte vector: the compact encoding of the length, then the bytes. The
/// codec panics on a length of 2^32 or more.
#[verifier::external_body]
pub(crate) fn encode_bytes(payload: &Vec<u8>) -> (encoded: Vec<u8>)
    requires
        payload.len() <= u32::MAX,
    ensures
        encoded@ == fragment_encoding(payload@),
{
    payload.encode()
}

/// Reads one fragment off the front of `input`, by `Decode::decode` of the
/// SCALE codec for a byte vector: it succeeds exactly where `input` begins
/// with the canonical compact encoding of a length followed by that many
/// bytes, and then gives those bytes and the number of bytes left behind
/// them.
#[verifier::external_body]
pub(crate) fn decode_bytes(input: &[u8]) -> (decoded: Option<(Vec<u8>, usize)>)
    ensures
        match decoded {
            Some((payload, left)) => left <= input@.len() && splits(
                input@,
                payload@,
                input@.skip(input@.len() - left),
            ),
            None => forall|payload: Seq<u8>, rest: Seq<u8>| !splits(input@, payload, rest),
        },
{
    let mut rest = input;
    match <Vec<u8>>::decode(&mut rest) {
        Ok(payload) => Some((payload, rest.len())),
        Err(_) => None,
    }
}

/// Reads the fragment that begins at position `from` of `data`, and gives
/// its payload and the position behind it.
pub fn next_fragment(data: &Vec<u8>, from: usize) -> (found: Option<(Vec<u8>, usize)>)
    requires
        from <= data.len(),
    ensures
        match found {
            Some((payload, next)) => {
                &&& from < next <= data.len()
                &&& has_fragment(data@.skip(from as int))
                &&& first_fragment(data@.skip(from as int)) == (payload@, data@.skip(next as int))
            },
            None => !has_fragment(data@.skip(from as int)),
        },
{
    let input = slice_subrange(data.as_slice(), from, data.len());
    assert(input@ =~= data@.skip(from as int));
    match decode_bytes(input) {
        Some((payload, left)) => {
            let next = data.len() - left;
            proof {
                let rest = input@.skip(input@.len() - left);
                assert(rest =~= data@.skip(next as int));
                lemma_first_fragment(input@, payload@, rest);
            }
            Some((payload, next))
        },
        None => None,
    }
}

} // verus!
