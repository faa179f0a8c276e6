//! The byte mixing at the heart of the compression function: `twiddle`
//! scrambles the eight bytes of a block in place, and `transform` keys a block
//! with a chaining value and twiddles it many times.
use vstd::prelude::*;
use vstd::bytes::{spec_u64_from_le_bytes, spec_u64_to_le_bytes, u64_from_le_bytes, u64_to_le_bytes};

use crate::padding::zeros;
use crate::BLOCK_SIZE;

verus! {

/// How many times `transform` twiddles a block.
pub const TWIDDLE_ROUNDS: usize = 1024;

/// The value that `twiddle` XORs into byte `j` of `a`: each of the seven
/// other bytes, taken cyclically after `j`, shifted left or right by an amount
/// that depends on its distance from `j`.
pub open spec fn mix(a: Seq<u8>, j: int) -> u8 {
    ((a[(j + 1) % 8] << (((j + 7) % 8) as usize))
        ^ (a[(j + 2) % 8] << (((j + 6) % 8) as usize))
        ^ (a[(j + 3) % 8] << (((j + 5) % 8) as usize))
        ^ (a[(j + 4) % 8] << (((j + 4) % 8) as usize))
        ^ (a[(j + 5) % 8] >> (((j + 3) % 8) as usize))
        ^ (a[(j + 6) % 8] >> (((j + 2) % 8) as usize))
        ^ (a[(j + 7) % 8] >> (((j + 1) % 8) as usize)))
}

/// One step of a twiddle: byte `j` is XORed with `mix(a, j)`.
pub open spec fn twiddle_step(a: Seq<u8>, j: int) -> Seq<u8> {
    a.update(j, a[j] ^ mix(a, j))
}

/// The first `n` steps of a twiddle, applied in order to bytes `0..n`; each
/// step sees the bytes that the steps before it have already changed.
pub open spec fn twiddle_upto(a: Seq<u8>, n: nat) -> Seq<u8>
    decreases n,
{
    if n == 0 {
        a
    } else {
        twiddle_step(twiddle_upto(a, (n - 1) as nat), n - 1)
    }
}

/// One full twiddle of an eight-byte block.
pub open spec fn spec_twiddle(a: Seq<u8>) -> Seq<u8> {
    twiddle_upto(a, 8)
}

/// `k` twiddles in a row.
pub open spec fn twiddle_rounds(a: Seq<u8>, k: nat) -> Seq<u8>
    decreases k,
{
    if k == 0 {
        a
    } else {
        spec_twiddle(twiddle_rounds(a, (k - 1) as nat))
    }
}

/// The bytewise XOR of two eight-byte blocks.
pub open spec fn xor_block(a: Seq<u8>, b: Seq<u8>) -> Seq<u8> {
    Seq::new(8, |j: int| a[j] ^ b[j])
}

/// The block `arr` XORed with the little-endian bytes of `cv`, twiddled
/// `TWIDDLE_ROUNDS` times, and read back as a little-endian `u64`.
pub open spec fn spec_transform(cv: u64, arr: Seq<u8>) -> u64 {
    spec_u64_from_le_bytes(
        twiddle_rounds(xor_block(arr, spec_u64_to_le_bytes(cv)), TWIDDLE_ROUNDS as nat),
    )
}

/// A block of zeros is a fixed point of every partial twiddle.
proof fn lemma_twiddle_upto_zero(n: nat)
    requires
        n <= 8,
    ensures
        twiddle_upto(zeros(8), n) == zeros(8),
    decreases n,
{
    if n > 0 {
        lemma_twiddle_upto_zero((n - 1) as nat);
        let z = zeros(8);
        let j = n - 1;
        assert forall|a: u8, s: usize| #![trigger a << s] a == 0 && s < 8 ==> a << s == 0u8 by {
            if a == 0 && s < 8 {
                assert(a == 0u8 && s < 8usize ==> a << s == 0u8) by (bit_vector);
            }
        }
        assert forall|a: u8, s: usize| #![trigger a >> s] a == 0 && s < 8 ==> a >> s == 0u8 by {
            if a == 0 && s < 8 {
                assert(a == 0u8 && s < 8usize ==> a >> s == 0u8) by (bit_vector);
            }
        }
        assert(0u8 ^ 0u8 == 0u8) by (bit_vector);
        assert(mix(z, j) == 0u8);
        assert(twiddle_step(z, j) =~= z);
    }
}

/// Twiddling a block of zeros gives zeros again, however many times it is
/// done: the shifts only bring in more zeros and the XORs never set a bit.
pub proof fn lemma_twiddle_zeros(k: nat)
    ensures
        spec_twiddle(zeros(8)) == zeros(8),
        twiddle_rounds(zeros(8), k) == zeros(8),
    decreases k,
{
    lemma_twiddle_upto_zero(8);
    if k > 0 {
        lemma_twiddle_zeros((k - 1) as nat);
    }
}

/// Keying a block with the very chaining value it holds, byte for byte,
/// gives a block of zeros, which the twiddles keep at zero: the result of
/// `transform` is then 0.
pub proof fn lemma_transform_of_own_bytes(cv: u64)
    ensures
        spec_transform(cv, spec_u64_to_le_bytes(cv)) == 0,
{
    let b = spec_u64_to_le_bytes(cv);
    vstd::bytes::lemma_auto_spec_u64_to_from_le_bytes();
    assert forall|j: int| 0 <= j < 8 implies #[trigger] xor_block(b, b)[j] == 0u8 by {
        let x = b[j];
        assert(x ^ x == 0u8) by (bit_vector);
    }
    assert(xor_block(b, b) =~= zeros(8));
    lemma_twiddle_zeros(TWIDDLE_ROUNDS as nat);
    let z = spec_u64_to_le_bytes(0u64);
    vstd::bytes::spec_u64_to_le_bytes_to_open(0u64);
    let x: u64 = 0;
    assert((x & 0xff) as u8 == 0u8 && ((x >> 8) & 0xff) as u8 == 0u8 && ((x >> 16) & 0xff) as u8
        == 0u8 && ((x >> 24) & 0xff) as u8 == 0u8 && ((x >> 32) & 0xff) as u8 == 0u8 && ((x >> 40)
        & 0xff) as u8 == 0u8 && ((x >> 48) & 0xff) as u8 == 0u8 && ((x >> 56) & 0xff) as u8
        == 0u8) by (bit_vector)
        requires
            x == 0u64,
    ;
    assert(z =~= zeros(8));
}

/// Twiddle rounds compose: `m` rounds followed by `n` rounds are `m + n`
/// rounds, and one round is one twiddle.
pub proof fn lemma_twiddle_rounds_compose(a: Seq<u8>, m: nat, n: nat)
    ensures
        twiddle_rounds(a, 1) == spec_twiddle(a),
        twiddle_rounds(twiddle_rounds(a, m), n) == twiddle_rounds(a, m + n),
    decreases n,
{
    assert(twiddle_rounds(a, 0) == a);
    if n > 0 {
        lemma_twiddle_rounds_compose(a, m, (n - 1) as nat);
        assert((m + n - 1) as nat == m + (n - 1) as nat);
    }
}

/// `transform` sees the block and the chaining value only through their
/// bytewise XOR: two pairs that key to the same bytes transform alike.
pub proof fn lemma_transform_depends_on_keyed_block(
    cv1: u64,
    arr1: Seq<u8>,
    cv2: u64,
    arr2: Seq<u8>,
)
    requires
        forall|j: int|
            0 <= j < 8 ==> #[trigger] (arr1[j] ^ spec_u64_to_le_bytes(cv1)[j]) == arr2[j]
                ^ spec_u64_to_le_bytes(cv2)[j],
    ensures
        spec_transform(cv1, arr1) == spec_transform(cv2, arr2),
{
    assert(xor_block(arr1, spec_u64_to_le_bytes(cv1)) =~= xor_block(arr2, spec_u64_to_le_bytes(cv2)));
}

/// Twiddles the bits of `arr` in place: for each position `j` in order, byte
/// `j` is XORed with the other seven bytes, each shifted left or right by an
/// amount that depends on its distance from `j`.
pub fn twiddle(arr: &mut [u8; BLOCK_SIZE])
    ensures
        final(arr)@ == spec_twiddle(old(arr)@),
{
    let ghost start = arr@;
    for j in 0..BLOCK_SIZE
        invariant
            arr@.len() == 8,
            arr@ == twiddle_upto(start, j as nat),
    {
        let m: u8 = (arr[(j + 1) % BLOCK_SIZE] << ((j + 7) % BLOCK_SIZE))
            ^ (arr[(j + 2) % BLOCK_SIZE] << ((j + 6) % BLOCK_SIZE))
            ^ (arr[(j + 3) % BLOCK_SIZE] << ((j + 5) % BLOCK_SIZE))
            ^ (arr[(j + 4) % BLOCK_SIZE] << ((j + 4) % BLOCK_SIZE))
            ^ (arr[(j + 5) % BLOCK_SIZE] >> ((j + 3) % BLOCK_SIZE))
            ^ (arr[(j + 6) % BLOCK_SIZE] >> ((j + 2) % BLOCK_SIZE))
            ^ (arr[(j + 7) % BLOCK_SIZE] >> ((j + 1) % BLOCK_SIZE));
        assert(m == mix(arr@, j as int));
        arr[j] = arr[j] ^ m;
    }
}

/// XORs `arr` with the little-endian bytes of the chaining value `cv`,
/// twiddles the result `TWIDDLE_ROUNDS` times, and returns the bytes read as
/// a little-endian `u64`.
pub fn transform(cv: u64, arr: [u8; BLOCK_SIZE]) -> (out: u64)
    ensures
        out == spec_transform(cv, arr@),
{
    let mut to_return: [u8; BLOCK_SIZE] = [0u8; BLOCK_SIZE];
    let cv_arr = u64_to_le_bytes(cv);

    for j in 0..BLOCK_SIZE
        invariant
            to_return@.len() == 8,
            cv_arr@ == spec_u64_to_le_bytes(cv),
            cv_arr@.len() == 8,
            forall|i: int| 0 <= i < j ==> to_return@[i] == arr@[i] ^ cv_arr@[i],
    {
        to_return[j] = arr[j] ^ cv_arr[j];
    }
    let ghost keyed = to_return@;
    assert(keyed =~= xor_block(arr@, spec_u64_to_le_bytes(cv)));

    for k in 0..TWIDDLE_ROUNDS
        invariant
            to_return@ == twiddle_rounds(keyed, k as nat),
    {
        twiddle(&mut to_return);
    }
    u64_from_le_bytes(to_return.as_slice())
}

} // verus!
