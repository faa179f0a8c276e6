//! The chaining of blocks through the compression function, the final step,
//! and the hash of a whole string.
use vstd::prelude::*;
use vstd::utf8::encode_utf8;

use crate::mixing::{spec_transform, transform};
use crate::padding::{
    convert_string_to_u8s, lemma_split, lemma_strengthen, spec_split, spec_strengthen, split,
    zeros,
};
use crate::{BLOCK_SIZE, INITIALIZATION_VECTOR};

verus! {

/// The block that `compress` hands to `transform`: the last 8 bytes of `data`,
/// last byte first.
pub open spec fn last_block_reversed(data: Seq<u8>) -> Seq<u8> {
    Seq::new(8, |j: int| data[data.len() - 1 - j])
}

/// The chaining value that `compress` produces from `cv` and `data`.
pub open spec fn spec_compress(cv: u64, data: Seq<u8>) -> u64 {
    spec_transform(cv, last_block_reversed(data))
}

/// The chaining value after `blocks`, compressed in order, starting from `cv`.
pub open spec fn chain_blocks(cv: u64, blocks: Seq<Seq<u8>>) -> u64
    decreases blocks.len(),
{
    if blocks.len() == 0 {
        cv
    } else {
        spec_compress(chain_blocks(cv, blocks.drop_last()), blocks.last())
    }
}

/// The bitwise complement of `x`.
pub open spec fn spec_finalize(x: u64) -> u64 {
    x ^ 0xFFFF_FFFF_FFFF_FFFFu64
}

/// The BillHash of a sequence of bytes.
pub open spec fn hash_bytes(data: Seq<u8>) -> u64 {
    spec_finalize(chain_blocks(INITIALIZATION_VECTOR, spec_split(data)))
}

/// The BillHash of a string: that of its UTF-8 bytes.
pub open spec fn spec_bill_hash(s: Seq<char>) -> u64 {
    hash_bytes(encode_utf8(s))
}

/// Finalizing twice gives back the value: the complement is its own inverse.
pub proof fn lemma_finalize_involution(x: u64)
    ensures
        spec_finalize(spec_finalize(x)) == x,
{
    assert((x ^ 0xFFFF_FFFF_FFFF_FFFFu64) ^ 0xFFFF_FFFF_FFFF_FFFFu64 == x) by (bit_vector);
}

/// Zero padding is not undone: when the data ends inside a partial block, one
/// more zero byte at the end changes neither the padded data nor the hash.
pub proof fn lemma_trailing_zero_in_partial_block(data: Seq<u8>)
    requires
        data.len() % 8 != 0,
    ensures
        spec_strengthen(data.push(0u8)) == spec_strengthen(data),
        hash_bytes(data.push(0u8)) == hash_bytes(data),
{
    let longer = data.push(0u8);
    if longer.len() % 8 == 0 {
        assert(longer =~= data + zeros((8 - data.len() % 8) as nat));
    } else {
        assert(longer + zeros((8 - longer.len() % 8) as nat) =~= data + zeros(
            (8 - data.len() % 8) as nat,
        ));
    }
}

/// Compression reads the last eight bytes of the data, last byte first, as
/// the block that `transform` keys with the chaining value.
pub proof fn lemma_compress_reads_last_block_reversed(cv: u64, data: Seq<u8>, block: Seq<u8>)
    requires
        data.len() >= 8,
        block.len() == 8,
        forall|j: int| 0 <= j < 8 ==> #[trigger] block[j] == data[data.len() - 1 - j],
    ensures
        spec_compress(cv, data) == spec_transform(cv, block),
{
    assert(last_block_reversed(data) =~= block);
}

/// Chaining over no blocks leaves the chaining value as it is.
pub proof fn lemma_chain_empty(cv: u64)
    ensures
        chain_blocks(cv, Seq::<Seq<u8>>::empty()) == cv,
{
}

/// Chaining over one block is one call of the compression function.
pub proof fn lemma_chain_single(cv: u64, block: Seq<u8>)
    ensures
        chain_blocks(cv, seq![block]) == spec_compress(cv, block),
{
    assert(seq![block].drop_last() =~= Seq::<Seq<u8>>::empty());
    assert(chain_blocks(cv, Seq::<Seq<u8>>::empty()) == cv);
    assert(seq![block].last() == block);
}

/// Blocks are compressed in order: chaining over `first` followed by `second`
/// is chaining over `second` from the value that chaining over `first` left.
pub proof fn lemma_chain_append(cv: u64, first: Seq<Seq<u8>>, second: Seq<Seq<u8>>)
    ensures
        chain_blocks(cv, first + second) == chain_blocks(chain_blocks(cv, first), second),
    decreases second.len(),
{
    if second.len() == 0 {
        assert(first + second =~= first);
    } else {
        lemma_chain_append(cv, first, second.drop_last());
        assert((first + second).drop_last() =~= first + second.drop_last());
        assert((first + second).last() == second.last());
    }
}

/// With two blocks the first is compressed first, from the given value, and
/// the second from what that gave.
pub proof fn lemma_chain_two(cv: u64, b0: Seq<u8>, b1: Seq<u8>)
    ensures
        chain_blocks(cv, seq![b0, b1]) == spec_compress(spec_compress(cv, b0), b1),
{
    lemma_chain_single(cv, b0);
    lemma_chain_single(spec_compress(cv, b0), b1);
    lemma_chain_append(cv, seq![b0], seq![b1]);
    assert(seq![b0] + seq![b1] =~= seq![b0, b1]);
}

/// The hash of a string is that of its UTF-8 bytes, every byte of them: the
/// blocks that are compressed, in order from the initialization vector, put
/// back together are exactly the strengthened UTF-8 bytes, whose prefix is
/// the whole encoding; the last chaining value is complemented.
pub proof fn lemma_bill_hash_of_utf8_bytes(s: Seq<char>)
    ensures
        spec_bill_hash(s) == hash_bytes(encode_utf8(s)),
        spec_bill_hash(s) == spec_finalize(
            chain_blocks(INITIALIZATION_VECTOR, spec_split(encode_utf8(s))),
        ),
        spec_split(encode_utf8(s)).flatten() == spec_strengthen(encode_utf8(s)),
        spec_strengthen(encode_utf8(s)).subrange(0, encode_utf8(s).len() as int) == encode_utf8(s),
        spec_split(encode_utf8(s)).len() == spec_strengthen(encode_utf8(s)).len() / 8,
        encode_utf8(s).len() >= 8 ==> spec_split(encode_utf8(s))[0] == encode_utf8(s).subrange(0, 8),
{
    let b = encode_utf8(s);
    lemma_split(b);
    lemma_strengthen(b);
    if b.len() >= 8 {
        assert(spec_split(b)[0] =~= b.subrange(0, 8));
    }
}

/// The hash of bytes is the complement of the chain, from the initialization
/// vector, over the blocks of the strengthened bytes.
pub proof fn lemma_hash_bytes(data: Seq<u8>)
    ensures
        hash_bytes(data) == spec_finalize(chain_blocks(INITIALIZATION_VECTOR, spec_split(data))),
        hash_bytes(data) == !chain_blocks(INITIALIZATION_VECTOR, spec_split(data)),
{
    let c = chain_blocks(INITIALIZATION_VECTOR, spec_split(data));
    assert(c ^ 0xFFFF_FFFF_FFFF_FFFFu64 == !c) by (bit_vector);
}

/// Compresses a block under the chaining value `cv`: the bytes of `data` are
/// taken from the end (eight of them, last byte first) into an array, which
/// `transform` turns into the next chaining value.
pub fn compress(cv: u64, data: Vec<u8>) -> (out: u64)
    requires
        data@.len() >= BLOCK_SIZE,
    ensures
        out == spec_compress(cv, data@),
{
    let ghost start = data@;
    let mut new_data = data;
    let mut a: [u8; BLOCK_SIZE] = [0u8; BLOCK_SIZE];
    for j in 0..BLOCK_SIZE
        invariant
            start.len() >= 8,
            a@.len() == 8,
            new_data@ == start.subrange(0, start.len() - j),
            forall|i: int| 0 <= i < j ==> a@[i] == start[start.len() - 1 - i],
    {
        a[j] = new_data.pop().unwrap();
        assert(new_data@ =~= start.subrange(0, start.len() - (j + 1)));
    }
    assert(a@ =~= last_block_reversed(start));
    transform(cv, a)
}

/// Returns the bitwise complement of `to_finalize`: every 0 bit becomes 1 and
/// every 1 bit becomes 0.
pub fn finalize(to_finalize: u64) -> (out: u64)
    ensures
        out == spec_finalize(to_finalize),
        out == !to_finalize,
{
    assert(to_finalize ^ 0xFFFF_FFFF_FFFF_FFFFu64 == !to_finalize) by (bit_vector);
    to_finalize ^ 0xFFFF_FFFF_FFFF_FFFF
}

/// Runs the BillHash function on `to_hash` and returns the hash value: the
/// UTF-8 bytes are padded and split into blocks, the blocks are compressed in
/// order starting from the initialization vector, and the last chaining value
/// is finalized.
pub fn bill_hash(to_hash: String) -> (out: u64)
    ensures
        out == spec_bill_hash(to_hash@),
        out == spec_finalize(
            chain_blocks(INITIALIZATION_VECTOR, spec_split(encode_utf8(to_hash@))),
        ),
{
    let ghost bytes = encode_utf8(to_hash@);
    let blocks = split(convert_string_to_u8s(to_hash));
    let ghost all = spec_split(bytes);
    proof {
        lemma_split(bytes);
    }
    let mut cv: u64 = INITIALIZATION_VECTOR;
    let mut i: usize = 0;
    while i < blocks.len()
        invariant
            i <= blocks@.len(),
            blocks@.len() == all.len(),
            forall|k: int| #![trigger all[k]] 0 <= k < all.len() ==> all[k].len() == 8,
            forall|k: int| #![trigger blocks@[k]] 0 <= k < blocks@.len() ==> blocks@[k]@ == all[k],
            cv == chain_blocks(INITIALIZATION_VECTOR, all.take(i as int)),
        decreases blocks@.len() - i,
    {
        let block = blocks[i].clone();
        assert(all[i as int].len() == 8);
        assert(all.take(i + 1).drop_last() =~= all.take(i as int));
        cv = compress(cv, block);
        i += 1;
    }
    assert(all.take(i as int) =~= all);
    finalize(cv)
}

} // verus!
