//! From a string to the blocks that the compression function consumes: the
//! UTF-8 bytes of the string, padded with zeros (strengthening) and cut into
//! blocks of `BLOCK_SIZE` bytes.
use vstd::prelude::*;
use vstd::string::StrSliceExecFns;
use vstd::utf8::encode_utf8;

use crate::BLOCK_SIZE;

verus! {

/// `n` zero bytes.
pub open spec fn zeros(n: nat) -> Seq<u8> {
    Seq::new(n, |i: int| 0u8)
}

/// `data` padded at the end with zeros up to the next multiple of 8; data that
/// is already a nonempty multiple of 8 is left as it is, and empty data
/// becomes 8 zeros.
pub open spec fn spec_strengthen(data: Seq<u8>) -> Seq<u8> {
    if data.len() % 8 == 0 && data.len() > 0 {
        data
    } else {
        data + zeros((8 - data.len() % 8) as nat)
    }
}

/// `padded` cut into consecutive blocks of 8 bytes (a trailing part shorter
/// than 8 bytes is dropped).
pub open spec fn blocks_of(padded: Seq<u8>) -> Seq<Seq<u8>> {
    Seq::new(padded.len() / 8, |k: int| padded.subrange(8 * k, 8 * k + 8))
}

/// The blocks of the strengthened `data`.
pub open spec fn spec_split(data: Seq<u8>) -> Seq<Seq<u8>> {
    blocks_of(spec_strengthen(data))
}

/// Strengthening pads to a nonzero multiple of the block size: the data
/// stays at the front, only zeros are added, fewer than a block's worth
/// unless the data is empty (then exactly one block of zeros), and data that
/// is already strengthened is left unchanged.
pub proof fn lemma_strengthen(data: Seq<u8>)
    ensures
        spec_strengthen(data).len() % 8 == 0,
        spec_strengthen(data).len() > 0,
        spec_strengthen(data).subrange(0, data.len() as int) == data,
        forall|i: int|
            data.len() <= i < spec_strengthen(data).len() ==> #[trigger] spec_strengthen(data)[i]
                == 0u8,
        data.len() == 0 ==> spec_strengthen(data).len() == 8,
        data.len() > 0 ==> spec_strengthen(data).len() < data.len() + 8,
        data.len() % 8 == 0 && data.len() > 0 ==> spec_strengthen(data) == data,
        spec_strengthen(spec_strengthen(data)) == spec_strengthen(data),
{
    let s = spec_strengthen(data);
    assert(s.subrange(0, data.len() as int) =~= data);
}

/// The blocks of a sequence whose length is a multiple of 8 are consecutive
/// 8-byte pieces that, put back together, give the sequence.
pub proof fn lemma_blocks_of(padded: Seq<u8>)
    requires
        padded.len() % 8 == 0,
    ensures
        blocks_of(padded).len() == padded.len() / 8,
        forall|k: int| #![trigger blocks_of(padded)[k]]
            0 <= k < blocks_of(padded).len() ==> blocks_of(padded)[k].len() == 8,
        blocks_of(padded).flatten() == padded,
    decreases padded.len(),
{
    let b = blocks_of(padded);
    if padded.len() == 0 {
        assert(b =~= Seq::<Seq<u8>>::empty());
        assert(b.flatten() =~= padded);
    } else {
        let rest = padded.subrange(8, padded.len() as int);
        lemma_blocks_of(rest);
        assert forall|k: int| 0 <= k < b.drop_first().len() implies #[trigger] b.drop_first()[k]
            == blocks_of(rest)[k] by {
            assert(b.drop_first()[k] =~= blocks_of(rest)[k]);
        }
        assert(b.drop_first() =~= blocks_of(rest));
        assert(b.first() + rest =~= padded);
    }
}

/// Splitting gives at least one block, every block holds exactly `BLOCK_SIZE`
/// bytes, and the blocks, put back together in order, are the strengthened
/// data.
pub proof fn lemma_split(data: Seq<u8>)
    ensures
        spec_split(data).len() == spec_strengthen(data).len() / 8,
        spec_split(data).len() >= 1,
        forall|k: int| #![trigger spec_split(data)[k]]
            0 <= k < spec_split(data).len() ==> spec_split(data)[k].len() == BLOCK_SIZE,
        spec_split(data).flatten() == spec_strengthen(data),
{
    lemma_strengthen(data);
    lemma_blocks_of(spec_strengthen(data));
}

/// Returns the UTF-8 bytes of `s`.
pub fn convert_string_to_u8s(s: String) -> (out: Vec<u8>)
    ensures
        out@ == encode_utf8(s@),
{
    s.as_str().as_bytes_vec()
}

/// Pads `data` at the end with zeros so that its length is a nonzero
/// multiple of `BLOCK_SIZE`; empty data gets `BLOCK_SIZE` zeros.
pub fn strengthen(data: Vec<u8>) -> (out: Vec<u8>)
    ensures
        out@ == spec_strengthen(data@),
{
    let rem = data.len() % BLOCK_SIZE;
    if rem == 0 && data.len() > 0 {
        data
    } else {
        let ghost start = data@;
        let mut to_return = data;
        let n = BLOCK_SIZE - rem;
        for j in 0..n
            invariant
                to_return@ == start + zeros(j as nat),
        {
            to_return.push(0);
            assert(to_return@ =~= start + zeros((j + 1) as nat));
        }
        to_return
    }
}

/// Strengthens `data` and cuts the result into blocks of `BLOCK_SIZE` bytes,
/// in order.
pub fn split(data: Vec<u8>) -> (out: Vec<Vec<u8>>)
    ensures
        out@.len() == spec_split(data@).len(),
        forall|k: int| #![trigger out@[k]] 0 <= k < out@.len() ==> out@[k]@ == spec_split(data@)[k],
{
    let to_split = strengthen(data);
    let mut to_return: Vec<Vec<u8>> = Vec::new();
    let total = to_split.len();
    let num_blocks = total / BLOCK_SIZE;
    let mut counter: usize = 0;
    assert(8 * num_blocks <= to_split@.len());
    for b in 0..num_blocks
        invariant
            num_blocks == to_split@.len() / 8,
            8 * num_blocks <= to_split@.len(),
            total == to_split@.len(),
            counter == 8 * b,
            to_return@.len() == b,
            forall|k: int|
                #![trigger to_return@[k]]
                0 <= k < b ==> to_return@[k]@ == to_split@.subrange(8 * k, 8 * k + 8),
    {
        let mut new_block: Vec<u8> = Vec::new();
        for i in 0..BLOCK_SIZE
            invariant
                num_blocks == to_split@.len() / 8,
                8 * num_blocks <= to_split@.len(),
                total == to_split@.len(),
                b < num_blocks,
                counter == 8 * b + i,
                new_block@ == to_split@.subrange(8 * b, counter as int),
        {
            new_block.push(to_split[counter]);
            counter += 1;
            assert(new_block@ =~= to_split@.subrange(8 * b, counter as int));
        }
        to_return.push(new_block);
    }
    to_return
}

} // verus!
