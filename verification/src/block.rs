//! A span of compressed input together with the literals recovered from it.
use vstd::prelude::*;

verus! {

/// One compressed block: where it starts, how many compressed bytes it spans,
/// and the literal bytes that were recovered from it.
#[derive(Debug)]
pub struct CompressedBlock {
    /// Byte offset of the block in the compressed input.
    pub offset: u64,
    /// Number of compressed bytes the block spans.
    pub compressed_len: u32,
    /// Length of the decoded block, where it is known.
    pub uncompressed_len: Option<u32>,
    /// The literal bytes recovered from the block.
    pub literals: Vec<u8>,
}

/// What a block holds, as plain values.
pub struct CompressedBlockView {
    pub offset: u64,
    pub compressed_len: u32,
    pub uncompressed_len: Option<u32>,
    pub literals: Seq<u8>,
}

impl View for CompressedBlock {
    type V = CompressedBlockView;

    open spec fn view(&self) -> CompressedBlockView {
        CompressedBlockView {
            offset: self.offset,
            compressed_len: self.compressed_len,
            uncompressed_len: self.uncompressed_len,
            literals: self.literals@,
        }
    }
}

/// The views of a sequence of blocks.
pub open spec fn blocks_view(bs: Seq<CompressedBlock>) -> Seq<CompressedBlockView> {
    bs.map_values(|b: CompressedBlock| b@)
}

/// All literal bytes of the blocks, in order.
pub open spec fn all_literals(bs: Seq<CompressedBlockView>) -> Seq<u8>
    decreases bs.len(),
{
    if bs.len() == 0 {
        Seq::empty()
    } else {
        all_literals(bs.drop_last()) + bs.last().literals
    }
}

/// Adding a block adds its literals at the end.
pub proof fn lemma_all_literals_push(bs: Seq<CompressedBlockView>, b: CompressedBlockView)
    ensures
        all_literals(bs.push(b)) == all_literals(bs) + b.literals,
{
    assert(bs.push(b).drop_last() =~= bs);
}

impl CompressedBlock {
    /// A block at `offset` spanning `compressed_len` bytes, with no literals yet.
    pub fn new(offset: u64, compressed_len: u32) -> (b: CompressedBlock)
        ensures
            b.offset == offset,
            b.compressed_len == compressed_len,
            b.uncompressed_len is None,
            b.literals@ == Seq::<u8>::empty(),
    {
        CompressedBlock { offset, compressed_len, uncompressed_len: None, literals: Vec::new() }
    }

    /// The literal bytes recovered from this block.
    pub fn literals(&self) -> (l: &[u8])
        ensures
            l@ == self.literals@,
    {
        self.literals.as_slice()
    }

    /// Number of compressed bytes the block spans.
    pub fn compressed_len(&self) -> (n: u32)
        ensures
            n == self.compressed_len,
    {
        self.compressed_len
    }

    /// Byte offset of the block in the compressed input.
    pub fn offset(&self) -> (o: u64)
        ensures
            o == self.offset,
    {
        self.offset
    }
}

} // verus!
