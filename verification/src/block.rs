//! Blocks as they travel on the wire: slot, parent pointer, baker, VRF proof
//! and nonce, declared last-finalized hash, length-prefixed payload and
//! signature. Also the pending form a block takes between arrival and
//! linkage into the tree.

use vstd::prelude::*;
use crate::wire::{u64_be, u64_of_be, read_u64_be, read_exact, write_u64_be, write_all};
use crate::ext::{sha256, sha256_of};

verus! {

/// Width of a block or session hash.
pub const BLOCK_HASH_LEN: usize = 32;

/// Width of a block's VRF proof.
pub const BLOCK_PROOF_LEN: usize = 96;

/// Width of a block's VRF nonce.
pub const BLOCK_NONCE_LEN: usize = 96;

/// Width of a block signature.
pub const BLOCK_SIGNATURE_LEN: usize = 64;

/// Width of every fixed field of a block together; the payload comes on top.
pub const BLOCK_FIXED_LEN: usize = 344;

/// Mathematical model of a block.
pub struct BlockV {
    pub slot: u64,
    pub pointer: Seq<u8>,
    pub baker_id: u64,
    pub proof: Seq<u8>,
    pub nonce: Seq<u8>,
    pub last_finalized: Seq<u8>,
    pub data: Seq<u8>,
    pub signature: Seq<u8>,
}

impl BlockV {
    pub open spec fn wf(self) -> bool {
        self.pointer.len() == BLOCK_HASH_LEN && self.proof.len() == BLOCK_PROOF_LEN
            && self.nonce.len() == BLOCK_NONCE_LEN && self.last_finalized.len() == BLOCK_HASH_LEN
            && self.data.len() <= u64::MAX && self.signature.len() == BLOCK_SIGNATURE_LEN
    }

    pub open spec fn spec_serialize(self) -> Seq<u8> {
        u64_be(self.slot) + self.pointer + u64_be(self.baker_id) + self.proof + self.nonce
            + self.last_finalized + u64_be(self.data.len() as u64) + self.data + self.signature
    }
}

/// The block a byte string denotes; `None` unless the payload length field
/// accounts for exactly the bytes that are there.
pub open spec fn parse_block(b: Seq<u8>) -> Option<BlockV> {
    if b.len() < BLOCK_FIXED_LEN {
        None
    } else {
        let data_len = u64_of_be(b.subrange(272, 280));
        if b.len() != BLOCK_FIXED_LEN + data_len {
            None
        } else {
            Some(
                BlockV {
                    slot: u64_of_be(b.subrange(0, 8)),
                    pointer: b.subrange(8, 40),
                    baker_id: u64_of_be(b.subrange(40, 48)),
                    proof: b.subrange(48, 144),
                    nonce: b.subrange(144, 240),
                    last_finalized: b.subrange(240, 272),
                    data: b.subrange(280, b.len() - 64),
                    signature: b.skip(b.len() - 64),
                },
            )
        }
    }
}

/// A block: parent pointer, baker, VRF proof and nonce, declared
/// last-finalized hash, payload, signature.
pub struct Block {
    pub slot: u64,
    pub pointer: Vec<u8>,
    pub baker_id: u64,
    pub proof: Vec<u8>,
    pub nonce: Vec<u8>,
    pub last_finalized: Vec<u8>,
    pub data: Vec<u8>,
    pub signature: Vec<u8>,
}

impl View for Block {
    type V = BlockV;

    open spec fn view(&self) -> BlockV {
        BlockV {
            slot: self.slot,
            pointer: self.pointer@,
            baker_id: self.baker_id,
            proof: self.proof@,
            nonce: self.nonce@,
            last_finalized: self.last_finalized@,
            data: self.data@,
            signature: self.signature@,
        }
    }
}

impl Block {
    /// The slot the block was baked in.
    pub fn slot(&self) -> (r: u64)
        ensures
            r == self@.slot,
    {
        self.slot
    }

    /// The index of the baker that produced the block.
    pub fn baker_id(&self) -> (r: u64)
        ensures
            r == self@.baker_id,
    {
        self.baker_id
    }

    /// Encodes the block.
    pub fn serialize(&self) -> (r: Vec<u8>)
        ensures
            r@ == self@.spec_serialize(),
    {
        let mut out: Vec<u8> = Vec::new();
        write_u64_be(&mut out, self.slot);
        write_all(&mut out, &self.pointer);
        write_u64_be(&mut out, self.baker_id);
        write_all(&mut out, &self.proof);
        write_all(&mut out, &self.nonce);
        write_all(&mut out, &self.last_finalized);
        write_u64_be(&mut out, self.data.len() as u64);
        write_all(&mut out, &self.data);
        write_all(&mut out, &self.signature);
        proof {
            assert(out@ =~= self@.spec_serialize());
        }
        out
    }

    /// Decodes a block; the whole input must be consumed.
    pub fn deserialize(bytes: &Vec<u8>) -> (r: Option<Block>)
        ensures
            match r {
                Some(bk) => parse_block(bytes@) == Some(bk@),
                None => parse_block(bytes@) is None,
            },
    {
        let len = bytes.len();
        if len < BLOCK_FIXED_LEN {
            return None;
        }
        let ghost b = bytes@;
        let data_len = read_u64_be(bytes, 272);
        if data_len > u64::MAX - BLOCK_FIXED_LEN as u64 {
            return None;
        }
        if (len as u64) != BLOCK_FIXED_LEN as u64 + data_len {
            return None;
        }
        let slot = read_u64_be(bytes, 0);
        let pointer = read_exact(bytes, 8, 32);
        let baker_id = read_u64_be(bytes, 40);
        let proof = read_exact(bytes, 48, 96);
        let nonce = read_exact(bytes, 144, 96);
        let last_finalized = read_exact(bytes, 240, 32);
        let data = read_exact(bytes, 280, len - 344);
        let signature = read_exact(bytes, len - 64, 64);
        proof {
            assert(data@ =~= b.subrange(280, len - 64));
            assert(signature@ =~= b.skip(len - 64));
        }
        Some(Block { slot, pointer, baker_id, proof, nonce, last_finalized, data, signature })
    }
}

/// Decoding an encoded block yields the block back.
#[verifier::rlimit(100)]
pub proof fn lemma_block_round_trip(bk: BlockV)
    requires
        bk.wf(),
    ensures
        parse_block(bk.spec_serialize()) == Some(bk),
{
    let b = bk.spec_serialize();
    assert(b.len() == BLOCK_FIXED_LEN + bk.data.len());
    assert(b.subrange(0, 8) =~= u64_be(bk.slot));
    assert(b.subrange(8, 40) =~= bk.pointer);
    assert(b.subrange(40, 48) =~= u64_be(bk.baker_id));
    assert(b.subrange(48, 144) =~= bk.proof);
    assert(b.subrange(144, 240) =~= bk.nonce);
    assert(b.subrange(240, 272) =~= bk.last_finalized);
    assert(b.subrange(272, 280) =~= u64_be(bk.data.len() as u64));
    crate::wire::lemma_u64_of_be_of(bk.slot);
    crate::wire::lemma_u64_of_be_of(bk.baker_id);
    crate::wire::lemma_u64_of_be_of(bk.data.len() as u64);
    assert(b.subrange(280, b.len() - 64) =~= bk.data);
    assert(b.skip(b.len() - 64) =~= bk.signature);
}

/// Mathematical model of a pending block.
pub struct PendingBlockV {
    pub block: BlockV,
    pub hash: Seq<u8>,
}

impl PendingBlockV {
    pub open spec fn wf(self) -> bool {
        self.block.wf() && self.hash.len() == BLOCK_HASH_LEN
    }
}

/// A received block that is not yet linked into the tree. Its hash is the
/// SHA-256 digest of its serialized bytes: blocks are content-addressed.
pub struct PendingBlock {
    pub block: Block,
    pub hash: Vec<u8>,
}

impl View for PendingBlock {
    type V = PendingBlockV;

    open spec fn view(&self) -> PendingBlockV {
        PendingBlockV { block: self.block@, hash: self.hash@ }
    }
}

impl PendingBlock {
    /// Decodes a block and stamps it with its content hash.
    pub fn new(bytes: &Vec<u8>) -> (r: Option<PendingBlock>)
        ensures
            match r {
                Some(pb) => parse_block(bytes@) == Some(pb@.block) && pb@.hash == sha256_of(bytes@)
                    && pb@.hash.len() == BLOCK_HASH_LEN,
                None => parse_block(bytes@) is None,
            },
    {
        match Block::deserialize(bytes) {
            Some(block) => {
                let hash = sha256(bytes);
                Some(PendingBlock { block, hash })
            },
            None => None,
        }
    }

    /// Wraps an already-decoded block, hashing its canonical encoding.
    pub fn from_block(block: Block) -> (r: PendingBlock)
        ensures
            r@.block == block@,
            r@.hash == sha256_of(block@.spec_serialize()),
            r@.hash.len() == BLOCK_HASH_LEN,
    {
        let bytes = block.serialize();
        let hash = sha256(&bytes);
        PendingBlock { block, hash }
    }
}

} // verus!
