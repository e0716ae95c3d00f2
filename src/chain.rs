//! The in-memory chain store: the genesis block, extension of the tip by
//! mining, the digest index, the queries, and the queue of submitted payloads.

use vstd::prelude::*;
use crate::block::{
    Block, BlockData, BlockModel, BinaryData, DataModel, block_hash, hash_input, block_marker, data_view,
    decimal, genesis_marker, nonce_ok, valid_block,
};
use vstd::arithmetic::power2::pow2;
use crate::bytes::{Sha256Hash, be_value};
use crate::record::decode_block;
use crate::replay::{
    decoded, lemma_sort_by_id, lemma_surviving_valid, record_views, sort_blocks_by_id, sort_by_id,
    surviving,
};
use crate::trusted::now_timestamp;

verus! {

/// The difficulty that a new chain is mined at.
pub const GENESIS_DIFFICULTY: u8 = 10;

/// Why an operation on the chain did not take place.
#[derive(Debug, PartialEq, Eq, Structural)]
pub enum ChainError {
    /// No block stands at the index asked for.
    NotFound,
    /// The range asked for runs past the end of the chain.
    RangeError,
    /// No nonce at all makes the block meet the difficulty.
    MiningExhausted,
    /// The chain has no block to extend.
    NoParent,
    /// The tip's id is the largest that a block can have.
    IdExhausted,
    /// The block does not extend the tip, or does not meet the difficulty.
    InvalidBlock,
}

/// The all-zero digest that the genesis block names as its predecessor.
pub open spec fn zero_hash() -> Seq<u8> {
    Seq::new(32, |i: int| 0u8)
}

/// The genesis block before mining, created at `timestamp`.
pub open spec fn genesis_skeleton(timestamp: i64) -> BlockModel {
    BlockModel {
        id: 0,
        timestamp,
        nonce: 0,
        prev_hash: zero_hash(),
        data: seq![DataModel::Binary(genesis_marker())],
    }
}

/// The block that extends `tip`, before mining, created at `timestamp`.
pub open spec fn successor_skeleton(tip: BlockModel, timestamp: i64) -> BlockModel
    recommends
        tip.id < u64::MAX,
{
    BlockModel {
        id: (tip.id + 1) as u64,
        timestamp,
        nonce: 0,
        prev_hash: block_hash(tip),
        data: seq![DataModel::Binary(block_marker((tip.id + 1) as u64))],
    }
}

/// `b` extends `tip`: it has the next id and names the tip's digest.
pub open spec fn extends(b: BlockModel, tip: BlockModel) -> bool {
    tip.id < u64::MAX && b.id == tip.id + 1 && b.prev_hash == block_hash(tip)
}

/// `n` is the least nonce that makes `b` meet `difficulty`.
pub open spec fn first_nonce(b: BlockModel, difficulty: u8, n: u64) -> bool {
    nonce_ok(b, n, difficulty) && forall|m: u64| m < n ==> !nonce_ok(b, m, difficulty)
}

/// No nonce makes `b` meet `difficulty`.
pub open spec fn exhausted(b: BlockModel, difficulty: u8) -> bool {
    forall|m: u64| !nonce_ok(b, m, difficulty)
}

/// `b` is `skeleton` mined with the least nonce that meets `difficulty`.
pub open spec fn mined_from(b: BlockModel, skeleton: BlockModel, difficulty: u8) -> bool {
    b == (BlockModel { nonce: b.nonce, ..skeleton }) && first_nonce(skeleton, difficulty, b.nonce)
}

/// A genesis block: id 0, the all-zero predecessor and the marker payload.
pub open spec fn is_genesis(b: BlockModel) -> bool {
    &&& b.id == 0
    &&& b.prev_hash == zero_hash()
    &&& b.data == seq![DataModel::Binary(genesis_marker())]
}

/// `c` is hash-linked from a genesis block: each block after the first has
/// the next id and names the digest of the block before it.
pub open spec fn linked(c: Seq<BlockModel>) -> bool {
    &&& c.len() > 0 ==> c[0].id == 0 && c[0].prev_hash == zero_hash()
    &&& forall|i: int|
        0 < i < c.len() ==> #[trigger] c[i].id == c[i - 1].id + 1 && c[i].prev_hash == block_hash(
            c[i - 1],
        )
}

/// The position of the last digest in `hs` equal to `h`, or -1.
pub open spec fn find_last(hs: Seq<Seq<u8>>, h: Seq<u8>) -> int
    decreases hs.len(),
{
    if hs.len() == 0 {
        -1
    } else if hs.last() == h {
        hs.len() - 1
    } else {
        find_last(hs.drop_last(), h)
    }
}

/// The link of each block of `c`: the position of the last block whose
/// digest it names as its predecessor, where there is one.
pub open spec fn resolved_links(c: Seq<BlockModel>) -> Seq<Option<usize>> {
    Seq::new(
        c.len(),
        |i: int|
            {
                let j = find_last(hashes_of(c), c[i].prev_hash);
                if j < 0 {
                    None
                } else {
                    Some(j as usize)
                }
            },
    )
}

/// The digests of the blocks of `c`, in order.
pub open spec fn hashes_of(c: Seq<BlockModel>) -> Seq<Seq<u8>> {
    c.map_values(|b: BlockModel| block_hash(b))
}

/// Whether two digests are equal.
pub fn same_hash(a: &Sha256Hash, b: &Sha256Hash) -> (r: bool)
    ensures
        r == (a@ == b@),
{
    let mut i: usize = 0;
    while i < 32
        invariant
            i <= 32,
            forall|k: int| 0 <= k < i ==> a@[k] == b@[k],
        decreases 32 - i,
    {
        if a[i] != b[i] {
            return false;
        }
        i = i + 1;
    }
    assert(a@ =~= b@);
    true
}

/// A block mined from a skeleton meets the difficulty it was mined at.
proof fn lemma_mined_valid(b: BlockModel, skeleton: BlockModel, difficulty: u8)
    requires
        mined_from(b, skeleton, difficulty),
    ensures
        valid_block(b, difficulty),
        b.id == skeleton.id && b.prev_hash == skeleton.prev_hash && b.data == skeleton.data,
{
    assert(hash_input(b, b.nonce) == hash_input(skeleton, b.nonce));
}

/// The digests in `v`, as sequences.
pub open spec fn digests(v: Seq<Sha256Hash>) -> Seq<Seq<u8>> {
    v.map_values(|h: Sha256Hash| h@)
}

/// The position of the last digest in `hashes` equal to `h`.
pub fn find_last_hash(hashes: &Vec<Sha256Hash>, h: &Sha256Hash) -> (r: Option<usize>)
    ensures
        match r {
            Some(i) => find_last(digests(hashes@), h@) == i as int,
            None => find_last(digests(hashes@), h@) == -1,
        },
{
    let ghost hs = digests(hashes@);
    let mut i: usize = hashes.len();
    assert(hs.subrange(0, i as int) =~= hs);
    while i > 0
        invariant
            i <= hashes@.len(),
            hs == digests(hashes@),
            find_last(hs, h@) == find_last(hs.subrange(0, i as int), h@),
        decreases i,
    {
        let ghost sub = hs.subrange(0, i as int);
        assert(sub.drop_last() =~= hs.subrange(0, i - 1));
        if same_hash(&hashes[i - 1], h) {
            return Some(i - 1);
        }
        i = i - 1;
    }
    None
}

impl Block {
    /// The genesis block created at `timestamp`, mined at `difficulty`.
    pub fn genesis_at(timestamp: i64, difficulty: u8) -> (r: Result<Block, ChainError>)
        ensures
            match r {
                Ok(b) => mined_from(b@, genesis_skeleton(timestamp), difficulty)
                    && b.prev_block_index is None,
                Err(e) => e == ChainError::MiningExhausted && exhausted(
                    genesis_skeleton(timestamp),
                    difficulty,
                ),
            },
    {
        let data = vec![BinaryData::new(&vec![71u8, 101, 110, 101, 115, 105, 115, 32, 98, 108, 111, 99, 107])];
        let skeleton = Block::at_time(&data, [0u8; 32], None, 0, timestamp);
        assert(skeleton@.prev_hash =~= zero_hash());
        assert(skeleton@.data =~= genesis_skeleton(timestamp).data);
        match skeleton.mine(difficulty) {
            Some(nonce) => Ok(skeleton.with_nonce(nonce)),
            None => Err(ChainError::MiningExhausted),
        }
    }

    /// The genesis block, created now and mined at the genesis difficulty.
    pub fn genesis() -> (r: Result<Block, ChainError>)
        ensures
            match r {
                Ok(b) => is_genesis(b@) && valid_block(b@, GENESIS_DIFFICULTY),
                Err(e) => e == ChainError::MiningExhausted,
            },
    {
        Block::genesis_at(now_timestamp(), GENESIS_DIFFICULTY)
    }

    /// The skeleton of the block after this one, created at `timestamp`;
    /// `index` is this block's position in its chain.
    pub fn next_block_at(&self, index: usize, timestamp: i64) -> (r: Block)
        requires
            self.id < u64::MAX,
        ensures
            r@ == successor_skeleton(self@, timestamp),
            r.prev_block_index == Some(index),
    {
        let next_id = self.id + 1;
        let mut marker: Vec<u8> = vec![66u8, 108, 111, 99, 107, 32];
        let mut digits = decimal_digits_of(next_id);
        marker.append(&mut digits);
        let data = vec![BinaryData::new(&marker)];
        let r = Block::at_time(&data, self.hash(), Some(index), next_id, timestamp);
        assert(r@.data =~= successor_skeleton(self@, timestamp).data);
        r
    }

    /// The skeleton of the block after this one, created now.
    pub fn next_block(&self, index: usize) -> (r: Block)
        requires
            self.id < u64::MAX,
        ensures
            r@ == successor_skeleton(self@, r.timestamp),
            r.prev_block_index == Some(index),
    {
        self.next_block_at(index, now_timestamp())
    }
}

/// The digits of `n` in ASCII decimal.
fn decimal_digits_of(n: u64) -> (r: Vec<u8>)
    ensures
        r@ == decimal(n as nat),
    decreases n,
{
    if n < 10 {
        vec![(48 + n) as u8]
    } else {
        let mut r = decimal_digits_of(n / 10);
        r.push((48 + n % 10) as u8);
        r
    }
}



/// What a chain store holds: its blocks, each block's link to its
/// predecessor, the submitted payloads not yet in a block, and the difficulty.
pub struct ChainView {
    pub blocks: Seq<BlockModel>,
    pub links: Seq<Option<usize>>,
    pub pending: Seq<DataModel>,
    pub difficulty: u8,
}

/// The blocks of a chain, the digest of each, and the payloads submitted to it.
pub struct Blockchain {
    blocks: Vec<Block>,
    hashes: Vec<Sha256Hash>,
    pending_data: Vec<BlockData>,
    difficulty: u8,
}

/// The contents of `v`.
pub open spec fn models(v: Seq<Block>) -> Seq<BlockModel> {
    v.map_values(|b: Block| b@)
}

/// The links of `v`.
pub open spec fn links_of(v: Seq<Block>) -> Seq<Option<usize>> {
    v.map_values(|b: Block| b.prev_block_index)
}

impl View for Blockchain {
    type V = ChainView;

    closed spec fn view(&self) -> ChainView {
        ChainView {
            blocks: models(self.blocks@),
            links: links_of(self.blocks@),
            pending: data_view(self.pending_data@),
            difficulty: self.difficulty,
        }
    }
}

impl Blockchain {
    /// The digest index matches the blocks, and every block meets the
    /// difficulty.
    pub closed spec fn wf(&self) -> bool {
        &&& self.hashes@.len() == self.blocks@.len()
        &&& forall|i: int|
            0 <= i < self.blocks@.len() ==> (#[trigger] self.hashes@[i])@ == block_hash(
                self.blocks@[i]@,
            )
        &&& forall|i: int|
            0 <= i < self.blocks@.len() ==> valid_block(#[trigger] self.blocks@[i]@, self.difficulty)
    }

    /// An empty chain mined at the genesis difficulty.
    pub fn new() -> (r: Blockchain)
        ensures
            r.wf(),
            r@.blocks.len() == 0,
            r@.pending.len() == 0,
            r@.difficulty == GENESIS_DIFFICULTY,
    {
        Blockchain::with_difficulty(GENESIS_DIFFICULTY)
    }

    /// An empty chain mined at `difficulty`.
    pub fn with_difficulty(difficulty: u8) -> (r: Blockchain)
        ensures
            r.wf(),
            r@.blocks.len() == 0,
            r@.pending.len() == 0,
            r@.difficulty == difficulty,
    {
        let r = Blockchain {
            blocks: Vec::new(),
            hashes: Vec::new(),
            pending_data: Vec::new(),
            difficulty,
        };
        assert(r@.blocks =~= Seq::<BlockModel>::empty());
        assert(r@.pending =~= Seq::<DataModel>::empty());
        r
    }

    /// The number of blocks.
    pub fn len(&self) -> (r: usize)
        ensures
            r == self@.blocks.len(),
    {
        self.blocks.len()
    }

    /// The difficulty that blocks are mined at.
    pub fn difficulty(&self) -> (r: u8)
        ensures
            r == self@.difficulty,
    {
        self.difficulty
    }

    /// The payloads submitted and not yet in a block.
    pub fn pending(&self) -> (r: &Vec<BlockData>)
        ensures
            data_view(r@) == self@.pending,
    {
        &self.pending_data
    }

    /// Appends `block` to the chain, with its digest and its link.
    fn push_block(&mut self, block: Block, hash: Sha256Hash)
        requires
            old(self).wf(),
            hash@ == block_hash(block@),
            valid_block(block@, old(self).difficulty),
        ensures
            final(self).wf(),
            final(self)@ == (ChainView {
                blocks: old(self)@.blocks.push(block@),
                links: old(self)@.links.push(block.prev_block_index),
                ..old(self)@
            }),
    {
        proof {
            assert(models(self.blocks@.push(block)) =~= models(self.blocks@).push(block@));
            assert(links_of(self.blocks@.push(block)) =~= links_of(self.blocks@).push(
                block.prev_block_index,
            ));
        }
        self.blocks.push(block);
        self.hashes.push(hash);
    }

    /// Installs the genesis block, created at `timestamp` and mined at the
    /// chain's difficulty.
    pub fn init_genesis_at(&mut self, timestamp: i64) -> (r: Result<(), ChainError>)
        requires
            old(self).wf(),
        ensures
            final(self).wf(),
            match r {
                Ok(()) => exists|g: BlockModel|
                    mined_from(g, genesis_skeleton(timestamp), old(self)@.difficulty)
                        && final(self)@ == (ChainView {
                        blocks: old(self)@.blocks.push(g),
                        links: old(self)@.links.push(None),
                        ..old(self)@
                    }),
                Err(e) => e == ChainError::MiningExhausted && exhausted(
                    genesis_skeleton(timestamp),
                    old(self)@.difficulty,
                ) && final(self)@ == old(self)@,
            },
    {
        match Block::genesis_at(timestamp, self.difficulty) {
            Ok(g) => {
                let h = g.hash();
                self.push_block(g, h);
                Ok(())
            },
            Err(e) => Err(e),
        }
    }

    /// Installs the genesis block, created now.
    pub fn init_genesis(&mut self) -> (r: Result<(), ChainError>)
        requires
            old(self).wf(),
        ensures
            final(self).wf(),
            match r {
                Ok(()) => exists|g: BlockModel|
                    is_genesis(g) && valid_block(g, old(self)@.difficulty) && final(self)@ == (
                    ChainView {
                        blocks: old(self)@.blocks.push(g),
                        links: old(self)@.links.push(None),
                        ..old(self)@
                    }),
                Err(e) => e == ChainError::MiningExhausted && final(self)@ == old(self)@,
            },
            r is Ok && old(self)@.blocks.len() == 0 ==> linked(final(self)@.blocks),
    {
        let timestamp = now_timestamp();
        let r = self.init_genesis_at(timestamp);
        proof {
            if r is Ok {
                let g = choose|g: BlockModel|
                    mined_from(g, genesis_skeleton(timestamp), old(self)@.difficulty)
                        && self@ == (ChainView {
                        blocks: old(self)@.blocks.push(g),
                        links: old(self)@.links.push(None),
                        ..old(self)@
                    });
                lemma_mined_valid(g, genesis_skeleton(timestamp), old(self)@.difficulty);
                assert(is_genesis(g));
                if old(self)@.blocks.len() == 0 {
                    assert(self@.blocks =~= seq![g]);
                }
            }
        }
        r
    }

    /// Extends the tip with a block created at `timestamp`, mined at the
    /// chain's difficulty.
    pub fn add_block_at(&mut self, timestamp: i64) -> (r: Result<(), ChainError>)
        requires
            old(self).wf(),
        ensures
            final(self).wf(),
            match r {
                Ok(()) => {
                    let n = old(self)@.blocks.len();
                    &&& n > 0
                    &&& old(self)@.blocks.last().id < u64::MAX
                    &&& exists|b: BlockModel|
                        mined_from(
                            b,
                            successor_skeleton(old(self)@.blocks.last(), timestamp),
                            old(self)@.difficulty,
                        ) && final(self)@ == (ChainView {
                            blocks: old(self)@.blocks.push(b),
                            links: old(self)@.links.push(Some((n - 1) as usize)),
                            ..old(self)@
                        })
                },
                Err(e) => final(self)@ == old(self)@ && (e == ChainError::NoParent <==> old(
                    self,
                )@.blocks.len() == 0) && (e == ChainError::IdExhausted <==> (old(
                    self,
                )@.blocks.len() > 0 && old(self)@.blocks.last().id == u64::MAX)) && (e
                    == ChainError::MiningExhausted <==> (old(self)@.blocks.len() > 0 && old(
                    self,
                )@.blocks.last().id < u64::MAX && exhausted(
                    successor_skeleton(old(self)@.blocks.last(), timestamp),
                    old(self)@.difficulty,
                ))) && (e == ChainError::NoParent || e == ChainError::IdExhausted || e
                    == ChainError::MiningExhausted),
            },
    {
        let n = self.blocks.len();
        if n == 0 {
            return Err(ChainError::NoParent);
        }
        assert(self@.blocks.last() == self.blocks@[n - 1]@);
        if self.blocks[n - 1].id == u64::MAX {
            return Err(ChainError::IdExhausted);
        }
        let skeleton = self.blocks[n - 1].next_block_at(n - 1, timestamp);
        match skeleton.mine(self.difficulty) {
            Some(nonce) => {
                let block = skeleton.with_nonce(nonce);
                let h = block.hash();
                let ghost b = block@;
                proof {
                    lemma_mined_valid(b, skeleton@, self.difficulty);
                }
                self.push_block(block, h);
                assert(mined_from(b, successor_skeleton(old(self)@.blocks.last(), timestamp), old(self)@.difficulty));
                Ok(())
            },
            None => Err(ChainError::MiningExhausted),
        }
    }

    /// Extends the tip with a block created now.
    pub fn add_block(&mut self) -> (r: Result<(), ChainError>)
        requires
            old(self).wf(),
        ensures
            final(self).wf(),
            match r {
                Ok(()) => {
                    let n = old(self)@.blocks.len();
                    &&& n > 0
                    &&& final(self)@.blocks.len() == n + 1
                    &&& final(self)@.blocks.drop_last() == old(self)@.blocks
                    &&& final(self)@.blocks.last().id == old(self)@.blocks.last().id + 1
                    &&& final(self)@.blocks.last().prev_hash == block_hash(old(self)@.blocks.last())
                    &&& final(self)@.blocks.last().data == seq![
                        DataModel::Binary(block_marker(final(self)@.blocks.last().id)),
                    ]
                    &&& valid_block(final(self)@.blocks.last(), old(self)@.difficulty)
                    &&& final(self)@.links == old(self)@.links.push(Some((n - 1) as usize))
                    &&& final(self)@.pending == old(self)@.pending
                },
                Err(e) => final(self)@ == old(self)@ && (e == ChainError::NoParent <==> old(
                    self,
                )@.blocks.len() == 0) && (e == ChainError::IdExhausted <==> (old(
                    self,
                )@.blocks.len() > 0 && old(self)@.blocks.last().id == u64::MAX)) && (e
                    == ChainError::NoParent || e == ChainError::IdExhausted || e
                    == ChainError::MiningExhausted),
            },
            linked(old(self)@.blocks) ==> linked(final(self)@.blocks),
    {
        let timestamp = now_timestamp();
        let r = self.add_block_at(timestamp);
        proof {
            if r is Ok {
                let n = old(self)@.blocks.len();
                let b = choose|b: BlockModel|
                    mined_from(
                        b,
                        successor_skeleton(old(self)@.blocks.last(), timestamp),
                        old(self)@.difficulty,
                    ) && self@ == (ChainView {
                        blocks: old(self)@.blocks.push(b),
                        links: old(self)@.links.push(Some((n - 1) as usize)),
                        ..old(self)@
                    });
                lemma_mined_valid(
                    b,
                    successor_skeleton(old(self)@.blocks.last(), timestamp),
                    old(self)@.difficulty,
                );
                assert(self@.blocks.drop_last() =~= old(self)@.blocks);
                assert(self@.blocks.last() == b);
                if linked(old(self)@.blocks) {
                    lemma_add_block_keeps_linked(old(self)@.blocks, self@.blocks);
                }
            }
        }
        r
    }

    /// Appends `block`, mined elsewhere, to the tip: it must extend the tip
    /// and meet the chain's difficulty.
    pub fn add_mined(&mut self, block: Block) -> (r: Result<(), ChainError>)
        requires
            old(self).wf(),
        ensures
            final(self).wf(),
            match r {
                Ok(()) => {
                    let n = old(self)@.blocks.len();
                    &&& n > 0
                    &&& extends(block@, old(self)@.blocks.last())
                    &&& valid_block(block@, old(self)@.difficulty)
                    &&& final(self)@ == (ChainView {
                        blocks: old(self)@.blocks.push(block@),
                        links: old(self)@.links.push(Some((n - 1) as usize)),
                        ..old(self)@
                    })
                },
                Err(e) => final(self)@ == old(self)@ && (e == ChainError::NoParent <==> old(
                    self,
                )@.blocks.len() == 0) && (e == ChainError::InvalidBlock <==> (old(
                    self,
                )@.blocks.len() > 0 && !(extends(block@, old(self)@.blocks.last()) && valid_block(
                    block@,
                    old(self)@.difficulty,
                )))) && (e == ChainError::NoParent || e == ChainError::InvalidBlock),
            },
    {
        let n = self.blocks.len();
        if n == 0 {
            return Err(ChainError::NoParent);
        }
        assert(self@.blocks.last() == self.blocks@[n - 1]@);
        let tip_id = self.blocks[n - 1].id;
        let tip_hash = self.hashes[n - 1];
        if tip_id == u64::MAX || block.id != tip_id + 1 || !same_hash(&block.prev_block_hash, &tip_hash)
            || !block.is_valid(self.difficulty) {
            return Err(ChainError::InvalidBlock);
        }
        let h = block.hash();
        self.push_block(Block { prev_block_index: Some(n - 1), ..block }, h);
        Ok(())
    }

    /// Queues a submitted payload; it is not put into any block.
    pub fn add_data(&mut self, data: BlockData)
        requires
            old(self).wf(),
        ensures
            final(self).wf(),
            final(self)@ == (ChainView { pending: old(self)@.pending.push(data@), ..old(self)@ }),
    {
        proof {
            assert(data_view(self.pending_data@.push(data)) =~= data_view(self.pending_data@).push(
                data@,
            ));
        }
        self.pending_data.push(data);
    }

    /// The block at `index`.
    pub fn get_block(&self, index: usize) -> (r: Result<&Block, ChainError>)
        ensures
            match r {
                Ok(b) => index < self@.blocks.len() && b@ == self@.blocks[index as int]
                    && b.prev_block_index == self@.links[index as int],
                Err(e) => e == ChainError::NotFound && index >= self@.blocks.len(),
            },
    {
        if index < self.blocks.len() {
            Ok(&self.blocks[index])
        } else {
            Err(ChainError::NotFound)
        }
    }

    /// Copies of the `len` blocks from `start` on, in order.
    pub fn get_blocks(&self, start: usize, len: usize) -> (r: Result<Vec<Block>, ChainError>)
        ensures
            match r {
                Ok(v) => start + len <= self@.blocks.len() && models(v@) == self@.blocks.subrange(
                    start as int,
                    start + len,
                ) && links_of(v@) == self@.links.subrange(start as int, start + len),
                Err(e) => e == ChainError::RangeError && start + len > self@.blocks.len(),
            },
    {
        let n = self.blocks.len();
        if start > n || len > n - start {
            return Err(ChainError::RangeError);
        }
        let mut out: Vec<Block> = Vec::new();
        let mut i: usize = start;
        while i < start + len
            invariant
                start <= i <= start + len <= n,
                n == self.blocks@.len(),
                out@.len() == i - start,
                forall|k: int|
                    0 <= k < i - start ==> (#[trigger] out@[k])@ == self.blocks@[start + k]@
                        && out@[k].prev_block_index == self.blocks@[start + k].prev_block_index,
            decreases start + len - i,
        {
            out.push(self.blocks[i].duplicate());
            i = i + 1;
        }
        assert(models(out@) =~= self@.blocks.subrange(start as int, start + len));
        assert(links_of(out@) =~= self@.links.subrange(start as int, start + len));
        Ok(out)
    }

    /// The position of the last block whose digest is `h`.
    pub fn index_of_hash(&self, h: &Sha256Hash) -> (r: Option<usize>)
        requires
            self.wf(),
        ensures
            match r {
                Some(i) => find_last(hashes_of(self@.blocks), h@) == i as int,
                None => find_last(hashes_of(self@.blocks), h@) == -1,
            },
    {
        assert(digests(self.hashes@) =~= hashes_of(self@.blocks));
        find_last_hash(&self.hashes, h)
    }

    /// Installs `blocks` beside those already held: drops each that does not
    /// meet the difficulty, orders all by id, rebuilds the digest index and
    /// links each block to its predecessor where the chain holds it. Returns
    /// how many were dropped.
    pub fn load_validated(&mut self, blocks: &Vec<Block>) -> (rejected: usize)
        requires
            old(self).wf(),
        ensures
            final(self).wf(),
            final(self)@.blocks == sort_by_id(
                old(self)@.blocks + surviving(models(blocks@), old(self)@.difficulty),
            ),
            final(self)@.links == resolved_links(final(self)@.blocks),
            final(self)@.pending == old(self)@.pending,
            final(self)@.difficulty == old(self)@.difficulty,
            rejected == blocks@.len() - surviving(models(blocks@), old(self)@.difficulty).len(),
    {
        let d = self.difficulty;
        let ghost s = models(blocks@);
        let mut all: Vec<Block> = Vec::new();
        let mut i: usize = 0;
        while i < self.blocks.len()
            invariant
                i <= self.blocks@.len(),
                self.wf(),
                models(all@) == models(self.blocks@).subrange(0, i as int),
            decreases self.blocks@.len() - i,
        {
            let b = self.blocks[i].duplicate();
            let ghost before = all@;
            all.push(b);
            assert(models(all@) =~= models(before).push(b@));
            i = i + 1;
            assert(models(all@) =~= models(self.blocks@).subrange(0, i as int));
        }
        assert(models(self.blocks@).subrange(0, i as int) =~= models(self.blocks@));
        let ghost held = models(all@);
        let mut kept: usize = 0;
        let mut k: usize = 0;
        assert(surviving(s.subrange(0, 0), d) =~= Seq::<BlockModel>::empty());
        assert(held + Seq::<BlockModel>::empty() =~= held);
        while k < blocks.len()
            invariant
                k <= blocks@.len(),
                s == models(blocks@),
                models(all@) == held + surviving(s.subrange(0, k as int), d),
                kept == surviving(s.subrange(0, k as int), d).len(),
                kept <= k,
            decreases blocks@.len() - k,
        {
            let ghost pre = s.subrange(0, k as int);
            assert(s.subrange(0, k + 1).drop_last() =~= pre);
            assert(s.subrange(0, k + 1).last() == blocks@[k as int]@);
            if blocks[k].is_valid(d) {
                let b = blocks[k].duplicate();
                let ghost before = all@;
                all.push(b);
                assert(models(all@) =~= models(before).push(b@));
                kept = kept + 1;
                assert(models(all@) =~= held + surviving(s.subrange(0, k + 1), d));
            }
            k = k + 1;
        }
        assert(s.subrange(0, k as int) =~= s);
        let ghost combined = models(all@);
        proof {
            lemma_surviving_valid(s, d);
            lemma_sort_by_id(combined);
            assert forall|j: int| 0 <= j < combined.len() implies valid_block(
                #[trigger] combined[j],
                d,
            ) by {
                if j < held.len() {
                    assert(combined[j] == self.blocks@[j]@);
                } else {
                    assert(combined[j] == surviving(s, d)[j - held.len()]);
                }
            }
        }
        let sorted = sort_blocks_by_id(&all);
        let ghost c = models(sorted@);
        proof {
            broadcast use vstd::seq_lib::group_to_multiset_ensures;

            assert forall|j: int| 0 <= j < c.len() implies valid_block(#[trigger] c[j], d) by {
                assert(c.to_multiset().count(c[j]) > 0);
                assert(combined.to_multiset().count(c[j]) > 0);
                assert(combined.contains(c[j]));
            }
        }
        let mut hashes: Vec<Sha256Hash> = Vec::new();
        let mut j: usize = 0;
        while j < sorted.len()
            invariant
                j <= sorted@.len(),
                c == models(sorted@),
                hashes@.len() == j,
                forall|m: int| 0 <= m < j ==> (#[trigger] hashes@[m])@ == block_hash(c[m]),
            decreases sorted@.len() - j,
        {
            hashes.push(sorted[j].hash());
            j = j + 1;
        }
        assert(digests(hashes@) =~= hashes_of(c));
        let mut out: Vec<Block> = Vec::new();
        let mut m: usize = 0;
        while m < sorted.len()
            invariant
                m <= sorted@.len(),
                c == models(sorted@),
                digests(hashes@) == hashes_of(c),
                hashes@.len() == c.len(),
                out@.len() == m,
                forall|q: int| 0 <= q < m ==> (#[trigger] out@[q])@ == c[q],
                forall|q: int| 0 <= q < m ==> (#[trigger] out@[q]).prev_block_index == resolved_links(c)[q],
            decreases sorted@.len() - m,
        {
            let link = find_last_hash(&hashes, &sorted[m].prev_block_hash);
            let b = sorted[m].duplicate();
            out.push(Block { prev_block_index: link, ..b });
            m = m + 1;
        }
        self.blocks = out;
        self.hashes = hashes;
        assert(models(self.blocks@) =~= c);
        assert(links_of(self.blocks@) =~= resolved_links(c));
        assert(combined =~= old(self)@.blocks + surviving(s, d));
        assert forall|q: int| 0 <= q < self.blocks@.len() implies (
        #[trigger] self.hashes@[q])@ == block_hash(self.blocks@[q]@) by {
            assert(digests(self.hashes@)[q] == hashes_of(c)[q]);
        }
        blocks.len() - kept
    }
}

/// Rebuilds a chain at `difficulty` from stored `records`, as found: skips
/// each record that is malformed or whose block does not meet the
/// difficulty; where none is left, mines a genesis block created at
/// `timestamp`. Returns the chain and how many records were skipped.
pub fn replay_at(records: &Vec<Vec<u8>>, difficulty: u8, timestamp: i64) -> (r: Result<
    (Blockchain, usize),
    ChainError,
>)
    ensures
        ({
            let s = surviving(decoded(record_views(records@)), difficulty);
            match r {
                Ok((c, skipped)) => {
                    &&& c.wf()
                    &&& c@.difficulty == difficulty
                    &&& c@.pending.len() == 0
                    &&& skipped == records@.len() - s.len()
                    &&& s.len() > 0 ==> c@.blocks == sort_by_id(s) && c@.links == resolved_links(
                        c@.blocks,
                    )
                    &&& s.len() == 0 ==> c@.blocks.len() == 1 && mined_from(
                        c@.blocks[0],
                        genesis_skeleton(timestamp),
                        difficulty,
                    ) && c@.links == seq![None::<usize>]
                },
                Err(e) => e == ChainError::MiningExhausted && s.len() == 0 && exhausted(
                    genesis_skeleton(timestamp),
                    difficulty,
                ),
            }
        }),
{
    let ghost rs = record_views(records@);
    let mut found: Vec<Block> = Vec::new();
    let mut i: usize = 0;
    assert(decoded(rs.subrange(0, 0)) =~= Seq::<BlockModel>::empty());
    while i < records.len()
        invariant
            i <= records@.len(),
            rs == record_views(records@),
            models(found@) == decoded(rs.subrange(0, i as int)),
            found@.len() <= i,
        decreases records@.len() - i,
    {
        assert(rs.subrange(0, i + 1).drop_last() =~= rs.subrange(0, i as int));
        assert(rs.subrange(0, i + 1).last() == records@[i as int]@);
        match decode_block(records[i].as_slice()) {
            Ok(b) => {
                found.push(b);
                assert(models(found@) =~= decoded(rs.subrange(0, i + 1)));
            },
            Err(_) => {},
        }
        i = i + 1;
    }
    assert(rs.subrange(0, i as int) =~= rs);
    let mut chain = Blockchain::with_difficulty(difficulty);
    let rejected = chain.load_validated(&found);
    let ghost s = surviving(models(found@), difficulty);
    proof {
        assert(Seq::<BlockModel>::empty() + s =~= s);
        lemma_sort_by_id(s);
        s.to_multiset_ensures();
        sort_by_id(s).to_multiset_ensures();
    }
    let skipped = (records.len() - found.len()) + rejected;
    if chain.len() == 0 {
        match chain.init_genesis_at(timestamp) {
            Ok(()) => {
                assert(chain@.links =~= seq![None::<usize>]);
                Ok((chain, skipped))
            },
            Err(e) => Err(e),
        }
    } else {
        Ok((chain, skipped))
    }
}

/// Rebuilds a chain at `difficulty` from stored `records`; where none
/// survives, mines a genesis block created now.
pub fn replay(records: &Vec<Vec<u8>>, difficulty: u8) -> (r: Result<(Blockchain, usize), ChainError>)
    ensures
        ({
            let s = surviving(decoded(record_views(records@)), difficulty);
            match r {
                Ok((c, skipped)) => {
                    &&& c.wf()
                    &&& c@.difficulty == difficulty
                    &&& skipped == records@.len() - s.len()
                    &&& s.len() > 0 ==> c@.blocks == sort_by_id(s) && c@.links == resolved_links(
                        c@.blocks,
                    )
                    &&& s.len() == 0 ==> c@.blocks.len() == 1 && is_genesis(c@.blocks[0])
                        && valid_block(c@.blocks[0], difficulty)
                },
                Err(e) => e == ChainError::MiningExhausted && s.len() == 0,
            }
        }),
{
    let timestamp = now_timestamp();
    let r = replay_at(records, difficulty, timestamp);
    proof {
        if r is Ok {
            let (c, skipped) = r.unwrap();
            let s = surviving(decoded(record_views(records@)), difficulty);
            if s.len() == 0 {
                lemma_mined_valid(c@.blocks[0], genesis_skeleton(timestamp), difficulty);
            }
        }
    }
    r
}


/// Every block that a chain store holds meets the store's difficulty: its
/// digest, read as a big-endian 256-bit integer, is below 2^(256 - difficulty).
pub proof fn lemma_stored_blocks_meet_target(c: &Blockchain, i: int)
    requires
        c.wf(),
        0 <= i < c@.blocks.len(),
    ensures
        be_value(block_hash(c@.blocks[i])) < pow2((256 - c@.difficulty) as nat),
{
    assert(c@.blocks[i] == c.blocks@[i]@);
    assert(valid_block(c.blocks@[i]@, c.difficulty));
}

/// In a hash-linked chain each block's id is its position.
pub proof fn lemma_linked_ids(c: Seq<BlockModel>)
    requires
        linked(c),
    ensures
        forall|i: int| 0 <= i < c.len() ==> (#[trigger] c[i]).id == i,
    decreases c.len(),
{
    if c.len() > 0 {
        let u = c.drop_last();
        assert(linked(u)) by {
            assert forall|i: int| 0 < i < u.len() implies #[trigger] u[i].id == u[i - 1].id + 1
                && u[i].prev_hash == block_hash(u[i - 1]) by {
                assert(u[i] == c[i] && u[i - 1] == c[i - 1]);
            }
        }
        lemma_linked_ids(u);
        assert forall|i: int| 0 <= i < c.len() implies (#[trigger] c[i]).id == i by {
            if i < c.len() - 1 {
                assert(c[i] == u[i]);
            } else if i > 0 {
                assert(c[i - 1] == u[i - 1]);
            }
        }
    }
}

/// In a hash-linked chain, every block B with a nonzero id names as its
/// predecessor the digest of the block whose id is `B.id - 1`.
pub proof fn lemma_linked_prev_hash(c: Seq<BlockModel>, i: int)
    requires
        linked(c),
        0 <= i < c.len(),
        c[i].id > 0,
    ensures
        0 <= c[i].id - 1 < c.len(),
        c[i].prev_hash == block_hash(c[c[i].id - 1]),
{
    lemma_linked_ids(c);
}

/// Extending the tip of a hash-linked chain keeps it hash-linked.
pub proof fn lemma_add_block_keeps_linked(before: Seq<BlockModel>, after: Seq<BlockModel>)
    requires
        linked(before),
        before.len() > 0,
        after.drop_last() == before,
        after.len() == before.len() + 1,
        after.last().id == before.last().id + 1,
        after.last().prev_hash == block_hash(before.last()),
    ensures
        linked(after),
{
    assert forall|i: int| 0 < i < after.len() implies #[trigger] after[i].id == after[i - 1].id + 1
        && after[i].prev_hash == block_hash(after[i - 1]) by {
        assert(after[i - 1] == before[i - 1]);
        if i < before.len() {
            assert(after[i] == before[i]);
        }
    }
    assert(after[0] == before[0]);
}


} // verus!
