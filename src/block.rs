//! Blocks, their payloads, the canonical byte encoding that gives a block its
//! identity, and the proof-of-work search over nonces.

use vstd::prelude::*;
use vstd::arithmetic::power2::pow2;
use crate::bytes::{
    Sha256Hash, append_bytes, be_value, convert_u64_to_u8_array, le_bytes,
};
use crate::trusted::{be_below_pow2, now_timestamp, sha256, sha256_of};

verus! {

/// Opaque bytes carried by a block.
pub struct BinaryData {
    pub data: Vec<u8>,
}

/// A transfer of `amount` from `sender` to `recipient`.
pub struct Transaction {
    pub sender: Sha256Hash,
    pub recipient: Sha256Hash,
    pub amount: u64,
}

/// One payload of a block.
pub enum BlockData {
    Binary(BinaryData),
    Transaction(Transaction),
}

/// What a payload holds.
pub enum DataModel {
    Binary(Seq<u8>),
    Transaction { sender: Seq<u8>, recipient: Seq<u8>, amount: u64 },
}

/// The content of a block: every field that is hashed and stored.
pub struct BlockModel {
    pub id: u64,
    pub timestamp: i64,
    pub nonce: u64,
    pub prev_hash: Seq<u8>,
    pub data: Seq<DataModel>,
}

impl View for BlockData {
    type V = DataModel;

    open spec fn view(&self) -> DataModel {
        match self {
            BlockData::Binary(b) => DataModel::Binary(b.data@),
            BlockData::Transaction(t) => DataModel::Transaction {
                sender: t.sender@,
                recipient: t.recipient@,
                amount: t.amount,
            },
        }
    }
}

/// The payloads of `v`, each by what it holds.
pub open spec fn data_view(v: Seq<BlockData>) -> Seq<DataModel> {
    v.map_values(|d: BlockData| d@)
}

/// The discriminant byte of a payload kind.
pub open spec fn tag_of(d: DataModel) -> u8 {
    match d {
        DataModel::Binary(_) => 0u8,
        DataModel::Transaction { .. } => 1u8,
    }
}

/// The canonical bytes of one payload: its discriminant, then its fields.
pub open spec fn payload_bytes(d: DataModel) -> Seq<u8> {
    match d {
        DataModel::Binary(bytes) => seq![0u8] + bytes,
        DataModel::Transaction { sender, recipient, amount } => seq![1u8] + sender + recipient
            + le_bytes(amount),
    }
}

/// The canonical bytes of a sequence of payloads, in order.
pub open spec fn payloads_bytes(ds: Seq<DataModel>) -> Seq<u8>
    decreases ds.len(),
{
    if ds.len() == 0 {
        Seq::empty()
    } else {
        payloads_bytes(ds.drop_last()) + payload_bytes(ds.last())
    }
}

/// The canonical header: id, nonce, timestamp (as unsigned), previous hash.
pub open spec fn header_bytes(b: BlockModel, nonce: u64) -> Seq<u8> {
    le_bytes(b.id) + le_bytes(nonce) + le_bytes(b.timestamp as u64) + b.prev_hash
}

/// What is hashed for `b` when its nonce is `nonce`.
pub open spec fn hash_input(b: BlockModel, nonce: u64) -> Seq<u8> {
    header_bytes(b, nonce) + payloads_bytes(b.data)
}

/// The digest of `b` with its nonce replaced by `nonce`.
pub open spec fn hash_with_nonce_of(b: BlockModel, nonce: u64) -> Seq<u8> {
    sha256_of(hash_input(b, nonce))
}

/// The digest of `b`.
pub open spec fn block_hash(b: BlockModel) -> Seq<u8> {
    hash_with_nonce_of(b, b.nonce)
}

/// The difficulty target `2^(256 - difficulty)`.
pub open spec fn target(difficulty: u8) -> nat {
    pow2((256 - difficulty) as nat)
}

/// A digest meets the difficulty when, read big-endian, it is below the target.
pub open spec fn meets_target(h: Seq<u8>, difficulty: u8) -> bool {
    be_value(h) < target(difficulty)
}

/// `nonce` makes `b` meet the difficulty.
pub open spec fn nonce_ok(b: BlockModel, nonce: u64, difficulty: u8) -> bool {
    meets_target(hash_with_nonce_of(b, nonce), difficulty)
}

/// `b`, with its own nonce, meets the difficulty.
pub open spec fn valid_block(b: BlockModel, difficulty: u8) -> bool {
    nonce_ok(b, b.nonce, difficulty)
}

/// The ASCII text `Genesis block`, carried by the first block.
pub open spec fn genesis_marker() -> Seq<u8> {
    seq![71u8, 101, 110, 101, 115, 105, 115, 32, 98, 108, 111, 99, 107]
}

/// The ASCII decimal digits of `n`, most significant first.
pub open spec fn decimal(n: nat) -> Seq<u8>
    decreases n,
{
    if n < 10 {
        seq![(48 + n) as u8]
    } else {
        decimal(n / 10).push((48 + n % 10) as u8)
    }
}

/// The ASCII text `Block <id>`, carried by every block after the first.
pub open spec fn block_marker(id: u64) -> Seq<u8> {
    seq![66u8, 108, 111, 99, 107, 32] + decimal(id as nat)
}

impl BinaryData {
    /// A binary payload holding a copy of `data`.
    pub fn new(data: &Vec<u8>) -> (r: BlockData)
        ensures
            r@ == DataModel::Binary(data@),
    {
        let mut bytes: Vec<u8> = Vec::new();
        append_bytes(&mut bytes, data.as_slice());
        BlockData::Binary(BinaryData { data: bytes })
    }
}

impl BlockData {
    /// The canonical bytes of this payload.
    pub fn data(&self) -> (r: Vec<u8>)
        ensures
            r@ == payload_bytes(self@),
    {
        match self {
            BlockData::Binary(b) => {
                let mut out: Vec<u8> = vec![0u8];
                append_bytes(&mut out, b.data.as_slice());
                assert(out@ =~= payload_bytes(self@));
                out
            },
            BlockData::Transaction(t) => {
                let mut out: Vec<u8> = vec![1u8];
                append_bytes(&mut out, &t.sender);
                append_bytes(&mut out, &t.recipient);
                let amount = convert_u64_to_u8_array(t.amount);
                append_bytes(&mut out, &amount);
                assert(out@ =~= payload_bytes(self@));
                out
            },
        }
    }

    /// A payload holding the same as this one.
    pub fn duplicate(&self) -> (r: BlockData)
        ensures
            r@ == self@,
    {
        match self {
            BlockData::Binary(b) => BinaryData::new(&b.data),
            BlockData::Transaction(t) => BlockData::Transaction(
                Transaction { sender: t.sender, recipient: t.recipient, amount: t.amount },
            ),
        }
    }
}

/// A copy of a sequence of payloads.
pub fn copy_data(v: &Vec<BlockData>) -> (r: Vec<BlockData>)
    ensures
        data_view(r@) == data_view(v@),
{
    let mut r: Vec<BlockData> = Vec::new();
    let mut i: usize = 0;
    while i < v.len()
        invariant
            i <= v@.len(),
            r@.len() == i,
            forall|k: int| 0 <= k < i ==> r@[k]@ == v@[k]@,
        decreases v@.len() - i,
    {
        r.push(v[i].duplicate());
        i = i + 1;
    }
    assert(data_view(r@) =~= data_view(v@));
    r
}

/// A block: an id, a creation time, a nonce, the digest of its predecessor and
/// its payloads. `prev_block_index` is the position of the predecessor in the
/// chain that holds the block, where it is known; it is neither
/// hashed nor stored.
pub struct Block {
    pub id: u64,
    pub timestamp: i64,
    pub nonce: u64,
    pub prev_block_hash: Sha256Hash,
    pub data: Vec<BlockData>,
    pub prev_block_index: Option<usize>,
}

impl View for Block {
    type V = BlockModel;

    open spec fn view(&self) -> BlockModel {
        BlockModel {
            id: self.id,
            timestamp: self.timestamp,
            nonce: self.nonce,
            prev_hash: self.prev_block_hash@,
            data: data_view(self.data@),
        }
    }
}

impl Block {
    /// A block with the same content and link as this one.
    pub fn duplicate(&self) -> (r: Block)
        ensures
            r@ == self@,
            r.prev_block_index == self.prev_block_index,
    {
        Block {
            id: self.id,
            timestamp: self.timestamp,
            nonce: self.nonce,
            prev_block_hash: self.prev_block_hash,
            data: copy_data(&self.data),
            prev_block_index: self.prev_block_index,
        }
    }

    /// The canonical header with `nonce` in place of the block's own.
    pub fn headers(&self, nonce: u64) -> (r: Vec<u8>)
        ensures
            r@ == header_bytes(self@, nonce),
    {
        let mut out: Vec<u8> = Vec::new();
        let id = convert_u64_to_u8_array(self.id);
        append_bytes(&mut out, &id);
        let n = convert_u64_to_u8_array(nonce);
        append_bytes(&mut out, &n);
        let ts = convert_u64_to_u8_array(self.timestamp as u64);
        append_bytes(&mut out, &ts);
        append_bytes(&mut out, &self.prev_block_hash);
        out
    }

    /// The bytes that are hashed with `nonce` in place of the block's own.
    pub fn hash_input(&self, nonce: u64) -> (r: Vec<u8>)
        ensures
            r@ == hash_input(self@, nonce),
    {
        let mut out = self.headers(nonce);
        let ghost head = out@;
        let mut i: usize = 0;
        while i < self.data.len()
            invariant
                i <= self.data@.len(),
                out@ == head + payloads_bytes(data_view(self.data@).subrange(0, i as int)),
            decreases self.data@.len() - i,
        {
            let bytes = self.data[i].data();
            append_bytes(&mut out, bytes.as_slice());
            i = i + 1;
            let ghost ds = data_view(self.data@).subrange(0, i as int);
            assert(ds.drop_last() =~= data_view(self.data@).subrange(0, i - 1));
            assert(out@ =~= head + payloads_bytes(ds));
        }
        assert(data_view(self.data@).subrange(0, i as int) =~= data_view(self.data@));
        out
    }

    /// The digest of the block with `nonce` in place of its own.
    pub fn hash_with_nonce(&self, nonce: u64) -> (r: Sha256Hash)
        ensures
            r@ == hash_with_nonce_of(self@, nonce),
    {
        let input = self.hash_input(nonce);
        sha256(input.as_slice())
    }

    /// The digest of the block.
    pub fn hash(&self) -> (r: Sha256Hash)
        ensures
            r@ == block_hash(self@),
    {
        self.hash_with_nonce(self.nonce)
    }

    /// Whether `nonce` makes the block meet `difficulty`.
    pub fn nonce_meets(&self, nonce: u64, difficulty: u8) -> (r: bool)
        ensures
            r == nonce_ok(self@, nonce, difficulty),
    {
        let h = self.hash_with_nonce(nonce);
        be_below_pow2(&h, 256 - difficulty as usize)
    }

    /// Whether the block, with its own nonce, meets `difficulty`.
    pub fn is_valid(&self, difficulty: u8) -> (r: bool)
        ensures
            r == valid_block(self@, difficulty),
    {
        self.nonce_meets(self.nonce, difficulty)
    }

    /// The first nonce in `start..end` that makes the block meet `difficulty`.
    pub fn mine_range(&self, difficulty: u8, start: u64, end: u64) -> (r: Option<u64>)
        ensures
            match r {
                Some(n) => start <= n < end && nonce_ok(self@, n, difficulty) && forall|m: u64|
                    start <= m < n ==> !nonce_ok(self@, m, difficulty),
                None => forall|m: u64| start <= m < end ==> !nonce_ok(self@, m, difficulty),
            },
    {
        let mut n = start;
        while n < end
            invariant
                start <= n,
                forall|m: u64| start <= m < n ==> !nonce_ok(self@, m, difficulty),
            decreases end - n,
        {
            if self.nonce_meets(n, difficulty) {
                return Some(n);
            }
            n = n + 1;
        }
        None
    }

    /// The first nonce of the whole 64-bit space that makes the block meet
    /// `difficulty`; `None` when there is none.
    pub fn mine(&self, difficulty: u8) -> (r: Option<u64>)
        ensures
            match r {
                Some(n) => nonce_ok(self@, n, difficulty) && forall|m: u64|
                    m < n ==> !nonce_ok(self@, m, difficulty),
                None => forall|m: u64| !nonce_ok(self@, m, difficulty),
            },
    {
        match self.mine_range(difficulty, 0, u64::MAX) {
            Some(n) => Some(n),
            None => {
                if self.nonce_meets(u64::MAX, difficulty) {
                    Some(u64::MAX)
                } else {
                    None
                }
            },
        }
    }

    /// This block with its nonce set to `nonce`.
    pub fn with_nonce(self, nonce: u64) -> (r: Block)
        ensures
            r@ == (BlockModel { nonce, ..self@ }),
            r.prev_block_index == self.prev_block_index,
    {
        Block { nonce, ..self }
    }

    /// A block skeleton created at `timestamp`, with nonce 0.
    pub fn at_time(
        data: &Vec<BlockData>,
        prev_block_hash: Sha256Hash,
        prev_block_index: Option<usize>,
        id: u64,
        timestamp: i64,
    ) -> (r: Block)
        ensures
            r@ == (BlockModel {
                id,
                timestamp,
                nonce: 0,
                prev_hash: prev_block_hash@,
                data: data_view(data@),
            }),
            r.prev_block_index == prev_block_index,
    {
        Block {
            id,
            timestamp,
            nonce: 0,
            prev_block_hash,
            data: copy_data(data),
            prev_block_index,
        }
    }

    /// A block skeleton created now, with nonce 0.
    pub fn new(data: &Vec<BlockData>, prev_block_hash: Sha256Hash, prev_block_index: Option<usize>, id: u64)
        -> (r: Block)
        ensures
            r.id == id,
            r.nonce == 0,
            r.prev_block_hash == prev_block_hash,
            data_view(r.data@) == data_view(data@),
            r.prev_block_index == prev_block_index,
    {
        let timestamp = now_timestamp();
        Block::at_time(data, prev_block_hash, prev_block_index, id, timestamp)
    }

    /// A block rebuilt from stored fields; its link is not known.
    pub fn restore(
        data: &Vec<BlockData>,
        prev_block_hash: Sha256Hash,
        id: u64,
        timestamp: i64,
        nonce: u64,
    ) -> (r: Block)
        ensures
            r@ == (BlockModel {
                id,
                timestamp,
                nonce,
                prev_hash: prev_block_hash@,
                data: data_view(data@),
            }),
            r.prev_block_index is None,
    {
        Block::at_time(data, prev_block_hash, None, id, timestamp).with_nonce(nonce)
    }
}

} // verus!
