//! The stored form of a block: the canonical header, the number of payloads,
//! then each payload's canonical bytes behind their length.

use vstd::prelude::*;
use crate::block::{
    Block, BlockData, BinaryData, BlockModel, DataModel, Transaction, data_view, header_bytes,
    payload_bytes,
};
use crate::bytes::{
    append_bytes, convert_u64_to_u8_array, copy_range, le_bytes, le_value, lemma_i64_u64_round_trip,
    lemma_le_round_trip, read_hash, read_u64_le,
};

verus! {

/// A stored record that is not the encoding of any block.
pub struct DecodeError;

/// The kind of a payload, as its discriminant byte names it.
#[derive(Debug, PartialEq, Eq, Structural)]
pub enum DataType {
    BinaryData,
    Transaction,
}

/// The kind that discriminant `tag` names.
pub open spec fn data_type_of(tag: u8) -> Option<DataType> {
    if tag == 0 {
        Some(DataType::BinaryData)
    } else if tag == 1 {
        Some(DataType::Transaction)
    } else {
        None
    }
}

impl DataType {
    /// The kind that discriminant `tag` names, if any.
    pub fn from_tag(tag: u8) -> (r: Option<DataType>)
        ensures
            r == data_type_of(tag),
    {
        if tag == 0 {
            Some(DataType::BinaryData)
        } else if tag == 1 {
            Some(DataType::Transaction)
        } else {
            None
        }
    }
}

/// One stored payload: its length, then its canonical bytes.
pub open spec fn entry_bytes(d: DataModel) -> Seq<u8> {
    le_bytes(payload_bytes(d).len() as u64) + payload_bytes(d)
}

/// The stored payloads, in order.
pub open spec fn entries_bytes(ds: Seq<DataModel>) -> Seq<u8>
    decreases ds.len(),
{
    if ds.len() == 0 {
        Seq::empty()
    } else {
        entry_bytes(ds[0]) + entries_bytes(ds.drop_first())
    }
}

/// The stored record of a block.
pub open spec fn record_bytes(b: BlockModel) -> Seq<u8> {
    header_bytes(b, b.nonce) + le_bytes(b.data.len() as u64) + entries_bytes(b.data)
}

/// The payload whose canonical bytes are `p`, if any.
pub open spec fn parse_payload(p: Seq<u8>) -> Option<DataModel> {
    if p.len() == 0 {
        None
    } else if p[0] == 0 {
        Some(DataModel::Binary(p.drop_first()))
    } else if p[0] == 1 && p.len() == 73 {
        Some(
            DataModel::Transaction {
                sender: p.subrange(1, 33),
                recipient: p.subrange(33, 65),
                amount: le_value(p.subrange(65, 73)),
            },
        )
    } else {
        None
    }
}

/// The `count` payloads stored in `s`, which they must fill exactly.
pub open spec fn parse_entries(s: Seq<u8>, count: nat) -> Option<Seq<DataModel>>
    decreases count,
{
    if count == 0 {
        if s.len() == 0 {
            Some(Seq::empty())
        } else {
            None
        }
    } else if s.len() < 8 {
        None
    } else {
        let len = le_value(s.subrange(0, 8)) as int;
        if s.len() - 8 < len {
            None
        } else {
            match parse_payload(s.subrange(8, 8 + len)) {
                None => None,
                Some(d) => match parse_entries(s.subrange(8 + len, s.len() as int), (count - 1) as nat) {
                    None => None,
                    Some(rest) => Some(seq![d] + rest),
                },
            }
        }
    }
}

/// The block that the record `s` holds, if it is one.
pub open spec fn parse_record(s: Seq<u8>) -> Option<BlockModel> {
    if s.len() < 64 {
        None
    } else {
        match parse_entries(s.subrange(64, s.len() as int), le_value(s.subrange(56, 64)) as nat) {
            None => None,
            Some(data) => Some(
                BlockModel {
                    id: le_value(s.subrange(0, 8)),
                    nonce: le_value(s.subrange(8, 16)),
                    timestamp: le_value(s.subrange(16, 24)) as i64,
                    prev_hash: s.subrange(24, 56),
                    data,
                },
            ),
        }
    }
}

/// `pre` followed by the payloads of `o`, if `o` holds any.
pub open spec fn prepend(pre: Seq<DataModel>, o: Option<Seq<DataModel>>) -> Option<Seq<DataModel>> {
    match o {
        None => None,
        Some(ds) => Some(pre + ds),
    }
}

/// A block content that the record format can hold: 32-byte digests and
/// lengths that fit in 64 bits.
pub open spec fn storable(b: BlockModel) -> bool {
    &&& b.prev_hash.len() == 32
    &&& b.data.len() <= u64::MAX
    &&& forall|i: int| 0 <= i < b.data.len() ==> storable_payload(#[trigger] b.data[i])
}

/// A payload that the record format can hold.
pub open spec fn storable_payload(d: DataModel) -> bool {
    match d {
        DataModel::Binary(bytes) => bytes.len() < u64::MAX,
        DataModel::Transaction { sender, recipient, .. } => sender.len() == 32 && recipient.len()
            == 32,
    }
}

proof fn lemma_entries_push(ds: Seq<DataModel>, d: DataModel)
    ensures
        entries_bytes(ds.push(d)) == entries_bytes(ds) + entry_bytes(d),
    decreases ds.len(),
{
    if ds.len() == 0 {
        assert(ds.push(d).drop_first() =~= Seq::<DataModel>::empty());
        assert(ds.push(d)[0] == d);
        assert(entries_bytes(Seq::<DataModel>::empty()) =~= Seq::<u8>::empty());
        assert(entries_bytes(ds) =~= Seq::<u8>::empty());
        assert(entries_bytes(ds.push(d)) =~= entry_bytes(d));
    } else {
        assert(ds.push(d).drop_first() =~= ds.drop_first().push(d));
        assert(ds.push(d)[0] == ds[0]);
        lemma_entries_push(ds.drop_first(), d);
        assert(entries_bytes(ds.push(d)) =~= entries_bytes(ds) + entry_bytes(d));
    }
}

proof fn lemma_payload_round_trip(d: DataModel)
    requires
        storable_payload(d),
    ensures
        parse_payload(payload_bytes(d)) == Some(d),
{
    let p = payload_bytes(d);
    match d {
        DataModel::Binary(bytes) => {
            assert(p.drop_first() =~= bytes);
        },
        DataModel::Transaction { sender, recipient, amount } => {
            assert(p.subrange(1, 33) =~= sender);
            assert(p.subrange(33, 65) =~= recipient);
            assert(p.subrange(65, 73) =~= le_bytes(amount));
            lemma_le_round_trip(amount);
        },
    }
}

#[verifier::rlimit(40)]
proof fn lemma_entries_round_trip(ds: Seq<DataModel>)
    requires
        forall|i: int| 0 <= i < ds.len() ==> storable_payload(#[trigger] ds[i]),
    ensures
        parse_entries(entries_bytes(ds), ds.len()) == Some(ds),
    decreases ds.len(),
{
    if ds.len() > 0 {
        let s = entries_bytes(ds);
        let d = ds[0];
        let rest = ds.drop_first();
        let p = payload_bytes(d);
        assert(storable_payload(ds[0]));
        assert(p.len() <= u64::MAX) by {
            match d {
                DataModel::Binary(bytes) => {},
                DataModel::Transaction { .. } => {},
            }
        }
        let len = p.len() as u64;
        assert(s == le_bytes(len) + p + entries_bytes(rest));
        lemma_le_round_trip(len);
        assert(s.subrange(0, 8) =~= le_bytes(len));
        assert(s.subrange(8, 8 + p.len() as int) =~= p);
        assert(s.subrange(8 + p.len() as int, s.len() as int) =~= entries_bytes(rest));
        lemma_payload_round_trip(d);
        assert forall|i: int| 0 <= i < rest.len() implies storable_payload(#[trigger] rest[i]) by {
            assert(rest[i] == ds[i + 1]);
        }
        lemma_entries_round_trip(rest);
        assert(seq![d] + rest =~= ds);
    } else {
        assert(entries_bytes(ds) =~= Seq::<u8>::empty());
    }
}

/// Decoding the stored record of a block gives the block back, field for field.
pub proof fn lemma_record_round_trip(b: BlockModel)
    requires
        storable(b),
    ensures
        parse_record(record_bytes(b)) == Some(b),
{
    let s = record_bytes(b);
    let n = b.data.len() as u64;
    lemma_le_round_trip(b.id);
    lemma_le_round_trip(b.nonce);
    lemma_le_round_trip(b.timestamp as u64);
    lemma_i64_u64_round_trip(b.timestamp);
    lemma_le_round_trip(n);
    assert(s.subrange(0, 8) =~= le_bytes(b.id));
    assert(s.subrange(8, 16) =~= le_bytes(b.nonce));
    assert(s.subrange(16, 24) =~= le_bytes(b.timestamp as u64));
    assert(s.subrange(24, 56) =~= b.prev_hash);
    assert(s.subrange(56, 64) =~= le_bytes(n));
    assert(s.subrange(64, s.len() as int) =~= entries_bytes(b.data));
    lemma_entries_round_trip(b.data);
}

/// The stored record of `b`.
pub fn encode_block(b: &Block) -> (r: Vec<u8>)
    ensures
        r@ == record_bytes(b@),
{
    let mut out = b.headers(b.nonce);
    let count = convert_u64_to_u8_array(b.data.len() as u64);
    append_bytes(&mut out, &count);
    let ghost head = out@;
    let ghost dv = data_view(b.data@);
    let mut i: usize = 0;
    while i < b.data.len()
        invariant
            i <= b.data@.len(),
            dv == data_view(b.data@),
            out@ == head + entries_bytes(dv.subrange(0, i as int)),
        decreases b.data@.len() - i,
    {
        let p = b.data[i].data();
        let len = convert_u64_to_u8_array(p.len() as u64);
        append_bytes(&mut out, &len);
        append_bytes(&mut out, p.as_slice());
        proof {
            lemma_entries_push(dv.subrange(0, i as int), dv[i as int]);
            assert(dv.subrange(0, i as int).push(dv[i as int]) =~= dv.subrange(0, i + 1));
        }
        i = i + 1;
        assert(out@ =~= head + entries_bytes(dv.subrange(0, i as int)));
    }
    assert(dv.subrange(0, i as int) =~= dv);
    assert(out@ =~= record_bytes(b@));
    out
}

/// The payload whose canonical bytes are `b[start..end]`, if any.
fn decode_payload(b: &[u8], start: usize, end: usize) -> (r: Option<BlockData>)
    requires
        start <= end <= b@.len(),
    ensures
        match r {
            Some(d) => parse_payload(b@.subrange(start as int, end as int)) == Some(d@),
            None => parse_payload(b@.subrange(start as int, end as int)) is None,
        },
{
    let ghost p = b@.subrange(start as int, end as int);
    if start == end {
        return None;
    }
    match DataType::from_tag(b[start]) {
        Some(DataType::BinaryData) => {
            let data = copy_range(b, start + 1, end);
            assert(data@ =~= p.drop_first());
            Some(BlockData::Binary(BinaryData { data }))
        },
        Some(DataType::Transaction) => {
            if end - start != 73 {
                return None;
            }
            let sender = read_hash(b, start + 1);
            let recipient = read_hash(b, start + 33);
            let amount = read_u64_le(b, start + 65);
            assert(sender@ =~= p.subrange(1, 33));
            assert(recipient@ =~= p.subrange(33, 65));
            assert(b@.subrange(start + 65, start + 73) =~= p.subrange(65, 73));
            Some(BlockData::Transaction(Transaction { sender, recipient, amount }))
        },
        None => None,
    }
}

/// The block that the record `bytes` holds; its link is not known.
pub fn decode_block(bytes: &[u8]) -> (r: Result<Block, DecodeError>)
    ensures
        match r {
            Ok(b) => parse_record(bytes@) == Some(b@) && b.prev_block_index is None,
            Err(_) => parse_record(bytes@) is None,
        },
{
    let ghost s = bytes@;
    if bytes.len() < 64 {
        return Err(DecodeError);
    }
    let id = read_u64_le(bytes, 0);
    let nonce = read_u64_le(bytes, 8);
    let timestamp = #[verifier::truncate] (read_u64_le(bytes, 16) as i64);
    let prev = read_hash(bytes, 24);
    let count = read_u64_le(bytes, 56);
    let ghost all = s.subrange(64, s.len() as int);
    let mut data: Vec<BlockData> = Vec::new();
    let mut pos: usize = 64;
    let mut k: u64 = 0;
    while k < count
        invariant
            64 <= pos <= s.len(),
            k <= count,
            s == bytes@,
            count == le_value(s.subrange(56, 64)),
            all == s.subrange(64, s.len() as int),
            parse_entries(all, count as nat) == prepend(
                data_view(data@),
                parse_entries(s.subrange(pos as int, s.len() as int), (count - k) as nat),
            ),
        decreases count - k,
    {
        let ghost t = s.subrange(pos as int, s.len() as int);
        if bytes.len() - pos < 8 {
            assert(parse_entries(t, (count - k) as nat) is None);
            return Err(DecodeError);
        }
        let len = read_u64_le(bytes, pos);
        assert(t.subrange(0, 8) =~= s.subrange(pos as int, pos + 8));
        if ((bytes.len() - pos - 8) as u64) < len {
            return Err(DecodeError);
        }
        let end = pos + 8 + len as usize;
        assert(t.subrange(8, 8 + len) =~= s.subrange(pos + 8, end as int));
        assert(t.subrange(8 + len, t.len() as int) =~= s.subrange(end as int, s.len() as int));
        match decode_payload(bytes, pos + 8, end) {
            None => {
                return Err(DecodeError);
            },
            Some(d) => {
                let ghost before = data_view(data@);
                data.push(d);
                assert(data_view(data@) =~= before.push(d@));
                proof {
                    let rest = parse_entries(s.subrange(end as int, s.len() as int), (count - k - 1) as nat);
                    match rest {
                        None => {},
                        Some(ds) => {
                            assert(before + (seq![d@] + ds) =~= before.push(d@) + ds);
                        },
                    }
                }
                pos = end;
                k = k + 1;
            },
        }
    }
    if pos != bytes.len() {
        return Err(DecodeError);
    }
    assert(data_view(data@) + Seq::<DataModel>::empty() =~= data_view(data@));
    Ok(Block::restore(&data, prev, id, timestamp, nonce))
}

} // verus!
