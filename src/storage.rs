//! Naming of stored records and what a flush writes.

use vstd::prelude::*;
use crate::block::block_hash;
use crate::bytes::Sha256Hash;
use crate::chain::{Blockchain, models};
use crate::record::{encode_block, record_bytes};
use crate::trusted::{hex_encode, hex_lower, hex_value};

verus! {

/// The text `block` that starts the name of every stored record.
pub open spec fn block_prefix() -> Seq<char> {
    seq!['b', 'l', 'o', 'c', 'k']
}

/// The name under which the record of the block with digest `h` is stored.
pub open spec fn key_of(h: Seq<u8>) -> Seq<char> {
    block_prefix() + hex_lower(h)
}

/// `name` is `block` followed by one or more hexadecimal digits.
pub open spec fn is_block_name(name: Seq<char>) -> bool {
    &&& name.len() > 5
    &&& name.subrange(0, 5) == block_prefix()
    &&& forall|i: int| 5 <= i < name.len() ==> (#[trigger] hex_value(name[i])) is Some
}

/// The storage key of the block with digest `hash`.
pub fn storage_key(hash: &Sha256Hash) -> (r: String)
    ensures
        r@ == key_of(hash@),
{
    let hex = hex_encode(hash);
    let prefix = String::from_str("block");
    proof {
        reveal_strlit("block");
        assert(prefix@ =~= block_prefix());
    }
    prefix.concat(hex.as_str())
}

/// Whether `name` names a stored record.
pub fn is_block_file_name(name: &str) -> (r: bool)
    ensures
        r == is_block_name(name@),
{
    let n = name.unicode_len();
    if n <= 5 {
        return false;
    }
    let prefix_ok = name.get_char(0) == 'b' && name.get_char(1) == 'l' && name.get_char(2) == 'o'
        && name.get_char(3) == 'c' && name.get_char(4) == 'k';
    if !prefix_ok {
        assert(name@.subrange(0, 5) != block_prefix()) by {
            if name@.subrange(0, 5) == block_prefix() {
                assert(name@[0] == name@.subrange(0, 5)[0]);
                assert(name@[1] == name@.subrange(0, 5)[1]);
                assert(name@[2] == name@.subrange(0, 5)[2]);
                assert(name@[3] == name@.subrange(0, 5)[3]);
                assert(name@[4] == name@.subrange(0, 5)[4]);
            }
        }
        return false;
    }
    assert(name@.subrange(0, 5) =~= block_prefix());
    let mut i: usize = 5;
    while i < n
        invariant
            5 <= i <= n,
            n == name@.len(),
            forall|k: int| 5 <= k < i ==> (#[trigger] hex_value(name@[k])) is Some,
        decreases n - i,
    {
        let c = name.get_char(i) as u32;
        if !((48 <= c && c <= 57) || (97 <= c && c <= 102) || (65 <= c && c <= 70)) {
            assert(hex_value(name@[i as int]) is None);
            return false;
        }
        i = i + 1;
    }
    true
}

/// What a flush writes, in chain order: for each block, its storage key and
/// its record.
pub fn flush_records(chain: &Blockchain) -> (r: Vec<(String, Vec<u8>)>)
    requires
        chain.wf(),
    ensures
        r@.len() == chain@.blocks.len(),
        forall|i: int|
            0 <= i < r@.len() ==> (#[trigger] r@[i]).0@ == key_of(block_hash(chain@.blocks[i]))
                && r@[i].1@ == record_bytes(chain@.blocks[i]),
{
    let mut out: Vec<(String, Vec<u8>)> = Vec::new();
    let n = chain.len();
    let mut i: usize = 0;
    while i < n
        invariant
            i <= n,
            n == chain@.blocks.len(),
            chain.wf(),
            out@.len() == i,
            forall|k: int|
                0 <= k < i ==> (#[trigger] out@[k]).0@ == key_of(block_hash(chain@.blocks[k]))
                    && out@[k].1@ == record_bytes(chain@.blocks[k]),
        decreases n - i,
    {
        match chain.get_block(i) {
            Ok(b) => {
                let h = b.hash();
                let key = storage_key(&h);
                let bytes = encode_block(b);
                out.push((key, bytes));
            },
            Err(_) => {
                assert(false);
            },
        }
        i = i + 1;
    }
    out
}

} // verus!
