//! Rebuilding a chain from stored records: which records survive, the order
//! of the surviving blocks by id, and why replaying a stored chain in any
//! order gives it back.

use vstd::prelude::*;
use vstd::seq_lib::group_to_multiset_ensures;
use crate::block::{Block, BlockModel, valid_block};
use crate::chain::{lemma_linked_ids, linked, models};
use crate::record::{parse_record, record_bytes, storable, lemma_record_round_trip};

verus! {

/// `t` is ordered by id.
pub open spec fn sorted_by_id(t: Seq<BlockModel>) -> bool {
    forall|i: int, j: int| 0 <= i <= j < t.len() ==> t[i].id <= t[j].id
}

/// `b` placed into `t` after every block whose id is not above its own.
pub open spec fn insert_sorted(t: Seq<BlockModel>, b: BlockModel) -> Seq<BlockModel>
    decreases t.len(),
{
    if t.len() == 0 {
        seq![b]
    } else if t.last().id <= b.id {
        t.push(b)
    } else {
        insert_sorted(t.drop_last(), b).push(t.last())
    }
}

/// The blocks of `s` ordered by id; blocks with equal ids keep their order.
pub open spec fn sort_by_id(s: Seq<BlockModel>) -> Seq<BlockModel>
    decreases s.len(),
{
    if s.len() == 0 {
        Seq::empty()
    } else {
        insert_sorted(sort_by_id(s.drop_last()), s.last())
    }
}

/// The blocks of `s` that meet `difficulty`, in order.
pub open spec fn surviving(s: Seq<BlockModel>, difficulty: u8) -> Seq<BlockModel>
    decreases s.len(),
{
    if s.len() == 0 {
        Seq::empty()
    } else if valid_block(s.last(), difficulty) {
        surviving(s.drop_last(), difficulty).push(s.last())
    } else {
        surviving(s.drop_last(), difficulty)
    }
}

/// The blocks held by those of `records` that are well formed, in order.
pub open spec fn decoded(records: Seq<Seq<u8>>) -> Seq<BlockModel>
    decreases records.len(),
{
    if records.len() == 0 {
        Seq::empty()
    } else {
        match parse_record(records.last()) {
            Some(b) => decoded(records.drop_last()).push(b),
            None => decoded(records.drop_last()),
        }
    }
}

/// The records of `v`, as byte sequences.
pub open spec fn record_views(v: Seq<Vec<u8>>) -> Seq<Seq<u8>> {
    v.map_values(|r: Vec<u8>| r@)
}

/// `b` placed into the ordered `v` after every block whose id is not above
/// its own.
fn insert_block_sorted(v: &mut Vec<Block>, b: Block)
    ensures
        models(final(v)@) == insert_sorted(models(old(v)@), b@),
{
    let ghost t = models(v@);
    let mut j: usize = v.len();
    assert(t.subrange(0, j as int) =~= t);
    assert(t.subrange(j as int, t.len() as int) =~= Seq::<BlockModel>::empty());
    while j > 0 && v[j - 1].id > b.id
        invariant
            j <= v@.len(),
            t == models(v@),
            insert_sorted(t, b@) == insert_sorted(t.subrange(0, j as int), b@) + t.subrange(
                j as int,
                t.len() as int,
            ),
        decreases j,
    {
        let ghost pre = t.subrange(0, j as int);
        assert(pre.drop_last() =~= t.subrange(0, j - 1));
        assert(pre.last() == t[j - 1]);
        assert(t.subrange(j - 1, t.len() as int) =~= seq![t[j - 1]] + t.subrange(
            j as int,
            t.len() as int,
        ));
        assert(insert_sorted(pre.drop_last(), b@).push(pre.last()) + t.subrange(
            j as int,
            t.len() as int,
        ) =~= insert_sorted(pre.drop_last(), b@) + t.subrange(j - 1, t.len() as int));
        j = j - 1;
    }
    let ghost pre = t.subrange(0, j as int);
    v.insert(j, b);
    proof {
        if j > 0 {
            assert(pre.last() == t[j - 1]);
        }
        assert(insert_sorted(pre, b@) =~= pre.push(b@));
        assert(models(v@) =~= pre.push(b@) + t.subrange(j as int, t.len() as int));
    }
}

/// The blocks of `v` ordered by id; blocks with equal ids keep their order.
pub fn sort_blocks_by_id(v: &Vec<Block>) -> (r: Vec<Block>)
    ensures
        models(r@) == sort_by_id(models(v@)),
{
    let ghost s = models(v@);
    let mut out: Vec<Block> = Vec::new();
    let mut i: usize = 0;
    assert(models(out@) =~= sort_by_id(s.subrange(0, 0)));
    while i < v.len()
        invariant
            i <= v@.len(),
            s == models(v@),
            models(out@) == sort_by_id(s.subrange(0, i as int)),
        decreases v@.len() - i,
    {
        let b = v[i].duplicate();
        insert_block_sorted(&mut out, b);
        assert(s.subrange(0, i + 1).drop_last() =~= s.subrange(0, i as int));
        i = i + 1;
    }
    assert(s.subrange(0, i as int) =~= s);
    out
}

proof fn lemma_insert_sorted(t: Seq<BlockModel>, b: BlockModel)
    requires
        sorted_by_id(t),
    ensures
        sorted_by_id(insert_sorted(t, b)),
        insert_sorted(t, b).to_multiset() == t.to_multiset().insert(b),
        insert_sorted(t, b).len() == t.len() + 1,
    decreases t.len(),
{
    broadcast use group_to_multiset_ensures;

    if t.len() == 0 {
        assert(seq![b] =~= Seq::<BlockModel>::empty().push(b));
    } else if t.last().id <= b.id {
    } else {
        let u = t.drop_last();
        lemma_insert_sorted(u, b);
        let w = insert_sorted(u, b);
        assert(t =~= u.push(t.last()));
        let wp = w.push(t.last());
        assert forall|i: int, j: int| 0 <= i <= j < wp.len() implies (#[trigger] wp[i]).id <= (
        #[trigger] wp[j]).id by {
            if j == w.len() && i < w.len() {
                assert(w.to_multiset().count(w[i]) > 0);
                if w[i] != b {
                    assert(u.to_multiset().count(w[i]) > 0);
                    assert(u.contains(w[i]));
                }
            }
        }
        assert(wp.to_multiset() =~= t.to_multiset().insert(b));
    }
}

pub proof fn lemma_sort_by_id(s: Seq<BlockModel>)
    ensures
        sorted_by_id(sort_by_id(s)),
        sort_by_id(s).to_multiset() == s.to_multiset(),
    decreases s.len(),
{
    broadcast use group_to_multiset_ensures;

    if s.len() > 0 {
        lemma_sort_by_id(s.drop_last());
        lemma_insert_sorted(sort_by_id(s.drop_last()), s.last());
        assert(s =~= s.drop_last().push(s.last()));
    } else {
        assert(s.to_multiset() =~= sort_by_id(s).to_multiset());
    }
}

/// An ordered sequence that holds the same blocks as `c`, whose ids are
/// its positions, is `c`.
proof fn lemma_sorted_unique(t: Seq<BlockModel>, c: Seq<BlockModel>)
    requires
        sorted_by_id(t),
        t.to_multiset() == c.to_multiset(),
        forall|i: int| 0 <= i < c.len() ==> (#[trigger] c[i]).id == i,
    ensures
        t == c,
    decreases c.len(),
{
    broadcast use group_to_multiset_ensures;

    let n = c.len();
    t.to_multiset_ensures();
    c.to_multiset_ensures();
    assert(t.len() == n);
    if n == 0 {
        assert(t =~= c);
    } else {
        let x = c.last();
        assert(c.contains(x)) by {
            assert(c[n - 1] == x);
        }
        assert(c.to_multiset().count(x) > 0);
        assert(t.to_multiset().count(x) > 0);
        assert(t.contains(x));
        let k = choose|k: int| 0 <= k < t.len() && t[k] == x;
        assert(c[n - 1].id == n - 1);
        assert(t.contains(t.last())) by {
            assert(t[n - 1] == t.last());
        }
        assert(t.to_multiset().count(t.last()) > 0);
        assert(c.to_multiset().count(t.last()) > 0);
        assert(c.contains(t.last()));
        let i = choose|i: int| 0 <= i < c.len() && c[i] == t.last();
        assert(t[k].id <= t[n - 1].id);
        assert(c[i].id == i);
        assert(i == n - 1);
        assert(t.last() == x);
        assert(t.remove(n - 1) =~= t.drop_last());
        assert(c.remove(n - 1) =~= c.drop_last());
        assert(t.drop_last().to_multiset() == c.drop_last().to_multiset());
        assert forall|i: int| 0 <= i < c.drop_last().len() implies (
        #[trigger] c.drop_last()[i]).id == i by {
            assert(c.drop_last()[i] == c[i]);
        }
        lemma_sorted_unique(t.drop_last(), c.drop_last());
        assert(t =~= t.drop_last().push(x));
        assert(c =~= c.drop_last().push(x));
    }
}

proof fn lemma_decoded_records(s: Seq<BlockModel>)
    requires
        forall|i: int| 0 <= i < s.len() ==> storable(#[trigger] s[i]),
    ensures
        decoded(s.map_values(|b: BlockModel| record_bytes(b))) == s,
    decreases s.len(),
{
    let rs = s.map_values(|b: BlockModel| record_bytes(b));
    if s.len() > 0 {
        let u = s.drop_last();
        assert(rs.drop_last() =~= u.map_values(|b: BlockModel| record_bytes(b)));
        assert(storable(s[s.len() - 1]));
        lemma_record_round_trip(s.last());
        assert forall|i: int| 0 <= i < u.len() implies storable(#[trigger] u[i]) by {
            assert(u[i] == s[i]);
        }
        lemma_decoded_records(u);
        assert(s =~= u.push(s.last()));
    } else {
        assert(decoded(rs) =~= s);
    }
}

/// Every block that survives meets the difficulty.
pub proof fn lemma_surviving_valid(s: Seq<BlockModel>, difficulty: u8)
    ensures
        forall|i: int| 0 <= i < surviving(s, difficulty).len() ==> valid_block(
            #[trigger] surviving(s, difficulty)[i],
            difficulty,
        ),
        surviving(s, difficulty).len() <= s.len(),
    decreases s.len(),
{
    if s.len() > 0 {
        lemma_surviving_valid(s.drop_last(), difficulty);
    }
}

proof fn lemma_all_survive(s: Seq<BlockModel>, difficulty: u8)
    requires
        forall|i: int| 0 <= i < s.len() ==> valid_block(#[trigger] s[i], difficulty),
    ensures
        surviving(s, difficulty) == s,
    decreases s.len(),
{
    if s.len() > 0 {
        let u = s.drop_last();
        assert(valid_block(s[s.len() - 1], difficulty));
        assert forall|i: int| 0 <= i < u.len() implies valid_block(#[trigger] u[i], difficulty) by {
            assert(u[i] == s[i]);
        }
        lemma_all_survive(u, difficulty);
        assert(s =~= u.push(s.last()));
    } else {
        assert(surviving(s, difficulty) =~= s);
    }
}


/// Replaying the stored records of a hash-linked chain whose blocks all meet
/// the difficulty gives back exactly that chain, with the same ids, digests
/// and links, in whatever order the records are found: the surviving blocks,
/// ordered by id, are the chain itself.
pub proof fn lemma_replay_restores_chain(
    c: Seq<BlockModel>,
    found: Seq<BlockModel>,
    difficulty: u8,
)
    requires
        linked(c),
        forall|i: int| 0 <= i < c.len() ==> valid_block(#[trigger] c[i], difficulty),
        forall|i: int| 0 <= i < c.len() ==> storable(#[trigger] c[i]),
        found.to_multiset() == c.to_multiset(),
    ensures
        sort_by_id(surviving(decoded(found.map_values(|b: BlockModel| record_bytes(b))), difficulty))
            == c,
{
    broadcast use group_to_multiset_ensures;

    assert forall|i: int| 0 <= i < found.len() implies storable(#[trigger] found[i])
        && valid_block(found[i], difficulty) by {
        assert(found.to_multiset().count(found[i]) > 0);
        assert(c.to_multiset().count(found[i]) > 0);
        assert(c.contains(found[i]));
    }
    lemma_decoded_records(found);
    lemma_all_survive(found, difficulty);
    lemma_sort_by_id(found);
    lemma_linked_ids(c);
    lemma_sorted_unique(sort_by_id(found), c);
}

} // verus!
