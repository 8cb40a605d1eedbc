//! Reproducible random sampling of trace records: when a trace holds more
//! records than may be shown, a fixed-seed shuffle picks which ones, and
//! they are kept in the order of the trace.

use vstd::prelude::*;
use crate::sort::{sorted_keys, sort_keys, lemma_sorted_keys, is_ascending};
use crate::types::{UFS, Block, UFSCUSTOM};

verus! {

broadcast use vstd::seq_lib::group_to_multiset_ensures;

/// The seed of the sampling shuffle, so that a trace is always sampled the
/// same way.
pub const SAMPLE_SEED: u64 = 12345;

/// The order in which `SliceRandom::shuffle` of the `rand` crate leaves
/// `items` when driven by a `StdRng` seeded with `seed`.
pub uninterp spec fn seeded_shuffle(items: Seq<usize>, seed: u64) -> Seq<usize>;

/// Calls `SliceRandom::shuffle` with a `StdRng` made by
/// `SeedableRng::seed_from_u64(seed)`. The crate's shuffle only swaps
/// elements, so the items stay the same; which order comes out depends on
/// the items and the seed alone and is named `seeded_shuffle`.
#[verifier::external_body]
fn shuffle_seeded(v: &mut Vec<usize>, seed: u64)
    ensures
        final(v)@ == seeded_shuffle(old(v)@, seed),
        final(v)@.to_multiset() == old(v)@.to_multiset(),
{
    let mut rng = <rand::rngs::StdRng as rand::SeedableRng>::seed_from_u64(seed);
    rand::seq::SliceRandom::shuffle(v.as_mut_slice(), &mut rng);
}

/// The positions `0..n`.
pub open spec fn index_range(n: nat) -> Seq<usize> {
    Seq::new(n, |i: int| i as usize)
}

/// The positions of the records kept out of `total` when at most `max` may
/// be kept: all of them, or the first `max` of the seeded shuffle of all
/// positions, in ascending order.
pub open spec fn sample_positions_spec(total: nat, max: nat) -> Seq<usize> {
    if total <= max {
        index_range(total)
    } else {
        sorted_keys(seeded_shuffle(index_range(total), SAMPLE_SEED).take(max as int).map_values(|x: usize| x as u128))
            .map_values(|k: u128| k as usize)
    }
}

proof fn lemma_no_dup_from_multiset(a: Seq<usize>, b: Seq<usize>)
    requires
        a.no_duplicates(),
        b.to_multiset() == a.to_multiset(),
    ensures
        b.no_duplicates(),
{
    a.lemma_multiset_has_no_duplicates();
    b.lemma_multiset_has_no_duplicates_conv();
}

proof fn lemma_no_dup_keys(a: Seq<u128>, b: Seq<u128>)
    requires
        a.no_duplicates(),
        b.to_multiset() == a.to_multiset(),
    ensures
        b.no_duplicates(),
{
    a.lemma_multiset_has_no_duplicates();
    b.lemma_multiset_has_no_duplicates_conv();
}

/// The positions of the records kept out of `total` records when at most
/// `max_records` may be kept. They are distinct, below `total` and
/// ascending, so the kept records stay in their order.
pub fn sample_positions(total: usize, max_records: usize) -> (r: Vec<usize>)
    ensures
        r@ == sample_positions_spec(total as nat, max_records as nat),
        r.len() == (if total <= max_records { total } else { max_records }),
        forall|a: int, b: int| 0 <= a < b < r.len() ==> r@[a] < r@[b],
        forall|a: int| 0 <= a < r.len() ==> r@[a] < total,
{
    let mut idx: Vec<usize> = Vec::new();
    let mut i: usize = 0;
    while i < total
        invariant
            0 <= i <= total,
            idx@ == index_range(i as nat),
        decreases total - i,
    {
        idx.push(i);
        i = i + 1;
        assert(idx@ =~= index_range(i as nat));
    }
    if total <= max_records {
        return idx;
    }
    let ghost range = idx@;
    assert(range.no_duplicates());
    shuffle_seeded(&mut idx, SAMPLE_SEED);
    proof {
        lemma_no_dup_from_multiset(range, idx@);
        assert forall|x: usize| idx@.contains(x) implies x < total by {
            assert(idx@.to_multiset().count(x) > 0);
            assert(range.contains(x));
        }
    }
    let ghost shuffled = idx@;
    assert(shuffled.len() == total) by {
        assert(shuffled.to_multiset().len() == range.to_multiset().len());
    }
    idx.truncate(max_records);
    assert(idx@ =~= shuffled.take(max_records as int));
    let mut keys: Vec<u128> = Vec::new();
    let mut k: usize = 0;
    while k < idx.len()
        invariant
            0 <= k <= idx.len(),
            keys@ == idx@.map_values(|x: usize| x as u128).take(k as int),
        decreases idx.len() - k,
    {
        keys.push(idx[k] as u128);
        k = k + 1;
        assert(keys@ =~= idx@.map_values(|x: usize| x as u128).take(k as int));
    }
    assert(keys@ =~= idx@.map_values(|x: usize| x as u128));
    proof {
        assert forall|a: int, b: int| 0 <= a < keys@.len() && 0 <= b < keys@.len() && a != b implies keys@[a] != keys@[b] by {
            assert(shuffled[a] != shuffled[b]);
        }
        assert forall|a: int| 0 <= a < keys@.len() implies keys@[a] < total by {
            assert(shuffled.contains(shuffled[a]));
        }
    }
    let sorted = sort_keys(keys.as_slice());
    proof {
        lemma_sorted_keys(keys@);
        lemma_no_dup_keys(keys@, sorted@);
        assert forall|a: int| 0 <= a < sorted@.len() implies sorted@[a] < total by {
            assert(sorted@.contains(sorted@[a]));
            assert(sorted@.to_multiset().count(sorted@[a]) > 0);
            assert(keys@.contains(sorted@[a]));
        }
    }
    let mut r: Vec<usize> = Vec::new();
    let mut k: usize = 0;
    while k < sorted.len()
        invariant
            0 <= k <= sorted.len(),
            forall|a: int| 0 <= a < sorted@.len() ==> sorted@[a] < total,
            r@ == sorted@.map_values(|x: u128| x as usize).take(k as int),
        decreases sorted.len() - k,
    {
        r.push(sorted[k] as usize);
        k = k + 1;
        assert(r@ =~= sorted@.map_values(|x: u128| x as usize).take(k as int));
    }
    assert(r@ =~= sorted@.map_values(|x: u128| x as usize));
    proof {
        assert forall|a: int, b: int| 0 <= a < b < r.len() implies r@[a] < r@[b] by {
            assert(sorted@[a] <= sorted@[b]);
            assert(sorted@[a] != sorted@[b]);
        }
    }
    r
}

/// The records kept by sampling, with the counts.
pub struct SamplingInfo<T> {
    pub data: Vec<T>,
    pub total_count: usize,
    pub sampled_count: usize,
}

/// `r` holds the records of `list` at the sampled positions: as many as
/// there are, up to `max`, from distinct positions in ascending order.
pub open spec fn sampled_from<T>(r: SamplingInfo<T>, list: Seq<T>, max: nat) -> bool {
    let pos = sample_positions_spec(list.len(), max);
    &&& r.total_count == list.len()
    &&& r.sampled_count == r.data.len()
    &&& r.data.len() == pos.len()
    &&& r.data.len() == (if list.len() <= max { list.len() } else { max })
    &&& forall|a: int, b: int| 0 <= a < b < pos.len() ==> pos[a] < pos[b]
    &&& forall|a: int| 0 <= a < pos.len() ==> pos[a] < list.len()
    &&& forall|j: int| 0 <= j < pos.len() ==> r.data@[j] == list[pos[j] as int]
}

/// At most `max_records` UFS events, picked by the seeded shuffle and kept
/// in their order.
pub fn sample_ufs(ufs_list: &Vec<UFS>, max_records: usize) -> (r: SamplingInfo<UFS>)
    ensures
        sampled_from(r, ufs_list@, max_records as nat),
{
    let pos = sample_positions(ufs_list.len(), max_records);
    let mut data: Vec<UFS> = Vec::new();
    let mut j: usize = 0;
    while j < pos.len()
        invariant
            pos@ == sample_positions_spec(ufs_list@.len(), max_records as nat),
            forall|a: int| 0 <= a < pos.len() ==> pos@[a] < ufs_list.len(),
            0 <= j <= pos.len(),
            data.len() == j,
            forall|q: int| 0 <= q < j ==> data@[q] == ufs_list@[pos@[q] as int],
        decreases pos.len() - j,
    {
        data.push(ufs_list[pos[j]].duplicate());
        j = j + 1;
    }
    let n = data.len();
    SamplingInfo { data, total_count: ufs_list.len(), sampled_count: n }
}

/// At most `max_records` block events, picked by the seeded shuffle and
/// kept in their order.
pub fn sample_block(block_list: &Vec<Block>, max_records: usize) -> (r: SamplingInfo<Block>)
    ensures
        sampled_from(r, block_list@, max_records as nat),
{
    let pos = sample_positions(block_list.len(), max_records);
    let mut data: Vec<Block> = Vec::new();
    let mut j: usize = 0;
    while j < pos.len()
        invariant
            pos@ == sample_positions_spec(block_list@.len(), max_records as nat),
            forall|a: int| 0 <= a < pos.len() ==> pos@[a] < block_list.len(),
            0 <= j <= pos.len(),
            data.len() == j,
            forall|q: int| 0 <= q < j ==> data@[q] == block_list@[pos@[q] as int],
        decreases pos.len() - j,
    {
        data.push(block_list[pos[j]].duplicate());
        j = j + 1;
    }
    let n = data.len();
    SamplingInfo { data, total_count: block_list.len(), sampled_count: n }
}

/// At most `max_records` custom UFS requests, picked by the seeded shuffle
/// and kept in their order.
pub fn sample_ufscustom(ufscustom_list: &Vec<UFSCUSTOM>, max_records: usize) -> (r: SamplingInfo<UFSCUSTOM>)
    ensures
        sampled_from(r, ufscustom_list@, max_records as nat),
{
    let pos = sample_positions(ufscustom_list.len(), max_records);
    let mut data: Vec<UFSCUSTOM> = Vec::new();
    let mut j: usize = 0;
    while j < pos.len()
        invariant
            pos@ == sample_positions_spec(ufscustom_list@.len(), max_records as nat),
            forall|a: int| 0 <= a < pos.len() ==> pos@[a] < ufscustom_list.len(),
            0 <= j <= pos.len(),
            data.len() == j,
            forall|q: int| 0 <= q < j ==> data@[q] == ufscustom_list@[pos@[q] as int],
        decreases pos.len() - j,
    {
        data.push(ufscustom_list[pos[j]].duplicate());
        j = j + 1;
    }
    let n = data.len();
    SamplingInfo { data, total_count: ufscustom_list.len(), sampled_count: n }
}

} // verus!
