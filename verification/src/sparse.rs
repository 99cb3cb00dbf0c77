//! Sparse vectors as the inverted index takes them.
//!
//! The library moves the values of a vector about and never computes with
//! them, so their type is left open: callers choose the number type.

use vstd::prelude::*;
use rustc_hash::FxHashMap;
use std::sync::Arc;
use crate::common::VectorId;

verus! {

/// One component of a sparse vector: the dimension and the value there.
#[derive(Debug, Clone, PartialEq)]
pub struct SparsePair<V>(pub u32, pub V);

/// A sparse vector as it came in, with the name its caller gave it.
#[derive(Debug, Clone, PartialEq)]
pub struct RawSparseVectorEmbedding<V> {
    pub raw_vec: Arc<Vec<SparsePair<V>>>,
    pub hash_vec: VectorId,
}

/// Counters of a sampling run over incoming values: how many lay above each
/// of nine thresholds, and how many were seen.
pub struct SamplingData {
    pub above_1: usize,
    pub above_2: usize,
    pub above_3: usize,
    pub above_4: usize,
    pub above_5: usize,
    pub above_6: usize,
    pub above_7: usize,
    pub above_8: usize,
    pub above_9: usize,
    pub values_collected: usize,
}

impl Default for SamplingData {
    /// All counters at zero.
    fn default() -> (data: SamplingData)
        ensures
            data == (SamplingData {
                above_1: 0,
                above_2: 0,
                above_3: 0,
                above_4: 0,
                above_5: 0,
                above_6: 0,
                above_7: 0,
                above_8: 0,
                above_9: 0,
                values_collected: 0,
            }),
    {
        SamplingData {
            above_1: 0,
            above_2: 0,
            above_3: 0,
            above_4: 0,
            above_5: 0,
            above_6: 0,
            above_7: 0,
            above_8: 0,
            above_9: 0,
            values_collected: 0,
        }
    }
}

/// `rustc_hash::FxBuildHasher`, the hasher of the maps that
/// [`RawSparseVectorEmbedding::into_map`] returns.  Nothing is claimed of it.
#[verifier::external_type_specification]
#[verifier::external_body]
pub struct ExFxBuildHasher(rustc_hash::FxBuildHasher);

/// The map from dimension to value that the pairs describe: where a
/// dimension occurs more than once, its last value stands.
pub open spec fn pairs_map<V>(pairs: Seq<SparsePair<V>>) -> Map<u32, V>
    decreases pairs.len(),
{
    if pairs.len() == 0 {
        Map::empty()
    } else {
        pairs_map(pairs.drop_last()).insert(pairs.last().0, pairs.last().1)
    }
}

/// A dimension is in the map exactly if a pair names it.
pub proof fn lemma_pairs_map_domain<V>(pairs: Seq<SparsePair<V>>, dimension: u32)
    ensures
        pairs_map(pairs).contains_key(dimension) <==> exists|i: int|
            0 <= i < pairs.len() && (#[trigger] pairs[i]).0 == dimension,
    decreases pairs.len(),
{
    if pairs.len() > 0 {
        let front = pairs.drop_last();
        lemma_pairs_map_domain(front, dimension);
        if pairs.last().0 == dimension {
            assert(pairs[pairs.len() - 1].0 == dimension);
        } else if pairs_map(pairs).contains_key(dimension) {
            let i = choose|i: int| 0 <= i < front.len() && (#[trigger] front[i]).0 == dimension;
            assert(pairs[i].0 == dimension);
        } else {
            assert forall|i: int| 0 <= i < pairs.len() implies (#[trigger] pairs[i]).0
                != dimension by {
                if i < front.len() {
                    assert(front[i].0 != dimension);
                }
            }
        }
    }
}

/// The map gives a dimension the value of the last pair that names it.
pub proof fn lemma_pairs_map_value<V>(pairs: Seq<SparsePair<V>>, i: int)
    requires
        0 <= i < pairs.len(),
        forall|j: int| i < j < pairs.len() ==> (#[trigger] pairs[j]).0 != pairs[i].0,
    ensures
        pairs_map(pairs).contains_key(pairs[i].0),
        pairs_map(pairs)[pairs[i].0] == pairs[i].1,
    decreases pairs.len(),
{
    if i < pairs.len() - 1 {
        let front = pairs.drop_last();
        assert(front[i] == pairs[i]);
        assert forall|j: int| i < j < front.len() implies (#[trigger] front[j]).0
            != front[i].0 by {
            assert(front[j] == pairs[j]);
        }
        lemma_pairs_map_value(front, i);
        assert(pairs[pairs.len() - 1].0 != pairs[i].0);
    }
}

/// Makes a map with `FxHashMap::default()`, that is std's `HashMap::default`
/// with the hasher of `rustc_hash`.  Claimed: the map is empty.
#[verifier::external_body]
fn fx_map_new<V>() -> (table: FxHashMap<u32, V>)
    ensures
        table@ == (Map::<u32, V>::empty()),
{
    FxHashMap::default()
}

/// Calls `insert` of std's `HashMap` on a map with the hasher of
/// `rustc_hash`.  Claimed: afterwards the map gives `value` for `key` and is
/// otherwise as it was; what `insert` returns is dropped.
#[verifier::external_body]
fn fx_map_insert<V>(table: &mut FxHashMap<u32, V>, key: u32, value: V)
    ensures
        final(table)@ == old(table)@.insert(key, value),
{
    table.insert(key, value);
}

impl<V: Copy> RawSparseVectorEmbedding<V> {
    /// The vector as a map from dimension to value.
    pub fn into_map(self) -> (map: FxHashMap<u32, V>)
        ensures
            map@ == pairs_map(self.raw_vec@),
    {
        let mut map = fx_map_new();
        let pairs: &Vec<SparsePair<V>> = &*self.raw_vec;
        let mut i: usize = 0;
        while i < pairs.len()
            invariant
                i <= pairs@.len(),
                map@ == pairs_map(pairs@.subrange(0, i as int)),
            decreases pairs@.len() - i,
        {
            fx_map_insert(&mut map, pairs[i].0, pairs[i].1);
            assert(pairs@.subrange(0, i + 1).drop_last() =~= pairs@.subrange(0, i as int));
            i = i + 1;
        }
        assert(pairs@.subrange(0, i as int) =~= pairs@);
        map
    }
}

} // verus!
