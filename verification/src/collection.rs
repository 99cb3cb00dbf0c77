//! Collections and their key in the registry.

use vstd::prelude::*;
use vstd::utf8::encode_utf8;
use siphasher::sip::SipHasher24;
use std::hash::Hasher;
use crate::bytes::u64_le_bytes;
use crate::common::WaCustomError;

verus! {

/// Options of the dense index of a collection.
#[derive(Debug, Clone, PartialEq, Eq)]
pub struct DenseVectorOptions {
    pub enabled: bool,
    pub dimension: usize,
}

/// Options of the sparse index of a collection.
#[derive(Debug, Clone, PartialEq, Eq)]
pub struct SparseVectorOptions {
    pub enabled: bool,
}

/// Options of the TF-IDF index of a collection.
#[derive(Debug, Clone, PartialEq, Eq)]
pub struct TFIDFOptions {
    pub enabled: bool,
}

/// Limits of a collection.  The replication factor is recorded only.
#[derive(Debug, Clone, PartialEq, Eq)]
pub struct CollectionConfig {
    pub max_vectors: Option<i32>,
    pub replication_factor: Option<i32>,
}

/// The metadata fields that the vectors of a collection may carry, by name.
#[derive(Debug, Clone, PartialEq, Eq)]
pub struct MetadataSchema {
    pub fields: Vec<String>,
}

/// A named set of vectors with its indexes.  The name is never empty.
#[derive(Debug, Clone, PartialEq, Eq)]
pub struct Collection {
    pub name: String,
    pub description: Option<String>,
    pub dense_vector: DenseVectorOptions,
    pub sparse_vector: SparseVectorOptions,
    pub tf_idf_options: TFIDFOptions,
    pub metadata_schema: Option<MetadataSchema>,
    pub config: CollectionConfig,
}

/// The SipHash-2-4 of `bytes` under the key of sixteen zero bytes.
pub uninterp spec fn sip_hash_2_4(bytes: Seq<u8>) -> u64;

/// Hashes `bytes` with `siphasher::sip::SipHasher24`: a hasher from
/// `SipHasher24::new()`, which has both keys zero, is fed the bytes in one
/// `write` and asked to `finish`.  The result depends on the bytes alone; it
/// is named [`sip_hash_2_4`] and nothing more is claimed of it.
#[verifier::external_body]
fn sip_hash(bytes: &[u8]) -> (hash: u64)
    ensures
        hash == sip_hash_2_4(bytes@),
{
    let mut hasher = SipHasher24::new();
    hasher.write(bytes);
    hasher.finish()
}

impl Collection {
    /// A collection with the given name and options.  An empty name is
    /// refused.
    pub fn new(
        name: String,
        description: Option<String>,
        dense_vector_options: DenseVectorOptions,
        sparse_vector_options: SparseVectorOptions,
        tf_idf_options: TFIDFOptions,
        metadata_schema: Option<MetadataSchema>,
        config: CollectionConfig,
    ) -> (r: Result<Collection, WaCustomError>)
        ensures
            r is Ok <==> name@.len() > 0,
            r matches Ok(collection) ==> collection == (Collection {
                name,
                description,
                dense_vector: dense_vector_options,
                sparse_vector: sparse_vector_options,
                tf_idf_options,
                metadata_schema,
                config,
            }),
            r matches Err(e) ==> e == WaCustomError::InvalidParams,
    {
        if name.as_str().is_empty() {
            return Err(WaCustomError::InvalidParams);
        }
        Ok(
            Collection {
                name,
                description,
                dense_vector: dense_vector_options,
                sparse_vector: sparse_vector_options,
                tf_idf_options,
                metadata_schema,
                config,
            },
        )
    }

    /// The SipHash-2-4 of the collection's name in UTF-8.
    pub fn get_hash(&self) -> (hash: u64)
        ensures
            hash == sip_hash_2_4(encode_utf8(self.name@)),
    {
        sip_hash(self.name.as_str().as_bytes())
    }

    /// The key under which the registry holds the collection: the hash of
    /// the name, little-endian.
    pub fn get_key(&self) -> (key: [u8; 8])
        ensures
            key@ == u64_le_bytes(sip_hash_2_4(encode_utf8(self.name@))),
    {
        let hash = self.get_hash();
        let key = [
            (hash % 256) as u8,
            ((hash / 0x100) % 256) as u8,
            ((hash / 0x1_0000) % 256) as u8,
            ((hash / 0x100_0000) % 256) as u8,
            ((hash / 0x1_0000_0000) % 256) as u8,
            ((hash / 0x100_0000_0000) % 256) as u8,
            ((hash / 0x1_0000_0000_0000) % 256) as u8,
            (hash / 0x100_0000_0000_0000) as u8,
        ];
        assert(key@ =~= u64_le_bytes(hash));
        key
    }
}

} // verus!
