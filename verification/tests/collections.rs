use siphasher::sip::SipHasher24;
use std::hash::Hasher;
use std::sync::Arc;
use vector_store::collection::{
    Collection, CollectionConfig, DenseVectorOptions, MetadataSchema, SparseVectorOptions,
    TFIDFOptions,
};
use vector_store::common::{VectorId, WaCustomError};
use vector_store::dtos::{
    check_dense_dimension, zip_pairs, CreateSparseVectorDto, SparseDtoError, SparseEntry,
    SparseField, SparseVectorFields,
};
use vector_store::sparse::{RawSparseVectorEmbedding, SamplingData, SparsePair};

fn collection(name: &str) -> Result<Collection, WaCustomError> {
    Collection::new(
        name.to_string(),
        None,
        DenseVectorOptions { enabled: true, dimension: 128 },
        SparseVectorOptions { enabled: true },
        TFIDFOptions { enabled: false },
        None,
        CollectionConfig { max_vectors: None, replication_factor: None },
    )
}

fn reference_hash(bytes: &[u8]) -> u64 {
    let mut hasher = SipHasher24::new();
    hasher.write(bytes);
    hasher.finish()
}

#[test]
fn empty_name_is_invalid() {
    assert_eq!(collection("").err(), Some(WaCustomError::InvalidParams));
}

#[test]
fn wiki_collection_is_made_as_given() {
    let wiki = collection("wiki").unwrap();
    assert_eq!(wiki.name, "wiki");
    assert_eq!(wiki.description, None);
    assert_eq!(wiki.dense_vector, DenseVectorOptions { enabled: true, dimension: 128 });
    assert_eq!(wiki.sparse_vector, SparseVectorOptions { enabled: true });
    assert_eq!(wiki.tf_idf_options, TFIDFOptions { enabled: false });
    assert_eq!(wiki.metadata_schema, None);
    assert_eq!(wiki.config, CollectionConfig { max_vectors: None, replication_factor: None });
}

#[test]
fn collection_keeps_description_schema_and_config() {
    let made = Collection::new(
        "docs".to_string(),
        Some("papers".to_string()),
        DenseVectorOptions { enabled: false, dimension: 0 },
        SparseVectorOptions { enabled: false },
        TFIDFOptions { enabled: true },
        Some(MetadataSchema { fields: vec!["year".to_string()] }),
        CollectionConfig { max_vectors: Some(10), replication_factor: Some(3) },
    )
    .unwrap();
    assert_eq!(made.description, Some("papers".to_string()));
    assert_eq!(made.metadata_schema, Some(MetadataSchema { fields: vec!["year".to_string()] }));
    assert_eq!(made.config.max_vectors, Some(10));
    assert_eq!(made.config.replication_factor, Some(3));
    assert!(made.tf_idf_options.enabled);
}

#[test]
fn key_is_the_little_endian_siphash_of_the_name() {
    let wiki = collection("wiki").unwrap();
    let expected = reference_hash(b"wiki");
    assert_eq!(wiki.get_hash(), expected);
    assert_eq!(wiki.get_key(), expected.to_le_bytes());
    assert_ne!(wiki.get_hash(), u64::from_le_bytes(*b"wiki\0\0\0\0"));
}

#[test]
fn key_depends_on_the_name_alone() {
    let a = collection("wiki").unwrap();
    let mut b = collection("wiki").unwrap();
    b.description = Some("another".to_string());
    b.config.max_vectors = Some(5);
    assert_eq!(a.get_key(), b.get_key());
    assert_ne!(a.get_key(), collection("wikj").unwrap().get_key());
    let accented = collection("é").unwrap();
    assert_eq!(accented.get_hash(), reference_hash("é".as_bytes()));
}

#[test]
fn siphash_matches_the_published_vector() {
    // SipHash-2-4 of the empty input under the zero key.
    assert_eq!(reference_hash(b""), 0x1e92_4b9d_7377_00d7);
    let one = collection("a").unwrap();
    assert_eq!(one.get_hash(), reference_hash(b"a"));
}

#[test]
fn dense_vector_must_have_the_collections_dimension() {
    let wiki = collection("wiki").unwrap();
    assert_eq!(check_dense_dimension(128, &wiki), Ok(()));
    assert_eq!(check_dense_dimension(127, &wiki), Err(WaCustomError::InvalidParams));
    assert_eq!(check_dense_dimension(0, &wiki), Err(WaCustomError::InvalidParams));
}

#[test]
fn sparse_vector_pairs_indices_with_values_in_order() {
    let dto = CreateSparseVectorDto::from_parts(
        VectorId("v1".to_string()),
        vec![0.5f32, 1.5, 2.5],
        vec![3, 17, 200],
    );
    assert_eq!(dto.id, VectorId("v1".to_string()));
    assert_eq!(dto.values, vec![SparsePair(3, 0.5), SparsePair(17, 1.5), SparsePair(200, 2.5)]);
}

#[test]
fn sparse_vector_is_decoded_from_its_entries_in_any_order() {
    let dto = CreateSparseVectorDto::from_entries(vec![
        SparseEntry::Indices(vec![3, 17, 200]),
        SparseEntry::Id(VectorId("v1".to_string())),
        SparseEntry::Values(vec![0.5f32, 1.5, 2.5]),
    ])
    .unwrap();
    assert_eq!(dto.id, VectorId("v1".to_string()));
    assert_eq!(dto.values, vec![SparsePair(3, 0.5), SparsePair(17, 1.5), SparsePair(200, 2.5)]);
}

#[test]
fn zip_stops_at_the_shorter_list() {
    assert_eq!(zip_pairs(&vec![1, 2, 3], &vec![10u8, 20]), vec![SparsePair(1, 10), SparsePair(2, 20)]);
    assert_eq!(zip_pairs(&vec![1], &vec![10u8, 20]), vec![SparsePair(1, 10)]);
    assert_eq!(zip_pairs(&vec![], &vec![10u8, 20]), vec![]);
}

#[test]
fn duplicate_field_is_refused() {
    let r = CreateSparseVectorDto::from_entries(vec![
        SparseEntry::Id(VectorId("a".to_string())),
        SparseEntry::Values(vec![1u8]),
        SparseEntry::Values(vec![2u8]),
        SparseEntry::Unknown("x".to_string()),
    ]);
    assert_eq!(r.err(), Some(SparseDtoError::DuplicateField(SparseField::Values)));
    let r = CreateSparseVectorDto::<u8>::from_entries(vec![
        SparseEntry::Indices(vec![1]),
        SparseEntry::Indices(vec![1]),
    ]);
    assert_eq!(r.err(), Some(SparseDtoError::DuplicateField(SparseField::Indices)));
    let r = CreateSparseVectorDto::<u8>::from_entries(vec![
        SparseEntry::Id(VectorId("a".to_string())),
        SparseEntry::Id(VectorId("a".to_string())),
    ]);
    assert_eq!(r.err(), Some(SparseDtoError::DuplicateField(SparseField::Id)));
}

#[test]
fn unknown_field_is_refused() {
    let r = CreateSparseVectorDto::<u8>::from_entries(vec![
        SparseEntry::Id(VectorId("a".to_string())),
        SparseEntry::Unknown("metadata".to_string()),
    ]);
    assert_eq!(r.err(), Some(SparseDtoError::UnknownField("metadata".to_string())));
}

#[test]
fn missing_fields_are_reported_in_order() {
    let r = CreateSparseVectorDto::<u8>::from_entries(vec![]);
    assert_eq!(r.err(), Some(SparseDtoError::MissingField(SparseField::Id)));
    let r = CreateSparseVectorDto::<u8>::from_entries(vec![
        SparseEntry::Indices(vec![1]),
        SparseEntry::Id(VectorId("a".to_string())),
    ]);
    assert_eq!(r.err(), Some(SparseDtoError::MissingField(SparseField::Values)));
    let r = CreateSparseVectorDto::from_entries(vec![
        SparseEntry::Values(vec![1u8]),
        SparseEntry::Id(VectorId("a".to_string())),
    ]);
    assert_eq!(r.err(), Some(SparseDtoError::MissingField(SparseField::Indices)));
}

#[test]
fn keys_announce_their_fields() {
    let mut fields: SparseVectorFields<f32> = SparseVectorFields::new();
    assert_eq!(fields.expect("id"), Ok(SparseField::Id));
    assert_eq!(fields.expect("values"), Ok(SparseField::Values));
    assert_eq!(fields.expect("indices"), Ok(SparseField::Indices));
    assert_eq!(fields.expect("Id"), Err(SparseDtoError::UnknownField("Id".to_string())));
    assert_eq!(fields.expect(""), Err(SparseDtoError::UnknownField(String::new())));
    assert_eq!(fields.accept(SparseEntry::Values(vec![1.0])), Ok(()));
    assert!(fields.holds(SparseField::Values));
    assert!(!fields.holds(SparseField::Id));
    assert_eq!(fields.expect("values"), Err(SparseDtoError::DuplicateField(SparseField::Values)));
    assert_eq!(
        fields.accept(SparseEntry::Values(vec![2.0])),
        Err(SparseDtoError::DuplicateField(SparseField::Values))
    );
    assert_eq!(fields.values, Some(vec![1.0]));
    assert_eq!(fields.expect("id"), Ok(SparseField::Id));
    assert_eq!(
        fields.clone().finish().err(),
        Some(SparseDtoError::MissingField(SparseField::Id))
    );
}

#[test]
fn embedding_becomes_a_map_where_the_last_value_stands() {
    let embedding = RawSparseVectorEmbedding {
        raw_vec: Arc::new(vec![
            SparsePair(3, 0.5f32),
            SparsePair(17, 1.5),
            SparsePair(3, 2.5),
        ]),
        hash_vec: VectorId("v1".to_string()),
    };
    let map = embedding.into_map();
    assert_eq!(map.len(), 2);
    assert_eq!(map.get(&3), Some(&2.5));
    assert_eq!(map.get(&17), Some(&1.5));
    assert_eq!(map.get(&4), None);
}

#[test]
fn empty_embedding_becomes_an_empty_map() {
    let embedding: RawSparseVectorEmbedding<f32> = RawSparseVectorEmbedding {
        raw_vec: Arc::new(vec![]),
        hash_vec: VectorId("none".to_string()),
    };
    assert!(embedding.into_map().is_empty());
}

#[test]
fn sampling_starts_at_zero() {
    let data = SamplingData::default();
    assert_eq!(data.above_1, 0);
    assert_eq!(data.above_5, 0);
    assert_eq!(data.above_9, 0);
    assert_eq!(data.values_collected, 0);
}
