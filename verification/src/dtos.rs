//! The requests that create vectors, as far as their rules go.
//!
//! A request to create a sparse vector is a map with the keys `id`, `values`
//! and `indices`.  Whoever decodes it walks the map key by key: for each key
//! [`SparseVectorFields::expect`] says which value is to come or why the map
//! is refused, the decoded value is handed to [`SparseVectorFields::accept`],
//! and [`SparseVectorFields::finish`] makes the vector once the map is
//! through.

use vstd::prelude::*;
use crate::collection::Collection;
use crate::common::{VectorId, WaCustomError};
use crate::sparse::SparsePair;

verus! {

/// A request to create a sparse vector, in its inner form: the values paired
/// with their dimensions.
#[derive(Debug, Clone, PartialEq)]
pub struct CreateSparseVectorDto<V> {
    pub id: VectorId,
    pub values: Vec<SparsePair<V>>,
}

/// One of the three fields of a request to create a sparse vector.
#[derive(Debug, Clone, Copy, PartialEq, Eq, Structural)]
pub enum SparseField {
    Id,
    Values,
    Indices,
}

/// Why a request to create a sparse vector is refused.
#[derive(Debug, Clone, PartialEq, Eq)]
pub enum SparseDtoError {
    /// The field came a second time.
    DuplicateField(SparseField),
    /// The key is none of `id`, `values`, `indices`.
    UnknownField(String),
    /// The map ended without the field.
    MissingField(SparseField),
}

/// A decoded entry of the map.
#[derive(Debug, Clone, PartialEq)]
pub enum SparseEntry<V> {
    Id(VectorId),
    Values(Vec<V>),
    Indices(Vec<u32>),
    /// An entry under another key, which is kept here.
    Unknown(String),
}

/// The fields of a request that have come so far.
#[derive(Debug, Clone, PartialEq)]
pub struct SparseVectorFields<V> {
    pub id: Option<VectorId>,
    pub values: Option<Vec<V>>,
    pub indices: Option<Vec<u32>>,
}

/// The key of `field` in the map.
pub open spec fn field_key(field: SparseField) -> Seq<char> {
    match field {
        SparseField::Id => "id"@,
        SparseField::Values => "values"@,
        SparseField::Indices => "indices"@,
    }
}

/// The three keys differ.
pub proof fn lemma_field_keys_differ(a: SparseField, b: SparseField)
    ensures
        field_key(a) == field_key(b) <==> a == b,
{
    reveal_strlit("id");
    reveal_strlit("values");
    reveal_strlit("indices");
    assert("id"@.len() == 2 && "values"@.len() == 6 && "indices"@.len() == 7);
}

/// The pairs of dimension and value, in the order of the lists, as far as
/// the shorter list goes.
pub open spec fn zipped<V>(indices: Seq<u32>, values: Seq<V>) -> Seq<SparsePair<V>> {
    Seq::new(
        if indices.len() <= values.len() {
            indices.len()
        } else {
            values.len()
        },
        |i: int| SparsePair(indices[i], values[i]),
    )
}

/// Pairs each value with its dimension.
pub fn zip_pairs<V: Copy>(indices: &Vec<u32>, values: &Vec<V>) -> (pairs: Vec<SparsePair<V>>)
    ensures
        pairs@ == zipped(indices@, values@),
{
    let n = if indices.len() <= values.len() {
        indices.len()
    } else {
        values.len()
    };
    let mut pairs: Vec<SparsePair<V>> = Vec::new();
    let mut i: usize = 0;
    while i < n
        invariant
            i <= n,
            n <= indices@.len(),
            n <= values@.len(),
            pairs@.len() == i,
            forall|k: int| 0 <= k < i ==> pairs@[k] == SparsePair(indices@[k], values@[k]),
        decreases n - i,
    {
        pairs.push(SparsePair(indices[i], values[i]));
        i = i + 1;
    }
    assert(pairs@ =~= zipped(indices@, values@));
    pairs
}

/// Tells whether two strings hold the same characters.
fn same_text(a: &str, b: &str) -> (same: bool)
    ensures
        same == (a@ == b@),
{
    a.to_owned() == b.to_owned()
}

impl<V> SparseVectorFields<V> {
    /// Whether `field` has come.
    pub open spec fn has(&self, field: SparseField) -> bool {
        match field {
            SparseField::Id => self.id is Some,
            SparseField::Values => self.values is Some,
            SparseField::Indices => self.indices is Some,
        }
    }

    /// The first field, in the order `id`, `values`, `indices`, that has not
    /// come.
    pub open spec fn first_missing(&self) -> Option<SparseField> {
        if self.id is None {
            Some(SparseField::Id)
        } else if self.values is None {
            Some(SparseField::Values)
        } else if self.indices is None {
            Some(SparseField::Indices)
        } else {
            None
        }
    }

    /// No field has come yet.
    pub fn new() -> (fields: SparseVectorFields<V>)
        ensures
            fields == (SparseVectorFields::<V> { id: None, values: None, indices: None }),
    {
        SparseVectorFields { id: None, values: None, indices: None }
    }

    /// Tells whether `field` has come.
    pub fn holds(&self, field: SparseField) -> (held: bool)
        ensures
            held == self.has(field),
    {
        match field {
            SparseField::Id => self.id.is_some(),
            SparseField::Values => self.values.is_some(),
            SparseField::Indices => self.indices.is_some(),
        }
    }

    /// Which field the key `key` announces.  A key of a field that has come
    /// is a duplicate; a key of no field is unknown.
    pub fn expect(&self, key: &str) -> (r: Result<SparseField, SparseDtoError>)
        ensures
            match r {
                Ok(field) => key@ == field_key(field) && !self.has(field),
                Err(SparseDtoError::DuplicateField(field)) => key@ == field_key(field) && self.has(
                    field,
                ),
                Err(SparseDtoError::UnknownField(name)) => name@ == key@ && forall|
                    field: SparseField,
                | key@ != field_key(field),
                Err(SparseDtoError::MissingField(_)) => false,
            },
    {
        let field = if same_text(key, "id") {
            SparseField::Id
        } else if same_text(key, "values") {
            SparseField::Values
        } else if same_text(key, "indices") {
            SparseField::Indices
        } else {
            return Err(SparseDtoError::UnknownField(key.to_owned()));
        };
        if self.holds(field) {
            Err(SparseDtoError::DuplicateField(field))
        } else {
            Ok(field)
        }
    }

    /// Takes in a decoded entry.  An entry of a field that has come, or
    /// under an unknown key, is refused and changes nothing.
    pub fn accept(&mut self, entry: SparseEntry<V>) -> (r: Result<(), SparseDtoError>)
        ensures
            match entry {
                SparseEntry::Id(id) => if old(self).id is Some {
                    r == (Err::<(), SparseDtoError>(SparseDtoError::DuplicateField(SparseField::Id)))
                        && *final(self) == *old(self)
                } else {
                    r is Ok && *final(self) == (SparseVectorFields { id: Some(id), ..*old(self) })
                },
                SparseEntry::Values(values) => if old(self).values is Some {
                    r == (Err::<(), SparseDtoError>(
                        SparseDtoError::DuplicateField(SparseField::Values),
                    )) && *final(self) == *old(self)
                } else {
                    r is Ok && *final(self) == (SparseVectorFields {
                        values: Some(values),
                        ..*old(self)
                    })
                },
                SparseEntry::Indices(indices) => if old(self).indices is Some {
                    r == (Err::<(), SparseDtoError>(
                        SparseDtoError::DuplicateField(SparseField::Indices),
                    )) && *final(self) == *old(self)
                } else {
                    r is Ok && *final(self) == (SparseVectorFields {
                        indices: Some(indices),
                        ..*old(self)
                    })
                },
                SparseEntry::Unknown(name) => r == (Err::<(), SparseDtoError>(
                    SparseDtoError::UnknownField(name),
                )) && *final(self) == *old(self),
            },
    {
        match entry {
            SparseEntry::Id(id) => {
                if self.id.is_some() {
                    return Err(SparseDtoError::DuplicateField(SparseField::Id));
                }
                self.id = Some(id);
            },
            SparseEntry::Values(values) => {
                if self.values.is_some() {
                    return Err(SparseDtoError::DuplicateField(SparseField::Values));
                }
                self.values = Some(values);
            },
            SparseEntry::Indices(indices) => {
                if self.indices.is_some() {
                    return Err(SparseDtoError::DuplicateField(SparseField::Indices));
                }
                self.indices = Some(indices);
            },
            SparseEntry::Unknown(name) => {
                return Err(SparseDtoError::UnknownField(name));
            },
        }
        Ok(())
    }
}

impl<V: Copy> SparseVectorFields<V> {
    /// Makes the vector once the map is through: each value paired with its
    /// dimension, in the order in which they came.  A field that has not
    /// come is reported, `id` before `values` before `indices`.
    pub fn finish(self) -> (r: Result<CreateSparseVectorDto<V>, SparseDtoError>)
        ensures
            match r {
                Ok(dto) => self.first_missing() is None && Some(dto.id) == self.id && dto.values@
                    == zipped(self.indices.unwrap()@, self.values.unwrap()@),
                Err(e) => self.first_missing() == Some(e->MissingField_0) && e is MissingField,
            },
    {
        let id = match self.id {
            Some(id) => id,
            None => { return Err(SparseDtoError::MissingField(SparseField::Id)); },
        };
        let values = match self.values {
            Some(values) => values,
            None => { return Err(SparseDtoError::MissingField(SparseField::Values)); },
        };
        let indices = match self.indices {
            Some(indices) => indices,
            None => { return Err(SparseDtoError::MissingField(SparseField::Indices)); },
        };
        let pairs = zip_pairs(&indices, &values);
        Ok(CreateSparseVectorDto { id, values: pairs })
    }
}

/// The fields after the entries `entries[from ..]` have come, or the error
/// of the first entry that is refused.
pub open spec fn after_entries<V>(
    fields: SparseVectorFields<V>,
    entries: Seq<SparseEntry<V>>,
    from: int,
) -> Result<SparseVectorFields<V>, SparseDtoError>
    decreases entries.len() - from,
{
    if from < 0 || from >= entries.len() {
        Ok(fields)
    } else {
        match entries[from] {
            SparseEntry::Id(id) => if fields.id is Some {
                Err(SparseDtoError::DuplicateField(SparseField::Id))
            } else {
                after_entries(SparseVectorFields { id: Some(id), ..fields }, entries, from + 1)
            },
            SparseEntry::Values(values) => if fields.values is Some {
                Err(SparseDtoError::DuplicateField(SparseField::Values))
            } else {
                after_entries(
                    SparseVectorFields { values: Some(values), ..fields },
                    entries,
                    from + 1,
                )
            },
            SparseEntry::Indices(indices) => if fields.indices is Some {
                Err(SparseDtoError::DuplicateField(SparseField::Indices))
            } else {
                after_entries(
                    SparseVectorFields { indices: Some(indices), ..fields },
                    entries,
                    from + 1,
                )
            },
            SparseEntry::Unknown(name) => Err(SparseDtoError::UnknownField(name)),
        }
    }
}

impl<V: Copy> CreateSparseVectorDto<V> {
    /// The vector with the name `id` whose value in dimension `indices[i]`
    /// is `values[i]`.
    pub fn from_parts(id: VectorId, values: Vec<V>, indices: Vec<u32>) -> (dto:
        CreateSparseVectorDto<V>)
        ensures
            dto.id == id,
            dto.values@ == zipped(indices@, values@),
    {
        let pairs = zip_pairs(&indices, &values);
        CreateSparseVectorDto { id, values: pairs }
    }

    /// Decodes a request from the entries of its map, in their order.  The
    /// first entry that is a duplicate or unknown refuses the request; then a
    /// missing field does.
    pub fn from_entries(entries: Vec<SparseEntry<V>>) -> (r: Result<
        CreateSparseVectorDto<V>,
        SparseDtoError,
    >)
        ensures
            match after_entries(
                SparseVectorFields { id: None, values: None, indices: None },
                entries@,
                0,
            ) {
                Err(e) => r == (Err::<CreateSparseVectorDto<V>, SparseDtoError>(e)),
                Ok(fields) => match r {
                    Ok(dto) => fields.first_missing() is None && Some(dto.id) == fields.id
                        && dto.values@ == zipped(
                        fields.indices.unwrap()@,
                        fields.values.unwrap()@,
                    ),
                    Err(e) => fields.first_missing() == Some(e->MissingField_0) && e
                        is MissingField,
                },
            },
    {
        let mut fields: SparseVectorFields<V> = SparseVectorFields::new();
        let ghost all = entries@;
        let ghost start = fields;
        let n = entries.len();
        // Entries are popped off the reversed list, that is in their order.
        let mut queue = entries;
        let mut rest: Vec<SparseEntry<V>> = Vec::new();
        while queue.len() > 0
            invariant
                rest@.len() + queue@.len() == all.len(),
                forall|k: int| 0 <= k < queue@.len() ==> queue@[k] == all[k],
                forall|k: int| 0 <= k < rest@.len() ==> rest@[k] == all[all.len() - 1 - k],
            decreases queue@.len(),
        {
            match queue.pop() {
                Some(entry) => rest.push(entry),
                None => {},
            }
        }
        let mut i: usize = 0;
        while rest.len() > 0
            invariant
                n == all.len(),
                all == entries@,
                start == (SparseVectorFields::<V> { id: None, values: None, indices: None }),
                i + rest@.len() == all.len(),
                forall|k: int| 0 <= k < rest@.len() ==> rest@[k] == all[all.len() - 1 - k],
                after_entries(start, all, 0) == after_entries(fields, all, i as int),
            decreases rest@.len(),
        {
            match rest.pop() {
                Some(entry) => {
                    assert(entry == all[i as int]);
                    let ghost before = fields;
                    match fields.accept(entry) {
                        Ok(()) => {
                            assert(after_entries(before, all, i as int) == after_entries(
                                fields,
                                all,
                                i + 1,
                            ));
                        },
                        Err(e) => {
                            assert(after_entries(before, all, i as int) == (Err::<
                                SparseVectorFields<V>,
                                SparseDtoError,
                            >(e)));
                            return Err(e);
                        },
                    }
                },
                None => {},
            }
            i = i + 1;
        }
        fields.finish()
    }
}

/// Checks a dense vector against its collection: it must have as many
/// values as the collection's dense index has dimensions.
pub fn check_dense_dimension(values_len: usize, collection: &Collection) -> (r: Result<
    (),
    WaCustomError,
>)
    ensures
        r is Ok <==> values_len == collection.dense_vector.dimension,
        r matches Err(e) ==> e == WaCustomError::InvalidParams,
{
    if values_len == collection.dense_vector.dimension {
        Ok(())
    } else {
        Err(WaCustomError::InvalidParams)
    }
}

} // verus!
