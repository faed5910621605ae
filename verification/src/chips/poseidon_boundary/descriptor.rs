//! Descriptors of boundary tensors: who a tensor is, in which role, and how many numbers it has.
use vstd::prelude::*;
use vstd::string::*;
use vstd::utf8::encode_utf8;

use crate::chips::poseidon_boundary::identity::{identity, identity_fields, values_of};
use crate::field::Fr;
use crate::text::{decimal, unsigned_text};

verus! {

pub const BOUNDARY_COMMITMENT_SCHEMA_VERSION: u32 = 1;

pub const MAX_BOUNDARY_ELEMENTS: usize = 8192;

pub const MAX_BOUNDARY_IDENTITIES: usize = 64;

pub const MAX_BOUNDARY_ID_BYTES: usize = 256;

#[derive(Clone, Copy, Debug, PartialEq, Eq, Structural)]
pub enum BoundaryRole {
    Input,
    Output,
}

#[derive(Clone, Copy, Debug, PartialEq, Eq, Structural)]
pub enum BoundaryDType {
    I18,
}

/// A tensor is described by its count of elements alone, not by a shape of higher rank.
#[derive(Clone, Copy, Debug, PartialEq, Eq, Structural)]
pub enum BoundaryShape {
    FlatElementCountOnly { element_count: usize },
}

#[derive(Debug, PartialEq, Eq)]
pub struct BoundaryDescriptor {
    role: BoundaryRole,
    register_id: String,
    edge_ids: Vec<String>,
    graph_output_names: Vec<String>,
    dtype: BoundaryDType,
    shape: BoundaryShape,
    quantization_scale: u64,
}

/// What a descriptor says.
#[verifier::ext_equal]
pub struct Boundary {
    pub role: BoundaryRole,
    pub register_id: Seq<char>,
    pub edge_ids: Seq<Seq<char>>,
    pub graph_output_names: Seq<Seq<char>>,
    pub element_count: usize,
    pub quantization_scale: u64,
}

#[derive(Clone, Debug, PartialEq, Eq)]
pub enum BoundaryCommitmentError {
    EmptyTensor,
    TooManyElements,
    TooManyIdentities,
    InvalidIdentity,
    NonCanonicalIdentities,
    LengthMismatch { expected: usize, actual: usize },
    PoseidonParameters,
}

impl BoundaryCommitmentError {
    pub open spec fn text(self) -> Seq<char> {
        match self {
            BoundaryCommitmentError::EmptyTensor => "EmptyTensor"@,
            BoundaryCommitmentError::TooManyElements => "TooManyElements"@,
            BoundaryCommitmentError::TooManyIdentities => "TooManyIdentities"@,
            BoundaryCommitmentError::InvalidIdentity => "InvalidIdentity"@,
            BoundaryCommitmentError::NonCanonicalIdentities => "NonCanonicalIdentities"@,
            BoundaryCommitmentError::LengthMismatch { expected, actual } =>
                "LengthMismatch { expected: "@ + decimal(expected as int) + ", actual: "@ + decimal(
                actual as int,
            ) + " }"@,
            BoundaryCommitmentError::PoseidonParameters => "PoseidonParameters"@,
        }
    }

    /// The text of the error.
    pub fn message(&self) -> (r: String)
        ensures
            r@ == self.text(),
    {
        match self {
            BoundaryCommitmentError::EmptyTensor => String::from_str("EmptyTensor"),
            BoundaryCommitmentError::TooManyElements => String::from_str("TooManyElements"),
            BoundaryCommitmentError::TooManyIdentities => String::from_str("TooManyIdentities"),
            BoundaryCommitmentError::InvalidIdentity => String::from_str("InvalidIdentity"),
            BoundaryCommitmentError::NonCanonicalIdentities => String::from_str(
                "NonCanonicalIdentities",
            ),
            BoundaryCommitmentError::LengthMismatch { expected, actual } => {
                let mut r = String::from_str("LengthMismatch { expected: ");
                r.append(unsigned_text(*expected as u128).as_str());
                r.append(", actual: ");
                r.append(unsigned_text(*actual as u128).as_str());
                r.append(" }");
                r
            },
            BoundaryCommitmentError::PoseidonParameters => String::from_str("PoseidonParameters"),
        }
    }
}

/// The characters of strings.
pub open spec fn texts(s: Seq<String>) -> Seq<Seq<char>> {
    Seq::new(s.len(), |i: int| s[i]@)
}

/// The order of byte strings: by the first byte in which they differ, a prefix first.
pub open spec fn bytes_below(a: Seq<u8>, b: Seq<u8>) -> bool
    decreases b.len(),
{
    if b.len() == 0 {
        false
    } else if a.len() == 0 {
        true
    } else if a[0] != b[0] {
        a[0] < b[0]
    } else {
        bytes_below(a.skip(1), b.skip(1))
    }
}

/// The order of names: that of their bytes.
pub open spec fn name_below(a: Seq<char>, b: Seq<char>) -> bool {
    bytes_below(encode_utf8(a), encode_utf8(b))
}

/// A name has a byte and not too many.
pub open spec fn is_valid_id(name: Seq<char>) -> bool {
    0 < encode_utf8(name).len() <= MAX_BOUNDARY_ID_BYTES
}

pub open spec fn all_valid_ids(names: Seq<Seq<char>>) -> bool {
    forall|i: int| 0 <= i < names.len() ==> is_valid_id(#[trigger] names[i])
}

/// Each name is below the next.
pub open spec fn is_strictly_sorted(names: Seq<Seq<char>>) -> bool {
    forall|i: int|
        0 <= i && i + 1 < names.len() ==> name_below(#[trigger] names[i], names[i + 1])
}

/// The fields of names.
pub open spec fn identities(names: Seq<Seq<char>>) -> Seq<int>
    decreases names.len(),
{
    if names.len() == 0 {
        Seq::empty()
    } else {
        identities(names.drop_last()) + identity(names.last())
    }
}

pub open spec fn role_tag(role: BoundaryRole) -> int {
    match role {
        BoundaryRole::Input => 1,
        BoundaryRole::Output => 2,
    }
}

impl Boundary {
    /// What is wrong with the descriptor, if anything is.
    pub open spec fn error(self) -> Option<BoundaryCommitmentError> {
        if self.element_count == 0 {
            Some(BoundaryCommitmentError::EmptyTensor)
        } else if self.element_count > MAX_BOUNDARY_ELEMENTS {
            Some(BoundaryCommitmentError::TooManyElements)
        } else if self.edge_ids.len() + self.graph_output_names.len() > MAX_BOUNDARY_IDENTITIES {
            Some(BoundaryCommitmentError::TooManyIdentities)
        } else if !is_valid_id(self.register_id) || !all_valid_ids(self.edge_ids)
            || !all_valid_ids(self.graph_output_names) {
            Some(BoundaryCommitmentError::InvalidIdentity)
        } else if !is_strictly_sorted(self.edge_ids) || !is_strictly_sorted(
            self.graph_output_names,
        ) {
            Some(BoundaryCommitmentError::NonCanonicalIdentities)
        } else {
            None
        }
    }

    /// The fields that are committed to before the tensor's values: the version, the role, the
    /// type, the kind of shape, the count, the scale, and the names, each list with its length.
    pub open spec fn canonical(self) -> Seq<int> {
        seq![
            BOUNDARY_COMMITMENT_SCHEMA_VERSION as int,
            role_tag(self.role),
            1,
            1,
            self.element_count as int,
            self.quantization_scale as int,
        ] + identity(self.register_id) + seq![self.edge_ids.len() as int] + identities(
            self.edge_ids,
        ) + seq![self.graph_output_names.len() as int] + identities(self.graph_output_names)
    }
}

impl View for BoundaryDescriptor {
    type V = Boundary;

    closed spec fn view(&self) -> Boundary {
        Boundary {
            role: self.role,
            register_id: self.register_id@,
            edge_ids: texts(self.edge_ids@),
            graph_output_names: texts(self.graph_output_names@),
            element_count: self.shape->element_count,
            quantization_scale: self.quantization_scale,
        }
    }
}

/// Whether one byte string is below another.
fn is_below(a: &[u8], b: &[u8]) -> (r: bool)
    ensures
        r == bytes_below(a@, b@),
{
    let mut i: usize = 0;
    assert(a@.skip(0) =~= a@ && b@.skip(0) =~= b@);
    while i < a.len() && i < b.len() && a[i] == b[i]
        invariant
            i <= a@.len(),
            i <= b@.len(),
            bytes_below(a@, b@) == bytes_below(a@.skip(i as int), b@.skip(i as int)),
        decreases a@.len() - i,
    {
        assert(a@.skip(i as int).skip(1) =~= a@.skip(i + 1));
        assert(b@.skip(i as int).skip(1) =~= b@.skip(i + 1));
        i += 1;
    }
    if i == b.len() {
        false
    } else if i == a.len() {
        true
    } else {
        a[i] < b[i]
    }
}

/// Whether a name has a byte and not too many.
pub fn valid_id(value: &str) -> (r: bool)
    ensures
        r == is_valid_id(value@),
{
    let bytes = value.as_bytes();
    bytes.len() > 0 && bytes.len() <= MAX_BOUNDARY_ID_BYTES
}

/// Whether all names are valid.
fn valid_ids(values: &Vec<String>) -> (r: bool)
    ensures
        r == all_valid_ids(texts(values@)),
{
    let mut i: usize = 0;
    while i < values.len()
        invariant
            i <= values@.len(),
            forall|j: int| 0 <= j < i ==> is_valid_id(#[trigger] texts(values@)[j]),
        decreases values@.len() - i,
    {
        assert(texts(values@)[i as int] == values@[i as int]@);
        if !valid_id(values[i].as_str()) {
            return false;
        }
        i += 1;
    }
    true
}

/// Whether each name is below the next.
pub fn strictly_sorted(values: &[String]) -> (r: bool)
    ensures
        r == is_strictly_sorted(texts(values@)),
{
    let mut i: usize = 1;
    while i < values.len()
        invariant
            1 <= i,
            i <= values@.len() || i == 1,
            forall|j: int|
                0 <= j && j + 1 < i ==> name_below(
                    #[trigger] texts(values@)[j],
                    texts(values@)[j + 1],
                ),
        decreases values@.len() - i,
    {
        assert(texts(values@)[i - 1] == values@[i - 1]@);
        assert(texts(values@)[i as int] == values@[i as int]@);
        if !is_below(values[i - 1].as_str().as_bytes(), values[i].as_str().as_bytes()) {
            return false;
        }
        i += 1;
    }
    true
}

/// A copy of strings.
fn copied_strings(values: &Vec<String>) -> (r: Vec<String>)
    ensures
        texts(r@) == texts(values@),
{
    let mut r: Vec<String> = Vec::new();
    let mut i: usize = 0;
    while i < values.len()
        invariant
            i <= values@.len(),
            r@.len() == i,
            forall|j: int| 0 <= j < i ==> (#[trigger] r@[j])@ == values@[j]@,
        decreases values@.len() - i,
    {
        r.push(values[i].clone());
        i += 1;
    }
    assert(texts(r@) =~= texts(values@));
    r
}

/// Appends the fields of names.
fn push_identities(fields: &mut Vec<Fr>, values: &Vec<String>)
    ensures
        values_of(final(fields)@) == values_of(old(fields)@) + identities(texts(values@)),
{
    let ghost before = values_of(fields@);
    let ghost names = texts(values@);
    let mut i: usize = 0;
    assert(names.take(0) =~= Seq::empty());
    assert(before + identities(names.take(0)) =~= before);
    while i < values.len()
        invariant
            i <= values@.len(),
            names == texts(values@),
            values_of(fields@) == before + identities(names.take(i as int)),
        decreases values@.len() - i,
    {
        let ghost prev = fields@;
        let pair = identity_fields(values[i].as_str());
        fields.push(pair[0]);
        fields.push(pair[1]);
        proof {
            let next = names.take(i + 1);
            assert(next.drop_last() =~= names.take(i as int));
            assert(next.last() == values@[i as int]@);
            assert(values_of(pair@)[0] == pair@[0]@ && values_of(pair@)[1] == pair@[1]@);
            assert(values_of(fields@) =~= values_of(prev) + values_of(pair@));
            assert(before + (identities(names.take(i as int)) + identity(next.last())) =~= (before
                + identities(names.take(i as int))) + identity(next.last()));
        }
        i += 1;
    }
    assert(names.take(i as int) =~= names);
}

impl Clone for BoundaryDescriptor {
    fn clone(&self) -> (r: Self)
        ensures
            r@ == self@,
    {
        BoundaryDescriptor {
            role: self.role,
            register_id: self.register_id.clone(),
            edge_ids: copied_strings(&self.edge_ids),
            graph_output_names: copied_strings(&self.graph_output_names),
            dtype: self.dtype,
            shape: self.shape,
            quantization_scale: self.quantization_scale,
        }
    }
}

impl BoundaryDescriptor {
    /// The descriptor of a tensor of fixed-point numbers, unless something is wrong with it.
    pub fn flat_i18(
        role: BoundaryRole,
        register_id: &str,
        edge_ids: Vec<String>,
        graph_output_names: Vec<String>,
        element_count: usize,
        quantization_scale: u64,
    ) -> (res: Result<Self, BoundaryCommitmentError>)
        ensures
            ({
                let b = Boundary {
                    role,
                    register_id: register_id@,
                    edge_ids: texts(edge_ids@),
                    graph_output_names: texts(graph_output_names@),
                    element_count,
                    quantization_scale,
                };
                match res {
                    Ok(d) => b.error() is None && d@ == b,
                    Err(e) => b.error() == Some(e),
                }
            }),
    {
        let descriptor = BoundaryDescriptor {
            role,
            register_id: String::from_str(register_id),
            edge_ids,
            graph_output_names,
            dtype: BoundaryDType::I18,
            shape: BoundaryShape::FlatElementCountOnly { element_count },
            quantization_scale,
        };
        match descriptor.validate() {
            Ok(()) => Ok(descriptor),
            Err(e) => Err(e),
        }
    }

    pub fn role(&self) -> (r: BoundaryRole)
        ensures
            r == self@.role,
    {
        self.role
    }

    pub fn register_id(&self) -> (r: &str)
        ensures
            r@ == self@.register_id,
    {
        self.register_id.as_str()
    }

    pub fn edge_ids(&self) -> (r: &[String])
        ensures
            texts(r@) == self@.edge_ids,
    {
        self.edge_ids.as_slice()
    }

    pub fn graph_output_names(&self) -> (r: &[String])
        ensures
            texts(r@) == self@.graph_output_names,
    {
        self.graph_output_names.as_slice()
    }

    pub fn dtype(&self) -> (r: BoundaryDType)
        ensures
            r == BoundaryDType::I18,
    {
        self.dtype
    }

    pub fn shape(&self) -> (r: BoundaryShape)
        ensures
            r == (BoundaryShape::FlatElementCountOnly { element_count: self@.element_count }),
    {
        self.shape
    }

    pub fn element_count(&self) -> (r: usize)
        ensures
            r == self@.element_count,
    {
        match self.shape {
            BoundaryShape::FlatElementCountOnly { element_count } => element_count,
        }
    }

    pub fn quantization_scale(&self) -> (r: u64)
        ensures
            r == self@.quantization_scale,
    {
        self.quantization_scale
    }

    /// Whether the descriptor is well formed.
    pub fn validate(&self) -> (res: Result<(), BoundaryCommitmentError>)
        ensures
            match res {
                Ok(()) => self@.error() is None,
                Err(e) => self@.error() == Some(e),
            },
    {
        let count: usize = self.element_count();
        if count == 0 {
            return Err(BoundaryCommitmentError::EmptyTensor);
        }
        if count > MAX_BOUNDARY_ELEMENTS {
            return Err(BoundaryCommitmentError::TooManyElements);
        }
        let edges: usize = self.edge_ids.len();
        let names: usize = self.graph_output_names.len();
        if edges > MAX_BOUNDARY_IDENTITIES || names > MAX_BOUNDARY_IDENTITIES - edges {
            return Err(BoundaryCommitmentError::TooManyIdentities);
        }
        if !valid_id(self.register_id.as_str()) || !valid_ids(&self.edge_ids) || !valid_ids(
            &self.graph_output_names,
        ) {
            return Err(BoundaryCommitmentError::InvalidIdentity);
        }
        if !strictly_sorted(self.edge_ids.as_slice()) || !strictly_sorted(
            self.graph_output_names.as_slice(),
        ) {
            return Err(BoundaryCommitmentError::NonCanonicalIdentities);
        }
        Ok(())
    }

    /// The fields that are committed to before the tensor's values.
    pub fn canonical_fields(&self) -> (r: Vec<Fr>)
        ensures
            values_of(r@) == self@.canonical(),
    {
        let mut fields: Vec<Fr> = Vec::new();
        fields.push(Fr::from_u64(BOUNDARY_COMMITMENT_SCHEMA_VERSION as u64));
        let role: u64 = match self.role {
            BoundaryRole::Input => 1,
            BoundaryRole::Output => 2,
        };
        fields.push(Fr::from_u64(role));
        fields.push(Fr::from_u64(1));
        fields.push(Fr::from_u64(1));
        fields.push(Fr::from_u64(self.element_count() as u64));
        fields.push(Fr::from_u64(self.quantization_scale));
        let pair = identity_fields(self.register_id.as_str());
        fields.push(pair[0]);
        fields.push(pair[1]);
        fields.push(Fr::from_u64(self.edge_ids.len() as u64));
        proof {
            assert(values_of(pair@)[0] == pair@[0]@ && values_of(pair@)[1] == pair@[1]@);
            assert(values_of(fields@) =~= seq![
                BOUNDARY_COMMITMENT_SCHEMA_VERSION as int,
                role_tag(self@.role),
                1,
                1,
                self@.element_count as int,
                self@.quantization_scale as int,
            ] + identity(self@.register_id) + seq![self@.edge_ids.len() as int]);
        }
        push_identities(&mut fields, &self.edge_ids);
        let ghost mid = fields@;
        fields.push(Fr::from_u64(self.graph_output_names.len() as u64));
        assert(values_of(fields@) =~= values_of(mid) + seq![
            self@.graph_output_names.len() as int,
        ]);
        push_identities(&mut fields, &self.graph_output_names);
        fields
    }
}

} // verus!
