//! What a circuit's shape depends on, and its digest.
use vstd::prelude::*;
use vstd::string::*;
use vstd::utf8::encode_utf8;

use crate::assembler::config::{key_below, sorted_keys};
use crate::assembler::semantics::{
    copied_instructions, lengths, steps_of, AssemblerInstruction, AssemblerProgram, Step,
};
use crate::chips::layer_norm::{Domain, RsqrtDomain};
use crate::chips::poseidon_boundary::descriptor::{Boundary, BoundaryDescriptor};
use crate::chips::poseidon_boundary::identity::{blake3_digest, blake3_hash};
use crate::encode::{le_bytes, push_all, push_le};
use crate::fixed_point::I18;
use crate::program_circuit::encoding::{
    concat, descriptor_bytes, domain_bytes, encode_boundary_descriptor, encode_domain,
    encode_i64s, encode_instruction, encode_usize, encode_usizes, i64_bytes, lemma_concat_push,
    list_bytes, step_bytes, usize_bytes, usizes_bytes,
};

verus! {

/// The domain of the normalizations of a dimension and an epsilon.
#[derive(Debug)]
pub struct DomainEntry {
    pub dim: usize,
    pub epsilon_milli: u64,
    pub domain: RsqrtDomain,
}

/// Domains of reciprocal square roots by dimension and epsilon, in order.
#[derive(Debug)]
pub struct RmsNormDomains {
    entries: Vec<DomainEntry>,
}

pub open spec fn entry_key(e: DomainEntry) -> (usize, u64) {
    (e.dim, e.epsilon_milli)
}

pub open spec fn entry_keys(entries: Seq<((usize, u64), Domain)>) -> Seq<(usize, u64)> {
    Seq::new(entries.len(), |i: int| entries[i].0)
}

/// The domain at a key.
pub open spec fn domain_at(entries: Seq<((usize, u64), Domain)>, key: (usize, u64)) -> Option<Domain>
    decreases entries.len(),
{
    if entries.len() == 0 {
        None
    } else if entries.last().0 == key {
        Some(entries.last().1)
    } else {
        domain_at(entries.drop_last(), key)
    }
}

impl View for RmsNormDomains {
    type V = Seq<((usize, u64), Domain)>;

    closed spec fn view(&self) -> Seq<((usize, u64), Domain)> {
        Seq::new(
            self.entries@.len(),
            |i: int| (entry_key(self.entries@[i]), self.entries@[i].domain@),
        )
    }
}

/// A key that no entry has has no domain, and one that an entry has has that entry's.
pub proof fn lemma_domain_at(entries: Seq<((usize, u64), Domain)>, key: (usize, u64))
    requires
        sorted_keys(entry_keys(entries)),
    ensures
        forall|i: int|
            0 <= i < entries.len() && (#[trigger] entries[i]).0 == key ==> domain_at(entries, key)
                == Some(entries[i].1),
        (forall|i: int| 0 <= i < entries.len() ==> (#[trigger] entries[i]).0 != key)
            <==> domain_at(entries, key) is None,
    decreases entries.len(),
{
    if entries.len() > 0 {
        let rest = entries.drop_last();
        let keys = entry_keys(entries);
        assert(sorted_keys(entry_keys(rest))) by {
            assert forall|i: int, j: int| 0 <= i < j < rest.len() implies key_below(
                entry_keys(rest)[i],
                entry_keys(rest)[j],
            ) by {
                assert(key_below(keys[i], keys[j]));
            }
        }
        lemma_domain_at(rest, key);
        let n = entries.len() - 1;
        assert forall|i: int| 0 <= i < entries.len() && (#[trigger] entries[i]).0
            == key implies domain_at(entries, key) == Some(entries[i].1) by {
            if i < n {
                assert(rest[i] == entries[i]);
                assert(key_below(keys[i], keys[n]));
            }
        }
        if domain_at(entries, key) is None {
            assert forall|i: int| 0 <= i < entries.len() implies (#[trigger] entries[i]).0
                != key by {
                if i < n {
                    assert(rest[i] == entries[i]);
                }
            }
        }
        if forall|i: int| 0 <= i < entries.len() ==> (#[trigger] entries[i]).0 != key {
            assert(entries[n].0 != key);
            assert forall|i: int| 0 <= i < rest.len() implies (#[trigger] rest[i]).0 != key by {
                assert(rest[i] == entries[i]);
            }
        }
    }
}

/// The entries of a domain map are determined by what it holds: the order in which domains
/// were inserted leaves no trace.
pub proof fn lemma_domains_unique(
    xs: Seq<((usize, u64), Domain)>,
    ys: Seq<((usize, u64), Domain)>,
)
    requires
        sorted_keys(entry_keys(xs)),
        sorted_keys(entry_keys(ys)),
        forall|key: (usize, u64)| #[trigger] domain_at(xs, key) == domain_at(ys, key),
    ensures
        xs == ys,
    decreases xs.len() + ys.len(),
{
    if xs.len() == 0 && ys.len() == 0 {
        assert(xs =~= ys);
    } else if xs.len() == 0 {
        assert(domain_at(xs, ys.last().0) == domain_at(ys, ys.last().0));
    } else if ys.len() == 0 {
        assert(domain_at(xs, xs.last().0) == domain_at(ys, xs.last().0));
    } else {
        let (kx, ky) = (entry_keys(xs), entry_keys(ys));
        let (m, n) = (xs.len() - 1, ys.len() - 1);
        let (x, y) = (xs[m].0, ys[n].0);
        lemma_domain_at(ys, x);
        lemma_domain_at(xs, y);
        assert(x == y) by {
            let j = choose|j: int| 0 <= j < ys.len() && (#[trigger] ys[j]).0 == x;
            let i = choose|i: int| 0 <= i < xs.len() && (#[trigger] xs[i]).0 == y;
            if j < n && i < m {
                assert(key_below(ky[j], ky[n]));
                assert(key_below(kx[i], kx[m]));
            }
        }
        assert(domain_at(xs, x) == domain_at(ys, x));
        assert(xs.last() == ys.last());
        let (rx, ry) = (xs.drop_last(), ys.drop_last());
        assert(sorted_keys(entry_keys(rx))) by {
            assert forall|i: int, j: int| 0 <= i < j < rx.len() implies key_below(
                entry_keys(rx)[i],
                entry_keys(rx)[j],
            ) by {
                assert(key_below(kx[i], kx[j]));
            }
        }
        assert(sorted_keys(entry_keys(ry))) by {
            assert forall|i: int, j: int| 0 <= i < j < ry.len() implies key_below(
                entry_keys(ry)[i],
                entry_keys(ry)[j],
            ) by {
                assert(key_below(ky[i], ky[j]));
            }
        }
        assert forall|key: (usize, u64)| #[trigger]
            domain_at(rx, key) == domain_at(ry, key) by {
            assert(domain_at(xs, key) == domain_at(ys, key));
            if key == x {
                lemma_domain_at(rx, key);
                lemma_domain_at(ry, key);
                assert forall|i: int| 0 <= i < rx.len() implies (#[trigger] rx[i]).0 != key by {
                    assert(key_below(kx[i], kx[m]));
                }
                assert forall|i: int| 0 <= i < ry.len() implies (#[trigger] ry[i]).0 != key by {
                    assert(key_below(ky[i], ky[n]));
                }
            }
        }
        lemma_domains_unique(rx, ry);
        assert(xs =~= rx.push(xs.last()));
        assert(ys =~= ry.push(ys.last()));
    }
}

impl Default for RmsNormDomains {
    fn default() -> (r: Self)
        ensures
            r.wf(),
            r@.len() == 0,
    {
        RmsNormDomains::new()
    }
}

impl RmsNormDomains {
    pub open spec fn wf(self) -> bool {
        sorted_keys(entry_keys(self@))
    }

    pub fn new() -> (r: Self)
        ensures
            r.wf(),
            r@.len() == 0,
    {
        RmsNormDomains { entries: Vec::new() }
    }

    /// The entries, by increasing dimension and epsilon.
    pub fn entries(&self) -> (r: &Vec<DomainEntry>)
        ensures
            r@.len() == self@.len(),
            forall|i: int|
                0 <= i < r@.len() ==> #[trigger] self@[i] == (entry_key(r@[i]), r@[i].domain@),
    {
        &self.entries
    }

    /// Sets the domain at a key.
    pub fn insert(&mut self, dim: usize, epsilon_milli: u64, domain: RsqrtDomain)
        requires
            old(self).wf(),
        ensures
            final(self).wf(),
            forall|k: (usize, u64)| #[trigger]
                domain_at(final(self)@, k) == if k == (dim, epsilon_milli) {
                    Some(domain@)
                } else {
                    domain_at(old(self)@, k)
                },
    {
        let ghost before = self@;
        let ghost keys = entry_keys(before);
        let ghost key = (dim, epsilon_milli);
        let mut i: usize = 0;
        while i < self.entries.len() && (self.entries[i].dim < dim || (self.entries[i].dim == dim
            && self.entries[i].epsilon_milli < epsilon_milli))
            invariant
                i <= self.entries@.len(),
                before == self@,
                before.len() == self.entries@.len(),
                keys == entry_keys(before),
                key == (dim, epsilon_milli),
                forall|j: int| 0 <= j < i ==> key_below(#[trigger] keys[j], key),
            decreases self.entries@.len() - i,
        {
            assert(keys[i as int] == entry_key(self.entries@[i as int]));
            i += 1;
        }
        let found = i < self.entries.len() && self.entries[i].dim == dim
            && self.entries[i].epsilon_milli == epsilon_milli;
        assert(i < before.len() ==> keys[i as int] == entry_key(self.entries@[i as int]));
        if found {
            self.entries.remove(i);
        }
        let ghost rest = self@;
        self.entries.insert(i, DomainEntry { dim, epsilon_milli, domain });
        proof {
            let n = i as int;
            let after = self@;
            let gap = if found {
                1int
            } else {
                0
            };
            assert(after[n] == (key, domain@));
            assert forall|j: int| 0 <= j < n implies #[trigger] after[j] == before[j] by {}
            assert forall|j: int| n < j < after.len() implies #[trigger] after[j] == before[j - 1
                + gap] by {}
            assert forall|a: int, b: int| 0 <= a < b < after.len() implies key_below(
                entry_keys(after)[a],
                entry_keys(after)[b],
            ) by {
                let (ka, kb) = (entry_keys(after)[a], entry_keys(after)[b]);
                assert(ka == after[a].0 && kb == after[b].0);
                assert(a < n ==> ka == keys[a]);
                assert(a > n ==> ka == keys[a - 1 + gap]);
                assert(b < n ==> kb == keys[b]);
                assert(b > n ==> kb == keys[b - 1 + gap]);
                if a < n {
                    assert(key_below(keys[a], key));
                    if b != n {
                        let at = if b < n {
                            b
                        } else {
                            b - 1 + gap
                        };
                        assert(key_below(keys[a], keys[at]));
                    }
                } else {
                    assert(b > n);
                    if found {
                        assert(keys[n] == key);
                        if a == n {
                            assert(key_below(keys[n], keys[b]));
                        } else {
                            assert(key_below(keys[a], keys[b]));
                        }
                    } else {
                        assert(key_below(key, keys[n]));
                        if a == n {
                            if b - 1 > n {
                                assert(key_below(keys[n], keys[b - 1]));
                            }
                        } else {
                            assert(key_below(keys[a - 1], keys[b - 1]));
                        }
                    }
                }
            }
            assert forall|k: (usize, u64)| #[trigger]
                domain_at(after, k) == if k == key {
                    Some(domain@)
                } else {
                    domain_at(before, k)
                } by {
                lemma_domain_at(after, k);
                lemma_domain_at(before, k);
                if k == key {
                    assert(after[n].0 == key);
                } else if domain_at(before, k) is Some {
                    let j = choose|j: int|
                        0 <= j < before.len() && (#[trigger] before[j]).0 == k;
                    if j < n {
                        assert(after[j] == before[j]);
                    } else {
                        assert(found ==> keys[n] == key);
                        assert(found ==> before[n].0 == key);
                        assert(after[j + 1 - gap] == before[j]);
                    }
                } else {
                    assert forall|j: int| 0 <= j < after.len() implies (#[trigger] after[j]).0
                        != k by {
                        if j < n {
                            assert(before[j].0 != k);
                        } else if j > n {
                            assert(before[j - 1 + gap].0 != k);
                        }
                    }
                }
            }
        }
    }

    /// The domain at a key.
    pub fn get(&self, dim: usize, epsilon_milli: u64) -> (r: Option<&RsqrtDomain>)
        requires
            self.wf(),
        ensures
            match r {
                Some(d) => domain_at(self@, (dim, epsilon_milli)) == Some(d@),
                None => domain_at(self@, (dim, epsilon_milli)) is None,
            },
    {
        proof {
            lemma_domain_at(self@, (dim, epsilon_milli));
        }
        let mut i: usize = 0;
        while i < self.entries.len()
            invariant
                i <= self.entries@.len(),
                self@.len() == self.entries@.len(),
                forall|j: int|
                    0 <= j < self@.len() && (#[trigger] self@[j]).0 == (dim, epsilon_milli)
                        ==> domain_at(self@, (dim, epsilon_milli)) == Some(self@[j].1),
                forall|j: int| 0 <= j < i ==> (#[trigger] self@[j]).0 != (dim, epsilon_milli),
            decreases self.entries@.len() - i,
        {
            assert(self@[i as int].0 == entry_key(self.entries@[i as int]));
            if self.entries[i].dim == dim && self.entries[i].epsilon_milli == epsilon_milli {
                return Some(&self.entries[i].domain);
            }
            i += 1;
        }
        None
    }
}

impl Clone for RmsNormDomains {
    fn clone(&self) -> (r: Self)
        ensures
            r@ == self@,
    {
        let mut entries: Vec<DomainEntry> = Vec::new();
        let mut i: usize = 0;
        while i < self.entries.len()
            invariant
                i <= self.entries@.len(),
                entries@.len() == i,
                forall|j: int|
                    0 <= j < i ==> entry_key(#[trigger] entries@[j]) == entry_key(self.entries@[j])
                        && entries@[j].domain@ == self.entries@[j].domain@,
            decreases self.entries@.len() - i,
        {
            let e = &self.entries[i];
            entries.push(
                DomainEntry {
                    dim: e.dim,
                    epsilon_milli: e.epsilon_milli,
                    domain: e.domain.clone(),
                },
            );
            i += 1;
        }
        let r = RmsNormDomains { entries };
        assert(r@ =~= self@);
        r
    }
}

/// What the configuration and the layout of a circuit depend on, other than witness values.
#[verifier::ext_equal]
pub struct CircuitShape {
    pub steps: Seq<Step>,
    pub domains: Seq<((usize, u64), Domain)>,
    pub input_shapes: Seq<usize>,
    pub weight_shapes: Seq<usize>,
    pub public_outputs: Seq<usize>,
    pub boundary_inputs: Seq<Boundary>,
    pub boundary_outputs: Seq<(usize, Boundary)>,
    pub leaf_prefix_len: usize,
    pub fixed_public_weights: Seq<Seq<i64>>,
}

/// What the configuration and the layout of a circuit depend on, other than witness values.
#[derive(Debug)]
pub struct AssemblerCircuitParams {
    pub instructions: Vec<AssemblerInstruction>,
    pub rms_norm_domains: RmsNormDomains,
    pub input_shapes: Vec<usize>,
    pub weight_shapes: Vec<usize>,
    pub public_output_indices: Vec<usize>,
    pub boundary_inputs: Vec<BoundaryDescriptor>,
    pub boundary_outputs: Vec<(usize, BoundaryDescriptor)>,
    pub leaf_prefix_len: usize,
    pub fixed_public_weights: Vec<Vec<i64>>,
}

pub open spec fn boundaries(s: Seq<BoundaryDescriptor>) -> Seq<Boundary> {
    Seq::new(s.len(), |i: int| s[i]@)
}

pub open spec fn indexed_boundaries(s: Seq<(usize, BoundaryDescriptor)>) -> Seq<(usize, Boundary)> {
    Seq::new(s.len(), |i: int| (s[i].0, s[i].1@))
}

pub open spec fn weight_rows(s: Seq<Vec<i64>>) -> Seq<Seq<i64>> {
    Seq::new(s.len(), |i: int| s[i]@)
}

impl View for AssemblerCircuitParams {
    type V = CircuitShape;

    open spec fn view(&self) -> CircuitShape {
        CircuitShape {
            steps: steps_of(self.instructions@),
            domains: self.rms_norm_domains@,
            input_shapes: self.input_shapes@,
            weight_shapes: self.weight_shapes@,
            public_outputs: self.public_output_indices@,
            boundary_inputs: boundaries(self.boundary_inputs@),
            boundary_outputs: indexed_boundaries(self.boundary_outputs@),
            leaf_prefix_len: self.leaf_prefix_len,
            fixed_public_weights: weight_rows(self.fixed_public_weights@),
        }
    }
}

pub open spec fn shape_tag() -> Seq<u8> {
    encode_utf8("zkie.assembler-circuit-shape.v3\0"@)
}

/// Which public values the circuit has.
pub open spec fn layout_tag(bounded: bool) -> Seq<u8> {
    if bounded {
        encode_utf8("public-instances-v2:leaf,input-commitments,output-commitments,weights\0"@)
    } else {
        encode_utf8("public-instances-v1:inputs,weights,selected-outputs\0"@)
    }
}

pub open spec fn output_bytes(o: (usize, Boundary)) -> Seq<u8> {
    usize_bytes(o.0 as int) + descriptor_bytes(o.1)
}

pub open spec fn weights_bytes(w: Seq<i64>) -> Seq<u8> {
    list_bytes(|v: i64| i64_bytes(v), w)
}

pub open spec fn entry_bytes(e: ((usize, u64), Domain)) -> Seq<u8> {
    usize_bytes(e.0.0 as int) + le_bytes(e.0.1 as int, 8) + domain_bytes(e.1)
}

impl CircuitShape {
    /// The circuit commits to boundaries.
    pub open spec fn bounded(self) -> bool {
        self.boundary_inputs.len() > 0 || self.boundary_outputs.len() > 0
    }

    /// The shape in bytes: a version, the kind of layout, and every part after its length.
    pub open spec fn bytes(self) -> Seq<u8> {
        shape_tag() + layout_tag(self.bounded()) + usizes_bytes(self.input_shapes) + usizes_bytes(
            self.weight_shapes,
        ) + usizes_bytes(self.public_outputs) + usize_bytes(self.leaf_prefix_len as int)
            + list_bytes(|b: Boundary| descriptor_bytes(b), self.boundary_inputs) + list_bytes(
            |o: (usize, Boundary)| output_bytes(o),
            self.boundary_outputs,
        ) + list_bytes(|w: Seq<i64>| weights_bytes(w), self.fixed_public_weights) + list_bytes(
            |s: Step| step_bytes(s),
            self.steps,
        ) + list_bytes(|e: ((usize, u64), Domain)| entry_bytes(e), self.domains)
    }
}

/// Appends descriptors, after their count.
fn encode_descriptors(bytes: &mut Vec<u8>, values: &Vec<BoundaryDescriptor>)
    ensures
        final(bytes)@ == old(bytes)@ + list_bytes(
            |b: Boundary| descriptor_bytes(b),
            boundaries(values@),
        ),
{
    let ghost before = bytes@;
    let ghost f = |b: Boundary| descriptor_bytes(b);
    let ghost head = usize_bytes(values@.len() as int);
    let ghost xs = boundaries(values@);
    encode_usize(bytes, values.len());
    let mut i: usize = 0;
    assert(before + head + concat(f, xs.take(0)) =~= bytes@);
    while i < values.len()
        invariant
            i <= values@.len(),
            f == (|b: Boundary| descriptor_bytes(b)),
            xs == boundaries(values@),
            bytes@ == before + head + concat(f, xs.take(i as int)),
        decreases values@.len() - i,
    {
        encode_boundary_descriptor(bytes, &values[i]);
        proof {
            lemma_concat_push(f, xs, i as int);
            assert(before + head + concat(f, xs.take(i as int)) + f(xs[i as int]) =~= before + head
                + (concat(f, xs.take(i as int)) + f(xs[i as int])));
        }
        i += 1;
    }
    proof {
        assert(xs.take(i as int) =~= xs);
        assert(before + head + concat(f, xs) =~= before + (head + concat(f, xs)));
    }
}

/// Appends descriptors with their indices, after their count.
fn encode_outputs(bytes: &mut Vec<u8>, values: &Vec<(usize, BoundaryDescriptor)>)
    ensures
        final(bytes)@ == old(bytes)@ + list_bytes(
            |o: (usize, Boundary)| output_bytes(o),
            indexed_boundaries(values@),
        ),
{
    let ghost before = bytes@;
    let ghost f = |o: (usize, Boundary)| output_bytes(o);
    let ghost head = usize_bytes(values@.len() as int);
    let ghost xs = indexed_boundaries(values@);
    encode_usize(bytes, values.len());
    let mut i: usize = 0;
    assert(before + head + concat(f, xs.take(0)) =~= bytes@);
    while i < values.len()
        invariant
            i <= values@.len(),
            f == (|o: (usize, Boundary)| output_bytes(o)),
            xs == indexed_boundaries(values@),
            bytes@ == before + head + concat(f, xs.take(i as int)),
        decreases values@.len() - i,
    {
        let ghost prev = bytes@;
        encode_usize(bytes, values[i].0);
        encode_boundary_descriptor(bytes, &values[i].1);
        proof {
            lemma_concat_push(f, xs, i as int);
            assert(bytes@ =~= prev + f(xs[i as int]));
            assert(before + head + concat(f, xs.take(i as int)) + f(xs[i as int]) =~= before + head
                + (concat(f, xs.take(i as int)) + f(xs[i as int])));
        }
        i += 1;
    }
    proof {
        assert(xs.take(i as int) =~= xs);
        assert(before + head + concat(f, xs) =~= before + (head + concat(f, xs)));
    }
}

/// Appends rows of weights, after their count.
fn encode_weights(bytes: &mut Vec<u8>, values: &Vec<Vec<i64>>)
    ensures
        final(bytes)@ == old(bytes)@ + list_bytes(
            |w: Seq<i64>| weights_bytes(w),
            weight_rows(values@),
        ),
{
    let ghost before = bytes@;
    let ghost f = |w: Seq<i64>| weights_bytes(w);
    let ghost head = usize_bytes(values@.len() as int);
    let ghost xs = weight_rows(values@);
    encode_usize(bytes, values.len());
    let mut i: usize = 0;
    assert(before + head + concat(f, xs.take(0)) =~= bytes@);
    while i < values.len()
        invariant
            i <= values@.len(),
            f == (|w: Seq<i64>| weights_bytes(w)),
            xs == weight_rows(values@),
            bytes@ == before + head + concat(f, xs.take(i as int)),
        decreases values@.len() - i,
    {
        encode_i64s(bytes, &values[i]);
        proof {
            lemma_concat_push(f, xs, i as int);
            assert(before + head + concat(f, xs.take(i as int)) + f(xs[i as int]) =~= before + head
                + (concat(f, xs.take(i as int)) + f(xs[i as int])));
        }
        i += 1;
    }
    proof {
        assert(xs.take(i as int) =~= xs);
        assert(before + head + concat(f, xs) =~= before + (head + concat(f, xs)));
    }
}

/// Appends instructions, after their count.
fn encode_instructions(bytes: &mut Vec<u8>, values: &Vec<AssemblerInstruction>)
    ensures
        final(bytes)@ == old(bytes)@ + list_bytes(|s: Step| step_bytes(s), steps_of(values@)),
{
    let ghost before = bytes@;
    let ghost f = |s: Step| step_bytes(s);
    let ghost head = usize_bytes(values@.len() as int);
    let ghost xs = steps_of(values@);
    encode_usize(bytes, values.len());
    let mut i: usize = 0;
    assert(before + head + concat(f, xs.take(0)) =~= bytes@);
    while i < values.len()
        invariant
            i <= values@.len(),
            f == (|s: Step| step_bytes(s)),
            xs == steps_of(values@),
            bytes@ == before + head + concat(f, xs.take(i as int)),
        decreases values@.len() - i,
    {
        encode_instruction(bytes, &values[i]);
        proof {
            lemma_concat_push(f, xs, i as int);
            assert(before + head + concat(f, xs.take(i as int)) + f(xs[i as int]) =~= before + head
                + (concat(f, xs.take(i as int)) + f(xs[i as int])));
        }
        i += 1;
    }
    proof {
        assert(xs.take(i as int) =~= xs);
        assert(before + head + concat(f, xs) =~= before + (head + concat(f, xs)));
    }
}

/// Appends domains with their keys, after their count.
fn encode_domains(bytes: &mut Vec<u8>, domains: &RmsNormDomains)
    ensures
        final(bytes)@ == old(bytes)@ + list_bytes(
            |e: ((usize, u64), Domain)| entry_bytes(e),
            domains@,
        ),
{
    let ghost before = bytes@;
    let ghost f = |e: ((usize, u64), Domain)| entry_bytes(e);
    let ghost xs = domains@;
    let ghost head = usize_bytes(xs.len() as int);
    encode_usize(bytes, domains.entries.len());
    let mut i: usize = 0;
    assert(before + head + concat(f, xs.take(0)) =~= bytes@);
    while i < domains.entries.len()
        invariant
            i <= xs.len(),
            xs.len() == domains.entries@.len(),
            f == (|e: ((usize, u64), Domain)| entry_bytes(e)),
            xs == domains@,
            bytes@ == before + head + concat(f, xs.take(i as int)),
        decreases xs.len() - i,
    {
        let ghost prev = bytes@;
        let e = &domains.entries[i];
        encode_usize(bytes, e.dim);
        push_le(bytes, e.epsilon_milli, 8);
        encode_domain(bytes, &e.domain);
        proof {
            lemma_concat_push(f, xs, i as int);
            assert(xs[i as int] == (entry_key(*e), e.domain@));
            assert(bytes@ =~= prev + f(xs[i as int]));
            assert(before + head + concat(f, xs.take(i as int)) + f(xs[i as int]) =~= before + head
                + (concat(f, xs.take(i as int)) + f(xs[i as int])));
        }
        i += 1;
    }
    proof {
        assert(xs.take(i as int) =~= xs);
        assert(before + head + concat(f, xs) =~= before + (head + concat(f, xs)));
    }
}

/// The lengths of tensors.
fn tensor_lengths(tensors: &Vec<Vec<I18>>) -> (r: Vec<usize>)
    ensures
        r@ == lengths(tensors@),
{
    let mut r: Vec<usize> = Vec::new();
    let mut i: usize = 0;
    while i < tensors.len()
        invariant
            i <= tensors@.len(),
            r@ == lengths(tensors@).take(i as int),
        decreases tensors@.len() - i,
    {
        r.push(tensors[i].len());
        assert(lengths(tensors@).take(i + 1) =~= lengths(tensors@).take(i as int).push(
            lengths(tensors@)[i as int],
        ));
        i += 1;
    }
    assert(lengths(tensors@).take(i as int) =~= lengths(tensors@));
    r
}

/// The shape of a program's circuit without boundaries.
pub open spec fn program_shape(
    program: AssemblerProgram,
    domains: Seq<((usize, u64), Domain)>,
    public_outputs: Seq<usize>,
) -> CircuitShape {
    CircuitShape {
        steps: steps_of(program.instructions@),
        domains,
        input_shapes: lengths(program.input_values@),
        weight_shapes: lengths(program.weight_values@),
        public_outputs,
        boundary_inputs: Seq::empty(),
        boundary_outputs: Seq::empty(),
        leaf_prefix_len: 0,
        fixed_public_weights: Seq::empty(),
    }
}

impl AssemblerCircuitParams {
    /// The parameters for a program without boundaries.
    pub(crate) fn from_program(
        program: &AssemblerProgram,
        rms_norm_domains: RmsNormDomains,
        public_output_indices: Vec<usize>,
    ) -> (r: Self)
        ensures
            r@ == program_shape(*program, rms_norm_domains@, public_output_indices@),
    {
        let r = AssemblerCircuitParams {
            instructions: copied_instructions(&program.instructions),
            rms_norm_domains,
            input_shapes: tensor_lengths(&program.input_values),
            weight_shapes: tensor_lengths(&program.weight_values),
            public_output_indices,
            boundary_inputs: Vec::new(),
            boundary_outputs: Vec::new(),
            leaf_prefix_len: 0,
            fixed_public_weights: Vec::new(),
        };
        assert(r@ =~= program_shape(*program, rms_norm_domains@, public_output_indices@));
        r
    }

    /// The shape in bytes.
    pub fn canonical_shape_bytes(&self) -> (r: Vec<u8>)
        ensures
            r@ == self@.bytes(),
    {
        let mut bytes: Vec<u8> = Vec::new();
        push_all(&mut bytes, "zkie.assembler-circuit-shape.v3\0".as_bytes());
        if self.boundary_inputs.len() == 0 && self.boundary_outputs.len() == 0 {
            push_all(
                &mut bytes,
                "public-instances-v1:inputs,weights,selected-outputs\0".as_bytes(),
            );
        } else {
            push_all(
                &mut bytes,
                "public-instances-v2:leaf,input-commitments,output-commitments,weights\0".as_bytes(),
            );
        }
        encode_usizes(&mut bytes, self.input_shapes.as_slice());
        encode_usizes(&mut bytes, self.weight_shapes.as_slice());
        encode_usizes(&mut bytes, self.public_output_indices.as_slice());
        encode_usize(&mut bytes, self.leaf_prefix_len);
        encode_descriptors(&mut bytes, &self.boundary_inputs);
        encode_outputs(&mut bytes, &self.boundary_outputs);
        encode_weights(&mut bytes, &self.fixed_public_weights);
        encode_instructions(&mut bytes, &self.instructions);
        encode_domains(&mut bytes, &self.rms_norm_domains);
        assert(bytes@ =~= self@.bytes());
        bytes
    }

    /// The digest of the shape. It identifies a shape and commits to no witness.
    pub fn shape_digest(&self) -> (r: [u8; 32])
        ensures
            r@ == blake3_digest(self@.bytes()),
    {
        blake3_hash(&self.canonical_shape_bytes())
    }
}

/// A copy of sizes.
fn copied_usizes(values: &Vec<usize>) -> (r: Vec<usize>)
    ensures
        r@ == values@,
{
    let mut r: Vec<usize> = Vec::new();
    let mut i: usize = 0;
    while i < values.len()
        invariant
            i <= values@.len(),
            r@ == values@.take(i as int),
        decreases values@.len() - i,
    {
        r.push(values[i]);
        assert(values@.take(i + 1) =~= values@.take(i as int).push(values@[i as int]));
        i += 1;
    }
    assert(values@.take(i as int) =~= values@);
    r
}

/// A copy of rows of weights.
fn copied_weights(values: &Vec<Vec<i64>>) -> (r: Vec<Vec<i64>>)
    ensures
        weight_rows(r@) == weight_rows(values@),
{
    let mut r: Vec<Vec<i64>> = Vec::new();
    let mut i: usize = 0;
    while i < values.len()
        invariant
            i <= values@.len(),
            r@.len() == i,
            forall|j: int| 0 <= j < i ==> (#[trigger] r@[j])@ == values@[j]@,
        decreases values@.len() - i,
    {
        let row = &values[i];
        let mut copy: Vec<i64> = Vec::new();
        let mut j: usize = 0;
        while j < row.len()
            invariant
                j <= row@.len(),
                copy@ == row@.take(j as int),
            decreases row@.len() - j,
        {
            copy.push(row[j]);
            assert(row@.take(j + 1) =~= row@.take(j as int).push(row@[j as int]));
            j += 1;
        }
        assert(row@.take(j as int) =~= row@);
        r.push(copy);
        i += 1;
    }
    assert(weight_rows(r@) =~= weight_rows(values@));
    r
}

/// A copy of descriptors.
fn copied_descriptors(values: &Vec<BoundaryDescriptor>) -> (r: Vec<BoundaryDescriptor>)
    ensures
        boundaries(r@) == boundaries(values@),
{
    let mut r: Vec<BoundaryDescriptor> = Vec::new();
    let mut i: usize = 0;
    while i < values.len()
        invariant
            i <= values@.len(),
            r@.len() == i,
            forall|j: int| 0 <= j < i ==> (#[trigger] r@[j])@ == values@[j]@,
        decreases values@.len() - i,
    {
        r.push(values[i].clone());
        i += 1;
    }
    assert(boundaries(r@) =~= boundaries(values@));
    r
}

/// A copy of descriptors with their indices.
fn copied_outputs(values: &Vec<(usize, BoundaryDescriptor)>) -> (r: Vec<(usize, BoundaryDescriptor)>)
    ensures
        indexed_boundaries(r@) == indexed_boundaries(values@),
{
    let mut r: Vec<(usize, BoundaryDescriptor)> = Vec::new();
    let mut i: usize = 0;
    while i < values.len()
        invariant
            i <= values@.len(),
            r@.len() == i,
            forall|j: int|
                0 <= j < i ==> (#[trigger] r@[j]).0 == values@[j].0 && r@[j].1@ == values@[j].1@,
        decreases values@.len() - i,
    {
        r.push((values[i].0, values[i].1.clone()));
        i += 1;
    }
    assert(indexed_boundaries(r@) =~= indexed_boundaries(values@));
    r
}

impl Clone for AssemblerCircuitParams {
    fn clone(&self) -> (r: Self)
        ensures
            r@ == self@,
    {
        AssemblerCircuitParams {
            instructions: copied_instructions(&self.instructions),
            rms_norm_domains: self.rms_norm_domains.clone(),
            input_shapes: copied_usizes(&self.input_shapes),
            weight_shapes: copied_usizes(&self.weight_shapes),
            public_output_indices: copied_usizes(&self.public_output_indices),
            boundary_inputs: copied_descriptors(&self.boundary_inputs),
            boundary_outputs: copied_outputs(&self.boundary_outputs),
            leaf_prefix_len: self.leaf_prefix_len,
            fixed_public_weights: copied_weights(&self.fixed_public_weights),
        }
    }
}

impl Default for AssemblerCircuitParams {
    fn default() -> (r: Self)
        ensures
            r@ == empty_shape(),
    {
        let r = AssemblerCircuitParams {
            instructions: Vec::new(),
            rms_norm_domains: RmsNormDomains::new(),
            input_shapes: Vec::new(),
            weight_shapes: Vec::new(),
            public_output_indices: Vec::new(),
            boundary_inputs: Vec::new(),
            boundary_outputs: Vec::new(),
            leaf_prefix_len: 0,
            fixed_public_weights: Vec::new(),
        };
        assert(r@ =~= empty_shape());
        r
    }
}

/// The shape of the circuit of an empty program.
pub open spec fn empty_shape() -> CircuitShape {
    CircuitShape {
        steps: Seq::empty(),
        domains: Seq::empty(),
        input_shapes: Seq::empty(),
        weight_shapes: Seq::empty(),
        public_outputs: Seq::empty(),
        boundary_inputs: Seq::empty(),
        boundary_outputs: Seq::empty(),
        leaf_prefix_len: 0,
        fixed_public_weights: Seq::empty(),
    }
}

} // verus!
