//! Serialization of a proof, its verifying key and the public inputs into
//! the fixed-order list of stack items of the target protocol.

use crate::bytes::{copy_bytes, push_bytes};
use vstd::prelude::*;

verus! {

/// Bytes of one compressed base-field coordinate or base-curve point.
pub const BASE_LEN: usize = 48;

/// Bytes of one compressed extension-curve point.
pub const EXT_LEN: usize = 96;

/// Bytes of one public-input scalar item.
pub const SCALAR_LEN: usize = 32;

/// Bytes of each verifying-key chunk.
pub const VK_CHUNK_SIZE: usize = 72;

/// Number of verifying-key chunks the protocol carries.
pub const VK_CHUNK_COUNT: usize = 7;

/// The leading mode item's single byte.
pub const MODE_BYTE: u8 = 1;

/// Why packaging refused its inputs.
#[derive(Debug, Clone, Copy, PartialEq, Eq, Structural)]
pub enum PackageError {
    /// A backend-produced element has an unexpected byte length.
    SerializationSize,
    /// The verifying key has the wrong number of points or chunks.
    ProtocolShape,
}

/// A proof's eight coordinates, each in its compressed encoding: the x and y
/// of A, the x0, x1, y0 and y1 of B, the x and y of C.
#[derive(Debug, Clone)]
pub struct ProofArtifact {
    pub a_x: Vec<u8>,
    pub a_y: Vec<u8>,
    pub b_x0: Vec<u8>,
    pub b_x1: Vec<u8>,
    pub b_y0: Vec<u8>,
    pub b_y1: Vec<u8>,
    pub c_x: Vec<u8>,
    pub c_y: Vec<u8>,
}

/// A verifying key's points, each in its compressed encoding: one base-curve
/// point, three extension-curve points, and one base-curve point for the
/// constant one and for each public input.
#[derive(Debug, Clone)]
pub struct VerifyingKeyArtifact {
    pub alpha_g1: Vec<u8>,
    pub beta_g2: Vec<u8>,
    pub gamma_g2: Vec<u8>,
    pub delta_g2: Vec<u8>,
    pub gamma_abc_g1: Vec<Vec<u8>>,
}

/// The bytes of each item, in order.
pub open spec fn items_view(v: Seq<Vec<u8>>) -> Seq<Seq<u8>> {
    v.map_values(|x: Vec<u8>| x@)
}

/// The proof's coordinates in protocol order.
pub open spec fn proof_coords(p: &ProofArtifact) -> Seq<Seq<u8>> {
    seq![p.a_x@, p.a_y@, p.b_x0@, p.b_x1@, p.b_y0@, p.b_y1@, p.c_x@, p.c_y@]
}

/// `n` zero bytes.
pub open spec fn zeros(n: nat) -> Seq<u8> {
    Seq::new(n, |i: int| 0u8)
}

/// All byte strings of `v`, one after another.
pub open spec fn concat(v: Seq<Seq<u8>>) -> Seq<u8>
    decreases v.len(),
{
    if v.len() == 0 {
        Seq::empty()
    } else {
        concat(v.drop_last()) + v.last()
    }
}

/// The verifying key's points concatenated in the fixed order.
pub open spec fn vk_bytes(vk: &VerifyingKeyArtifact) -> Seq<u8> {
    vk.alpha_g1@ + vk.beta_g2@ + vk.gamma_g2@ + vk.delta_g2@ + concat(items_view(vk.gamma_abc_g1@))
}

/// Every proof coordinate has the compressed base-field length.
pub open spec fn proof_sizes_ok(p: &ProofArtifact) -> bool {
    forall|i: int| 0 <= i < 8 ==> (#[trigger] proof_coords(p)[i]).len() == BASE_LEN
}

/// Every verifying-key point has its compressed length.
pub open spec fn vk_sizes_ok(vk: &VerifyingKeyArtifact) -> bool {
    &&& vk.alpha_g1@.len() == BASE_LEN
    &&& vk.beta_g2@.len() == EXT_LEN
    &&& vk.gamma_g2@.len() == EXT_LEN
    &&& vk.delta_g2@.len() == EXT_LEN
    &&& forall|i: int|
        0 <= i < items_view(vk.gamma_abc_g1@).len() ==> (#[trigger] items_view(vk.gamma_abc_g1@)[i]).len()
            == BASE_LEN
}

/// No public input is longer than a scalar item.
pub open spec fn scalars_fit(inputs: Seq<Seq<u8>>) -> bool {
    forall|i: int| 0 <= i < inputs.len() ==> (#[trigger] inputs[i]).len() <= SCALAR_LEN
}

/// A little-endian scalar zero-padded at its high end to `SCALAR_LEN` bytes.
pub open spec fn pad_scalar(s: Seq<u8>) -> Seq<u8> {
    s + zeros((SCALAR_LEN - s.len()) as nat)
}

/// How many chunks of `size` bytes cover `len` bytes.
pub open spec fn chunk_count(len: nat, size: nat) -> nat {
    ((len + size - 1) / size as int) as nat
}

/// Chunk `i` of `buf`: its bytes from `i * size` on, at most `size` of them,
/// zero-padded on the right to `size`.
pub open spec fn chunk(buf: Seq<u8>, size: nat, i: int) -> Seq<u8> {
    let start = i * size;
    let end = if start + size <= buf.len() { start + size } else { buf.len() as int };
    buf.subrange(start, end) + zeros((size - (end - start)) as nat)
}

/// `buf` cut into chunks of `size` bytes, the last one zero-padded.
pub open spec fn spec_chunks(buf: Seq<u8>, size: nat) -> Seq<Seq<u8>> {
    Seq::new(chunk_count(buf.len(), size), |i: int| chunk(buf, size, i))
}

/// The stack items for a proof, verifying key and public inputs: the mode
/// byte, the verifying-key chunks, the padded public inputs, then the proof
/// coordinates.
pub open spec fn spec_package(
    proof: &ProofArtifact,
    vk: &VerifyingKeyArtifact,
    inputs: Seq<Seq<u8>>,
) -> Result<Seq<Seq<u8>>, PackageError> {
    if !proof_sizes_ok(proof) || !vk_sizes_ok(vk) || !scalars_fit(inputs) {
        Err(PackageError::SerializationSize)
    } else if vk.gamma_abc_g1@.len() != inputs.len() + 1 || chunk_count(
        vk_bytes(vk).len(),
        VK_CHUNK_SIZE as nat,
    ) != VK_CHUNK_COUNT {
        Err(PackageError::ProtocolShape)
    } else {
        Ok(
            seq![seq![MODE_BYTE]] + spec_chunks(vk_bytes(vk), VK_CHUNK_SIZE as nat) + inputs.map_values(
                |s: Seq<u8>| pad_scalar(s),
            ) + proof_coords(proof),
        )
    }
}

fn push_zeros(out: &mut Vec<u8>, n: usize)
    ensures
        final(out)@ == old(out)@ + zeros(n as nat),
{
    let mut i: usize = 0;
    while i < n
        invariant
            i <= n,
            out@ == old(out)@ + zeros(i as nat),
        decreases n - i,
    {
        out.push(0u8);
        i = i + 1;
        assert(zeros(i as nat) =~= zeros((i - 1) as nat).push(0u8));
    }
}

/// Zero-pads a little-endian scalar at its high end to `SCALAR_LEN` bytes;
/// a longer one is refused, never truncated.
pub fn pad_public_input(s: &[u8]) -> (r: Result<Vec<u8>, PackageError>)
    ensures
        match r {
            Ok(v) => s@.len() <= SCALAR_LEN && v@ == pad_scalar(s@),
            Err(e) => s@.len() > SCALAR_LEN && e == PackageError::SerializationSize,
        },
{
    if s.len() > SCALAR_LEN {
        return Err(PackageError::SerializationSize);
    }
    let mut v = copy_bytes(s);
    push_zeros(&mut v, SCALAR_LEN - s.len());
    Ok(v)
}

/// Splits `buf` into chunks of `chunk_size` bytes, the last one zero-padded
/// on the right.
pub fn split_chunks(buf: &[u8], chunk_size: usize) -> (r: Vec<Vec<u8>>)
    requires
        chunk_size > 0,
    ensures
        items_view(r@) == spec_chunks(buf@, chunk_size as nat),
{
    let ghost size = chunk_size as nat;
    let mut out: Vec<Vec<u8>> = Vec::new();
    let mut p: usize = 0;
    assert(out@.len() * size == 0) by (nonlinear_arith)
        requires
            out@.len() == 0,
    {
    }
    while p < buf.len()
        invariant
            chunk_size > 0,
            size == chunk_size as nat,
            p == 0 || p < buf@.len(),
            p == out@.len() * size,
            out@.len() > 0 ==> (out@.len() - 1) * size < buf@.len(),
            forall|i: int| 0 <= i < out@.len() ==> (#[trigger] out@[i])@ == chunk(buf@, size, i),
        decreases buf@.len() - p,
    {
        let ghost i = out@.len() as int;
        let end = if buf.len() - p <= chunk_size {
            buf.len()
        } else {
            p + chunk_size
        };
        let mut c = copy_bytes(vstd::slice::slice_subrange(buf, p, end));
        push_zeros(&mut c, chunk_size - (end - p));
        proof {
            assert(c@ == chunk(buf@, size, i));
        }
        out.push(c);
        proof {
            assert((i + 1) * size == i * size + size) by (nonlinear_arith);
        }
        if buf.len() - p <= chunk_size {
            p = buf.len();
            proof {
                lemma_chunk_count_exact(buf@.len(), size, (i + 1) as nat);
            }
            assert(items_view(out@) =~= spec_chunks(buf@, size));
            return out;
        }
        p = end;
    }
    proof {
        assert(out@.len() == 0) by (nonlinear_arith)
            requires
                p == 0,
                p == out@.len() * size,
                size > 0,
        {
        }
        assert(chunk_count(0, size) == 0) by (nonlinear_arith)
            requires
                size > 0,
        {
        }
    }
    assert(items_view(out@) =~= spec_chunks(buf@, size));
    out
}

proof fn lemma_chunk_count_exact(len: nat, size: nat, k: nat)
    requires
        size > 0,
        k >= 1,
        (k - 1) * size < len <= k * size,
    ensures
        chunk_count(len, size) == k,
{
    assert((len + size - 1) / size as int == k) by (nonlinear_arith)
        requires
            size > 0,
            k >= 1,
            (k - 1) * size < len <= k * size,
    {
        vstd::arithmetic::div_mod::lemma_div_is_ordered_by_denominator(0, 1, 1);
    }
}

fn proof_sizes(p: &ProofArtifact) -> (r: bool)
    ensures
        r == proof_sizes_ok(p),
{
    let r = p.a_x.len() == BASE_LEN && p.a_y.len() == BASE_LEN && p.b_x0.len() == BASE_LEN
        && p.b_x1.len() == BASE_LEN && p.b_y0.len() == BASE_LEN && p.b_y1.len() == BASE_LEN
        && p.c_x.len() == BASE_LEN && p.c_y.len() == BASE_LEN;
    proof {
        let pc = proof_coords(p);
        if !r {
            assert(exists|i: int| 0 <= i < 8 && #[trigger] pc[i].len() != BASE_LEN) by {
                if p.a_x@.len() != BASE_LEN { assert(pc[0].len() != BASE_LEN); }
                else if p.a_y@.len() != BASE_LEN { assert(pc[1].len() != BASE_LEN); }
                else if p.b_x0@.len() != BASE_LEN { assert(pc[2].len() != BASE_LEN); }
                else if p.b_x1@.len() != BASE_LEN { assert(pc[3].len() != BASE_LEN); }
                else if p.b_y0@.len() != BASE_LEN { assert(pc[4].len() != BASE_LEN); }
                else if p.b_y1@.len() != BASE_LEN { assert(pc[5].len() != BASE_LEN); }
                else if p.c_x@.len() != BASE_LEN { assert(pc[6].len() != BASE_LEN); }
                else { assert(pc[7].len() != BASE_LEN); }
            }
        }
    }
    r
}

fn vk_sizes(vk: &VerifyingKeyArtifact) -> (r: bool)
    ensures
        r == vk_sizes_ok(vk),
{
    if vk.alpha_g1.len() != BASE_LEN || vk.beta_g2.len() != EXT_LEN || vk.gamma_g2.len() != EXT_LEN
        || vk.delta_g2.len() != EXT_LEN {
        return false;
    }
    let mut i: usize = 0;
    while i < vk.gamma_abc_g1.len()
        invariant
            i <= vk.gamma_abc_g1@.len(),
            forall|j: int| 0 <= j < i ==> (#[trigger] vk.gamma_abc_g1@[j])@.len() == BASE_LEN,
        decreases vk.gamma_abc_g1@.len() - i,
    {
        if vk.gamma_abc_g1[i].len() != BASE_LEN {
            assert(items_view(vk.gamma_abc_g1@)[i as int].len() != BASE_LEN);
            return false;
        }
        i = i + 1;
    }
    assert forall|j: int| 0 <= j < items_view(vk.gamma_abc_g1@).len() implies (#[trigger] items_view(
        vk.gamma_abc_g1@,
    )[j]).len() == BASE_LEN by {
        assert(items_view(vk.gamma_abc_g1@)[j] == vk.gamma_abc_g1@[j]@);
    }
    true
}

fn scalars_ok(inputs: &Vec<Vec<u8>>) -> (r: bool)
    ensures
        r == scalars_fit(items_view(inputs@)),
{
    let mut i: usize = 0;
    while i < inputs.len()
        invariant
            i <= inputs@.len(),
            forall|j: int| 0 <= j < i ==> (#[trigger] inputs@[j])@.len() <= SCALAR_LEN,
        decreases inputs@.len() - i,
    {
        if inputs[i].len() > SCALAR_LEN {
            assert(items_view(inputs@)[i as int].len() > SCALAR_LEN);
            return false;
        }
        i = i + 1;
    }
    assert forall|j: int| 0 <= j < items_view(inputs@).len() implies (#[trigger] items_view(inputs@)[j]).len()
        <= SCALAR_LEN by {
        assert(items_view(inputs@)[j] == inputs@[j]@);
    }
    true
}

/// The verifying key's points concatenated in the fixed order.
fn vk_buffer(vk: &VerifyingKeyArtifact) -> (r: Vec<u8>)
    ensures
        r@ == vk_bytes(vk),
{
    let mut buf: Vec<u8> = Vec::new();
    push_bytes(&mut buf, vk.alpha_g1.as_slice());
    push_bytes(&mut buf, vk.beta_g2.as_slice());
    push_bytes(&mut buf, vk.gamma_g2.as_slice());
    push_bytes(&mut buf, vk.delta_g2.as_slice());
    let ghost head = buf@;
    let ghost pts = items_view(vk.gamma_abc_g1@);
    assert(head =~= Seq::<u8>::empty() + vk.alpha_g1@ + vk.beta_g2@ + vk.gamma_g2@ + vk.delta_g2@);
    let mut i: usize = 0;
    while i < vk.gamma_abc_g1.len()
        invariant
            i <= vk.gamma_abc_g1@.len(),
            pts == items_view(vk.gamma_abc_g1@),
            buf@ == head + concat(pts.subrange(0, i as int)),
        decreases vk.gamma_abc_g1@.len() - i,
    {
        push_bytes(&mut buf, vk.gamma_abc_g1[i].as_slice());
        proof {
            let sub = pts.subrange(0, i + 1);
            assert(sub.drop_last() =~= pts.subrange(0, i as int));
            assert(sub.last() == vk.gamma_abc_g1@[i as int]@);
        }
        i = i + 1;
    }
    assert(pts.subrange(0, i as int) =~= pts);
    assert(buf@ =~= vk_bytes(vk));
    buf
}

/// Packages a proof, its verifying key and the public inputs into the
/// protocol's stack items, or says which size or shape rule they break.
pub fn package(proof: &ProofArtifact, vk: &VerifyingKeyArtifact, public_inputs: &Vec<Vec<u8>>) -> (r: Result<Vec<Vec<u8>>, PackageError>)
    ensures
        match r {
            Ok(items) => spec_package(proof, vk, items_view(public_inputs@)) == Ok::<_, PackageError>(items_view(items@)),
            Err(e) => spec_package(proof, vk, items_view(public_inputs@)) == Err::<Seq<Seq<u8>>, _>(e),
        },
{
    if !proof_sizes(proof) || !vk_sizes(vk) || !scalars_ok(public_inputs) {
        return Err(PackageError::SerializationSize);
    }
    if vk.gamma_abc_g1.len() == 0 || vk.gamma_abc_g1.len() - 1 != public_inputs.len() {
        return Err(PackageError::ProtocolShape);
    }
    let buf = vk_buffer(vk);
    let mut chunks = split_chunks(buf.as_slice(), VK_CHUNK_SIZE);
    if chunks.len() != VK_CHUNK_COUNT {
        return Err(PackageError::ProtocolShape);
    }
    let ghost inputs = items_view(public_inputs@);
    let ghost chunk_items = items_view(chunks@);
    let mut items: Vec<Vec<u8>> = Vec::new();
    let mut mode: Vec<u8> = Vec::new();
    mode.push(MODE_BYTE);
    items.push(mode);
    items.append(&mut chunks);
    let ghost head = items_view(items@);
    assert(head =~= seq![seq![MODE_BYTE]] + chunk_items);
    let mut i: usize = 0;
    while i < public_inputs.len()
        invariant
            i <= public_inputs@.len(),
            inputs == items_view(public_inputs@),
            scalars_fit(inputs),
            items_view(items@) == head + inputs.subrange(0, i as int).map_values(|s: Seq<u8>| pad_scalar(s)),
        decreases public_inputs@.len() - i,
    {
        assert(inputs[i as int] == public_inputs@[i as int]@);
        let padded = match pad_public_input(public_inputs[i].as_slice()) {
            Ok(v) => v,
            Err(e) => return Err(e),
        };
        let ghost prev = items_view(items@);
        let ghost pv = padded@;
        items.push(padded);
        proof {
            assert(items_view(items@) =~= prev.push(pv));
            assert(inputs.subrange(0, i + 1).map_values(|s: Seq<u8>| pad_scalar(s)) =~= inputs.subrange(
                0,
                i as int,
            ).map_values(|s: Seq<u8>| pad_scalar(s)).push(pad_scalar(inputs[i as int])));
        }
        i = i + 1;
    }
    assert(inputs.subrange(0, i as int) =~= inputs);
    let ghost mid = items_view(items@);
    items.push(copy_bytes(proof.a_x.as_slice()));
    items.push(copy_bytes(proof.a_y.as_slice()));
    items.push(copy_bytes(proof.b_x0.as_slice()));
    items.push(copy_bytes(proof.b_x1.as_slice()));
    items.push(copy_bytes(proof.b_y0.as_slice()));
    items.push(copy_bytes(proof.b_y1.as_slice()));
    items.push(copy_bytes(proof.c_x.as_slice()));
    items.push(copy_bytes(proof.c_y.as_slice()));
    assert(items_view(items@) =~= mid + proof_coords(proof));
    Ok(items)
}

} // verus!
