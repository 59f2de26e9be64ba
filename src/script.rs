//! Push operations for stack items, the assembled script, and its hex text.

use crate::bytes::push_bytes;
use crate::package::{
    chunk, chunk_count, items_view, package, pad_scalar, proof_coords, proof_sizes_ok, spec_chunks,
    spec_package, vk_bytes, PackageError, ProofArtifact, VerifyingKeyArtifact, BASE_LEN, MODE_BYTE,
    SCALAR_LEN, VK_CHUNK_SIZE,
};
use vstd::prelude::*;

verus! {

/// Pushes an empty item; stands for a one-byte zero item.
pub const OP_0: u8 = 0x00;

/// Push with a one-byte length.
pub const OP_PUSHDATA1: u8 = 0x4c;

/// Push with a two-byte little-endian length.
pub const OP_PUSHDATA2: u8 = 0x4d;

/// The terminal opcode that checks the pushed proof.
pub const OP_VERIFY_PROOF: u8 = 0xb3;

/// Longest item a direct length byte can announce.
pub const MAX_DIRECT_PUSH: usize = 75;

/// Longest item a push operation can carry.
pub const MAX_PUSH: usize = 65535;

/// The push operation for one item.
pub open spec fn spec_push(item: Seq<u8>) -> Seq<u8> {
    let n = item.len();
    if n == 1 && item[0] == 0 {
        seq![OP_0]
    } else if n <= MAX_DIRECT_PUSH {
        seq![n as u8] + item
    } else if n <= 255 {
        seq![OP_PUSHDATA1, n as u8] + item
    } else {
        seq![OP_PUSHDATA2, (n % 256) as u8, (n / 256) as u8] + item
    }
}

/// The push operations of all items, in list order.
pub open spec fn spec_pushes(items: Seq<Seq<u8>>) -> Seq<u8>
    decreases items.len(),
{
    if items.len() == 0 {
        Seq::empty()
    } else {
        spec_pushes(items.drop_last()) + spec_push(items.last())
    }
}

/// The script: every item pushed in order, then the terminal opcode.
pub open spec fn spec_script(items: Seq<Seq<u8>>) -> Seq<u8> {
    spec_pushes(items).push(OP_VERIFY_PROOF)
}

/// Every item fits a push operation.
pub open spec fn pushable(items: Seq<Seq<u8>>) -> bool {
    forall|i: int| 0 <= i < items.len() ==> (#[trigger] items[i]).len() <= MAX_PUSH
}

/// A 75-byte item gets a bare length prefix, a 76-byte one the one-byte
/// length form, and a single zero byte the empty-push opcode alone.
pub proof fn lemma_push_boundaries(item: Seq<u8>)
    ensures
        item.len() == 75 ==> spec_push(item) == seq![75u8] + item,
        item.len() == 76 ==> spec_push(item) == seq![OP_PUSHDATA1, 76u8] + item,
        item == seq![0u8] ==> spec_push(item) == seq![OP_0],
{
}

fn append_push(out: &mut Vec<u8>, item: &[u8])
    requires
        item@.len() <= MAX_PUSH,
    ensures
        final(out)@ == old(out)@ + spec_push(item@),
{
    let n = item.len();
    if n == 1 && item[0] == 0 {
        out.push(OP_0);
        assert(out@ =~= old(out)@ + seq![OP_0]);
        return;
    }
    let ghost start = out@;
    if n <= MAX_DIRECT_PUSH {
        out.push(n as u8);
        assert(out@ =~= start + seq![n as u8]);
    } else if n <= 255 {
        out.push(OP_PUSHDATA1);
        out.push(n as u8);
        assert(out@ =~= start + seq![OP_PUSHDATA1, n as u8]);
    } else {
        out.push(OP_PUSHDATA2);
        out.push((n % 256) as u8);
        out.push((n / 256) as u8);
        assert(out@ =~= start + seq![OP_PUSHDATA2, (n % 256) as u8, (n / 256) as u8]);
    }
    let ghost mid = out@;
    push_bytes(out, item);
    assert(out@ =~= start + spec_push(item@));
}

/// The push operation for one item.
pub fn encode_push(item: &[u8]) -> (r: Vec<u8>)
    requires
        item@.len() <= MAX_PUSH,
    ensures
        r@ == spec_push(item@),
{
    let mut out: Vec<u8> = Vec::new();
    append_push(&mut out, item);
    assert(out@ =~= spec_push(item@));
    out
}

/// Assembles the script: one push operation per item, in list order, then
/// the terminal opcode.
pub fn assemble_script(items: &Vec<Vec<u8>>) -> (r: Vec<u8>)
    requires
        pushable(items_view(items@)),
    ensures
        r@ == spec_script(items_view(items@)),
{
    let ghost iv = items_view(items@);
    let mut out: Vec<u8> = Vec::new();
    let mut i: usize = 0;
    while i < items.len()
        invariant
            i <= items@.len(),
            iv == items_view(items@),
            pushable(iv),
            out@ == spec_pushes(iv.subrange(0, i as int)),
        decreases items@.len() - i,
    {
        assert(iv[i as int] == items@[i as int]@);
        append_push(&mut out, items[i].as_slice());
        proof {
            let sub = iv.subrange(0, i + 1);
            assert(sub.drop_last() =~= iv.subrange(0, i as int));
        }
        i = i + 1;
    }
    assert(iv.subrange(0, i as int) =~= iv);
    out.push(OP_VERIFY_PROOF);
    out
}

/// The lowercase hex digit of a value below sixteen.
pub open spec fn hex_digit(d: u8) -> char {
    if d < 10 {
        (48 + d) as char
    } else {
        (87 + d) as char
    }
}

/// Two lowercase hex digits per byte, high nibble first.
pub open spec fn hex_text(b: Seq<u8>) -> Seq<char>
    decreases b.len(),
{
    if b.len() == 0 {
        Seq::empty()
    } else {
        hex_text(b.drop_last()) + seq![hex_digit(b.last() / 16), hex_digit(b.last() % 16)]
    }
}

/// Relies on hex's `encode`: each byte becomes two characters of
/// "0123456789abcdef", high nibble first.
#[verifier::external_body]
fn hex_encode(b: &[u8]) -> (r: String)
    ensures
        r@ == hex_text(b@),
{
    hex::encode(b)
}

/// The script bytes as one lowercase hex string.
pub fn script_hex(script: &Vec<u8>) -> (r: String)
    ensures
        r@ == hex_text(script@),
{
    hex_encode(script.as_slice())
}

/// Each stack item as a lowercase hex string, in list order.
pub fn item_hexes(items: &Vec<Vec<u8>>) -> (r: Vec<String>)
    ensures
        r@.len() == items@.len(),
        forall|i: int| 0 <= i < items@.len() ==> (#[trigger] r@[i])@ == hex_text(items@[i]@),
{
    let mut out: Vec<String> = Vec::new();
    let mut i: usize = 0;
    while i < items.len()
        invariant
            i <= items@.len(),
            out@.len() == i,
            forall|j: int| 0 <= j < i ==> (#[trigger] out@[j])@ == hex_text(items@[j]@),
        decreases items@.len() - i,
    {
        out.push(hex_encode(items[i].as_slice()));
        i = i + 1;
    }
    out
}

proof fn lemma_chunk_len(buf: Seq<u8>, size: nat, i: int)
    requires
        size > 0,
        0 <= i < chunk_count(buf.len(), size),
    ensures
        chunk(buf, size, i).len() == size,
{
    let len = buf.len() as int;
    let m = len + size - 1;
    let q = m / size as int;
    let r = m % size as int;
    vstd::arithmetic::div_mod::lemma_fundamental_div_mod(m, size as int);
    vstd::arithmetic::div_mod::lemma_mod_pos_bound(m, size as int);
    assert(i * size <= len - 1) by (nonlinear_arith)
        requires
            0 <= i < q,
            m == size * q + r,
            0 <= r < size,
            m == len + size - 1,
    {
    }
}

proof fn lemma_packaged_pushable(
    proof: &ProofArtifact,
    vk: &VerifyingKeyArtifact,
    inputs: Seq<Seq<u8>>,
)
    requires
        spec_package(proof, vk, inputs) is Ok,
    ensures
        pushable(spec_package(proof, vk, inputs)->Ok_0),
{
    let items = spec_package(proof, vk, inputs)->Ok_0;
    let chunks = spec_chunks(vk_bytes(vk), VK_CHUNK_SIZE as nat);
    let padded = inputs.map_values(|s: Seq<u8>| pad_scalar(s));
    let coords = proof_coords(proof);
    assert(items == seq![seq![MODE_BYTE]] + chunks + padded + coords);
    assert forall|i: int| 0 <= i < items.len() implies (#[trigger] items[i]).len() <= MAX_PUSH by {
        let a = 1 + chunks.len();
        let b = a + padded.len();
        if i == 0 {
        } else if i < a {
            lemma_chunk_len(vk_bytes(vk), VK_CHUNK_SIZE as nat, i - 1);
            assert(items[i] == chunks[i - 1]);
        } else if i < b {
            assert(items[i] == padded[i - a]);
            assert(inputs[i - a].len() <= SCALAR_LEN);
        } else {
            assert(items[i] == coords[i - b]);
            assert(coords[i - b].len() == BASE_LEN);
        }
    }
}

/// Packages the artifacts and assembles their script, in one pass.
pub fn package_script(
    proof: &ProofArtifact,
    vk: &VerifyingKeyArtifact,
    public_inputs: &Vec<Vec<u8>>,
) -> (r: Result<(Vec<Vec<u8>>, Vec<u8>), PackageError>)
    ensures
        match r {
            Ok((items, script)) => spec_package(proof, vk, items_view(public_inputs@)) == Ok::<
                _,
                PackageError,
            >(items_view(items@)) && script@ == spec_script(items_view(items@)),
            Err(e) => spec_package(proof, vk, items_view(public_inputs@)) == Err::<Seq<Seq<u8>>, _>(e),
        },
{
    let items = match package(proof, vk, public_inputs) {
        Ok(items) => items,
        Err(e) => return Err(e),
    };
    proof {
        lemma_packaged_pushable(proof, vk, items_view(public_inputs@));
    }
    let script = assemble_script(&items);
    Ok((items, script))
}

/// Packaging is a function of what the inputs hold: the same proof,
/// verifying key and public inputs give the same stack items and the same
/// script bytes each time.
pub proof fn lemma_packaging_deterministic(
    p1: &ProofArtifact,
    p2: &ProofArtifact,
    vk1: &VerifyingKeyArtifact,
    vk2: &VerifyingKeyArtifact,
    in1: Seq<Seq<u8>>,
    in2: Seq<Seq<u8>>,
)
    requires
        proof_coords(p1) == proof_coords(p2),
        vk1.alpha_g1@ == vk2.alpha_g1@,
        vk1.beta_g2@ == vk2.beta_g2@,
        vk1.gamma_g2@ == vk2.gamma_g2@,
        vk1.delta_g2@ == vk2.delta_g2@,
        items_view(vk1.gamma_abc_g1@) == items_view(vk2.gamma_abc_g1@),
        in1 == in2,
    ensures
        spec_package(p1, vk1, in1) == spec_package(p2, vk2, in2),
        spec_package(p1, vk1, in1) is Ok ==> spec_script(spec_package(p1, vk1, in1)->Ok_0)
            == spec_script(spec_package(p2, vk2, in2)->Ok_0),
{
    assert(vk_bytes(vk1) == vk_bytes(vk2));
    assert(proof_sizes_ok(p1) == proof_sizes_ok(p2));
}

} // verus!
