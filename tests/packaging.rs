use r1cs_script::package::{
    package, pad_public_input, split_chunks, PackageError, ProofArtifact, VerifyingKeyArtifact,
    MODE_BYTE, VK_CHUNK_COUNT, VK_CHUNK_SIZE,
};
use r1cs_script::script::{assemble_script, package_script, OP_VERIFY_PROOF};

fn filled(len: usize, v: u8) -> Vec<u8> {
    (0..len).map(|i| v.wrapping_add(i as u8)).collect()
}

fn sample_proof() -> ProofArtifact {
    ProofArtifact {
        a_x: filled(48, 1),
        a_y: filled(48, 2),
        b_x0: filled(48, 3),
        b_x1: filled(48, 4),
        b_y0: filled(48, 5),
        b_y1: filled(48, 6),
        c_x: filled(48, 7),
        c_y: filled(48, 8),
    }
}

fn vk(n_public: usize) -> VerifyingKeyArtifact {
    VerifyingKeyArtifact {
        alpha_g1: filled(48, 10),
        beta_g2: filled(96, 20),
        gamma_g2: filled(96, 30),
        delta_g2: filled(96, 40),
        gamma_abc_g1: (0..=n_public).map(|i| filled(48, 50 + i as u8)).collect(),
    }
}

fn vk_buffer(k: &VerifyingKeyArtifact) -> Vec<u8> {
    let mut b = Vec::new();
    b.extend_from_slice(&k.alpha_g1);
    b.extend_from_slice(&k.beta_g2);
    b.extend_from_slice(&k.gamma_g2);
    b.extend_from_slice(&k.delta_g2);
    for p in &k.gamma_abc_g1 {
        b.extend_from_slice(p);
    }
    b
}

#[test]
fn scalar_padded_at_high_end() {
    let p = pad_public_input(&[1, 2]).unwrap();
    assert_eq!(p.len(), 32);
    assert_eq!(&p[..2], &[1, 2]);
    assert!(p[2..].iter().all(|&b| b == 0));
    assert_eq!(pad_public_input(&[9u8; 32]).unwrap(), vec![9u8; 32]);
    assert_eq!(pad_public_input(&[0u8; 33]).err(), Some(PackageError::SerializationSize));
}

#[test]
fn last_chunk_zero_padded_to_protocol_count() {
    let buf = vk_buffer(&vk(2));
    assert_eq!(buf.len(), 480);
    assert_ne!(buf.len() % VK_CHUNK_SIZE, 0);
    let chunks = split_chunks(&buf, VK_CHUNK_SIZE);
    assert_eq!(chunks.len(), VK_CHUNK_COUNT);
    assert!(chunks.iter().all(|c| c.len() == VK_CHUNK_SIZE));
    assert_eq!(&chunks[6][..48], &buf[432..]);
    assert_eq!(&chunks[6][48..], &[0u8; 24][..]);
    assert_eq!(chunks.concat()[..480], buf[..]);
}

#[test]
fn split_exact_and_empty() {
    assert_eq!(split_chunks(&[1, 2, 3, 4], 2), vec![vec![1, 2], vec![3, 4]]);
    assert_eq!(split_chunks(&[1, 2, 3], 2), vec![vec![1, 2], vec![3, 0]]);
    assert!(split_chunks(&[], 4).is_empty());
}

#[test]
fn package_order_is_fixed() {
    let k = vk(2);
    let inputs = vec![vec![1u8], vec![2u8, 3]];
    let items = package(&sample_proof(), &k, &inputs).unwrap();
    assert_eq!(items.len(), 1 + VK_CHUNK_COUNT + 2 + 8);
    assert_eq!(items[0], vec![MODE_BYTE]);
    let chunks = split_chunks(&vk_buffer(&k), VK_CHUNK_SIZE);
    assert_eq!(items[1..8].to_vec(), chunks);
    assert_eq!(items[8], pad_public_input(&[1]).unwrap());
    assert_eq!(items[9], pad_public_input(&[2, 3]).unwrap());
    let p = sample_proof();
    let coords = vec![p.a_x, p.a_y, p.b_x0, p.b_x1, p.b_y0, p.b_y1, p.c_x, p.c_y];
    assert_eq!(items[10..].to_vec(), coords);
}

#[test]
fn package_size_errors() {
    let inputs = vec![vec![1u8], vec![2u8]];
    let mut p = sample_proof();
    p.b_y1.push(0);
    assert_eq!(package(&p, &vk(2), &inputs).err(), Some(PackageError::SerializationSize));
    let mut k = vk(2);
    k.beta_g2.pop();
    assert_eq!(package(&sample_proof(), &k, &inputs).err(), Some(PackageError::SerializationSize));
    let mut k = vk(2);
    k.gamma_abc_g1[1].push(0);
    assert_eq!(package(&sample_proof(), &k, &inputs).err(), Some(PackageError::SerializationSize));
    let long = vec![vec![1u8], vec![0u8; 33]];
    assert_eq!(package(&sample_proof(), &vk(2), &long).err(), Some(PackageError::SerializationSize));
}

#[test]
fn package_shape_errors() {
    let inputs = vec![vec![1u8], vec![2u8]];
    assert_eq!(package(&sample_proof(), &vk(1), &inputs).err(), Some(PackageError::ProtocolShape));
    let three = vec![vec![1u8], vec![2u8], vec![3u8]];
    // 528 bytes make eight chunks, not seven.
    assert_eq!(package(&sample_proof(), &vk(3), &three).err(), Some(PackageError::ProtocolShape));
}

#[test]
fn packaging_twice_is_identical() {
    let inputs = vec![vec![5u8, 6], vec![7u8]];
    let (items1, script1) = package_script(&sample_proof(), &vk(2), &inputs).unwrap();
    let (items2, script2) = package_script(&sample_proof(), &vk(2), &inputs).unwrap();
    assert_eq!(items1, items2);
    assert_eq!(script1, script2);
    assert_eq!(script1, assemble_script(&items1));
    assert_eq!(*script1.last().unwrap(), OP_VERIFY_PROOF);
}
