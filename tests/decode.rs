use r1cs_script::r1cs::{
    decode_constraints, encode_constraints, R1CSConstraint, R1csError, Term, R1CS,
    MAX_TERMS,
};

fn u32le(out: &mut Vec<u8>, n: u32) {
    out.extend_from_slice(&n.to_le_bytes());
}

fn u64le(out: &mut Vec<u8>, n: u64) {
    out.extend_from_slice(&n.to_le_bytes());
}

fn coef(v: u8, size: usize) -> Vec<u8> {
    let mut c = vec![0u8; size];
    c[0] = v;
    c
}

fn term(w: u32, v: u8, size: usize) -> Term {
    Term { wire_id: w, coefficient: coef(v, size) }
}

fn header_body(field_size: u32, n_wires: u32, out_: u32, in_: u32, prv: u32, n_cons: u32) -> Vec<u8> {
    let mut b = Vec::new();
    u32le(&mut b, field_size);
    b.extend_from_slice(&vec![0xeeu8; field_size as usize]);
    u32le(&mut b, n_wires);
    u32le(&mut b, out_);
    u32le(&mut b, in_);
    u32le(&mut b, prv);
    u64le(&mut b, 7);
    u32le(&mut b, n_cons);
    b
}

fn section(out: &mut Vec<u8>, ty: u32, body: &[u8]) {
    u32le(out, ty);
    u64le(out, body.len() as u64);
    out.extend_from_slice(body);
}

fn container(sections: &[(u32, Vec<u8>)]) -> Vec<u8> {
    let mut b = b"r1cs".to_vec();
    u32le(&mut b, 1);
    u32le(&mut b, sections.len() as u32);
    for (ty, body) in sections {
        section(&mut b, *ty, body);
    }
    b
}

fn sample_constraints(size: usize) -> Vec<R1CSConstraint> {
    vec![
        R1CSConstraint {
            a_terms: vec![term(3, 2, size)],
            b_terms: vec![term(1, 1, size), term(2, 5, size)],
            c_terms: vec![],
        },
        R1CSConstraint { a_terms: vec![], b_terms: vec![], c_terms: vec![term(0, 9, size)] },
    ]
}

#[test]
fn sectioned_container_decodes() {
    let cs = sample_constraints(8);
    let body = encode_constraints(&cs);
    let bytes = container(&[(1, header_body(8, 4, 1, 1, 1, 2)), (2, body)]);
    let r = R1CS::from_bytes(&bytes).unwrap();
    assert_eq!(r.num_wires(), 4);
    assert_eq!(r.num_public_outputs(), 1);
    assert_eq!(r.num_public_inputs(), 1);
    assert_eq!(r.num_public_values(), 2);
    assert_eq!(r.num_private_inputs(), 1);
    assert_eq!(r.num_constraints(), 2);
    assert_eq!(r.prime_field_modulus(), &[0xeeu8; 8][..]);
    assert_eq!(r.header.n_labels, 7);
    assert_eq!(r.constraints(), &cs);
}

#[test]
fn sections_found_by_type_in_any_order() {
    let cs = sample_constraints(4);
    let body = encode_constraints(&cs);
    let bytes = container(&[
        (3, vec![1, 2, 3, 4, 5]),
        (2, body),
        (9, vec![]),
        (1, header_body(4, 4, 0, 2, 1, 2)),
    ]);
    let r = R1CS::from_bytes(&bytes).unwrap();
    assert_eq!(r.constraints(), &cs);
    assert_eq!(r.num_public_values(), 2);
}

#[test]
fn wrong_magic_is_format_error() {
    let cs = sample_constraints(8);
    let mut bytes = container(&[(1, header_body(8, 4, 1, 1, 1, 2)), (2, encode_constraints(&cs))]);
    bytes[0] = b'x';
    assert_eq!(R1CS::from_bytes(&bytes).err(), Some(R1csError::Format));
    assert_eq!(R1CS::from_bytes(b"r1c").err(), Some(R1csError::Format));
    let mut flat = b"R1CS".to_vec();
    for n in [1u32, 1, 5, 2, 2, 0] {
        u32le(&mut flat, n);
    }
    assert_eq!(R1CS::from_flat_bytes(&flat).err(), Some(R1csError::Format));
}

#[test]
fn unsupported_version_is_format_error() {
    let mut bytes = container(&[(1, header_body(8, 4, 1, 1, 1, 0)), (2, vec![])]);
    bytes[4] = 2;
    assert_eq!(R1CS::from_bytes(&bytes).err(), Some(R1csError::Format));
}

#[test]
fn missing_or_repeated_sections_are_format_errors() {
    let only_header = container(&[(1, header_body(8, 4, 1, 1, 1, 0))]);
    assert_eq!(R1CS::from_bytes(&only_header).err(), Some(R1csError::Format));
    let twice = container(&[
        (1, header_body(8, 4, 1, 1, 1, 0)),
        (2, vec![]),
        (1, header_body(8, 4, 1, 1, 1, 0)),
    ]);
    assert_eq!(R1CS::from_bytes(&twice).err(), Some(R1csError::Format));
}

#[test]
fn section_past_end_is_format_error() {
    let mut bytes = container(&[(1, header_body(8, 4, 1, 1, 1, 0)), (2, vec![])]);
    bytes.truncate(bytes.len() - 13);
    assert_eq!(R1CS::from_bytes(&bytes).err(), Some(R1csError::Format));
}

#[test]
fn inconsistent_counts_are_bounds_errors() {
    // 1 + 1 + 1 != 5 - 1
    let bytes = container(&[(1, header_body(8, 5, 1, 1, 1, 0)), (2, vec![])]);
    assert_eq!(R1CS::from_bytes(&bytes).err(), Some(R1csError::Bounds));
    let zero_field = container(&[(1, header_body(0, 4, 1, 1, 1, 0)), (2, vec![])]);
    assert_eq!(R1CS::from_bytes(&zero_field).err(), Some(R1csError::Bounds));
    let big_field = container(&[(1, header_body(65, 4, 1, 1, 1, 0)), (2, vec![])]);
    assert_eq!(R1CS::from_bytes(&big_field).err(), Some(R1csError::Bounds));
    let fine = container(&[(1, header_body(64, 4, 1, 1, 1, 0)), (2, vec![])]);
    assert!(R1CS::from_bytes(&fine).is_ok());
}

#[test]
fn header_read_within_its_section() {
    let mut body = header_body(8, 4, 1, 1, 1, 0);
    body.pop();
    let bytes = container(&[(1, body), (2, vec![0, 0, 0, 0])]);
    assert_eq!(R1CS::from_bytes(&bytes).err(), Some(R1csError::Format));
}

#[test]
fn oversized_term_count_is_overflow() {
    let mut stream = Vec::new();
    u32le(&mut stream, MAX_TERMS + 1);
    assert_eq!(decode_constraints(&stream, 1, 8).err(), Some(R1csError::Overflow));
    let bytes = container(&[(1, header_body(8, 4, 1, 1, 1, 1)), (2, stream)]);
    assert_eq!(R1CS::from_bytes(&bytes).err(), Some(R1csError::Overflow));
}

#[test]
fn oversized_constraint_count_is_overflow() {
    assert_eq!(decode_constraints(&[], u32::MAX, 8).err(), Some(R1csError::Overflow));
}

#[test]
fn truncated_constraint_is_format_error() {
    let cs = sample_constraints(8);
    let stream = encode_constraints(&cs);
    assert_eq!(decode_constraints(&stream[..stream.len() - 1], 2, 8).err(), Some(R1csError::Format));
    assert_eq!(decode_constraints(&stream, 3, 8).err(), Some(R1csError::Format));
}

#[test]
fn empty_combinations_decode_as_empty() {
    let mut stream = Vec::new();
    for _ in 0..3 {
        u32le(&mut stream, 0);
    }
    let cs = decode_constraints(&stream, 1, 32).unwrap();
    assert_eq!(cs.len(), 1);
    assert!(cs[0].a_terms.is_empty() && cs[0].b_terms.is_empty() && cs[0].c_terms.is_empty());
}

#[test]
fn encode_layout_is_exact() {
    let cs = vec![R1CSConstraint {
        a_terms: vec![Term { wire_id: 0x01020304, coefficient: vec![0xaa, 0xbb] }],
        b_terms: vec![],
        c_terms: vec![],
    }];
    let bytes = encode_constraints(&cs);
    assert_eq!(
        bytes,
        vec![1, 0, 0, 0, 4, 3, 2, 1, 0xaa, 0xbb, 0, 0, 0, 0, 0, 0, 0, 0]
    );
}

#[test]
fn constraint_round_trip() {
    let size = 32;
    let mut cs = sample_constraints(size);
    cs.push(R1CSConstraint {
        a_terms: vec![term(7, 1, size), term(0, 200, size), term(7, 3, size)],
        b_terms: vec![term(4, 0, size)],
        c_terms: vec![term(u32::MAX, 255, size)],
    });
    let bytes = encode_constraints(&cs);
    let back = decode_constraints(&bytes, cs.len() as u32, size as u32).unwrap();
    assert_eq!(back, cs);
}

fn flat_container(field_words: u32, wires: u32, public: u32, private: u32, cs: &[R1CSConstraint]) -> Vec<u8> {
    let mut b = b"r1cs".to_vec();
    for n in [1u32, field_words, wires, public, private, cs.len() as u32] {
        u32le(&mut b, n);
    }
    b.extend_from_slice(&encode_constraints(&cs.to_vec()));
    b
}

#[test]
fn flat_container_decodes() {
    let cs = sample_constraints(16);
    let bytes = flat_container(2, 4, 2, 1, &cs);
    let r = R1CS::from_flat_bytes(&bytes).unwrap();
    assert_eq!(r.header.field_size, 16);
    assert_eq!(r.num_public_values(), 2);
    assert_eq!(r.num_private_inputs(), 1);
    assert_eq!(r.constraints(), &cs);
    let wrong = flat_container(2, 4, 2, 2, &cs);
    assert_eq!(R1CS::from_flat_bytes(&wrong).err(), Some(R1csError::Bounds));
    let wide = flat_container(9, 4, 2, 1, &cs);
    assert_eq!(R1CS::from_flat_bytes(&wide).err(), Some(R1csError::Bounds));
}

#[test]
fn constraint_section_must_be_filled_exactly() {
    let cs = sample_constraints(8);
    let mut body = encode_constraints(&cs);
    body.push(0);
    let bytes = container(&[(1, header_body(8, 4, 1, 1, 1, 2)), (2, body)]);
    assert_eq!(R1CS::from_bytes(&bytes).err(), Some(R1csError::Format));
}

#[test]
fn decoded_section_reencodes_byte_for_byte() {
    let mut body = Vec::new();
    for (count, wire) in [(2u32, 3u32), (0, 0), (1, 1)] {
        u32le(&mut body, count);
        for k in 0..count {
            u32le(&mut body, wire + k);
            body.extend_from_slice(&[0x10 + k as u8, 0, 0, 0xff]);
        }
    }
    let bytes = container(&[(2, body.clone()), (1, header_body(4, 5, 1, 1, 2, 1))]);
    let r = R1CS::from_bytes(&bytes).unwrap();
    assert_eq!(encode_constraints(r.constraints()), body);
}
