use r1cs_script::script::{
    assemble_script, encode_push, item_hexes, script_hex, OP_0, OP_PUSHDATA1, OP_PUSHDATA2,
    OP_VERIFY_PROOF,
};

#[test]
fn push_of_75_bytes_is_bare() {
    let item = vec![7u8; 75];
    let op = encode_push(&item);
    assert_eq!(op[0], 75);
    assert_eq!(&op[1..], &item[..]);
    assert_eq!(op.len(), 76);
}

#[test]
fn push_of_76_bytes_uses_pushdata1() {
    let item = vec![7u8; 76];
    let op = encode_push(&item);
    assert_eq!(&op[..2], &[OP_PUSHDATA1, 76]);
    assert_eq!(&op[2..], &item[..]);
}

#[test]
fn single_zero_byte_is_empty_push() {
    assert_eq!(encode_push(&[0]), vec![OP_0]);
    assert_eq!(encode_push(&[1]), vec![1, 1]);
    assert_eq!(encode_push(&[0, 0]), vec![2, 0, 0]);
}

#[test]
fn long_pushes() {
    let op = encode_push(&vec![1u8; 255]);
    assert_eq!(&op[..2], &[OP_PUSHDATA1, 255]);
    let op = encode_push(&vec![1u8; 256]);
    assert_eq!(&op[..3], &[OP_PUSHDATA2, 0, 1]);
    assert_eq!(op.len(), 259);
    let op = encode_push(&vec![1u8; 0x1234]);
    assert_eq!(&op[..3], &[OP_PUSHDATA2, 0x34, 0x12]);
}

#[test]
fn script_in_item_order_with_terminal_opcode() {
    let items = vec![vec![0u8], vec![0xaa, 0xbb], vec![5u8; 80]];
    let s = assemble_script(&items);
    let mut expected = vec![OP_0, 2, 0xaa, 0xbb, OP_PUSHDATA1, 80];
    expected.extend_from_slice(&[5u8; 80]);
    expected.push(OP_VERIFY_PROOF);
    assert_eq!(s, expected);
    assert_eq!(assemble_script(&vec![]), vec![OP_VERIFY_PROOF]);
}

#[test]
fn hex_text_is_lowercase_pairs() {
    assert_eq!(script_hex(&vec![0x00, 0xab, 0x10, 0xff]), "00ab10ff");
    assert_eq!(script_hex(&vec![]), "");
    assert_eq!(item_hexes(&vec![vec![1, 2], vec![0xfe]]), vec!["0102".to_string(), "fe".to_string()]);
}
