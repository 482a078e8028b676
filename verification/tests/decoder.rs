use oracle_relay::decode::decode_transfer_data;

fn base_payload() -> Vec<u8> {
    vec![0u8; 312]
}

#[test]
fn short_payload_fails_deterministically() {
    assert!(decode_transfer_data(&Vec::new()).is_none());
    assert!(decode_transfer_data(&vec![0u8; 311]).is_none());
    assert!(decode_transfer_data(&vec![0u8; 100]).is_none());
}

#[test]
fn minimum_length_payload_decodes() {
    let d = decode_transfer_data(&base_payload()).unwrap();
    assert_eq!(d.recipient.len(), 57);
    assert_eq!(d.token.len(), 57);
    assert_eq!(d.amount, 0);
}

#[test]
fn recipient_window_is_bytes_159_to_216() {
    let mut p = base_payload();
    p[159] = 3;
    p[160] = b'a';
    p[161] = b'b';
    p[162] = b'c';
    let d = decode_transfer_data(&p).unwrap();
    assert_eq!(d.recipient[0], 3);
    assert_eq!(&d.recipient[1..4], b"abc");
    assert_eq!(d.recipient.len(), 57);
    assert!(d.recipient[4..].iter().all(|&b| b == 0));
}

#[test]
fn token_window_is_bytes_255_to_312() {
    let mut p = base_payload();
    p[255] = 2;
    p[256] = b'x';
    p[257] = b'y';
    p[311] = 9;
    let d = decode_transfer_data(&p).unwrap();
    assert_eq!(d.token[0], 2);
    assert_eq!(&d.token[1..3], b"xy");
    assert_eq!(d.token[56], 9);
    assert_eq!(d.token.len(), 57);
}

#[test]
fn amount_is_big_endian_fold_of_bytes_112_to_128() {
    let mut p = base_payload();
    p[127] = 7;
    assert_eq!(decode_transfer_data(&p).unwrap().amount, 7);

    let mut p = base_payload();
    p[126] = 1;
    p[127] = 2;
    assert_eq!(decode_transfer_data(&p).unwrap().amount, 258);

    let mut p = base_payload();
    p[112] = 1;
    assert_eq!(decode_transfer_data(&p).unwrap().amount, 1i128 << 120);
}

#[test]
fn amount_folds_into_a_signed_accumulator() {
    // the high bit of the 16-byte window carries into the sign
    let mut p = base_payload();
    p[112] = 0x80;
    assert_eq!(decode_transfer_data(&p).unwrap().amount, i128::MIN);

    let mut p = base_payload();
    for b in p[112..128].iter_mut() {
        *b = 0xff;
    }
    assert_eq!(decode_transfer_data(&p).unwrap().amount, -1);
}

#[test]
fn offset_drift_changes_no_other_field() {
    let mut p = base_payload();
    p[158] = 0xff;
    p[216] = 0xff;
    p[254] = 0xff;
    p[111] = 0xff;
    let d = decode_transfer_data(&p).unwrap();
    assert!(d.recipient.iter().all(|&b| b == 0));
    assert!(d.token.iter().all(|&b| b == 0));
    assert_eq!(d.amount, 0);
}

#[test]
fn decoder_is_pure() {
    let mut p = base_payload();
    p[159] = 4;
    p[170] = 0xaa;
    p[255] = 1;
    p[300] = 0xbb;
    p[120] = 17;
    let d1 = decode_transfer_data(&p).unwrap();
    let d2 = decode_transfer_data(&p).unwrap();
    assert_eq!(d1.recipient, d2.recipient);
    assert_eq!(d1.token, d2.token);
    assert_eq!(d1.amount, d2.amount);
}
