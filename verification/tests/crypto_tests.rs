use msg_relay::crypto::{get_hash, get_rsa, sign, verify};

#[test]
fn test_rsa() {
    let (pr, pu) = get_rsa().unwrap();
    let data = "it's a rsa test";
    let sig = sign(data, &pr).unwrap();
    assert_eq!(true, verify(data, &pu, &sig).is_ok());
}

#[test]
fn verification_rejects_other_text() {
    let (pr, pu) = get_rsa().unwrap();
    let sig = sign("A1A", &pr).unwrap();
    assert_eq!(verify("A1B", &pu, &sig), Err("verify failed".to_string()));
    assert!(verify("A1A", &pu, &sig).is_ok());
    // signing is deterministic: the same key and text give the same bytes
    let sig2 = sign("A1A", &pr).unwrap();
    assert_eq!(sig, sig2);
    // a mangled signature is rejected
    let mut bad = sig.clone();
    bad[0] = bad[0].wrapping_add(1);
    assert_eq!(verify("A1A", &pu, &bad), Err("verify failed".to_string()));
}

#[test]
fn hash_is_a_real_digest() {
    // 32 bytes, input dependent, and never the input handed back
    let h1 = get_hash("abc");
    let h2 = get_hash("abd");
    let h3 = get_hash("abc");
    assert_eq!(h1.len(), 32);
    assert_eq!(h2.len(), 32);
    assert_ne!(h1, h2);
    assert_eq!(h1, h3);
    assert_ne!(h1, "abc".as_bytes().to_vec());
    // the SHA-256 of "abc", byte for byte
    let expected: Vec<u8> = vec![
        0xba, 0x78, 0x16, 0xbf, 0x8f, 0x01, 0xcf, 0xea, 0x41, 0x41, 0x40, 0xde, 0x5d, 0xae,
        0x22, 0x23, 0xb0, 0x03, 0x61, 0xa3, 0x96, 0x17, 0x7a, 0x9c, 0xb4, 0x10, 0xff, 0x61,
        0xf2, 0x00, 0x15, 0xad,
    ];
    assert_eq!(h1, expected);
}
