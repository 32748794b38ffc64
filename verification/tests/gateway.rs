use credential_store::gateway::{hex_key_of_outcome, to_hex, GatewayOutcome};

#[test]
fn hex_encodes_exact_digits() {
    assert_eq!(to_hex(&vec![]), Vec::<u8>::new());
    assert_eq!(to_hex(&vec![0x00]), b"00".to_vec());
    assert_eq!(to_hex(&vec![0x0f]), b"0f".to_vec());
    assert_eq!(to_hex(&vec![0xff]), b"ff".to_vec());
    assert_eq!(to_hex(&vec![0x12, 0xab, 0x00, 0x9c]), b"12ab009c".to_vec());
}

#[test]
fn key_reply_becomes_hex() {
    let out = hex_key_of_outcome(GatewayOutcome::Key(vec![0xde, 0xad, 0xbe, 0xef]));
    assert_eq!(out.ok().unwrap(), b"deadbeef".to_vec());
}

#[test]
fn rejection_keeps_code_and_message() {
    let out = hex_key_of_outcome(GatewayOutcome::Rejected {
        code: 403,
        message: b"refused by policy".to_vec(),
    });
    let e = match out {
        Err(e) => e,
        Ok(_) => panic!("a rejection must not yield a key"),
    };
    assert_eq!(e.code, 403);
    assert_eq!(e.message, b"refused by policy".to_vec());
}
