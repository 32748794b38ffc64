use credential_store::errors::RestoreError;
use credential_store::identity::Identity;
use credential_store::record::CredentialRecord;
use credential_store::service::Vault;
use credential_store::snapshot::{
    capture, check_vault_wf, decode_vault, encode_vault, restore, restore_or_fallback,
};

fn ident(b: &[u8]) -> Identity {
    Identity::from_bytes(b.to_vec())
}

fn rec(tag: &str) -> CredentialRecord {
    CredentialRecord::new(
        format!("name-{tag}").into_bytes(),
        format!("user-{tag}").into_bytes(),
        format!("secret-{tag}").into_bytes(),
        format!("url-{tag}").into_bytes(),
    )
}

fn populated() -> Vault {
    let a = ident(b"holder-a");
    let b = ident(b"holder-b");
    let mut v = Vault::new(&ident(b"the-initializer"));
    let id1 = v.add(&a, rec("one")).unwrap();
    let _id2 = v.add(&a, rec("two")).unwrap();
    let _id3 = v.add(&b, rec("three")).unwrap();
    v.delete(&a, id1).unwrap();
    v
}

fn assert_same_observable(x: &Vault, y: &Vault) {
    assert_eq!(x.counter_value(), y.counter_value());
    assert_eq!(x.get_initializer().as_bytes(), y.get_initializer().as_bytes());
    for who in [b"holder-a".as_slice(), b"holder-b".as_slice()] {
        let w = ident(who);
        match (x.list(&w), y.list(&w)) {
            (Ok(lx), Ok(ly)) => {
                assert_eq!(lx.len(), ly.len());
                for (ex, ey) in lx.iter().zip(ly.iter()) {
                    assert_eq!(ex.id, ey.id);
                    assert_eq!(ex.record.name, ey.record.name);
                    assert_eq!(ex.record.username, ey.record.username);
                    assert_eq!(ex.record.secret, ey.record.secret);
                    assert_eq!(ex.record.url, ey.record.url);
                }
            }
            (Err(ex), Err(ey)) => assert_eq!(ex, ey),
            _ => panic!("one state lists, the other does not"),
        }
    }
}

#[test]
fn capture_then_restore_round_trips() {
    let v = populated();
    let bundle = capture(&v);
    let bytes = encode_vault(&bundle);
    let back = restore(Some(&bytes)).unwrap();
    assert_same_observable(&v, &back);
}

#[test]
fn decode_inverts_encode() {
    let v = populated();
    let bytes = encode_vault(&v);
    let back = decode_vault(&bytes).expect("a fresh encoding decodes");
    assert_same_observable(&v, &back);
    assert!(check_vault_wf(&back));
}

#[test]
fn missing_region_yields_fallback() {
    let caller = ident(b"first-deployer");
    assert_eq!(restore(None).err().unwrap(), RestoreError::MissingSnapshot);
    let (v, restored) = restore_or_fallback(None, &caller);
    assert!(!restored);
    assert_eq!(v.counter_value(), 1);
    assert_eq!(v.get_initializer().as_bytes(), &b"first-deployer".to_vec());
    assert_eq!(
        v.list(&caller).err().unwrap(),
        credential_store::errors::CredError::NoRecords
    );
}

#[test]
fn empty_region_yields_fallback() {
    let caller = ident(b"restarter");
    let empty: Vec<u8> = Vec::new();
    assert_eq!(
        restore(Some(&empty)).err().unwrap(),
        RestoreError::DecodeFailure
    );
    let (v, restored) = restore_or_fallback(Some(&empty), &caller);
    assert!(!restored);
    assert_eq!(v.counter_value(), 1);
}

#[test]
fn wrong_version_tag_fails_decode() {
    let v = populated();
    let mut bytes = encode_vault(&v);
    bytes[0] = bytes[0].wrapping_add(1);
    assert!(decode_vault(&bytes).is_none());
    assert_eq!(
        restore(Some(&bytes)).err().unwrap(),
        RestoreError::DecodeFailure
    );
}

#[test]
fn truncated_bytes_fail_decode() {
    let v = populated();
    let bytes = encode_vault(&v);
    let truncated: Vec<u8> = bytes[..bytes.len() - 1].to_vec();
    assert!(decode_vault(&truncated).is_none());
}

#[test]
fn trailing_garbage_fails_decode() {
    let v = populated();
    let mut bytes = encode_vault(&v);
    bytes.push(0);
    assert!(decode_vault(&bytes).is_none());
}

#[test]
fn ill_formed_snapshot_falls_back() {
    // a snapshot whose counter was never valid decodes structurally
    // but fails the consistency check
    let mut bad = Vault::new(&ident(b"x"));
    bad.counter = 0;
    assert!(!check_vault_wf(&bad));
    let bytes = encode_vault(&bad);
    assert!(decode_vault(&bytes).is_some());
    assert_eq!(
        restore(Some(&bytes)).err().unwrap(),
        RestoreError::DecodeFailure
    );
    let caller = ident(b"rescuer");
    let (v, restored) = restore_or_fallback(Some(&bytes), &caller);
    assert!(!restored);
    assert_eq!(v.counter_value(), 1);
    assert_eq!(v.get_initializer().as_bytes(), &b"rescuer".to_vec());
}

#[test]
fn restore_keeps_initializer_not_restart_caller() {
    let v = populated();
    let bytes = encode_vault(&capture(&v));
    let restart_caller = ident(b"upgrade-caller");
    let (back, restored) = restore_or_fallback(Some(&bytes), &restart_caller);
    assert!(restored);
    assert_eq!(back.get_initializer().as_bytes(), &b"the-initializer".to_vec());
}

#[test]
fn fresh_state_round_trips_too() {
    let v = Vault::new(&ident(b"lone"));
    let bytes = encode_vault(&v);
    let back = restore(Some(&bytes)).unwrap();
    assert_eq!(back.counter_value(), 1);
    assert_eq!(back.get_initializer().as_bytes(), &b"lone".to_vec());
}
