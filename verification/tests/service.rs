use credential_store::errors::CredError;
use credential_store::identity::Identity;
use credential_store::record::CredentialRecord;
use credential_store::service::Vault;

fn ident(b: &[u8]) -> Identity {
    Identity::from_bytes(b.to_vec())
}

fn rec(tag: &str) -> CredentialRecord {
    CredentialRecord::new(
        format!("name-{tag}").into_bytes(),
        format!("user-{tag}").into_bytes(),
        format!("secret-{tag}").into_bytes(),
        format!("url-{tag}").into_bytes(),
    )
}

fn assert_rec_eq(a: &CredentialRecord, b: &CredentialRecord) {
    assert_eq!(a.name, b.name);
    assert_eq!(a.username, b.username);
    assert_eq!(a.secret, b.secret);
    assert_eq!(a.url, b.url);
}

#[test]
fn add_list_delete_scenario() {
    let a = ident(b"identity-a");
    let mut v = Vault::new(&a);
    let id1 = v.add(&a, rec("one")).unwrap();
    assert_eq!(id1, 1);
    let id2 = v.add(&a, rec("two")).unwrap();
    assert_eq!(id2, 2);
    let listed = v.list(&a).unwrap();
    assert_eq!(listed.len(), 2);
    assert_eq!(listed[0].id, 1);
    assert_rec_eq(&listed[0].record, &rec("one"));
    assert_eq!(listed[1].id, 2);
    assert_rec_eq(&listed[1].record, &rec("two"));
    assert!(v.delete(&a, 1).is_ok());
    let listed = v.list(&a).unwrap();
    assert_eq!(listed.len(), 1);
    assert_eq!(listed[0].id, 2);
    assert_rec_eq(&listed[0].record, &rec("two"));
    assert_eq!(v.delete(&a, 1).err().unwrap(), CredError::NotFound);
}

#[test]
fn list_matches_insertion_order_after_mixed_ops() {
    let a = ident(b"mixer");
    let mut v = Vault::new(&a);
    let mut expected: Vec<u64> = Vec::new();
    for tag in ["p", "q", "r", "s"] {
        expected.push(v.add(&a, rec(tag)).unwrap());
    }
    assert!(v.delete(&a, expected[1]).is_ok());
    expected.remove(1);
    expected.push(v.add(&a, rec("t")).unwrap());
    assert!(v.delete(&a, expected[0]).is_ok());
    expected.remove(0);
    let listed = v.list(&a).unwrap();
    let got: Vec<u64> = listed.iter().map(|e| e.id).collect();
    assert_eq!(got, expected);
}

#[test]
fn ids_strictly_increase_and_are_never_reused() {
    let a = ident(b"reuser");
    let mut v = Vault::new(&a);
    let first = v.add(&a, rec("first")).unwrap();
    assert!(v.delete(&a, first).is_ok());
    let second = v.add(&a, rec("second")).unwrap();
    assert!(second > first);
    assert_eq!(second, first + 1);
}

#[test]
fn deleting_only_record_prunes_entry() {
    let a = ident(b"pruned");
    let mut v = Vault::new(&a);
    let id = v.add(&a, rec("only")).unwrap();
    assert!(v.delete(&a, id).is_ok());
    assert_eq!(v.list(&a).err().unwrap(), CredError::NoRecords);
}

#[test]
fn update_overwrites_every_field() {
    let a = ident(b"updater");
    let mut v = Vault::new(&a);
    let id = v.add(&a, rec("before")).unwrap();
    let out = v.update(&a, id, rec("after")).unwrap();
    assert_eq!(out.len(), 1);
    assert_eq!(out[0].id, id);
    assert_rec_eq(&out[0].record, &rec("after"));
    let listed = v.list(&a).unwrap();
    assert_rec_eq(&listed[0].record, &rec("after"));
}

#[test]
fn update_errors() {
    let a = ident(b"upd-a");
    let b = ident(b"upd-b");
    let mut v = Vault::new(&a);
    assert_eq!(v.update(&a, 1, rec("x")).err().unwrap(), CredError::NoRecords);
    let id = v.add(&a, rec("x")).unwrap();
    assert_eq!(v.update(&a, id + 7, rec("y")).err().unwrap(), CredError::NotFound);
    // another identity owns nothing, and never this id
    assert_eq!(v.update(&b, id, rec("y")).err().unwrap(), CredError::NoRecords);
    let other = v.add(&b, rec("z")).unwrap();
    assert_eq!(v.update(&b, id, rec("y")).err().unwrap(), CredError::NotFound);
    assert!(v.update(&b, other, rec("y")).is_ok());
}

#[test]
fn delete_errors() {
    let a = ident(b"del-a");
    let b = ident(b"del-b");
    let mut v = Vault::new(&a);
    assert_eq!(v.delete(&a, 1).err().unwrap(), CredError::NoRecords);
    let id = v.add(&a, rec("x")).unwrap();
    assert_eq!(v.delete(&a, id + 1).err().unwrap(), CredError::NotFound);
    let _ = v.add(&b, rec("w")).unwrap();
    assert_eq!(v.delete(&b, id).err().unwrap(), CredError::NotFound);
}

#[test]
fn anonymous_is_rejected_everywhere() {
    let a = ident(b"real");
    let anon = Identity::anonymous();
    let mut v = Vault::new(&a);
    let id = v.add(&a, rec("kept")).unwrap();
    assert_eq!(v.add(&anon, rec("no")).err().unwrap(), CredError::Unauthorized);
    assert_eq!(v.list(&anon).err().unwrap(), CredError::Unauthorized);
    assert_eq!(v.update(&anon, id, rec("no")).err().unwrap(), CredError::Unauthorized);
    assert_eq!(v.delete(&anon, id).err().unwrap(), CredError::Unauthorized);
    // the gated state is untouched
    let listed = v.list(&a).unwrap();
    assert_eq!(listed.len(), 1);
    assert_rec_eq(&listed[0].record, &rec("kept"));
}

#[test]
fn identities_are_isolated() {
    let a = ident(b"alpha");
    let b = ident(b"beta");
    let mut v = Vault::new(&a);
    let ia = v.add(&a, rec("a1")).unwrap();
    let ib = v.add(&b, rec("b1")).unwrap();
    assert_ne!(ia, ib);
    let la = v.list(&a).unwrap();
    assert_eq!(la.len(), 1);
    assert_eq!(la[0].id, ia);
    let lb = v.list(&b).unwrap();
    assert_eq!(lb.len(), 1);
    assert_eq!(lb[0].id, ib);
}

#[test]
fn initializer_is_fixed_at_creation() {
    let a = ident(b"the-initializer");
    let b = ident(b"someone-else");
    let mut v = Vault::new(&a);
    let _ = v.add(&b, rec("x")).unwrap();
    assert_eq!(v.get_initializer().as_bytes(), &b"the-initializer".to_vec());
    assert_eq!(v.counter_value(), 2);
}

#[test]
fn anonymous_identity_shape() {
    let anon = Identity::anonymous();
    assert!(anon.is_anonymous());
    assert_eq!(anon.as_bytes(), &vec![4u8]);
    let named = ident(b"somebody");
    assert!(!named.is_anonymous());
    assert!(named.same_as(&ident(b"somebody")));
    assert!(!named.same_as(&ident(b"somebody-else")));
}
