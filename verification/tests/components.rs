use credential_store::errors::CredError;
use credential_store::identity::Identity;
use credential_store::index::OwnershipIndex;
use credential_store::record::CredentialRecord;
use credential_store::store::RecordStore;

fn ident(b: &[u8]) -> Identity {
    Identity::from_bytes(b.to_vec())
}

fn rec(tag: &str) -> CredentialRecord {
    CredentialRecord::new(
        format!("name-{tag}").into_bytes(),
        format!("user-{tag}").into_bytes(),
        format!("secret-{tag}").into_bytes(),
        format!("url-{tag}").into_bytes(),
    )
}

#[test]
fn store_insert_get_overwrite() {
    let mut st = RecordStore::new();
    st.insert(7, rec("old"));
    assert_eq!(st.get(7).unwrap().name, rec("old").name);
    st.insert(7, rec("new"));
    assert_eq!(st.get(7).unwrap().name, rec("new").name);
    assert!(st.get(8).is_none());
}

#[test]
fn store_remove_reports_presence() {
    let mut st = RecordStore::new();
    st.insert(1, rec("a"));
    assert!(st.remove(1));
    assert!(!st.remove(1));
    assert!(st.get(1).is_none());
}

#[test]
fn store_get_many_keeps_order_and_skips_missing() {
    let mut st = RecordStore::new();
    st.insert(1, rec("one"));
    st.insert(2, rec("two"));
    st.insert(3, rec("three"));
    let out = st.get_many(&vec![3, 99, 1]);
    assert_eq!(out.len(), 2);
    assert_eq!(out[0].id, 3);
    assert_eq!(out[0].record.name, rec("three").name);
    assert_eq!(out[1].id, 1);
    assert_eq!(out[1].record.name, rec("one").name);
}

#[test]
fn index_add_list_contains() {
    let a = ident(b"ix-a");
    let b = ident(b"ix-b");
    let mut ix = OwnershipIndex::new();
    ix.add_id(&a, 1);
    ix.add_id(&a, 3);
    ix.add_id(&b, 2);
    assert_eq!(ix.list_ids(&a).unwrap(), vec![1, 3]);
    assert_eq!(ix.list_ids(&b).unwrap(), vec![2]);
    assert!(ix.contains(&a, 3));
    assert!(!ix.contains(&a, 2));
    assert!(!ix.contains(&ident(b"ix-c"), 1));
}

#[test]
fn index_remove_prunes_empty_entry() {
    let a = ident(b"ix-prune");
    let mut ix = OwnershipIndex::new();
    ix.add_id(&a, 5);
    assert!(ix.remove_id(&a, 5).is_ok());
    assert_eq!(ix.list_ids(&a).err().unwrap(), CredError::NoRecords);
}

#[test]
fn index_remove_errors() {
    let a = ident(b"ix-err");
    let mut ix = OwnershipIndex::new();
    assert_eq!(ix.remove_id(&a, 1).err().unwrap(), CredError::NotFound);
    ix.add_id(&a, 1);
    assert_eq!(ix.remove_id(&a, 2).err().unwrap(), CredError::NotFound);
    assert_eq!(ix.list_ids(&a).unwrap(), vec![1]);
}

#[test]
fn index_keeps_insertion_order_across_removal() {
    let a = ident(b"ix-order");
    let mut ix = OwnershipIndex::new();
    for id in [10, 20, 30, 40] {
        ix.add_id(&a, id);
    }
    assert!(ix.remove_id(&a, 20).is_ok());
    assert_eq!(ix.list_ids(&a).unwrap(), vec![10, 30, 40]);
}
