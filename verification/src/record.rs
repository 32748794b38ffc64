//! Credential records: four opaque ciphertext fields, never inspected.

use vstd::prelude::*;
use crate::identity::copy_bytes;

verus! {

/// The mathematical value of a credential record: its four opaque
/// ciphertext fields as byte sequences.
pub ghost struct RecordView {
    pub name: Seq<u8>,
    pub username: Seq<u8>,
    pub secret: Seq<u8>,
    pub url: Seq<u8>,
}

/// A stored credential: four opaque ciphertext blobs supplied by the
/// caller and passed through verbatim.
pub struct CredentialRecord {
    pub name: Vec<u8>,
    pub username: Vec<u8>,
    pub secret: Vec<u8>,
    pub url: Vec<u8>,
}

impl View for CredentialRecord {
    type V = RecordView;

    open spec fn view(&self) -> RecordView {
        RecordView {
            name: self.name@,
            username: self.username@,
            secret: self.secret@,
            url: self.url@,
        }
    }
}

impl CredentialRecord {
    /// Build a record from its four ciphertext fields.
    pub fn new(name: Vec<u8>, username: Vec<u8>, secret: Vec<u8>, url: Vec<u8>) -> (r:
        CredentialRecord)
        ensures
            r@ == (RecordView { name: name@, username: username@, secret: secret@, url: url@ }),
    {
        CredentialRecord { name, username, secret, url }
    }

    /// An independent copy of this record.
    pub fn duplicate(&self) -> (r: CredentialRecord)
        ensures
            r@ == self@,
    {
        CredentialRecord {
            name: copy_bytes(&self.name),
            username: copy_bytes(&self.username),
            secret: copy_bytes(&self.secret),
            url: copy_bytes(&self.url),
        }
    }
}

} // verus!
