//! The credential service: gated add/list/update/delete over one
//! owned context holding the counter, the record store, the ownership
//! index and the initializer identity.

use vstd::prelude::*;
use crate::errors::CredError;
use crate::identity::{anonymous_bytes, Identity};
use crate::index::{
    add_id_spec, has_owner, id_pos, id_unowned, ids_of, index_wf, lemma_add_id_wf,
    lemma_id_pos_is, lemma_owner_idx_is, lemma_remove_id_wf, owner_idx, IndexV, OwnershipIndex,
};
use crate::record::{CredentialRecord, RecordView};
use crate::store::{
    entries_view, get_many_spec, has_rec, lemma_get_many_all_present, lemma_rec_idx_is, rec_idx,
    rec_of, uniq_ids, RecordEntry, RecordStore,
};

verus! {

/// The mathematical value of the whole process state.
#[verifier::ext_equal]
pub ghost struct VaultView {
    pub counter: u64,
    pub records: Seq<(u64, RecordView)>,
    pub owners: IndexV,
    pub initializer: Seq<u8>,
}

/// The fresh fallback state: counter 1, nothing stored, nothing owned.
pub open spec fn fallback_view(init: Seq<u8>) -> VaultView {
    VaultView {
        counter: 1u64,
        records: Seq::<(u64, RecordView)>::empty(),
        owners: Seq::<(Seq<u8>, Seq<u64>)>::empty(),
        initializer: init,
    }
}

/// Cross-structure consistency: the counter starts at 1, ids are
/// distinct and below the counter, the index is well formed, every
/// indexed id is backed by a stored record, and the anonymous identity
/// owns nothing.
pub open spec fn vault_wf(s: VaultView) -> bool {
    &&& s.counter >= 1
    &&& uniq_ids(s.records)
    &&& index_wf(s.owners)
    &&& forall|i: int, a: int|
        0 <= i < s.owners.len() && 0 <= a < s.owners[i].1.len() ==> has_rec(
            s.records,
            #[trigger] s.owners[i].1[a],
        )
    &&& forall|i: int| 0 <= i < s.owners.len() ==> (#[trigger] s.owners[i].0) != anonymous_bytes()
    &&& forall|j: int| 0 <= j < s.records.len() ==> (#[trigger] s.records[j].0) < s.counter
}

/// The state after a successful add by `o`: the new record is stored
/// under the counter value, which `o` now owns, and the counter moves
/// up by one.
pub open spec fn spec_add(s: VaultView, o: Seq<u8>, r: RecordView) -> VaultView {
    VaultView {
        counter: (s.counter + 1) as u64,
        records: s.records.push((s.counter, r)),
        owners: add_id_spec(s.owners, o, s.counter),
        initializer: s.initializer,
    }
}

/// The state after a successful update of `id`: the stored record is
/// replaced whole; counter, ownership and initializer are untouched.
pub open spec fn spec_update(s: VaultView, id: u64, r: RecordView) -> VaultView {
    VaultView {
        counter: s.counter,
        records: s.records.update(rec_idx(s.records, id), (id, r)),
        owners: s.owners,
        initializer: s.initializer,
    }
}

/// The state after a successful delete of `id` by `o`: the id leaves
/// `o`'s entry (pruning it if it empties) and the record leaves the
/// store; the counter is not reset.
pub open spec fn spec_delete(s: VaultView, o: Seq<u8>, id: u64) -> VaultView {
    VaultView {
        counter: s.counter,
        records: s.records.remove(rec_idx(s.records, id)),
        owners: crate::index::remove_id_spec(s.owners, o, id),
        initializer: s.initializer,
    }
}

/// What a successful list by `o` returns: `o`'s ids in insertion
/// order, each paired with its stored record.
pub open spec fn list_view(s: VaultView, o: Seq<u8>) -> Seq<(u64, RecordView)> {
    get_many_spec(s.records, ids_of(s.owners, o))
}

/// In a well-formed state the next id is fresh: no record carries it
/// and nobody owns it.
pub proof fn lemma_counter_fresh(s: VaultView)
    requires
        vault_wf(s),
    ensures
        !has_rec(s.records, s.counter),
        id_unowned(s.owners, s.counter),
{
    if has_rec(s.records, s.counter) {
        let j = rec_idx(s.records, s.counter);
        lemma_rec_idx_is(s.records, s.counter, j);
        assert(s.records[j].0 < s.counter);
    }
    assert forall|i: int, a: int|
        0 <= i < s.owners.len() && 0 <= a < s.owners[i].1.len() implies (
    #[trigger] s.owners[i].1[a]) != s.counter by {
        let id = s.owners[i].1[a];
        assert(has_rec(s.records, id));
        let j = choose|j: int| 0 <= j < s.records.len() && s.records[j].0 == id;
        assert(s.records[j].0 < s.counter);
    }
}

/// A successful add preserves well-formedness.
pub proof fn lemma_spec_add_wf(s: VaultView, o: Seq<u8>, r: RecordView)
    requires
        vault_wf(s),
        o != anonymous_bytes(),
        s.counter < u64::MAX,
    ensures
        vault_wf(spec_add(s, o, r)),
{
    let s2 = spec_add(s, o, r);
    lemma_counter_fresh(s);
    lemma_add_id_wf(s.owners, o, s.counter);
    assert(uniq_ids(s2.records)) by {
        assert forall|x: int, y: int| 0 <= x < y < s2.records.len() implies s2.records[x].0
            != s2.records[y].0 by {
            if y < s.records.len() {
                assert(s.records[x].0 != s.records[y].0);
            } else {
                assert(s2.records[y].0 == s.counter);
                assert(s.records[x].0 < s.counter);
            }
        }
    }
    assert forall|i: int, a: int|
        0 <= i < s2.owners.len() && 0 <= a < s2.owners[i].1.len() implies has_rec(
        s2.records,
        #[trigger] s2.owners[i].1[a],
    ) by {
        let m = s.owners;
        let m2 = s2.owners;
        let id = m2[i].1[a];
        if has_owner(m, o) {
            let w = owner_idx(m, o);
            if i == w && a == m[w].1.len() {
                assert(id == s.counter);
                assert(s2.records[s.records.len() as int].0 == s.counter);
            } else {
                assert(m2[i].1[a] == m[i].1[a]);
                assert(has_rec(s.records, id));
                let j = choose|j: int| 0 <= j < s.records.len() && s.records[j].0 == id;
                assert(s2.records[j].0 == id);
            }
        } else {
            if i == m.len() {
                assert(id == s.counter);
                assert(s2.records[s.records.len() as int].0 == s.counter);
            } else {
                assert(m2[i].1[a] == m[i].1[a]);
                assert(has_rec(s.records, id));
                let j = choose|j: int| 0 <= j < s.records.len() && s.records[j].0 == id;
                assert(s2.records[j].0 == id);
            }
        }
    }
    assert forall|i: int| 0 <= i < s2.owners.len() implies (#[trigger] s2.owners[i].0)
        != anonymous_bytes() by {
        let m = s.owners;
        if has_owner(m, o) {
            assert(s2.owners[i].0 == m[i].0);
        } else {
            if i < m.len() {
                assert(s2.owners[i].0 == m[i].0);
            } else {
                assert(s2.owners[i].0 == o);
            }
        }
    }
    assert forall|j: int| 0 <= j < s2.records.len() implies (#[trigger] s2.records[j].0)
        < s2.counter by {
        if j < s.records.len() {
            assert(s.records[j].0 < s.counter);
        }
    }
}

/// A successful update preserves well-formedness: it changes one
/// stored record and nothing else.
pub proof fn lemma_spec_update_wf(s: VaultView, id: u64, r: RecordView)
    requires
        vault_wf(s),
        has_rec(s.records, id),
    ensures
        vault_wf(spec_update(s, id, r)),
{
    let s2 = spec_update(s, id, r);
    let w = rec_idx(s.records, id);
    assert(0 <= w < s.records.len() && s.records[w].0 == id);
    assert(forall|j: int| 0 <= j < s2.records.len() ==> (#[trigger] s2.records[j].0)
        == s.records[j].0);
    assert forall|x: int, y: int| 0 <= x < y < s2.records.len() implies s2.records[x].0
        != s2.records[y].0 by {
        assert(s.records[x].0 != s.records[y].0);
    }
    assert forall|i: int, a: int|
        0 <= i < s2.owners.len() && 0 <= a < s2.owners[i].1.len() implies has_rec(
        s2.records,
        #[trigger] s2.owners[i].1[a],
    ) by {
        let id2 = s.owners[i].1[a];
        assert(has_rec(s.records, id2));
        let j = choose|j: int| 0 <= j < s.records.len() && s.records[j].0 == id2;
        assert(s2.records[j].0 == id2);
    }
}

/// A successful delete preserves well-formedness.
pub proof fn lemma_spec_delete_wf(s: VaultView, o: Seq<u8>, id: u64)
    requires
        vault_wf(s),
        has_owner(s.owners, o),
        ids_of(s.owners, o).contains(id),
    ensures
        vault_wf(spec_delete(s, o, id)),
        has_rec(s.records, id),
{
    let s2 = spec_delete(s, o, id);
    let i = owner_idx(s.owners, o);
    assert(0 <= i < s.owners.len() && s.owners[i].0 == o);
    let ids = ids_of(s.owners, o);
    let k = choose|k: int| 0 <= k < ids.len() && ids[k] == id;
    assert(s.owners[i].1[k] == id);
    assert(has_rec(s.records, id));
    lemma_remove_id_wf(s.owners, o, id);
    let w = rec_idx(s.records, id);
    lemma_rec_idx_is(s.records, id, choose|j: int|
        0 <= j < s.records.len() && s.records[j].0 == id);
    assert(0 <= w < s.records.len() && s.records[w].0 == id);
    assert(forall|x: int| 0 <= x < w ==> (#[trigger] s2.records[x]) == s.records[x]);
    assert(forall|x: int|
        w <= x < s2.records.len() ==> (#[trigger] s2.records[x]) == s.records[x + 1]);
    assert forall|x: int, y: int| 0 <= x < y < s2.records.len() implies s2.records[x].0
        != s2.records[y].0 by {
        let x0 = if x < w { x } else { x + 1 };
        let y0 = if y < w { y } else { y + 1 };
        assert(s.records[x0].0 != s.records[y0].0);
    }
    assert forall|x: int, a: int|
        0 <= x < s2.owners.len() && 0 <= a < s2.owners[x].1.len() implies has_rec(
        s2.records,
        #[trigger] s2.owners[x].1[a],
    ) by {
        let m = s.owners;
        let m2 = s2.owners;
        let id2 = m2[x].1[a];
        assert(id2 != id);
        if ids.len() == 1 {
            let x0 = if x < i { x } else { x + 1 };
            assert(m2[x].1 == m[x0].1);
            assert(has_rec(s.records, id2));
        } else {
            if x == i {
                let kk = id_pos(ids, id);
                let a0 = if a < kk { a } else { a + 1 };
                assert(m2[x].1[a] == m[i].1[a0]);
                assert(has_rec(s.records, id2));
            } else {
                assert(m2[x].1 == m[x].1);
                assert(has_rec(s.records, id2));
            }
        }
        let j = choose|j: int| 0 <= j < s.records.len() && s.records[j].0 == id2;
        assert(j != w);
        let j2 = if j < w { j } else { j - 1 };
        assert(s2.records[j2].0 == id2);
    }
    assert forall|x: int| 0 <= x < s2.owners.len() implies (#[trigger] s2.owners[x].0)
        != anonymous_bytes() by {
        let m = s.owners;
        if ids.len() == 1 {
            let x0 = if x < i { x } else { x + 1 };
            assert(s2.owners[x].0 == m[x0].0);
        } else {
            if x == i {
                assert(s2.owners[x].0 == o);
                assert(m[i].0 == o);
            } else {
                assert(s2.owners[x].0 == m[x].0);
            }
        }
    }
    assert forall|j: int| 0 <= j < s2.records.len() implies (#[trigger] s2.records[j].0)
        < s2.counter by {
        let j0 = if j < w { j } else { j + 1 };
        assert(s.records[j0].0 < s.counter);
    }
}

/// The whole process state: the monotonic id counter, the record
/// store, the ownership index and the fixed initializer identity.
pub struct Vault {
    pub counter: u64,
    pub store: RecordStore,
    pub index: OwnershipIndex,
    pub initializer: Identity,
}

impl View for Vault {
    type V = VaultView;

    open spec fn view(&self) -> VaultView {
        VaultView {
            counter: self.counter,
            records: self.store@,
            owners: self.index@,
            initializer: self.initializer@,
        }
    }
}

/// Whether `ids` holds `id`.
pub(crate) fn ids_contain(ids: &Vec<u64>, id: u64) -> (r: bool)
    ensures
        r == ids@.contains(id),
{
    let mut k: usize = 0;
    while k < ids.len()
        invariant
            0 <= k <= ids@.len(),
            forall|a: int| 0 <= a < k ==> ids@[a] != id,
        decreases ids@.len() - k,
    {
        if ids[k] == id {
            return true;
        }
        k = k + 1;
    }
    proof {
        if ids@.contains(id) {
            let w = choose|w: int| 0 <= w < ids@.len() && ids@[w] == id;
            assert(ids@[w] != id);
        }
    }
    false
}

impl Vault {
    pub open spec fn wf(&self) -> bool {
        vault_wf(self@)
    }

    /// A fresh state, as first deployment creates it: counter 1,
    /// nothing stored, and the triggering identity recorded as
    /// initializer once and for all.
    pub fn new(initializer: &Identity) -> (r: Vault)
        ensures
            r@ == fallback_view(initializer@),
            r.wf(),
    {
        let r = Vault {
            counter: 1,
            store: RecordStore::new(),
            index: OwnershipIndex::new(),
            initializer: initializer.duplicate(),
        };
        proof {
            assert(r@ =~~= fallback_view(initializer@));
        }
        r
    }

    /// The next id the counter will assign.
    pub fn counter_value(&self) -> (r: u64)
        ensures
            r == self@.counter,
    {
        self.counter
    }

    /// The identity that performed initial deployment.
    pub fn get_initializer(&self) -> (r: &Identity)
        ensures
            r@ == self@.initializer,
    {
        &self.initializer
    }

    /// Gate the caller, allocate the next id, register it under the
    /// caller and store the record under it.
    pub fn add(&mut self, caller: &Identity, record: CredentialRecord) -> (r: Result<
        u64,
        CredError,
    >)
        requires
            old(self).wf(),
            old(self)@.counter < u64::MAX,
        ensures
            final(self).wf(),
            caller.is_anonymous_spec() ==> r is Err,
            !caller.is_anonymous_spec() ==> r is Ok,
            match r {
                Ok(id) => id == old(self)@.counter && final(self)@ == spec_add(
                    old(self)@,
                    caller@,
                    record@,
                ),
                Err(e) => e == CredError::Unauthorized && final(self)@ == old(self)@,
            },
    {
        let ghost s0 = self@;
        if caller.is_anonymous() {
            return Err(CredError::Unauthorized);
        }
        let id = self.counter;
        self.counter = self.counter + 1;
        proof {
            lemma_counter_fresh(s0);
        }
        self.index.add_id(caller, id);
        self.store.insert(id, record);
        proof {
            assert(self@ =~~= spec_add(s0, caller@, record@));
            lemma_spec_add_wf(s0, caller@, record@);
        }
        Ok(id)
    }

    /// Gate the caller and return its records, paired with their ids
    /// in insertion order.
    pub fn list(&self, caller: &Identity) -> (r: Result<Vec<RecordEntry>, CredError>)
        requires
            self.wf(),
        ensures
            caller.is_anonymous_spec() ==> r == Err::<Vec<RecordEntry>, CredError>(
                CredError::Unauthorized,
            ),
            !caller.is_anonymous_spec() && !has_owner(self@.owners, caller@) ==> r == Err::<
                Vec<RecordEntry>,
                CredError,
            >(CredError::NoRecords),
            !caller.is_anonymous_spec() && has_owner(self@.owners, caller@) ==> r is Ok,
            match r {
                Ok(v) => {
                    &&& entries_view(v@) == list_view(self@, caller@)
                    &&& v@.len() == ids_of(self@.owners, caller@).len()
                    &&& forall|k: int|
                        0 <= k < v@.len() ==> (#[trigger] v@[k])@ == (
                        ids_of(self@.owners, caller@)[k],
                        rec_of(self@.records, ids_of(self@.owners, caller@)[k]),
                        )
                },
                Err(_) => true,
            },
    {
        if caller.is_anonymous() {
            return Err(CredError::Unauthorized);
        }
        let owned = match self.index.list_ids(caller) {
            Ok(v) => v,
            Err(e) => {
                return Err(e);
            },
        };
        let out = self.store.get_many(&owned);
        proof {
            let ids = ids_of(self@.owners, caller@);
            let i = owner_idx(self@.owners, caller@);
            assert(0 <= i < self@.owners.len() && self@.owners[i].0 == caller@);
            assert(forall|k: int| 0 <= k < ids.len() ==> has_rec(
                self@.records,
                #[trigger] ids[k],
            )) by {
                assert(forall|k: int| 0 <= k < ids.len() ==> ids[k] == self@.owners[i].1[k]);
            }
            lemma_get_many_all_present(self@.records, ids);
            assert(entries_view(out@).len() == out@.len());
            assert forall|k: int| 0 <= k < out@.len() implies (#[trigger] out@[k])@ == (
            ids[k],
            rec_of(self@.records, ids[k]),
            ) by {
                assert(entries_view(out@)[k] == out@[k]@);
                assert(get_many_spec(self@.records, ids)[k] == (ids[k], rec_of(
                    self@.records,
                    ids[k],
                )));
            }
        }
        Ok(out)
    }

    /// Gate the caller, replace the whole record stored under `id` —
    /// all four fields, never a merge — and return the caller's full
    /// current record set.
    pub fn update(&mut self, caller: &Identity, id: u64, new_record: CredentialRecord) -> (r:
        Result<Vec<RecordEntry>, CredError>)
        requires
            old(self).wf(),
        ensures
            final(self).wf(),
            caller.is_anonymous_spec() ==> r == Err::<Vec<RecordEntry>, CredError>(
                CredError::Unauthorized,
            ),
            !caller.is_anonymous_spec() && !has_owner(old(self)@.owners, caller@) ==> r == Err::<
                Vec<RecordEntry>,
                CredError,
            >(CredError::NoRecords),
            !caller.is_anonymous_spec() && has_owner(old(self)@.owners, caller@) && !ids_of(
                old(self)@.owners,
                caller@,
            ).contains(id) ==> r == Err::<Vec<RecordEntry>, CredError>(CredError::NotFound),
            !caller.is_anonymous_spec() && has_owner(old(self)@.owners, caller@) && ids_of(
                old(self)@.owners,
                caller@,
            ).contains(id) ==> r is Ok,
            r is Err ==> final(self)@ == old(self)@,
            match r {
                Ok(v) => {
                    &&& final(self)@ == spec_update(old(self)@, id, new_record@)
                    &&& entries_view(v@) == list_view(final(self)@, caller@)
                    &&& v@.len() == ids_of(final(self)@.owners, caller@).len()
                    &&& forall|k: int|
                        0 <= k < v@.len() ==> (#[trigger] v@[k])@ == (
                        ids_of(final(self)@.owners, caller@)[k],
                        rec_of(final(self)@.records, ids_of(final(self)@.owners, caller@)[k]),
                        )
                },
                Err(_) => true,
            },
    {
        let ghost s0 = self@;
        if caller.is_anonymous() {
            return Err(CredError::Unauthorized);
        }
        let owned = match self.index.list_ids(caller) {
            Ok(v) => v,
            Err(e) => {
                return Err(e);
            },
        };
        if !ids_contain(&owned, id) {
            return Err(CredError::NotFound);
        }
        proof {
            let ids = ids_of(s0.owners, caller@);
            let i = owner_idx(s0.owners, caller@);
            let k = choose|k: int| 0 <= k < ids.len() && ids[k] == id;
            assert(s0.owners[i].1[k] == id);
            assert(has_rec(s0.records, id));
        }
        match self.store.get(id) {
            Some(_) => {},
            None => {
                // Unreachable while the index and the store agree; the
                // defensive divergence answer is the store-level
                // `NotFound`.
                return Err(CredError::NotFound);
            },
        }
        self.store.insert(id, new_record);
        proof {
            assert(self@ =~~= spec_update(s0, id, new_record@));
            lemma_spec_update_wf(s0, id, new_record@);
        }
        let out = match self.list(caller) {
            Ok(v) => v,
            Err(e) => {
                proof {
                    assert(has_owner(self@.owners, caller@));
                    assert(false);
                }
                return Err(e);
            },
        };
        Ok(out)
    }

    /// Gate the caller, remove `id` from its entry (pruning an empty
    /// entry) and remove the record from the store.
    pub fn delete(&mut self, caller: &Identity, id: u64) -> (r: Result<(), CredError>)
        requires
            old(self).wf(),
        ensures
            final(self).wf(),
            caller.is_anonymous_spec() ==> r == Err::<(), CredError>(CredError::Unauthorized),
            !caller.is_anonymous_spec() && !has_owner(old(self)@.owners, caller@) ==> r == Err::<
                (),
                CredError,
            >(CredError::NoRecords),
            !caller.is_anonymous_spec() && has_owner(old(self)@.owners, caller@) && !ids_of(
                old(self)@.owners,
                caller@,
            ).contains(id) ==> r == Err::<(), CredError>(CredError::NotFound),
            !caller.is_anonymous_spec() && has_owner(old(self)@.owners, caller@) && ids_of(
                old(self)@.owners,
                caller@,
            ).contains(id) ==> r is Ok,
            r is Err ==> final(self)@ == old(self)@,
            r is Ok ==> final(self)@ == spec_delete(old(self)@, caller@, id),
    {
        let ghost s0 = self@;
        if caller.is_anonymous() {
            return Err(CredError::Unauthorized);
        }
        let owned = match self.index.list_ids(caller) {
            Ok(v) => v,
            Err(e) => {
                return Err(e);
            },
        };
        if !ids_contain(&owned, id) {
            return Err(CredError::NotFound);
        }
        proof {
            lemma_spec_delete_wf(s0, caller@, id);
        }
        match self.index.remove_id(caller, id) {
            Ok(()) => {},
            Err(e) => {
                proof {
                    assert(false);
                }
                return Err(e);
            },
        }
        let removed = self.store.remove(id);
        if !removed {
            // Unreachable while the index and the store agree: the
            // index change stays committed and the lost record is
            // reported as the store-level `NotFound`.
            proof {
                assert(has_rec(s0.records, id));
            }
            return Err(CredError::NotFound);
        }
        proof {
            assert(self@ =~~= spec_delete(s0, caller@, id));
        }
        Ok(())
    }
}

} // verus!
