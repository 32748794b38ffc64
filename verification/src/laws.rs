//! Laws of the credential service, stated over the spec transitions
//! that the executable operations are proved to implement.

use vstd::prelude::*;
use crate::identity::anonymous_bytes;
use crate::index::{
    has_owner, id_pos, id_unowned, ids_of, lemma_add_id_wf, lemma_remove_id_wf,
};
use crate::record::RecordView;
use crate::service::{
    lemma_counter_fresh, lemma_spec_add_wf, lemma_spec_delete_wf, lemma_spec_update_wf, spec_add,
    spec_delete, spec_update, vault_wf, VaultView,
};
use crate::store::{has_rec, lemma_rec_idx_is, rec_idx, rec_of};

verus! {

/// One gated operation of a single caller on its own records.
pub ghost enum OwnerOp {
    Add(RecordView),
    Remove(u64),
}

/// The state after one operation by `o`; an operation whose
/// precondition fails (an exhausted counter, an unowned id) leaves the
/// state unchanged, as the executable operations do.
pub open spec fn apply_op(s: VaultView, o: Seq<u8>, op: OwnerOp) -> VaultView {
    match op {
        OwnerOp::Add(r) => if s.counter < u64::MAX {
            spec_add(s, o, r)
        } else {
            s
        },
        OwnerOp::Remove(id) => if has_owner(s.owners, o) && ids_of(s.owners, o).contains(id) {
            spec_delete(s, o, id)
        } else {
            s
        },
    }
}

/// The state after a whole sequence of operations by `o`.
pub open spec fn apply_ops(s: VaultView, o: Seq<u8>, ops: Seq<OwnerOp>) -> VaultView
    decreases ops.len(),
{
    if ops.len() == 0 {
        s
    } else {
        apply_ops(apply_op(s, o, ops[0]), o, ops.drop_first())
    }
}

/// The ids `o` owns, empty when it has no entry.
pub open spec fn owned_ids(s: VaultView, o: Seq<u8>) -> Seq<u64> {
    if has_owner(s.owners, o) {
        ids_of(s.owners, o)
    } else {
        Seq::<u64>::empty()
    }
}

/// The ids not yet deleted after `ops`, in insertion order, starting
/// from the owned ids `ids` with the counter at `c`.
pub open spec fn surviving_ids(ids: Seq<u64>, c: u64, ops: Seq<OwnerOp>) -> Seq<u64>
    decreases ops.len(),
{
    if ops.len() == 0 {
        ids
    } else {
        match ops[0] {
            OwnerOp::Add(_) => if c < u64::MAX {
                surviving_ids(ids.push(c), (c + 1) as u64, ops.drop_first())
            } else {
                surviving_ids(ids, c, ops.drop_first())
            },
            OwnerOp::Remove(id) => if ids.contains(id) {
                surviving_ids(ids.remove(id_pos(ids, id)), c, ops.drop_first())
            } else {
                surviving_ids(ids, c, ops.drop_first())
            },
        }
    }
}

/// After any sequence of add and delete operations by one caller, the
/// caller owns exactly the ids not yet deleted, in insertion order —
/// and the state stays well formed with a never-decreasing counter.
pub proof fn lemma_list_is_history(s: VaultView, o: Seq<u8>, ops: Seq<OwnerOp>)
    requires
        vault_wf(s),
        o != anonymous_bytes(),
    ensures
        vault_wf(apply_ops(s, o, ops)),
        owned_ids(apply_ops(s, o, ops), o) == surviving_ids(owned_ids(s, o), s.counter, ops),
        apply_ops(s, o, ops).counter >= s.counter,
    decreases ops.len(),
{
    if ops.len() > 0 {
        let s1 = apply_op(s, o, ops[0]);
        match ops[0] {
            OwnerOp::Add(r) => {
                if s.counter < u64::MAX {
                    lemma_spec_add_wf(s, o, r);
                    lemma_counter_fresh(s);
                    lemma_add_id_wf(s.owners, o, s.counter);
                    assert(owned_ids(s1, o) =~= owned_ids(s, o).push(s.counter));
                }
            },
            OwnerOp::Remove(id) => {
                if has_owner(s.owners, o) && ids_of(s.owners, o).contains(id) {
                    lemma_spec_delete_wf(s, o, id);
                    lemma_remove_id_wf(s.owners, o, id);
                    let ids = ids_of(s.owners, o);
                    let k = id_pos(ids, id);
                    assert(0 <= k < ids.len() && ids[k] == id) by {
                        let w = choose|w: int| 0 <= w < ids.len() && ids[w] == id;
                        crate::index::lemma_id_pos_is(ids, id, w);
                    }
                    if ids.len() == 1 {
                        assert(owned_ids(s1, o) =~= ids.remove(k));
                    }
                    assert(owned_ids(s1, o) =~= owned_ids(s, o).remove(
                        id_pos(owned_ids(s, o), id),
                    ));
                }
            },
        }
        lemma_list_is_history(s1, o, ops.drop_first());
        assert(surviving_ids(owned_ids(s, o), s.counter, ops) == surviving_ids(
            owned_ids(s1, o),
            s1.counter,
            ops.drop_first(),
        ));
    }
}

/// Record ids strictly increase and are never reused: the id that the
/// next add assigns backs no record ever stored, nobody owns it, and
/// the counter afterwards is strictly greater.
pub proof fn lemma_ids_never_reused(s: VaultView, o: Seq<u8>, r: RecordView)
    requires
        vault_wf(s),
        o != anonymous_bytes(),
        s.counter < u64::MAX,
    ensures
        !has_rec(s.records, s.counter),
        id_unowned(s.owners, s.counter),
        spec_add(s, o, r).counter > s.counter,
        vault_wf(spec_add(s, o, r)),
{
    lemma_counter_fresh(s);
    lemma_spec_add_wf(s, o, r);
}

/// Deleting the caller's only record prunes its entry entirely, so a
/// subsequent list finds no entry at all.
pub proof fn lemma_delete_last_prunes(s: VaultView, o: Seq<u8>, id: u64)
    requires
        vault_wf(s),
        has_owner(s.owners, o),
        ids_of(s.owners, o) == seq![id],
    ensures
        !has_owner(spec_delete(s, o, id).owners, o),
        vault_wf(spec_delete(s, o, id)),
{
    assert(ids_of(s.owners, o).contains(id)) by {
        assert(ids_of(s.owners, o)[0] == id);
    }
    lemma_remove_id_wf(s.owners, o, id);
    lemma_spec_delete_wf(s, o, id);
}

/// An update replaces the stored record whole — every field comes
/// from the new record — and touches no other record.
pub proof fn lemma_update_replaces_whole(s: VaultView, id: u64, r: RecordView)
    requires
        vault_wf(s),
        has_rec(s.records, id),
    ensures
        has_rec(spec_update(s, id, r).records, id),
        rec_of(spec_update(s, id, r).records, id) == r,
        forall|id2: u64|
            id2 != id ==> #[trigger] has_rec(spec_update(s, id, r).records, id2) == has_rec(
                s.records,
                id2,
            ),
        forall|id2: u64|
            id2 != id && has_rec(s.records, id2) ==> #[trigger] rec_of(
                spec_update(s, id, r).records,
                id2,
            ) == rec_of(s.records, id2),
        vault_wf(spec_update(s, id, r)),
{
    lemma_spec_update_wf(s, id, r);
    let s2 = spec_update(s, id, r);
    let w = rec_idx(s.records, id);
    lemma_rec_idx_is(s.records, id, choose|j: int|
        0 <= j < s.records.len() && s.records[j].0 == id);
    assert(0 <= w < s.records.len() && s.records[w].0 == id);
    assert(s2.records[w] == (id, r));
    lemma_rec_idx_is(s2.records, id, w);
    assert forall|id2: u64| id2 != id implies #[trigger] has_rec(s2.records, id2) == has_rec(
        s.records,
        id2,
    ) by {
        if has_rec(s.records, id2) {
            let j = choose|j: int| 0 <= j < s.records.len() && s.records[j].0 == id2;
            assert(s2.records[j].0 == id2);
        }
        if has_rec(s2.records, id2) {
            let j = choose|j: int| 0 <= j < s2.records.len() && s2.records[j].0 == id2;
            assert(s.records[j].0 == id2);
        }
    }
    assert forall|id2: u64| id2 != id && has_rec(s.records, id2) implies #[trigger] rec_of(
        s2.records,
        id2,
    ) == rec_of(s.records, id2) by {
        let j = choose|j: int| 0 <= j < s.records.len() && s.records[j].0 == id2;
        lemma_rec_idx_is(s.records, id2, j);
        assert(s2.records[j].0 == id2);
        lemma_rec_idx_is(s2.records, id2, j);
    }
}

/// The anonymous identity never has an entry in a well-formed state,
/// so it owns no records in any state the operations can reach.
pub proof fn lemma_anonymous_owns_nothing(s: VaultView)
    requires
        vault_wf(s),
    ensures
        !has_owner(s.owners, anonymous_bytes()),
{
    if has_owner(s.owners, anonymous_bytes()) {
        let i = choose|i: int| 0 <= i < s.owners.len() && s.owners[i].0 == anonymous_bytes();
        assert(s.owners[i].0 != anonymous_bytes());
    }
}

} // verus!
