//! The ownership index: each identity's ordered ids, with the
//! single-owner and empty-entry-pruning invariants.

use vstd::prelude::*;
use crate::errors::CredError;
use crate::identity::Identity;

verus! {

/// One identity together with the ordered ids it owns.
pub struct OwnerEntry {
    pub owner: Identity,
    pub ids: Vec<u64>,
}

impl View for OwnerEntry {
    type V = (Seq<u8>, Seq<u64>);

    open spec fn view(&self) -> (Seq<u8>, Seq<u64>) {
        (self.owner@, self.ids@)
    }
}

/// The index as a sequence of (owner bytes, owned ids) pairs.
pub type IndexV = Seq<(Seq<u8>, Seq<u64>)>;

/// Whether `o` has an entry in `m`.
pub open spec fn has_owner(m: IndexV, o: Seq<u8>) -> bool {
    exists|i: int| 0 <= i < m.len() && m[i].0 == o
}

/// The position of `o`'s entry; meaningful when the owners of `m` are
/// distinct and `has_owner(m, o)` holds.
pub open spec fn owner_idx(m: IndexV, o: Seq<u8>) -> int {
    choose|i: int| 0 <= i < m.len() && m[i].0 == o
}

/// The ids owned by `o`, in insertion order.
pub open spec fn ids_of(m: IndexV, o: Seq<u8>) -> Seq<u64> {
    m[owner_idx(m, o)].1
}

/// The position of `id` within an id sequence; meaningful when the ids
/// are distinct and `ids.contains(id)` holds.
pub open spec fn id_pos(ids: Seq<u64>, id: u64) -> int {
    choose|k: int| 0 <= k < ids.len() && ids[k] == id
}

/// `id` is owned by nobody in `m`.
pub open spec fn id_unowned(m: IndexV, id: u64) -> bool {
    forall|i: int, a: int|
        0 <= i < m.len() && 0 <= a < m[i].1.len() ==> #[trigger] m[i].1[a] != id
}

/// The structural invariant of the index: owners are distinct, no
/// entry is empty, the ids within an entry are distinct, and no id
/// appears under two entries.
pub open spec fn index_wf(m: IndexV) -> bool {
    &&& forall|i: int, j: int| 0 <= i < j < m.len() ==> (#[trigger] m[i].0) != (#[trigger] m[j].0)
    &&& forall|i: int| 0 <= i < m.len() ==> (#[trigger] m[i].1).len() > 0
    &&& forall|i: int, a: int, b: int|
        0 <= i < m.len() && 0 <= a < b < m[i].1.len() ==> (#[trigger] m[i].1[a]) != (
        #[trigger] m[i].1[b])
    &&& forall|i: int, j: int, a: int, b: int|
        0 <= i < m.len() && 0 <= j < m.len() && i != j && 0 <= a < m[i].1.len() && 0 <= b
            < m[j].1.len() ==> (#[trigger] m[i].1[a]) != (#[trigger] m[j].1[b])
}

/// The index after appending `id` to `o`'s ids, creating the entry if
/// absent.
pub open spec fn add_id_spec(m: IndexV, o: Seq<u8>, id: u64) -> IndexV {
    if has_owner(m, o) {
        m.update(owner_idx(m, o), (o, ids_of(m, o).push(id)))
    } else {
        m.push((o, seq![id]))
    }
}

/// The index after removing `id` from `o`'s ids, pruning the entry if
/// it becomes empty; meaningful when `o` owns `id`.
pub open spec fn remove_id_spec(m: IndexV, o: Seq<u8>, id: u64) -> IndexV {
    let i = owner_idx(m, o);
    let ids = ids_of(m, o);
    if ids.len() == 1 {
        m.remove(i)
    } else {
        m.update(i, (o, ids.remove(id_pos(ids, id))))
    }
}

/// When the owners are distinct, the position of a known entry is the
/// one `owner_idx` picks.
pub proof fn lemma_owner_idx_is(m: IndexV, o: Seq<u8>, i: int)
    requires
        forall|x: int, y: int| 0 <= x < y < m.len() ==> (#[trigger] m[x].0) != (#[trigger] m[y].0),
        0 <= i < m.len(),
        m[i].0 == o,
    ensures
        has_owner(m, o),
        owner_idx(m, o) == i,
        ids_of(m, o) == m[i].1,
{
    assert(has_owner(m, o));
    let j = owner_idx(m, o);
    assert(0 <= j < m.len() && m[j].0 == o);
    if i < j {
        assert(m[i].0 != m[j].0);
    } else if j < i {
        assert(m[j].0 != m[i].0);
    }
}

/// When the ids are distinct, the position of a known id is the one
/// `id_pos` picks.
pub proof fn lemma_id_pos_is(ids: Seq<u64>, id: u64, k: int)
    requires
        forall|a: int, b: int| 0 <= a < b < ids.len() ==> ids[a] != ids[b],
        0 <= k < ids.len(),
        ids[k] == id,
    ensures
        ids.contains(id),
        id_pos(ids, id) == k,
{
    assert(ids.contains(id));
    let j = id_pos(ids, id);
    assert(0 <= j < ids.len() && ids[j] == id);
    if k < j {
        assert(ids[k] != ids[j]);
    } else if j < k {
        assert(ids[j] != ids[k]);
    }
}

/// Appending a fresh id keeps the index well formed; `o`'s ids gain
/// exactly `id` at the end, and every other owner is untouched.
pub proof fn lemma_add_id_wf(m: IndexV, o: Seq<u8>, id: u64)
    requires
        index_wf(m),
        id_unowned(m, id),
    ensures
        index_wf(add_id_spec(m, o, id)),
        has_owner(add_id_spec(m, o, id), o),
        has_owner(m, o) ==> ids_of(add_id_spec(m, o, id), o) == ids_of(m, o).push(id),
        !has_owner(m, o) ==> ids_of(add_id_spec(m, o, id), o) == seq![id],
        forall|o2: Seq<u8>|
            o2 != o ==> #[trigger] has_owner(add_id_spec(m, o, id), o2) == has_owner(m, o2),
        forall|o2: Seq<u8>|
            o2 != o && has_owner(m, o2) ==> #[trigger] ids_of(add_id_spec(m, o, id), o2) == ids_of(
                m,
                o2,
            ),
{
    let m2 = add_id_spec(m, o, id);
    if has_owner(m, o) {
        let i = owner_idx(m, o);
        assert(0 <= i < m.len() && m[i].0 == o);
        assert(m2 == m.update(i, (o, m[i].1.push(id))));
        assert(forall|k: int| 0 <= k < m2.len() ==> (#[trigger] m2[k].0) == m[k].0);
        assert forall|x: int, y: int| 0 <= x < y < m2.len() implies (#[trigger] m2[x].0) != (
        #[trigger] m2[y].0) by {
            assert(m[x].0 != m[y].0);
        }
        assert forall|x: int, a: int, b: int|
            0 <= x < m2.len() && 0 <= a < b < m2[x].1.len() implies (#[trigger] m2[x].1[a]) != (
        #[trigger] m2[x].1[b]) by {
            if x == i && b == m[i].1.len() {
                assert(m2[x].1[a] == m[i].1[a]);
                assert(m[i].1[a] != id);
            } else {
                assert(m2[x].1[a] == m[x].1[a]);
                assert(m2[x].1[b] == m[x].1[b]);
            }
        }
        assert forall|x: int, y: int, a: int, b: int|
            0 <= x < m2.len() && 0 <= y < m2.len() && x != y && 0 <= a < m2[x].1.len() && 0 <= b
                < m2[y].1.len() implies (#[trigger] m2[x].1[a]) != (#[trigger] m2[y].1[b]) by {
            if x == i && a == m[i].1.len() {
                assert(m2[x].1[a] == id);
                assert(m2[y].1[b] == m[y].1[b]);
            } else if y == i && b == m[i].1.len() {
                assert(m2[y].1[b] == id);
                assert(m2[x].1[a] == m[x].1[a]);
            } else {
                assert(m2[x].1[a] == m[x].1[a]);
                assert(m2[y].1[b] == m[y].1[b]);
            }
        }
        lemma_owner_idx_is(m2, o, i);
        assert forall|o2: Seq<u8>| o2 != o implies #[trigger] has_owner(m2, o2) == has_owner(
            m,
            o2,
        ) by {
            if has_owner(m, o2) {
                let j = owner_idx(m, o2);
                assert(m2[j].0 == o2);
            }
            if has_owner(m2, o2) {
                let j = choose|j: int| 0 <= j < m2.len() && m2[j].0 == o2;
                assert(m[j].0 == o2);
            }
        }
        assert forall|o2: Seq<u8>| o2 != o && has_owner(m, o2) implies #[trigger] ids_of(m2, o2)
            == ids_of(m, o2) by {
            let j = owner_idx(m, o2);
            assert(m[j].0 == o2);
            assert(j != i);
            lemma_owner_idx_is(m2, o2, j);
        }
    } else {
        assert(m2 == m.push((o, seq![id])));
        assert(forall|k: int| 0 <= k < m.len() ==> (#[trigger] m2[k]) == m[k]);
        assert(forall|k: int| 0 <= k < m.len() ==> (#[trigger] m[k].0) != o);
        assert forall|x: int, y: int| 0 <= x < y < m2.len() implies (#[trigger] m2[x].0) != (
        #[trigger] m2[y].0) by {
            if y == m.len() {
                assert(m2[y].0 == o);
                assert(m2[x].0 == m[x].0);
            } else {
                assert(m[x].0 != m[y].0);
            }
        }
        assert forall|x: int, a: int, b: int|
            0 <= x < m2.len() && 0 <= a < b < m2[x].1.len() implies (#[trigger] m2[x].1[a]) != (
        #[trigger] m2[x].1[b]) by {
            if x < m.len() {
                assert(m2[x].1 == m[x].1);
            } else {
                assert(m2[x].1.len() == 1);
            }
        }
        assert forall|x: int, y: int, a: int, b: int|
            0 <= x < m2.len() && 0 <= y < m2.len() && x != y && 0 <= a < m2[x].1.len() && 0 <= b
                < m2[y].1.len() implies (#[trigger] m2[x].1[a]) != (#[trigger] m2[y].1[b]) by {
            if x == m.len() {
                assert(m2[x].1[a] == id);
                assert(m2[y].1[b] == m[y].1[b]);
            } else if y == m.len() {
                assert(m2[y].1[b] == id);
                assert(m2[x].1[a] == m[x].1[a]);
            } else {
                assert(m2[x].1[a] == m[x].1[a]);
                assert(m2[y].1[b] == m[y].1[b]);
            }
        }
        lemma_owner_idx_is(m2, o, m.len() as int);
        assert forall|o2: Seq<u8>| o2 != o implies #[trigger] has_owner(m2, o2) == has_owner(
            m,
            o2,
        ) by {
            if has_owner(m, o2) {
                let j = owner_idx(m, o2);
                assert(m2[j].0 == o2);
            }
            if has_owner(m2, o2) {
                let j = choose|j: int| 0 <= j < m2.len() && m2[j].0 == o2;
                assert(j != m.len());
                assert(m[j].0 == o2);
            }
        }
        assert forall|o2: Seq<u8>| o2 != o && has_owner(m, o2) implies #[trigger] ids_of(m2, o2)
            == ids_of(m, o2) by {
            let j = owner_idx(m, o2);
            assert(m[j].0 == o2);
            lemma_owner_idx_is(m2, o2, j);
        }
    }
}

/// Removing an owned id keeps the index well formed, prunes the entry
/// exactly when `id` was its last id, leaves `id` owned by nobody, and
/// leaves every other owner untouched.
pub proof fn lemma_remove_id_wf(m: IndexV, o: Seq<u8>, id: u64)
    requires
        index_wf(m),
        has_owner(m, o),
        ids_of(m, o).contains(id),
    ensures
        index_wf(remove_id_spec(m, o, id)),
        has_owner(remove_id_spec(m, o, id), o) == (ids_of(m, o).len() > 1),
        ids_of(m, o).len() > 1 ==> ids_of(remove_id_spec(m, o, id), o) == ids_of(m, o).remove(
            id_pos(ids_of(m, o), id),
        ),
        id_unowned(remove_id_spec(m, o, id), id),
        forall|o2: Seq<u8>|
            o2 != o ==> #[trigger] has_owner(remove_id_spec(m, o, id), o2) == has_owner(m, o2),
        forall|o2: Seq<u8>|
            o2 != o && has_owner(m, o2) ==> #[trigger] ids_of(remove_id_spec(m, o, id), o2)
                == ids_of(m, o2),
{
    let i = owner_idx(m, o);
    assert(0 <= i < m.len() && m[i].0 == o);
    let ids = ids_of(m, o);
    let k = id_pos(ids, id);
    assert(0 <= k < ids.len() && ids[k] == id) by {
        let w = choose|w: int| 0 <= w < ids.len() && ids[w] == id;
        lemma_id_pos_is(ids, id, w);
    }
    let m2 = remove_id_spec(m, o, id);
    if ids.len() == 1 {
        assert(m2 == m.remove(i));
        assert(forall|x: int| 0 <= x < i ==> (#[trigger] m2[x]) == m[x]);
        assert(forall|x: int| i <= x < m2.len() ==> (#[trigger] m2[x]) == m[x + 1]);
        assert forall|x: int, y: int| 0 <= x < y < m2.len() implies (#[trigger] m2[x].0) != (
        #[trigger] m2[y].0) by {
            let x0 = if x < i { x } else { x + 1 };
            let y0 = if y < i { y } else { y + 1 };
            assert(m2[x].0 == m[x0].0);
            assert(m2[y].0 == m[y0].0);
            assert(m[x0].0 != m[y0].0);
        }
        assert forall|x: int, a: int, b: int|
            0 <= x < m2.len() && 0 <= a < b < m2[x].1.len() implies (#[trigger] m2[x].1[a]) != (
        #[trigger] m2[x].1[b]) by {
            let x0 = if x < i { x } else { x + 1 };
            assert(m2[x].1 == m[x0].1);
        }
        assert forall|x: int, y: int, a: int, b: int|
            0 <= x < m2.len() && 0 <= y < m2.len() && x != y && 0 <= a < m2[x].1.len() && 0 <= b
                < m2[y].1.len() implies (#[trigger] m2[x].1[a]) != (#[trigger] m2[y].1[b]) by {
            let x0 = if x < i { x } else { x + 1 };
            let y0 = if y < i { y } else { y + 1 };
            assert(m2[x].1 == m[x0].1);
            assert(m2[y].1 == m[y0].1);
        }
        assert(!has_owner(m2, o)) by {
            if has_owner(m2, o) {
                let j = choose|j: int| 0 <= j < m2.len() && m2[j].0 == o;
                let j0 = if j < i { j } else { j + 1 };
                assert(m[j0].0 == o);
                if j0 < i {
                    assert(m[j0].0 != m[i].0);
                } else {
                    assert(m[i].0 != m[j0].0);
                }
            }
        }
        assert forall|x: int, a: int|
            0 <= x < m2.len() && 0 <= a < m2[x].1.len() implies (#[trigger] m2[x].1[a]) != id by {
            let x0 = if x < i { x } else { x + 1 };
            assert(m2[x].1 == m[x0].1);
            assert(x0 != i);
            assert(m[x0].1[a] != m[i].1[k]);
        }
        assert forall|o2: Seq<u8>| o2 != o implies #[trigger] has_owner(m2, o2) == has_owner(
            m,
            o2,
        ) by {
            if has_owner(m, o2) {
                let j = owner_idx(m, o2);
                assert(m[j].0 == o2);
                assert(j != i);
                let j2 = if j < i { j } else { j - 1 };
                assert(m2[j2].0 == o2);
            }
            if has_owner(m2, o2) {
                let j = choose|j: int| 0 <= j < m2.len() && m2[j].0 == o2;
                let j0 = if j < i { j } else { j + 1 };
                assert(m[j0].0 == o2);
            }
        }
        assert forall|o2: Seq<u8>| o2 != o && has_owner(m, o2) implies #[trigger] ids_of(m2, o2)
            == ids_of(m, o2) by {
            let j = owner_idx(m, o2);
            assert(m[j].0 == o2);
            assert(j != i);
            let j2 = if j < i { j } else { j - 1 };
            assert(m2[j2].0 == o2);
            assert(m2[j2].1 == m[j].1);
            lemma_owner_idx_is(m2, o2, j2);
        }
    } else {
        let ids2 = ids.remove(k);
        assert(m2 == m.update(i, (o, ids2)));
        assert(forall|x: int| 0 <= x < m2.len() ==> (#[trigger] m2[x].0) == m[x].0);
        assert(forall|a: int| 0 <= a < k ==> (#[trigger] ids2[a]) == ids[a]);
        assert(forall|a: int| k <= a < ids2.len() ==> (#[trigger] ids2[a]) == ids[a + 1]);
        assert forall|x: int, y: int| 0 <= x < y < m2.len() implies (#[trigger] m2[x].0) != (
        #[trigger] m2[y].0) by {
            assert(m[x].0 != m[y].0);
        }
        assert forall|x: int, a: int, b: int|
            0 <= x < m2.len() && 0 <= a < b < m2[x].1.len() implies (#[trigger] m2[x].1[a]) != (
        #[trigger] m2[x].1[b]) by {
            if x == i {
                let a0 = if a < k { a } else { a + 1 };
                let b0 = if b < k { b } else { b + 1 };
                assert(m2[x].1[a] == ids[a0]);
                assert(m2[x].1[b] == ids[b0]);
                assert(m[i].1[a0] != m[i].1[b0]);
            } else {
                assert(m2[x].1 == m[x].1);
            }
        }
        assert forall|x: int, y: int, a: int, b: int|
            0 <= x < m2.len() && 0 <= y < m2.len() && x != y && 0 <= a < m2[x].1.len() && 0 <= b
                < m2[y].1.len() implies (#[trigger] m2[x].1[a]) != (#[trigger] m2[y].1[b]) by {
            if x == i {
                let a0 = if a < k { a } else { a + 1 };
                assert(m2[x].1[a] == m[i].1[a0]);
                assert(m2[y].1[b] == m[y].1[b]);
                assert(m[i].1[a0] != m[y].1[b]);
            } else if y == i {
                let b0 = if b < k { b } else { b + 1 };
                assert(m2[y].1[b] == m[i].1[b0]);
                assert(m2[x].1[a] == m[x].1[a]);
                assert(m[x].1[a] != m[i].1[b0]);
            } else {
                assert(m2[x].1[a] == m[x].1[a]);
                assert(m2[y].1[b] == m[y].1[b]);
            }
        }
        lemma_owner_idx_is(m2, o, i);
        assert forall|x: int, a: int|
            0 <= x < m2.len() && 0 <= a < m2[x].1.len() implies (#[trigger] m2[x].1[a]) != id by {
            if x == i {
                let a0 = if a < k { a } else { a + 1 };
                assert(m2[x].1[a] == m[i].1[a0]);
                assert(a0 != k);
                if a0 < k {
                    assert(m[i].1[a0] != m[i].1[k]);
                } else {
                    assert(m[i].1[k] != m[i].1[a0]);
                }
            } else {
                assert(m2[x].1[a] == m[x].1[a]);
                assert(m[x].1[a] != m[i].1[k]);
            }
        }
        assert forall|o2: Seq<u8>| o2 != o implies #[trigger] has_owner(m2, o2) == has_owner(
            m,
            o2,
        ) by {
            if has_owner(m, o2) {
                let j = owner_idx(m, o2);
                assert(m2[j].0 == m[j].0);
            }
            if has_owner(m2, o2) {
                let j = choose|j: int| 0 <= j < m2.len() && m2[j].0 == o2;
                assert(m[j].0 == o2);
            }
        }
        assert forall|o2: Seq<u8>| o2 != o && has_owner(m, o2) implies #[trigger] ids_of(m2, o2)
            == ids_of(m, o2) by {
            let j = owner_idx(m, o2);
            assert(m[j].0 == o2);
            assert(j != i);
            assert(m2[j].1 == m[j].1);
            lemma_owner_idx_is(m2, o2, j);
        }
    }
}

/// An element-for-element copy of an id vector.
pub fn copy_ids(src: &Vec<u64>) -> (r: Vec<u64>)
    ensures
        r@ == src@,
{
    let mut r: Vec<u64> = Vec::new();
    let mut i: usize = 0;
    while i < src.len()
        invariant
            0 <= i <= src@.len(),
            r@ =~= src@.take(i as int),
        decreases src@.len() - i,
    {
        r.push(src[i]);
        i = i + 1;
    }
    proof {
        assert(r@ =~= src@);
    }
    r
}

/// The ownership index.
pub struct OwnershipIndex {
    pub entries: Vec<OwnerEntry>,
}

impl View for OwnershipIndex {
    type V = IndexV;

    open spec fn view(&self) -> IndexV {
        self.entries@.map_values(|e: OwnerEntry| e@)
    }
}

impl OwnershipIndex {
    pub open spec fn wf(&self) -> bool {
        index_wf(self@)
    }

    /// An empty index.
    pub fn new() -> (r: OwnershipIndex)
        ensures
            r@ =~= Seq::<(Seq<u8>, Seq<u64>)>::empty(),
            r.wf(),
    {
        OwnershipIndex { entries: Vec::new() }
    }

    /// The position of `owner`'s entry, if any.
    fn find_owner(&self, owner: &Identity) -> (r: Option<usize>)
        ensures
            match r {
                Some(i) => i < self@.len() && self@[i as int].0 == owner@,
                None => !has_owner(self@, owner@),
            },
    {
        let mut i: usize = 0;
        while i < self.entries.len()
            invariant
                0 <= i <= self@.len(),
                self@.len() == self.entries@.len(),
                forall|k: int| 0 <= k < i ==> self@[k].0 != owner@,
            decreases self@.len() - i,
        {
            if self.entries[i].owner.same_as(owner) {
                return Some(i);
            }
            i = i + 1;
        }
        None
    }

    /// The position of `id` in `ids`, if present.
    fn find_id(ids: &Vec<u64>, id: u64) -> (r: Option<usize>)
        ensures
            match r {
                Some(k) => k < ids@.len() && ids@[k as int] == id,
                None => !ids@.contains(id),
            },
    {
        let mut k: usize = 0;
        while k < ids.len()
            invariant
                0 <= k <= ids@.len(),
                forall|a: int| 0 <= a < k ==> ids@[a] != id,
            decreases ids@.len() - k,
        {
            if ids[k] == id {
                return Some(k);
            }
            k = k + 1;
        }
        proof {
            if ids@.contains(id) {
                let w = choose|w: int| 0 <= w < ids@.len() && ids@[w] == id;
                assert(ids@[w] != id);
            }
        }
        None
    }

    /// Whether `owner` owns `id`.
    pub fn contains(&self, owner: &Identity, id: u64) -> (r: bool)
        requires
            self.wf(),
        ensures
            r == (has_owner(self@, owner@) && ids_of(self@, owner@).contains(id)),
    {
        match self.find_owner(owner) {
            Some(i) => {
                proof {
                    lemma_owner_idx_is(self@, owner@, i as int);
                }
                match Self::find_id(&self.entries[i].ids, id) {
                    Some(k) => {
                        proof {
                            assert(ids_of(self@, owner@)[k as int] == id);
                        }
                        true
                    },
                    None => false,
                }
            },
            None => false,
        }
    }

    /// Append `id` to `owner`'s ids, creating the entry if absent.
    pub fn add_id(&mut self, owner: &Identity, id: u64)
        requires
            old(self).wf(),
        ensures
            final(self)@ == add_id_spec(old(self)@, owner@, id),
    {
        let ghost old_view = self@;
        match self.find_owner(owner) {
            Some(i) => {
                proof {
                    lemma_owner_idx_is(old_view, owner@, i as int);
                }
                let owner_copy = self.entries[i].owner.duplicate();
                let mut ids_copy = copy_ids(&self.entries[i].ids);
                ids_copy.push(id);
                self.entries[i] = OwnerEntry { owner: owner_copy, ids: ids_copy };
                proof {
                    assert(self@ =~~= add_id_spec(old_view, owner@, id));
                }
            },
            None => {
                let owner_copy = owner.duplicate();
                let mut ids_copy: Vec<u64> = Vec::new();
                ids_copy.push(id);
                self.entries.push(OwnerEntry { owner: owner_copy, ids: ids_copy });
                proof {
                    assert(ids_copy@ =~= seq![id]);
                    assert(self@ =~~= add_id_spec(old_view, owner@, id));
                }
            },
        }
    }

    /// Remove `id` from `owner`'s ids, pruning the entry if it becomes
    /// empty; `NotFound` when `owner` has no entry or does not own
    /// `id`.
    pub fn remove_id(&mut self, owner: &Identity, id: u64) -> (r: Result<(), CredError>)
        requires
            old(self).wf(),
        ensures
            match r {
                Ok(()) => has_owner(old(self)@, owner@) && ids_of(old(self)@, owner@).contains(id)
                    && final(self)@ == remove_id_spec(old(self)@, owner@, id),
                Err(e) => e == CredError::NotFound && !(has_owner(old(self)@, owner@) && ids_of(
                    old(self)@,
                    owner@,
                ).contains(id)) && final(self)@ == old(self)@,
            },
    {
        let ghost old_view = self@;
        match self.find_owner(owner) {
            Some(i) => {
                proof {
                    lemma_owner_idx_is(old_view, owner@, i as int);
                }
                match Self::find_id(&self.entries[i].ids, id) {
                    Some(k) => {
                        proof {
                            assert(ids_of(old_view, owner@)[k as int] == id);
                            lemma_id_pos_is(ids_of(old_view, owner@), id, k as int);
                        }
                        if self.entries[i].ids.len() == 1 {
                            self.entries.remove(i);
                            proof {
                                assert(self@ =~~= remove_id_spec(old_view, owner@, id));
                            }
                        } else {
                            let owner_copy = self.entries[i].owner.duplicate();
                            let mut ids_copy = copy_ids(&self.entries[i].ids);
                            ids_copy.remove(k);
                            self.entries[i] = OwnerEntry { owner: owner_copy, ids: ids_copy };
                            proof {
                                assert(self@ =~~= remove_id_spec(old_view, owner@, id));
                            }
                        }
                        Ok(())
                    },
                    None => Err(CredError::NotFound),
                }
            },
            None => Err(CredError::NotFound),
        }
    }

    /// The ids `owner` owns, in insertion order; `NoRecords` when the
    /// owner has no entry.
    pub fn list_ids(&self, owner: &Identity) -> (r: Result<Vec<u64>, CredError>)
        requires
            self.wf(),
        ensures
            match r {
                Ok(v) => has_owner(self@, owner@) && v@ == ids_of(self@, owner@),
                Err(e) => e == CredError::NoRecords && !has_owner(self@, owner@),
            },
    {
        match self.find_owner(owner) {
            Some(i) => {
                proof {
                    lemma_owner_idx_is(self@, owner@, i as int);
                }
                Ok(copy_ids(&self.entries[i].ids))
            },
            None => Err(CredError::NoRecords),
        }
    }
}

} // verus!
