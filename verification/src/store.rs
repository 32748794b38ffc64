//! The record store: the owning map from record id to credential
//! record, kept as a sequence of entries with pairwise-distinct ids.

use vstd::prelude::*;
use crate::record::{CredentialRecord, RecordView};

verus! {

/// One stored record together with its id; also the shape in which
/// listing operations hand records back to callers.
pub struct RecordEntry {
    pub id: u64,
    pub record: CredentialRecord,
}

impl View for RecordEntry {
    type V = (u64, RecordView);

    open spec fn view(&self) -> (u64, RecordView) {
        (self.id, self.record@)
    }
}

/// The value of a sequence of entries.
pub open spec fn entries_view(v: Seq<RecordEntry>) -> Seq<(u64, RecordView)> {
    v.map_values(|e: RecordEntry| e@)
}

/// Whether some entry of `s` carries the id `id`.
pub open spec fn has_rec(s: Seq<(u64, RecordView)>, id: u64) -> bool {
    exists|i: int| 0 <= i < s.len() && s[i].0 == id
}

/// The position of the entry carrying `id`; meaningful when the ids of
/// `s` are distinct and `has_rec(s, id)` holds.
pub open spec fn rec_idx(s: Seq<(u64, RecordView)>, id: u64) -> int {
    choose|i: int| 0 <= i < s.len() && s[i].0 == id
}

/// The record stored under `id`.
pub open spec fn rec_of(s: Seq<(u64, RecordView)>, id: u64) -> RecordView {
    s[rec_idx(s, id)].1
}

/// The ids of `s` are pairwise distinct.
pub open spec fn uniq_ids(s: Seq<(u64, RecordView)>) -> bool {
    forall|i: int, j: int| 0 <= i < j < s.len() ==> s[i].0 != s[j].0
}

/// When the ids are distinct, the position of a known entry is the one
/// `rec_idx` picks.
pub proof fn lemma_rec_idx_is(s: Seq<(u64, RecordView)>, id: u64, i: int)
    requires
        uniq_ids(s),
        0 <= i < s.len(),
        s[i].0 == id,
    ensures
        has_rec(s, id),
        rec_idx(s, id) == i,
        rec_of(s, id) == s[i].1,
{
    assert(has_rec(s, id));
    let j = rec_idx(s, id);
    assert(0 <= j < s.len() && s[j].0 == id);
    if i != j {
        if i < j {
            assert(s[i].0 != s[j].0);
        } else {
            assert(s[j].0 != s[i].0);
        }
    }
}

/// The records that back the ids of `ids`, paired in the order of
/// `ids`; an id with no backing entry is skipped.
pub open spec fn get_many_spec(s: Seq<(u64, RecordView)>, ids: Seq<u64>) -> Seq<(u64, RecordView)>
    decreases ids.len(),
{
    if ids.len() == 0 {
        Seq::<(u64, RecordView)>::empty()
    } else {
        let rest = get_many_spec(s, ids.drop_first());
        if has_rec(s, ids[0]) {
            seq![(ids[0], rec_of(s, ids[0]))] + rest
        } else {
            rest
        }
    }
}

/// `get_many_spec` distributes over concatenation of the id list.
pub proof fn lemma_get_many_append(s: Seq<(u64, RecordView)>, a: Seq<u64>, b: Seq<u64>)
    ensures
        get_many_spec(s, a + b) == get_many_spec(s, a) + get_many_spec(s, b),
    decreases a.len(),
{
    if a.len() == 0 {
        assert(a + b =~= b);
        assert(get_many_spec(s, a) + get_many_spec(s, b) =~= get_many_spec(s, b));
    } else {
        lemma_get_many_append(s, a.drop_first(), b);
        assert((a + b).drop_first() =~= a.drop_first() + b);
        assert((a + b)[0] == a[0]);
        if has_rec(s, a[0]) {
            assert(get_many_spec(s, a + b) =~= get_many_spec(s, a) + get_many_spec(s, b));
        } else {
            assert(get_many_spec(s, a + b) =~= get_many_spec(s, a) + get_many_spec(s, b));
        }
    }
}

/// When every id of `ids` is backed by an entry, the result of
/// `get_many_spec` pairs each id with its record, in order.
pub proof fn lemma_get_many_all_present(s: Seq<(u64, RecordView)>, ids: Seq<u64>)
    requires
        forall|k: int| 0 <= k < ids.len() ==> has_rec(s, ids[k]),
    ensures
        get_many_spec(s, ids).len() == ids.len(),
        forall|k: int|
            0 <= k < ids.len() ==> get_many_spec(s, ids)[k] == (ids[k], rec_of(s, ids[k])),
    decreases ids.len(),
{
    if ids.len() > 0 {
        assert(forall|k: int|
            0 <= k < ids.drop_first().len() ==> ids.drop_first()[k] == ids[k + 1]);
        lemma_get_many_all_present(s, ids.drop_first());
    }
}

/// The record store; `entries` carries pairwise-distinct ids.
pub struct RecordStore {
    pub entries: Vec<RecordEntry>,
}

impl View for RecordStore {
    type V = Seq<(u64, RecordView)>;

    open spec fn view(&self) -> Seq<(u64, RecordView)> {
        entries_view(self.entries@)
    }
}

impl RecordStore {
    pub open spec fn wf(&self) -> bool {
        uniq_ids(self@)
    }

    /// An empty store.
    pub fn new() -> (r: RecordStore)
        ensures
            r@ =~= Seq::<(u64, RecordView)>::empty(),
            r.wf(),
    {
        RecordStore { entries: Vec::new() }
    }

    /// The position of the entry carrying `id`, if any.
    fn find(&self, id: u64) -> (r: Option<usize>)
        ensures
            match r {
                Some(i) => i < self@.len() && self@[i as int].0 == id,
                None => !has_rec(self@, id),
            },
    {
        let mut i: usize = 0;
        while i < self.entries.len()
            invariant
                0 <= i <= self@.len(),
                self@.len() == self.entries@.len(),
                forall|k: int| 0 <= k < i ==> self@[k].0 != id,
            decreases self@.len() - i,
        {
            if self.entries[i].id == id {
                return Some(i);
            }
            i = i + 1;
        }
        None
    }

    /// Store `record` under `id`: replace the entry already carrying
    /// `id`, or append a new one.
    pub fn insert(&mut self, id: u64, record: CredentialRecord)
        requires
            old(self).wf(),
        ensures
            final(self).wf(),
            has_rec(old(self)@, id) ==> final(self)@ == old(self)@.update(
                rec_idx(old(self)@, id),
                (id, record@),
            ),
            !has_rec(old(self)@, id) ==> final(self)@ == old(self)@.push((id, record@)),
    {
        let ghost old_view = self@;
        match self.find(id) {
            Some(i) => {
                proof {
                    lemma_rec_idx_is(old_view, id, i as int);
                }
                self.entries[i] = RecordEntry { id, record };
                proof {
                    assert(self@ =~= old_view.update(i as int, (id, record@)));
                    assert forall|a: int, b: int| 0 <= a < b < self@.len() implies self@[a].0
                        != self@[b].0 by {
                        assert(old_view[a].0 != old_view[b].0);
                    }
                }
            },
            None => {
                self.entries.push(RecordEntry { id, record });
                proof {
                    assert(self@ =~= old_view.push((id, record@)));
                    assert forall|a: int, b: int| 0 <= a < b < self@.len() implies self@[a].0
                        != self@[b].0 by {
                        if b < old_view.len() {
                            assert(old_view[a].0 != old_view[b].0);
                        } else {
                            assert(self@[b].0 == id);
                            assert(old_view[a].0 != id);
                        }
                    }
                }
            },
        }
    }

    /// The record stored under `id`, if any.
    pub fn get(&self, id: u64) -> (r: Option<&CredentialRecord>)
        requires
            self.wf(),
        ensures
            match r {
                Some(rec) => has_rec(self@, id) && rec@ == rec_of(self@, id),
                None => !has_rec(self@, id),
            },
    {
        match self.find(id) {
            Some(i) => {
                proof {
                    lemma_rec_idx_is(self@, id, i as int);
                }
                Some(&self.entries[i].record)
            },
            None => None,
        }
    }

    /// Remove the entry carrying `id`; reports whether one was present.
    pub fn remove(&mut self, id: u64) -> (r: bool)
        requires
            old(self).wf(),
        ensures
            final(self).wf(),
            r == has_rec(old(self)@, id),
            r ==> final(self)@ == old(self)@.remove(rec_idx(old(self)@, id)),
            !r ==> final(self)@ == old(self)@,
    {
        let ghost old_view = self@;
        match self.find(id) {
            Some(i) => {
                proof {
                    lemma_rec_idx_is(old_view, id, i as int);
                }
                self.entries.remove(i);
                proof {
                    assert(self@ =~= old_view.remove(i as int));
                    assert forall|a: int, b: int| 0 <= a < b < self@.len() implies self@[a].0
                        != self@[b].0 by {
                        let a0 = if a < i as int { a } else { a + 1 };
                        let b0 = if b < i as int { b } else { b + 1 };
                        assert(self@[a] == old_view[a0]);
                        assert(self@[b] == old_view[b0]);
                        assert(old_view[a0].0 != old_view[b0].0);
                    }
                }
                true
            },
            None => {
                proof {
                    assert(self@ =~= old_view);
                }
                false
            },
        }
    }

    /// The records backing `ids`, paired in the order of `ids`; an id
    /// with no backing record is skipped rather than failing.
    pub fn get_many(&self, ids: &Vec<u64>) -> (r: Vec<RecordEntry>)
        requires
            self.wf(),
        ensures
            entries_view(r@) == get_many_spec(self@, ids@),
    {
        let mut r: Vec<RecordEntry> = Vec::new();
        let mut i: usize = 0;
        while i < ids.len()
            invariant
                self.wf(),
                0 <= i <= ids@.len(),
                entries_view(r@) =~= get_many_spec(self@, ids@.take(i as int)),
            decreases ids@.len() - i,
        {
            let ghost prefix = ids@.take(i as int);
            let id = ids[i];
            match self.get(id) {
                Some(rec) => {
                    r.push(RecordEntry { id, record: rec.duplicate() });
                },
                None => {},
            }
            proof {
                assert(ids@.take(i + 1 as int) =~= prefix + seq![id]);
                lemma_get_many_append(self@, prefix, seq![id]);
                let ghost one = seq![id];
                assert(one.len() == 1 && one[0] == id);
                assert(one.drop_first() =~= Seq::<u64>::empty());
                assert(get_many_spec(self@, one.drop_first()) =~= Seq::<(u64, RecordView)>::empty());
                if has_rec(self@, id) {
                    assert(get_many_spec(self@, one) =~= seq![(id, rec_of(self@, id))]);
                } else {
                    assert(get_many_spec(self@, one) =~= Seq::<(u64, RecordView)>::empty());
                }
                assert(entries_view(r@) =~= get_many_spec(self@, ids@.take(i + 1 as int)));
            }
            i = i + 1;
        }
        proof {
            assert(ids@.take(ids@.len() as int) =~= ids@);
        }
        r
    }
}

} // verus!
