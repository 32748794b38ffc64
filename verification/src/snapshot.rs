//! The snapshot codec: the whole process state as one versioned byte
//! record, written before an upgrade and read back after it, with a
//! fallback when the durable region is empty or corrupt.

use vstd::prelude::*;
use crate::errors::RestoreError;
use crate::identity::{anonymous_bytes, Identity};
use crate::index::{copy_ids, OwnerEntry, OwnershipIndex};
use crate::record::{CredentialRecord, RecordView};
use crate::service::{fallback_view, ids_contain, vault_wf, Vault, VaultView};
use crate::store::{entries_view, has_rec, uniq_ids, RecordEntry, RecordStore};

verus! {

/// The version tag of the persisted layout.
pub const VERSION_TAG: u8 = 1;

/// A `u64` as eight little-endian bytes.
pub open spec fn enc_u64(v: u64) -> Seq<u8> {
    seq![
        (v & 0xff) as u8,
        ((v >> 8) & 0xff) as u8,
        ((v >> 16) & 0xff) as u8,
        ((v >> 24) & 0xff) as u8,
        ((v >> 32) & 0xff) as u8,
        ((v >> 40) & 0xff) as u8,
        ((v >> 48) & 0xff) as u8,
        ((v >> 56) & 0xff) as u8,
    ]
}

/// The `u64` read back from eight little-endian bytes.
pub open spec fn u64_from_bytes(
    b0: u8,
    b1: u8,
    b2: u8,
    b3: u8,
    b4: u8,
    b5: u8,
    b6: u8,
    b7: u8,
) -> u64 {
    (b0 as u64) | ((b1 as u64) << 8) | ((b2 as u64) << 16) | ((b3 as u64) << 24) | ((b4 as u64)
        << 32) | ((b5 as u64) << 40) | ((b6 as u64) << 48) | ((b7 as u64) << 56)
}

/// Reading back the eight bytes of `v` yields `v`.
pub proof fn lemma_u64_bytes_round(v: u64)
    ensures
        u64_from_bytes(
            (v & 0xff) as u8,
            ((v >> 8) & 0xff) as u8,
            ((v >> 16) & 0xff) as u8,
            ((v >> 24) & 0xff) as u8,
            ((v >> 32) & 0xff) as u8,
            ((v >> 40) & 0xff) as u8,
            ((v >> 48) & 0xff) as u8,
            ((v >> 56) & 0xff) as u8,
        ) == v,
{
    assert(((v & 0xff) as u8 as u64) | ((((v >> 8) & 0xff) as u8 as u64) << 8) | ((((v >> 16)
        & 0xff) as u8 as u64) << 16) | ((((v >> 24) & 0xff) as u8 as u64) << 24) | ((((v >> 32)
        & 0xff) as u8 as u64) << 32) | ((((v >> 40) & 0xff) as u8 as u64) << 40) | ((((v >> 48)
        & 0xff) as u8 as u64) << 48) | ((((v >> 56) & 0xff) as u8 as u64) << 56) == v)
        by (bit_vector);
}

/// A length-prefixed byte string.
pub open spec fn enc_bytes(b: Seq<u8>) -> Seq<u8> {
    enc_u64(b.len() as u64) + b
}

/// A record as its four length-prefixed fields.
pub open spec fn enc_record(r: RecordView) -> Seq<u8> {
    enc_bytes(r.name) + enc_bytes(r.username) + enc_bytes(r.secret) + enc_bytes(r.url)
}

/// A store entry as its id followed by its record.
pub open spec fn enc_entry(e: (u64, RecordView)) -> Seq<u8> {
    enc_u64(e.0) + enc_record(e.1)
}

/// Store entries, one after the other.
pub open spec fn enc_entries(es: Seq<(u64, RecordView)>) -> Seq<u8>
    decreases es.len(),
{
    if es.len() == 0 {
        Seq::<u8>::empty()
    } else {
        enc_entry(es[0]) + enc_entries(es.drop_first())
    }
}

/// Ids, one after the other.
pub open spec fn enc_ids(ids: Seq<u64>) -> Seq<u8>
    decreases ids.len(),
{
    if ids.len() == 0 {
        Seq::<u8>::empty()
    } else {
        enc_u64(ids[0]) + enc_ids(ids.drop_first())
    }
}

/// An index entry as its owner bytes, its id count and its ids.
pub open spec fn enc_owner(o: (Seq<u8>, Seq<u64>)) -> Seq<u8> {
    enc_bytes(o.0) + enc_u64(o.1.len() as u64) + enc_ids(o.1)
}

/// Index entries, one after the other.
pub open spec fn enc_owners(os: Seq<(Seq<u8>, Seq<u64>)>) -> Seq<u8>
    decreases os.len(),
{
    if os.len() == 0 {
        Seq::<u8>::empty()
    } else {
        enc_owner(os[0]) + enc_owners(os.drop_first())
    }
}

/// The whole state: version tag, counter, initializer, record count
/// and records, owner count and owners.
pub open spec fn enc_vault(s: VaultView) -> Seq<u8> {
    seq![VERSION_TAG] + enc_u64(s.counter) + enc_bytes(s.initializer) + enc_u64(
        s.records.len() as u64,
    ) + enc_entries(s.records) + enc_u64(s.owners.len() as u64) + enc_owners(s.owners)
}

/// Every length that the encoding writes as a `u64` fits in one.
pub open spec fn bounded_bytes(b: Seq<u8>) -> bool {
    b.len() <= u64::MAX
}

pub open spec fn bounded_record(r: RecordView) -> bool {
    &&& bounded_bytes(r.name)
    &&& bounded_bytes(r.username)
    &&& bounded_bytes(r.secret)
    &&& bounded_bytes(r.url)
}

pub open spec fn bounded_vault(s: VaultView) -> bool {
    &&& bounded_bytes(s.initializer)
    &&& s.records.len() <= u64::MAX
    &&& forall|k: int| 0 <= k < s.records.len() ==> bounded_record((#[trigger] s.records[k]).1)
    &&& s.owners.len() <= u64::MAX
    &&& forall|k: int|
        0 <= k < s.owners.len() ==> bounded_bytes((#[trigger] s.owners[k]).0) && s.owners[k].1.len()
            <= u64::MAX
}

/// A `u64` read at `i`, with the next cursor.
pub open spec fn dec_u64(s: Seq<u8>, i: int) -> Option<(u64, int)> {
    if 0 <= i && i + 8 <= s.len() {
        Some(
            (
                u64_from_bytes(
                    s[i],
                    s[i + 1],
                    s[i + 2],
                    s[i + 3],
                    s[i + 4],
                    s[i + 5],
                    s[i + 6],
                    s[i + 7],
                ),
                i + 8,
            ),
        )
    } else {
        None
    }
}

/// A length-prefixed byte string read at `i`.
pub open spec fn dec_bytes(s: Seq<u8>, i: int) -> Option<(Seq<u8>, int)> {
    match dec_u64(s, i) {
        Some((n, j)) => if j + n <= s.len() {
            Some((s.subrange(j, j + n), j + n))
        } else {
            None
        },
        None => None,
    }
}

/// A record read at `i`.
pub open spec fn dec_record(s: Seq<u8>, i: int) -> Option<(RecordView, int)> {
    match dec_bytes(s, i) {
        Some((name, i1)) => match dec_bytes(s, i1) {
            Some((username, i2)) => match dec_bytes(s, i2) {
                Some((secret, i3)) => match dec_bytes(s, i3) {
                    Some((url, i4)) => Some((RecordView { name, username, secret, url }, i4)),
                    None => None,
                },
                None => None,
            },
            None => None,
        },
        None => None,
    }
}

/// A store entry read at `i`.
pub open spec fn dec_entry(s: Seq<u8>, i: int) -> Option<((u64, RecordView), int)> {
    match dec_u64(s, i) {
        Some((id, j)) => match dec_record(s, j) {
            Some((r, end)) => Some(((id, r), end)),
            None => None,
        },
        None => None,
    }
}

/// `n` store entries read at `i`.
pub open spec fn dec_entries(s: Seq<u8>, i: int, n: nat) -> Option<(Seq<(u64, RecordView)>, int)>
    decreases n,
{
    if n == 0 {
        Some((Seq::<(u64, RecordView)>::empty(), i))
    } else {
        match dec_entry(s, i) {
            Some((e, j)) => match dec_entries(s, j, (n - 1) as nat) {
                Some((rest, end)) => Some((seq![e] + rest, end)),
                None => None,
            },
            None => None,
        }
    }
}

/// `n` ids read at `i`.
pub open spec fn dec_ids(s: Seq<u8>, i: int, n: nat) -> Option<(Seq<u64>, int)>
    decreases n,
{
    if n == 0 {
        Some((Seq::<u64>::empty(), i))
    } else {
        match dec_u64(s, i) {
            Some((id, j)) => match dec_ids(s, j, (n - 1) as nat) {
                Some((rest, end)) => Some((seq![id] + rest, end)),
                None => None,
            },
            None => None,
        }
    }
}

/// An index entry read at `i`.
pub open spec fn dec_owner(s: Seq<u8>, i: int) -> Option<((Seq<u8>, Seq<u64>), int)> {
    match dec_bytes(s, i) {
        Some((owner, j)) => match dec_u64(s, j) {
            Some((n, j2)) => match dec_ids(s, j2, n as nat) {
                Some((ids, end)) => Some(((owner, ids), end)),
                None => None,
            },
            None => None,
        },
        None => None,
    }
}

/// `n` index entries read at `i`.
pub open spec fn dec_owners(s: Seq<u8>, i: int, n: nat) -> Option<(Seq<(Seq<u8>, Seq<u64>)>, int)>
    decreases n,
{
    if n == 0 {
        Some((Seq::<(Seq<u8>, Seq<u64>)>::empty(), i))
    } else {
        match dec_owner(s, i) {
            Some((o, j)) => match dec_owners(s, j, (n - 1) as nat) {
                Some((rest, end)) => Some((seq![o] + rest, end)),
                None => None,
            },
            None => None,
        }
    }
}

/// The whole state read back, or nothing when the bytes are not one
/// complete well-versioned snapshot.
pub open spec fn dec_vault(s: Seq<u8>) -> Option<VaultView> {
    if s.len() >= 1 && s[0] == VERSION_TAG {
        match dec_u64(s, 1) {
            Some((counter, i1)) => match dec_bytes(s, i1) {
                Some((init, i2)) => match dec_u64(s, i2) {
                    Some((nrec, i3)) => match dec_entries(s, i3, nrec as nat) {
                        Some((records, i4)) => match dec_u64(s, i4) {
                            Some((nown, i5)) => match dec_owners(s, i5, nown as nat) {
                                Some((owners, i6)) => if i6 == s.len() {
                                    Some(VaultView { counter, records, owners, initializer: init })
                                } else {
                                    None
                                },
                                None => None,
                            },
                            None => None,
                        },
                        None => None,
                    },
                    None => None,
                },
                None => None,
            },
            None => None,
        }
    } else {
        None
    }
}

/// A slice of an already-pinned slice of `s` equals the matching slice
/// of the pinned bytes.
pub proof fn lemma_chunk(s: Seq<u8>, i: int, whole: Seq<u8>, off: int, len: int)
    requires
        0 <= i,
        0 <= off,
        0 <= len,
        off + len <= whole.len(),
        i + whole.len() <= s.len(),
        s.subrange(i, i + whole.len()) == whole,
    ensures
        s.subrange(i + off, i + off + len) == whole.subrange(off, off + len),
{
    assert forall|k: int| 0 <= k < len implies (#[trigger] s[i + off + k]) == whole[off + k] by {
        assert(whole[off + k] == s.subrange(i, i + whole.len())[off + k]);
    }
    assert(s.subrange(i + off, i + off + len) =~= whole.subrange(off, off + len));
}

/// Decoding the bytes of `v` at `i` yields `v`.
pub proof fn lemma_dec_u64(s: Seq<u8>, i: int, v: u64)
    requires
        0 <= i,
        i + 8 <= s.len(),
        s.subrange(i, i + 8) == enc_u64(v),
    ensures
        dec_u64(s, i) == Some((v, i + 8)),
{
    assert forall|k: int| 0 <= k < 8 implies s[i + k] == enc_u64(v)[k] by {
        assert(enc_u64(v)[k] == s.subrange(i, i + 8)[k]);
    }
    assert(s[i] == enc_u64(v)[0]);
    assert(s[i + 1] == enc_u64(v)[1]);
    assert(s[i + 2] == enc_u64(v)[2]);
    assert(s[i + 3] == enc_u64(v)[3]);
    assert(s[i + 4] == enc_u64(v)[4]);
    assert(s[i + 5] == enc_u64(v)[5]);
    assert(s[i + 6] == enc_u64(v)[6]);
    assert(s[i + 7] == enc_u64(v)[7]);
    lemma_u64_bytes_round(v);
}

/// Decoding the encoding of `b` at `i` yields `b`.
pub proof fn lemma_dec_bytes(s: Seq<u8>, i: int, b: Seq<u8>)
    requires
        0 <= i,
        bounded_bytes(b),
        i + 8 + b.len() <= s.len(),
        s.subrange(i, i + 8 + b.len()) == enc_bytes(b),
    ensures
        dec_bytes(s, i) == Some((b, i + 8 + b.len())),
{
    let n = b.len() as u64;
    let whole = enc_bytes(b);
    assert(whole.len() == 8 + b.len());
    lemma_chunk(s, i, whole, 0, 8);
    assert(whole.subrange(0, 8) =~= enc_u64(n));
    lemma_dec_u64(s, i, n);
    lemma_chunk(s, i, whole, 8, b.len() as int);
    assert(whole.subrange(8, (8 + b.len()) as int) =~= b);
}

/// Decoding the encoding of `r` at `i` yields `r`.
pub proof fn lemma_dec_record(s: Seq<u8>, i: int, r: RecordView)
    requires
        0 <= i,
        bounded_record(r),
        i + enc_record(r).len() <= s.len(),
        s.subrange(i, i + enc_record(r).len()) == enc_record(r),
    ensures
        dec_record(s, i) == Some((r, i + enc_record(r).len())),
{
    let whole = enc_record(r);
    let a = enc_bytes(r.name);
    let b = enc_bytes(r.username);
    let c = enc_bytes(r.secret);
    let d = enc_bytes(r.url);
    assert(whole == a + b + c + d);
    let la = a.len() as int;
    let lb = b.len() as int;
    let lc = c.len() as int;
    let ld = d.len() as int;
    lemma_chunk(s, i, whole, 0, la);
    assert(whole.subrange(0, la) =~= a);
    lemma_dec_bytes(s, i, r.name);
    lemma_chunk(s, i, whole, la, lb);
    assert(whole.subrange(la, la + lb) =~= b);
    lemma_dec_bytes(s, i + la, r.username);
    lemma_chunk(s, i, whole, la + lb, lc);
    assert(whole.subrange(la + lb, la + lb + lc) =~= c);
    lemma_dec_bytes(s, i + la + lb, r.secret);
    lemma_chunk(s, i, whole, la + lb + lc, ld);
    assert(whole.subrange(la + lb + lc, la + lb + lc + ld) =~= d);
    lemma_dec_bytes(s, i + la + lb + lc, r.url);
}

/// Decoding the encoding of entry `e` at `i` yields `e`.
pub proof fn lemma_dec_entry(s: Seq<u8>, i: int, e: (u64, RecordView))
    requires
        0 <= i,
        bounded_record(e.1),
        i + enc_entry(e).len() <= s.len(),
        s.subrange(i, i + enc_entry(e).len()) == enc_entry(e),
    ensures
        dec_entry(s, i) == Some((e, i + enc_entry(e).len())),
{
    let whole = enc_entry(e);
    let a = enc_u64(e.0);
    let b = enc_record(e.1);
    assert(whole == a + b);
    lemma_chunk(s, i, whole, 0, 8);
    assert(whole.subrange(0, 8) =~= a);
    lemma_dec_u64(s, i, e.0);
    lemma_chunk(s, i, whole, 8, b.len() as int);
    assert(whole.subrange(8, (8 + b.len()) as int) =~= b);
    lemma_dec_record(s, i + 8, e.1);
}

/// Decoding the encoding of `es` at `i` yields `es`.
pub proof fn lemma_dec_entries(s: Seq<u8>, i: int, es: Seq<(u64, RecordView)>)
    requires
        0 <= i,
        forall|k: int| 0 <= k < es.len() ==> bounded_record((#[trigger] es[k]).1),
        i + enc_entries(es).len() <= s.len(),
        s.subrange(i, i + enc_entries(es).len()) == enc_entries(es),
    ensures
        dec_entries(s, i, es.len()) == Some((es, i + enc_entries(es).len())),
    decreases es.len(),
{
    if es.len() == 0 {
        assert(es =~= Seq::<(u64, RecordView)>::empty());
    } else {
        let whole = enc_entries(es);
        let a = enc_entry(es[0]);
        let rest = es.drop_first();
        let b = enc_entries(rest);
        assert(whole == a + b);
        lemma_chunk(s, i, whole, 0, a.len() as int);
        assert(whole.subrange(0, a.len() as int) =~= a);
        lemma_dec_entry(s, i, es[0]);
        lemma_chunk(s, i, whole, a.len() as int, b.len() as int);
        assert(whole.subrange(a.len() as int, (a.len() + b.len()) as int) =~= b);
        assert(forall|k: int| 0 <= k < rest.len() ==> rest[k] == es[k + 1]);
        lemma_dec_entries(s, i + a.len(), rest);
        assert(seq![es[0]] + rest =~= es);
    }
}

/// Decoding the encoding of `ids` at `i` yields `ids`.
pub proof fn lemma_dec_ids(s: Seq<u8>, i: int, ids: Seq<u64>)
    requires
        0 <= i,
        i + enc_ids(ids).len() <= s.len(),
        s.subrange(i, i + enc_ids(ids).len()) == enc_ids(ids),
    ensures
        dec_ids(s, i, ids.len()) == Some((ids, i + enc_ids(ids).len())),
    decreases ids.len(),
{
    if ids.len() == 0 {
        assert(ids =~= Seq::<u64>::empty());
    } else {
        let whole = enc_ids(ids);
        let a = enc_u64(ids[0]);
        let rest = ids.drop_first();
        let b = enc_ids(rest);
        assert(whole == a + b);
        lemma_chunk(s, i, whole, 0, 8);
        assert(whole.subrange(0, 8) =~= a);
        lemma_dec_u64(s, i, ids[0]);
        lemma_chunk(s, i, whole, 8, b.len() as int);
        assert(whole.subrange(8, (8 + b.len()) as int) =~= b);
        lemma_dec_ids(s, i + 8, rest);
        assert(seq![ids[0]] + rest =~= ids);
    }
}

/// Decoding the encoding of owner entry `o` at `i` yields `o`.
pub proof fn lemma_dec_owner(s: Seq<u8>, i: int, o: (Seq<u8>, Seq<u64>))
    requires
        0 <= i,
        bounded_bytes(o.0),
        o.1.len() <= u64::MAX,
        i + enc_owner(o).len() <= s.len(),
        s.subrange(i, i + enc_owner(o).len()) == enc_owner(o),
    ensures
        dec_owner(s, i) == Some((o, i + enc_owner(o).len())),
{
    let whole = enc_owner(o);
    let a = enc_bytes(o.0);
    let b = enc_u64(o.1.len() as u64);
    let c = enc_ids(o.1);
    assert(whole == a + b + c);
    let la = a.len() as int;
    lemma_chunk(s, i, whole, 0, la);
    assert(whole.subrange(0, la) =~= a);
    lemma_dec_bytes(s, i, o.0);
    lemma_chunk(s, i, whole, la, 8);
    assert(whole.subrange(la, la + 8) =~= b);
    lemma_dec_u64(s, i + la, o.1.len() as u64);
    lemma_chunk(s, i, whole, la + 8, c.len() as int);
    assert(whole.subrange(la + 8, la + 8 + c.len()) =~= c);
    lemma_dec_ids(s, i + la + 8, o.1);
}

/// Decoding the encoding of `os` at `i` yields `os`.
pub proof fn lemma_dec_owners(s: Seq<u8>, i: int, os: Seq<(Seq<u8>, Seq<u64>)>)
    requires
        0 <= i,
        forall|k: int|
            0 <= k < os.len() ==> bounded_bytes((#[trigger] os[k]).0) && os[k].1.len() <= u64::MAX,
        i + enc_owners(os).len() <= s.len(),
        s.subrange(i, i + enc_owners(os).len()) == enc_owners(os),
    ensures
        dec_owners(s, i, os.len()) == Some((os, i + enc_owners(os).len())),
    decreases os.len(),
{
    if os.len() == 0 {
        assert(os =~= Seq::<(Seq<u8>, Seq<u64>)>::empty());
    } else {
        let whole = enc_owners(os);
        let a = enc_owner(os[0]);
        let rest = os.drop_first();
        let b = enc_owners(rest);
        assert(whole == a + b);
        lemma_chunk(s, i, whole, 0, a.len() as int);
        assert(whole.subrange(0, a.len() as int) =~= a);
        lemma_dec_owner(s, i, os[0]);
        lemma_chunk(s, i, whole, a.len() as int, b.len() as int);
        assert(whole.subrange(a.len() as int, (a.len() + b.len()) as int) =~= b);
        assert(forall|k: int| 0 <= k < rest.len() ==> rest[k] == os[k + 1]);
        lemma_dec_owners(s, i + a.len(), rest);
        assert(seq![os[0]] + rest =~= os);
    }
}

/// Round trip: decoding the encoding of a bounded state yields that
/// state, exactly.
#[verifier::rlimit(60)]
pub proof fn lemma_dec_enc_vault(s: VaultView)
    requires
        bounded_vault(s),
    ensures
        dec_vault(enc_vault(s)) == Some(s),
{
    let b = enc_vault(s);
    let p0 = seq![VERSION_TAG];
    let p1 = enc_u64(s.counter);
    let p2 = enc_bytes(s.initializer);
    let p3 = enc_u64(s.records.len() as u64);
    let p4 = enc_entries(s.records);
    let p5 = enc_u64(s.owners.len() as u64);
    let p6 = enc_owners(s.owners);
    assert(b == p0 + p1 + p2 + p3 + p4 + p5 + p6);
    let l0 = 1int;
    let l1 = 8int;
    let l2 = p2.len() as int;
    let l3 = 8int;
    let l4 = p4.len() as int;
    let l5 = 8int;
    let l6 = p6.len() as int;
    assert(b.len() == l0 + l1 + l2 + l3 + l4 + l5 + l6);
    assert(b.subrange(0, b.len() as int) =~= b);
    assert(b[0] == VERSION_TAG);
    lemma_chunk(b, 0, b, l0, l1);
    assert(b.subrange(l0, l0 + l1) =~= p1);
    lemma_dec_u64(b, 1, s.counter);
    lemma_chunk(b, 0, b, l0 + l1, l2);
    assert(b.subrange(l0 + l1, l0 + l1 + l2) =~= p2);
    lemma_dec_bytes(b, l0 + l1, s.initializer);
    lemma_chunk(b, 0, b, l0 + l1 + l2, l3);
    assert(b.subrange(l0 + l1 + l2, l0 + l1 + l2 + l3) =~= p3);
    lemma_dec_u64(b, l0 + l1 + l2, s.records.len() as u64);
    lemma_chunk(b, 0, b, l0 + l1 + l2 + l3, l4);
    assert(b.subrange(l0 + l1 + l2 + l3, l0 + l1 + l2 + l3 + l4) =~= p4);
    lemma_dec_entries(b, l0 + l1 + l2 + l3, s.records);
    lemma_chunk(b, 0, b, l0 + l1 + l2 + l3 + l4, l5);
    assert(b.subrange(l0 + l1 + l2 + l3 + l4, l0 + l1 + l2 + l3 + l4 + l5) =~= p5);
    lemma_dec_u64(b, l0 + l1 + l2 + l3 + l4, s.owners.len() as u64);
    lemma_chunk(b, 0, b, l0 + l1 + l2 + l3 + l4 + l5, l6);
    assert(b.subrange(l0 + l1 + l2 + l3 + l4 + l5, l0 + l1 + l2 + l3 + l4 + l5 + l6) =~= p6);
    lemma_dec_owners(b, l0 + l1 + l2 + l3 + l4 + l5, s.owners);
    assert(dec_vault(b) == Some(s)) by {
        assert((s.records.len() as u64) as nat == s.records.len());
        assert((s.owners.len() as u64) as nat == s.owners.len());
    }
}

/// `enc_entries` distributes over concatenation.
pub proof fn lemma_enc_entries_app(a: Seq<(u64, RecordView)>, b: Seq<(u64, RecordView)>)
    ensures
        enc_entries(a + b) == enc_entries(a) + enc_entries(b),
    decreases a.len(),
{
    if a.len() == 0 {
        assert(a + b =~= b);
        assert(enc_entries(a) + enc_entries(b) =~= enc_entries(b));
    } else {
        lemma_enc_entries_app(a.drop_first(), b);
        assert((a + b).drop_first() =~= a.drop_first() + b);
        assert((a + b)[0] == a[0]);
        assert(enc_entries(a + b) =~= enc_entries(a) + enc_entries(b));
    }
}

/// `enc_ids` distributes over concatenation.
pub proof fn lemma_enc_ids_app(a: Seq<u64>, b: Seq<u64>)
    ensures
        enc_ids(a + b) == enc_ids(a) + enc_ids(b),
    decreases a.len(),
{
    if a.len() == 0 {
        assert(a + b =~= b);
        assert(enc_ids(a) + enc_ids(b) =~= enc_ids(b));
    } else {
        lemma_enc_ids_app(a.drop_first(), b);
        assert((a + b).drop_first() =~= a.drop_first() + b);
        assert((a + b)[0] == a[0]);
        assert(enc_ids(a + b) =~= enc_ids(a) + enc_ids(b));
    }
}

/// `enc_owners` distributes over concatenation.
pub proof fn lemma_enc_owners_app(a: Seq<(Seq<u8>, Seq<u64>)>, b: Seq<(Seq<u8>, Seq<u64>)>)
    ensures
        enc_owners(a + b) == enc_owners(a) + enc_owners(b),
    decreases a.len(),
{
    if a.len() == 0 {
        assert(a + b =~= b);
        assert(enc_owners(a) + enc_owners(b) =~= enc_owners(b));
    } else {
        lemma_enc_owners_app(a.drop_first(), b);
        assert((a + b).drop_first() =~= a.drop_first() + b);
        assert((a + b)[0] == a[0]);
        assert(enc_owners(a + b) =~= enc_owners(a) + enc_owners(b));
    }
}

/// Append the eight little-endian bytes of `v`.
fn push_u64(out: &mut Vec<u8>, v: u64)
    ensures
        final(out)@ == old(out)@ + enc_u64(v),
{
    proof {
        assert((v & 0xff) < 256 && ((v >> 8) & 0xff) < 256 && ((v >> 16) & 0xff) < 256 && ((v
            >> 24) & 0xff) < 256 && ((v >> 32) & 0xff) < 256 && ((v >> 40) & 0xff) < 256 && ((v
            >> 48) & 0xff) < 256 && ((v >> 56) & 0xff) < 256) by (bit_vector);
    }
    out.push((v & 0xff) as u8);
    out.push(((v >> 8) & 0xff) as u8);
    out.push(((v >> 16) & 0xff) as u8);
    out.push(((v >> 24) & 0xff) as u8);
    out.push(((v >> 32) & 0xff) as u8);
    out.push(((v >> 40) & 0xff) as u8);
    out.push(((v >> 48) & 0xff) as u8);
    out.push(((v >> 56) & 0xff) as u8);
    proof {
        assert(out@ =~= old(out)@ + enc_u64(v));
    }
}

/// Append the length-prefixed bytes of `b`.
fn push_bytes(out: &mut Vec<u8>, b: &Vec<u8>)
    ensures
        final(out)@ == old(out)@ + enc_bytes(b@),
{
    let ghost pre = out@;
    push_u64(out, b.len() as u64);
    let mut i: usize = 0;
    while i < b.len()
        invariant
            0 <= i <= b@.len(),
            out@ =~= pre + enc_u64(b@.len() as u64) + b@.take(i as int),
        decreases b@.len() - i,
    {
        out.push(b[i]);
        i = i + 1;
    }
    proof {
        assert(b@.take(b@.len() as int) =~= b@);
        assert(out@ =~= pre + enc_bytes(b@));
    }
}

/// Append the encoding of one record.
fn push_record(out: &mut Vec<u8>, r: &CredentialRecord)
    ensures
        final(out)@ == old(out)@ + enc_record(r@),
{
    let ghost pre = out@;
    push_bytes(out, &r.name);
    push_bytes(out, &r.username);
    push_bytes(out, &r.secret);
    push_bytes(out, &r.url);
    proof {
        assert(out@ =~= pre + enc_record(r@));
    }
}

/// Encode the whole state for the durable region.
pub fn encode_vault(v: &Vault) -> (out: Vec<u8>)
    ensures
        out@ == enc_vault(v@),
{
    let mut out: Vec<u8> = Vec::new();
    out.push(VERSION_TAG);
    push_u64(&mut out, v.counter);
    push_bytes(&mut out, &v.initializer.bytes);
    push_u64(&mut out, v.store.entries.len() as u64);
    let ghost rv = entries_view(v.store.entries@);
    let ghost head = out@;
    let mut x: usize = 0;
    while x < v.store.entries.len()
        invariant
            0 <= x <= rv.len(),
            rv == entries_view(v.store.entries@),
            rv.len() == v.store.entries@.len(),
            out@ =~= head + enc_entries(rv.take(x as int)),
        decreases rv.len() - x,
    {
        let ghost sofar = rv.take(x as int);
        let e = &v.store.entries[x];
        push_u64(&mut out, e.id);
        push_record(&mut out, &e.record);
        proof {
            assert(rv[x as int] == (e.id, e.record@));
            assert(rv.take(x + 1 as int) =~= sofar + seq![rv[x as int]]);
            lemma_enc_entries_app(sofar, seq![rv[x as int]]);
            assert(seq![rv[x as int]].drop_first() =~= Seq::<(u64, RecordView)>::empty());
            assert(enc_entries(Seq::<(u64, RecordView)>::empty()) =~= Seq::<u8>::empty());
            assert(enc_entries(seq![rv[x as int]]) =~= enc_entry(rv[x as int]));
            assert(out@ =~= head + enc_entries(rv.take(x + 1 as int)));
        }
        x = x + 1;
    }
    proof {
        assert(rv.take(rv.len() as int) =~= rv);
    }
    push_u64(&mut out, v.index.entries.len() as u64);
    let ghost ov = v.index.entries@.map_values(|e: OwnerEntry| e@);
    let ghost head2 = out@;
    let mut y: usize = 0;
    while y < v.index.entries.len()
        invariant
            0 <= y <= ov.len(),
            ov == v.index.entries@.map_values(|e: OwnerEntry| e@),
            ov.len() == v.index.entries@.len(),
            out@ =~= head2 + enc_owners(ov.take(y as int)),
        decreases ov.len() - y,
    {
        let ghost sofar = ov.take(y as int);
        let ghost pre_entry = out@;
        let e = &v.index.entries[y];
        push_bytes(&mut out, &e.owner.bytes);
        push_u64(&mut out, e.ids.len() as u64);
        let ghost head3 = out@;
        let mut z: usize = 0;
        while z < e.ids.len()
            invariant
                0 <= z <= e.ids@.len(),
                out@ =~= head3 + enc_ids(e.ids@.take(z as int)),
            decreases e.ids@.len() - z,
        {
            let ghost idsofar = e.ids@.take(z as int);
            push_u64(&mut out, e.ids[z]);
            proof {
                assert(e.ids@.take(z + 1 as int) =~= idsofar + seq![e.ids@[z as int]]);
                lemma_enc_ids_app(idsofar, seq![e.ids@[z as int]]);
                assert(seq![e.ids@[z as int]].drop_first() =~= Seq::<u64>::empty());
                assert(enc_ids(Seq::<u64>::empty()) =~= Seq::<u8>::empty());
                assert(enc_ids(seq![e.ids@[z as int]]) =~= enc_u64(e.ids@[z as int]));
                assert(out@ =~= head3 + enc_ids(e.ids@.take(z + 1 as int)));
            }
            z = z + 1;
        }
        proof {
            assert(e.ids@.take(e.ids@.len() as int) =~= e.ids@);
            assert(ov[y as int] == (e.owner@, e.ids@));
            assert(out@ =~= pre_entry + enc_owner(ov[y as int]));
            assert(ov.take(y + 1 as int) =~= sofar + seq![ov[y as int]]);
            lemma_enc_owners_app(sofar, seq![ov[y as int]]);
            assert(seq![ov[y as int]].drop_first() =~= Seq::<(Seq<u8>, Seq<u64>)>::empty());
            assert(enc_owners(Seq::<(Seq<u8>, Seq<u64>)>::empty()) =~= Seq::<u8>::empty());
            assert(enc_owners(seq![ov[y as int]]) =~= enc_owner(ov[y as int]));
            assert(out@ =~= head2 + enc_owners(ov.take(y + 1 as int)));
        }
        y = y + 1;
    }
    proof {
        assert(ov.take(ov.len() as int) =~= ov);
        assert(out@ =~= enc_vault(v@));
    }
    out
}

/// An independent full copy of the state, taken synchronously before
/// an upgrade; nothing of the live state is shared with the copy.
pub fn capture(v: &Vault) -> (r: Vault)
    ensures
        r@ == v@,
{
    let mut entries: Vec<RecordEntry> = Vec::new();
    let mut x: usize = 0;
    while x < v.store.entries.len()
        invariant
            0 <= x <= v.store.entries@.len(),
            entries@.len() == x,
            forall|k: int| 0 <= k < x ==> (#[trigger] entries@[k])@ == v.store.entries@[k]@,
        decreases v.store.entries@.len() - x,
    {
        let e = &v.store.entries[x];
        entries.push(RecordEntry { id: e.id, record: e.record.duplicate() });
        x = x + 1;
    }
    let mut owners: Vec<OwnerEntry> = Vec::new();
    let mut y: usize = 0;
    while y < v.index.entries.len()
        invariant
            0 <= y <= v.index.entries@.len(),
            owners@.len() == y,
            forall|k: int| 0 <= k < y ==> (#[trigger] owners@[k])@ == v.index.entries@[k]@,
        decreases v.index.entries@.len() - y,
    {
        let e = &v.index.entries[y];
        owners.push(OwnerEntry { owner: e.owner.duplicate(), ids: copy_ids(&e.ids) });
        y = y + 1;
    }
    let r = Vault {
        counter: v.counter,
        store: RecordStore { entries },
        index: OwnershipIndex { entries: owners },
        initializer: v.initializer.duplicate(),
    };
    proof {
        assert(r@.records =~= v@.records);
        assert(r@.owners =~= v@.owners);
        assert(r@ =~~= v@);
    }
    r
}

/// Read a `u64` at `i`.
fn read_u64(s: &Vec<u8>, i: usize) -> (r: Option<(u64, usize)>)
    requires
        i <= s@.len(),
    ensures
        match r {
            Some(p) => dec_u64(s@, i as int) == Some((p.0, p.1 as int)) && p.1 <= s@.len(),
            None => dec_u64(s@, i as int) is None,
        },
{
    if s.len() - i < 8 {
        return None;
    }
    let v = (s[i] as u64) | ((s[i + 1] as u64) << 8) | ((s[i + 2] as u64) << 16) | ((s[i
        + 3] as u64) << 24) | ((s[i + 4] as u64) << 32) | ((s[i + 5] as u64) << 40) | ((s[i
        + 6] as u64) << 48) | ((s[i + 7] as u64) << 56);
    Some((v, i + 8))
}

/// Read a length-prefixed byte string at `i`.
fn read_bytes(s: &Vec<u8>, i: usize) -> (r: Option<(Vec<u8>, usize)>)
    requires
        i <= s@.len(),
    ensures
        match r {
            Some(p) => dec_bytes(s@, i as int) == Some((p.0@, p.1 as int)) && p.1 <= s@.len(),
            None => dec_bytes(s@, i as int) is None,
        },
{
    let (n, j) = match read_u64(s, i) {
        Some(p) => p,
        None => {
            return None;
        },
    };
    if n > (s.len() - j) as u64 {
        return None;
    }
    let n_us = n as usize;
    let mut b: Vec<u8> = Vec::new();
    let mut k: usize = 0;
    while k < n_us
        invariant
            0 <= k <= n_us,
            j + n_us <= s@.len(),
            s@.len() <= usize::MAX,
            b@ =~= s@.subrange(j as int, j + k as int),
        decreases n_us - k,
    {
        b.push(s[j + k]);
        proof {
            assert(b@ =~= s@.subrange(j as int, j + k + 1 as int));
        }
        k = k + 1;
    }
    Some((b, j + n_us))
}

/// Read a record at `i`.
fn read_record(s: &Vec<u8>, i: usize) -> (r: Option<(CredentialRecord, usize)>)
    requires
        i <= s@.len(),
    ensures
        match r {
            Some(p) => dec_record(s@, i as int) == Some((p.0@, p.1 as int)) && p.1 <= s@.len(),
            None => dec_record(s@, i as int) is None,
        },
{
    let (name, i1) = match read_bytes(s, i) {
        Some(p) => p,
        None => {
            return None;
        },
    };
    let (username, i2) = match read_bytes(s, i1) {
        Some(p) => p,
        None => {
            return None;
        },
    };
    let (secret, i3) = match read_bytes(s, i2) {
        Some(p) => p,
        None => {
            return None;
        },
    };
    let (url, i4) = match read_bytes(s, i3) {
        Some(p) => p,
        None => {
            return None;
        },
    };
    Some((CredentialRecord { name, username, secret, url }, i4))
}

/// Read `n` ids at `i`.
fn read_ids(s: &Vec<u8>, i: usize, n: u64) -> (r: Option<(Vec<u64>, usize)>)
    requires
        i <= s@.len(),
    ensures
        match r {
            Some(p) => dec_ids(s@, i as int, n as nat) == Some((p.0@, p.1 as int)) && p.1
                <= s@.len(),
            None => dec_ids(s@, i as int, n as nat) is None,
        },
{
    let mut acc: Vec<u64> = Vec::new();
    let mut cur: usize = i;
    let mut k: u64 = 0;
    while k < n
        invariant
            cur <= s@.len(),
            0 <= k <= n,
            match dec_ids(s@, cur as int, (n - k) as nat) {
                Some(p) => dec_ids(s@, i as int, n as nat) == Some((acc@ + p.0, p.1)),
                None => dec_ids(s@, i as int, n as nat) is None,
            },
        decreases n - k,
    {
        match read_u64(s, cur) {
            Some((v, j)) => {
                let ghost pre = acc@;
                acc.push(v);
                proof {
                    let m = (n - k) as nat;
                    let tail = dec_ids(s@, j as int, (m - 1) as nat);
                    match tail {
                        Some(q) => {
                            assert(dec_ids(s@, cur as int, m) == Some((seq![v] + q.0, q.1)));
                            assert(pre + (seq![v] + q.0) =~= acc@ + q.0);
                        },
                        None => {
                            assert(dec_ids(s@, cur as int, m) is None);
                        },
                    }
                }
                cur = j;
                k = k + 1;
            },
            None => {
                return None;
            },
        }
    }
    proof {
        assert(acc@ + Seq::<u64>::empty() =~= acc@);
    }
    Some((acc, cur))
}

/// Read `n` store entries at `i`.
fn read_entries(s: &Vec<u8>, i: usize, n: u64) -> (r: Option<(Vec<RecordEntry>, usize)>)
    requires
        i <= s@.len(),
    ensures
        match r {
            Some(p) => dec_entries(s@, i as int, n as nat) == Some((entries_view(p.0@), p.1 as int))
                && p.1 <= s@.len(),
            None => dec_entries(s@, i as int, n as nat) is None,
        },
{
    let mut acc: Vec<RecordEntry> = Vec::new();
    let mut cur: usize = i;
    let mut k: u64 = 0;
    while k < n
        invariant
            cur <= s@.len(),
            0 <= k <= n,
            match dec_entries(s@, cur as int, (n - k) as nat) {
                Some(p) => dec_entries(s@, i as int, n as nat) == Some((entries_view(acc@) + p.0, p.1)),
                None => dec_entries(s@, i as int, n as nat) is None,
            },
        decreases n - k,
    {
        let (id, j) = match read_u64(s, cur) {
            Some(p) => p,
            None => {
                return None;
            },
        };
        let (record, j2) = match read_record(s, j) {
            Some(p) => p,
            None => {
                proof {
                    assert(dec_entry(s@, cur as int) is None);
                    assert(dec_entries(s@, cur as int, (n - k) as nat) is None);
                }
                return None;
            },
        };
        let ghost pre = acc@;
        let ghost e = (id, record@);
        acc.push(RecordEntry { id, record });
        proof {
            let m = (n - k) as nat;
            assert(dec_entry(s@, cur as int) == Some((e, j2 as int)));
            let tail = dec_entries(s@, j2 as int, (m - 1) as nat);
            match tail {
                Some(q) => {
                    assert(dec_entries(s@, cur as int, m) == Some((seq![e] + q.0, q.1)));
                    assert(entries_view(pre) + (seq![e] + q.0) =~= entries_view(acc@) + q.0);
                },
                None => {
                    assert(dec_entries(s@, cur as int, m) is None);
                },
            }
        }
        cur = j2;
        k = k + 1;
    }
    proof {
        assert(entries_view(acc@) + Seq::<(u64, RecordView)>::empty() =~= entries_view(acc@));
    }
    Some((acc, cur))
}

/// Read one index entry at `i`.
fn read_owner(s: &Vec<u8>, i: usize) -> (r: Option<(OwnerEntry, usize)>)
    requires
        i <= s@.len(),
    ensures
        match r {
            Some(p) => dec_owner(s@, i as int) == Some((p.0@, p.1 as int)) && p.1 <= s@.len(),
            None => dec_owner(s@, i as int) is None,
        },
{
    let (owner_bytes, i1) = match read_bytes(s, i) {
        Some(p) => p,
        None => {
            return None;
        },
    };
    let (n, i2) = match read_u64(s, i1) {
        Some(p) => p,
        None => {
            return None;
        },
    };
    let (ids, i3) = match read_ids(s, i2, n) {
        Some(p) => p,
        None => {
            return None;
        },
    };
    Some((OwnerEntry { owner: Identity::from_bytes(owner_bytes), ids }, i3))
}

/// Read `n` index entries at `i`.
fn read_owners(s: &Vec<u8>, i: usize, n: u64) -> (r: Option<(Vec<OwnerEntry>, usize)>)
    requires
        i <= s@.len(),
    ensures
        match r {
            Some(p) => dec_owners(s@, i as int, n as nat) == Some(
                (p.0@.map_values(|e: OwnerEntry| e@), p.1 as int),
            ) && p.1 <= s@.len(),
            None => dec_owners(s@, i as int, n as nat) is None,
        },
{
    let mut acc: Vec<OwnerEntry> = Vec::new();
    let mut cur: usize = i;
    let mut k: u64 = 0;
    while k < n
        invariant
            cur <= s@.len(),
            0 <= k <= n,
            match dec_owners(s@, cur as int, (n - k) as nat) {
                Some(p) => dec_owners(s@, i as int, n as nat) == Some(
                    (acc@.map_values(|e: OwnerEntry| e@) + p.0, p.1),
                ),
                None => dec_owners(s@, i as int, n as nat) is None,
            },
        decreases n - k,
    {
        let (entry, j) = match read_owner(s, cur) {
            Some(p) => p,
            None => {
                return None;
            },
        };
        let ghost pre = acc@;
        let ghost e = entry@;
        acc.push(entry);
        proof {
            let m = (n - k) as nat;
            let tail = dec_owners(s@, j as int, (m - 1) as nat);
            match tail {
                Some(q) => {
                    assert(dec_owners(s@, cur as int, m) == Some((seq![e] + q.0, q.1)));
                    assert(pre.map_values(|x: OwnerEntry| x@) + (seq![e] + q.0) =~= acc@.map_values(
                        |x: OwnerEntry| x@,
                    ) + q.0);
                },
                None => {
                    assert(dec_owners(s@, cur as int, m) is None);
                },
            }
        }
        cur = j;
        k = k + 1;
    }
    proof {
        assert(acc@.map_values(|e: OwnerEntry| e@) + Seq::<(Seq<u8>, Seq<u64>)>::empty()
            =~= acc@.map_values(|e: OwnerEntry| e@));
    }
    Some((acc, cur))
}

/// Decode a whole snapshot, or nothing when the bytes are not one
/// complete well-versioned snapshot.
pub fn decode_vault(s: &Vec<u8>) -> (r: Option<Vault>)
    ensures
        match r {
            Some(v) => dec_vault(s@) == Some(v@),
            None => dec_vault(s@) is None,
        },
{
    if s.len() == 0 {
        return None;
    }
    if s[0] != VERSION_TAG {
        return None;
    }
    let (counter, i1) = match read_u64(s, 1) {
        Some(p) => p,
        None => {
            return None;
        },
    };
    let (init, i2) = match read_bytes(s, i1) {
        Some(p) => p,
        None => {
            return None;
        },
    };
    let (nrec, i3) = match read_u64(s, i2) {
        Some(p) => p,
        None => {
            return None;
        },
    };
    let (entries, i4) = match read_entries(s, i3, nrec) {
        Some(p) => p,
        None => {
            return None;
        },
    };
    let (nown, i5) = match read_u64(s, i4) {
        Some(p) => p,
        None => {
            return None;
        },
    };
    let (owners, i6) = match read_owners(s, i5, nown) {
        Some(p) => p,
        None => {
            return None;
        },
    };
    if i6 != s.len() {
        return None;
    }
    let v = Vault {
        counter,
        store: RecordStore { entries },
        index: OwnershipIndex { entries: owners },
        initializer: Identity::from_bytes(init),
    };
    Some(v)
}

/// Whether the store's ids are pairwise distinct.
fn check_store_uniq(st: &RecordStore) -> (r: bool)
    ensures
        r == uniq_ids(st@),
{
    let n = st.entries.len();
    let mut x: usize = 0;
    while x < n
        invariant
            n == st@.len(),
            0 <= x <= n,
            forall|a: int, c: int| 0 <= a < c < n && a < x ==> st@[a].0 != st@[c].0,
        decreases n - x,
    {
        let mut y: usize = x + 1;
        while y < n
            invariant
                n == st@.len(),
                0 <= x < n,
                x < y <= n,
                forall|a: int, c: int| 0 <= a < c < n && a < x ==> st@[a].0 != st@[c].0,
                forall|c: int| x < c < y ==> st@[x as int].0 != st@[c].0,
            decreases n - y,
        {
            if st.entries[x].id == st.entries[y].id {
                proof {
                    assert(st@[x as int].0 == st@[y as int].0);
                }
                return false;
            }
            y = y + 1;
        }
        x = x + 1;
    }
    true
}

/// Whether the ids of one entry are pairwise distinct.
fn check_ids_uniq(ids: &Vec<u64>) -> (r: bool)
    ensures
        r == (forall|a: int, b: int| 0 <= a < b < ids@.len() ==> ids@[a] != ids@[b]),
{
    let n = ids.len();
    let mut x: usize = 0;
    while x < n
        invariant
            n == ids@.len(),
            0 <= x <= n,
            forall|a: int, c: int| 0 <= a < c < n && a < x ==> ids@[a] != ids@[c],
        decreases n - x,
    {
        let mut y: usize = x + 1;
        while y < n
            invariant
                n == ids@.len(),
                0 <= x < n,
                x < y <= n,
                forall|a: int, c: int| 0 <= a < c < n && a < x ==> ids@[a] != ids@[c],
                forall|c: int| x < c < y ==> ids@[x as int] != ids@[c],
            decreases n - y,
        {
            if ids[x] == ids[y] {
                proof {
                    assert(ids@[x as int] == ids@[y as int]);
                }
                return false;
            }
            y = y + 1;
        }
        x = x + 1;
    }
    true
}

/// Whether the index's owners are pairwise distinct.
fn check_owners_distinct(ix: &OwnershipIndex) -> (r: bool)
    ensures
        r == (forall|i: int, j: int|
            0 <= i < j < ix@.len() ==> (#[trigger] ix@[i].0) != (#[trigger] ix@[j].0)),
{
    let n = ix.entries.len();
    let mut x: usize = 0;
    while x < n
        invariant
            n == ix@.len(),
            0 <= x <= n,
            forall|a: int, c: int|
                0 <= a < c < n && a < x ==> (#[trigger] ix@[a].0) != (#[trigger] ix@[c].0),
        decreases n - x,
    {
        let mut y: usize = x + 1;
        while y < n
            invariant
                n == ix@.len(),
                0 <= x < n,
                x < y <= n,
                forall|a: int, c: int|
                    0 <= a < c < n && a < x ==> (#[trigger] ix@[a].0) != (#[trigger] ix@[c].0),
                forall|c: int| x < c < y ==> ix@[x as int].0 != (#[trigger] ix@[c].0),
            decreases n - y,
        {
            if ix.entries[x].owner.same_as(&ix.entries[y].owner) {
                proof {
                    assert(ix@[x as int].0 == ix@[y as int].0);
                }
                return false;
            }
            y = y + 1;
        }
        x = x + 1;
    }
    true
}

/// Whether every entry is nonempty with pairwise-distinct ids.
fn check_owner_entries(ix: &OwnershipIndex) -> (r: bool)
    ensures
        r == ((forall|i: int| 0 <= i < ix@.len() ==> (#[trigger] ix@[i].1).len() > 0) && (
        forall|i: int, a: int, b: int|
            0 <= i < ix@.len() && 0 <= a < b < ix@[i].1.len() ==> (#[trigger] ix@[i].1[a]) != (
            #[trigger] ix@[i].1[b]))),
{
    let n = ix.entries.len();
    let mut x: usize = 0;
    while x < n
        invariant
            n == ix@.len(),
            0 <= x <= n,
            forall|i: int| 0 <= i < x ==> (#[trigger] ix@[i].1).len() > 0,
            forall|i: int, a: int, b: int|
                0 <= i < x && 0 <= a < b < ix@[i].1.len() ==> (#[trigger] ix@[i].1[a]) != (
                #[trigger] ix@[i].1[b]),
        decreases n - x,
    {
        if ix.entries[x].ids.len() == 0 {
            proof {
                assert(ix@[x as int].1.len() == 0);
            }
            return false;
        }
        if !check_ids_uniq(&ix.entries[x].ids) {
            proof {
                let iv = ix@[x as int].1;
                assert(iv == ix.entries@[x as int].ids@);
                let (a, b) = choose|a: int, b: int| !(0 <= a < b < iv.len() ==> iv[a] != iv[b]);
                assert(0 <= a < b < iv.len() && iv[a] == iv[b]);
                assert((ix@[x as int].1[a]) == (ix@[x as int].1[b]));
            }
            return false;
        }
        x = x + 1;
    }
    true
}

/// Whether no id appears under two different owners.
fn check_cross_disjoint(ix: &OwnershipIndex) -> (r: bool)
    ensures
        r == (forall|i: int, j: int, a: int, b: int|
            0 <= i < ix@.len() && 0 <= j < ix@.len() && i != j && 0 <= a < ix@[i].1.len() && 0 <= b
                < ix@[j].1.len() ==> (#[trigger] ix@[i].1[a]) != (#[trigger] ix@[j].1[b])),
{
    let n = ix.entries.len();
    let mut x: usize = 0;
    while x < n
        invariant
            n == ix@.len(),
            0 <= x <= n,
            forall|i: int, j: int, a: int, b: int|
                0 <= i < j < n && i < x && 0 <= a < ix@[i].1.len() && 0 <= b < ix@[j].1.len() ==> (
                #[trigger] ix@[i].1[a]) != (#[trigger] ix@[j].1[b]),
        decreases n - x,
    {
        let mut y: usize = x + 1;
        while y < n
            invariant
                n == ix@.len(),
                0 <= x < n,
                x < y <= n,
                forall|i: int, j: int, a: int, b: int|
                    0 <= i < j < n && i < x && 0 <= a < ix@[i].1.len() && 0 <= b < ix@[j].1.len()
                        ==> (#[trigger] ix@[i].1[a]) != (#[trigger] ix@[j].1[b]),
                forall|j: int, a: int, b: int|
                    x < j < y && 0 <= a < ix@[x as int].1.len() && 0 <= b < ix@[j].1.len() ==> (
                    #[trigger] ix@[x as int].1[a]) != (#[trigger] ix@[j].1[b]),
            decreases n - y,
        {
            let mut z: usize = 0;
            while z < ix.entries[x].ids.len()
                invariant
                    n == ix@.len(),
                    0 <= x < n,
                    x < y < n,
                    0 <= z <= ix@[x as int].1.len(),
                    forall|a: int, b: int|
                        0 <= a < z && 0 <= b < ix@[y as int].1.len() ==> (
                        #[trigger] ix@[x as int].1[a]) != (#[trigger] ix@[y as int].1[b]),
                decreases ix@[x as int].1.len() - z,
            {
                if ids_contain(&ix.entries[y].ids, ix.entries[x].ids[z]) {
                    proof {
                        let id = ix@[x as int].1[z as int];
                        let b = choose|b: int|
                            0 <= b < ix@[y as int].1.len() && ix@[y as int].1[b] == id;
                        assert(ix@[x as int].1[z as int] == ix@[y as int].1[b]);
                    }
                    return false;
                }
                proof {
                    if exists|b: int|
                        0 <= b < ix@[y as int].1.len() && (#[trigger] ix@[y as int].1[b])
                            == ix@[x as int].1[z as int] {
                        let b = choose|b: int|
                            0 <= b < ix@[y as int].1.len() && ix@[y as int].1[b] == ix@[x as int].1[z as int];
                        assert(ix@[y as int].1.contains(ix@[x as int].1[z as int]));
                    }
                }
                z = z + 1;
            }
            y = y + 1;
        }
        x = x + 1;
    }
    proof {
        assert forall|i: int, j: int, a: int, b: int|
            0 <= i < n && 0 <= j < n && i != j && 0 <= a < ix@[i].1.len() && 0 <= b
                < ix@[j].1.len() implies (#[trigger] ix@[i].1[a]) != (#[trigger] ix@[j].1[b]) by {
            if i < j {
                assert(ix@[i].1[a] != ix@[j].1[b]);
            } else {
                assert(ix@[j].1[b] != ix@[i].1[a]);
            }
        }
    }
    true
}

/// Whether every indexed id is backed by a stored record.
fn check_owned_in_store(ix: &OwnershipIndex, st: &RecordStore) -> (r: bool)
    requires
        uniq_ids(st@),
    ensures
        r == (forall|i: int, a: int|
            0 <= i < ix@.len() && 0 <= a < ix@[i].1.len() ==> has_rec(
                st@,
                #[trigger] ix@[i].1[a],
            )),
{
    let n = ix.entries.len();
    let mut x: usize = 0;
    while x < n
        invariant
            n == ix@.len(),
            uniq_ids(st@),
            0 <= x <= n,
            forall|i: int, a: int|
                0 <= i < x && 0 <= a < ix@[i].1.len() ==> has_rec(st@, #[trigger] ix@[i].1[a]),
        decreases n - x,
    {
        let mut z: usize = 0;
        while z < ix.entries[x].ids.len()
            invariant
                n == ix@.len(),
                uniq_ids(st@),
                0 <= x < n,
                0 <= z <= ix@[x as int].1.len(),
                forall|a: int| 0 <= a < z ==> has_rec(st@, #[trigger] ix@[x as int].1[a]),
            decreases ix@[x as int].1.len() - z,
        {
            match st.get(ix.entries[x].ids[z]) {
                Some(_) => {},
                None => {
                    return false;
                },
            }
            z = z + 1;
        }
        x = x + 1;
    }
    true
}

/// Whether the anonymous identity owns nothing.
fn check_not_anon(ix: &OwnershipIndex) -> (r: bool)
    ensures
        r == (forall|i: int| 0 <= i < ix@.len() ==> (#[trigger] ix@[i].0) != anonymous_bytes()),
{
    let n = ix.entries.len();
    let mut x: usize = 0;
    while x < n
        invariant
            n == ix@.len(),
            0 <= x <= n,
            forall|i: int| 0 <= i < x ==> (#[trigger] ix@[i].0) != anonymous_bytes(),
        decreases n - x,
    {
        if ix.entries[x].owner.is_anonymous() {
            proof {
                assert(ix@[x as int].0 == anonymous_bytes());
            }
            return false;
        }
        x = x + 1;
    }
    true
}

/// Whether every stored id is below the counter.
fn check_ids_below(st: &RecordStore, counter: u64) -> (r: bool)
    ensures
        r == (forall|j: int| 0 <= j < st@.len() ==> (#[trigger] st@[j].0) < counter),
{
    let n = st.entries.len();
    let mut x: usize = 0;
    while x < n
        invariant
            n == st@.len(),
            0 <= x <= n,
            forall|j: int| 0 <= j < x ==> (#[trigger] st@[j].0) < counter,
        decreases n - x,
    {
        if st.entries[x].id >= counter {
            proof {
                assert(st@[x as int].0 >= counter);
            }
            return false;
        }
        x = x + 1;
    }
    true
}

/// Whether a decoded state satisfies the cross-structure invariant.
pub fn check_vault_wf(v: &Vault) -> (r: bool)
    ensures
        r == vault_wf(v@),
{
    if v.counter < 1 {
        return false;
    }
    if !check_store_uniq(&v.store) {
        return false;
    }
    if !check_owners_distinct(&v.index) {
        return false;
    }
    if !check_owner_entries(&v.index) {
        return false;
    }
    if !check_cross_disjoint(&v.index) {
        return false;
    }
    if !check_owned_in_store(&v.index, &v.store) {
        return false;
    }
    if !check_not_anon(&v.index) {
        return false;
    }
    if !check_ids_below(&v.store, v.counter) {
        return false;
    }
    true
}

/// What the durable region holds, as a byte sequence.
pub open spec fn region_view(region: Option<&Vec<u8>>) -> Option<Seq<u8>> {
    match region {
        Some(b) => Some(b@),
        None => None,
    }
}

/// What restoration yields for each possible durable region: a missing
/// region and bytes that do not decode to a well-formed state both
/// fail, everything else restores exactly.
pub open spec fn restore_spec(region: Option<Seq<u8>>) -> Result<VaultView, RestoreError> {
    match region {
        None => Err(RestoreError::MissingSnapshot),
        Some(bytes) => match dec_vault(bytes) {
            Some(s) => if vault_wf(s) {
                Ok(s)
            } else {
                Err(RestoreError::DecodeFailure)
            },
            None => Err(RestoreError::DecodeFailure),
        },
    }
}

/// Read the durable region back into a state; never panics, whatever
/// the region holds.
pub fn restore(region: Option<&Vec<u8>>) -> (r: Result<Vault, RestoreError>)
    ensures
        match r {
            Ok(v) => restore_spec(region_view(region)) == Ok::<VaultView, RestoreError>(v@)
                && vault_wf(v@),
            Err(e) => restore_spec(region_view(region)) == Err::<VaultView, RestoreError>(e),
        },
{
    let bytes = match region {
        Some(b) => b,
        None => {
            return Err(RestoreError::MissingSnapshot);
        },
    };
    let v = match decode_vault(bytes) {
        Some(v) => v,
        None => {
            return Err(RestoreError::DecodeFailure);
        },
    };
    if !check_vault_wf(&v) {
        return Err(RestoreError::DecodeFailure);
    }
    Ok(v)
}

/// The startup sequence: the restored state when the region holds a
/// well-formed snapshot, else the fresh fallback state with `caller`
/// as initializer. The flag reports whether restoration succeeded, so
/// the host can log the fallback; no failure propagates.
pub fn restore_or_fallback(region: Option<&Vec<u8>>, caller: &Identity) -> (r: (Vault, bool))
    ensures
        vault_wf(r.0@),
        r.1 == (restore_spec(region_view(region)) is Ok),
        restore_spec(region_view(region)) matches Ok(s) ==> r.0@ == s,
        restore_spec(region_view(region)) is Err ==> r.0@ == fallback_view(caller@),
{
    match restore(region) {
        Ok(v) => (v, true),
        Err(_) => (Vault::new(caller), false),
    }
}

/// Round trip: restoring the persisted encoding of any well-formed
/// bounded state yields exactly that state — counter, records, owners
/// and initializer alike.
pub proof fn lemma_snapshot_round_trip(s: VaultView)
    requires
        vault_wf(s),
        bounded_vault(s),
    ensures
        restore_spec(Some(enc_vault(s))) == Ok::<VaultView, RestoreError>(s),
{
    lemma_dec_enc_vault(s);
}

/// An empty or never-written durable region never restores: the
/// startup sequence falls back to the fresh state.
pub proof fn lemma_empty_region_fallback(region: Option<Seq<u8>>)
    requires
        region is None || region == Some(Seq::<u8>::empty()),
    ensures
        restore_spec(region) is Err,
{
    if region is Some {
        assert(dec_vault(Seq::<u8>::empty()) is None);
    }
}

} // verus!
