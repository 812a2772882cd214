use vstd::prelude::*;
use crate::pool::{admits, count_for, distinct_keys, entry_ids, ids_for, without_id, IndexEntry};

verus! {

/// Every sender id that the index lists is registered.
pub open spec fn agrees(idx: Seq<IndexEntry>, reg_ids: Seq<u64>) -> bool {
    forall|i: int| 0 <= i < idx.len() ==> reg_ids.contains(#[trigger] idx[i].1)
}

/// Every sender id that the index lists is registered, but maybe `id`: the
/// state while the connection of a fresh admission is being opened.
pub open spec fn agrees_except(idx: Seq<IndexEntry>, reg_ids: Seq<u64>, id: u64) -> bool {
    forall|i: int| 0 <= i < idx.len() && #[trigger] idx[i].1 != id ==> reg_ids.contains(idx[i].1)
}

/// Each id listed for a destination comes from an index entry of it.
pub proof fn lemma_ids_for_entries(idx: Seq<IndexEntry>, d: Seq<char>)
    ensures
        forall|k: int|
            0 <= k < ids_for(idx, d).len() ==> exists|j: int|
                0 <= j < idx.len() && idx[j] == (d, #[trigger] ids_for(idx, d)[k]),
    decreases idx.len(),
{
    if idx.len() > 0 {
        let p = idx.drop_last();
        lemma_ids_for_entries(p, d);
        assert forall|k: int| 0 <= k < ids_for(idx, d).len() implies exists|j: int|
            0 <= j < idx.len() && idx[j] == (d, #[trigger] ids_for(idx, d)[k]) by {
            if k < ids_for(p, d).len() {
                assert(ids_for(idx, d)[k] == ids_for(p, d)[k]);
                let j = choose|j: int| 0 <= j < p.len() && p[j] == (d, ids_for(p, d)[k]);
                assert(idx[j] == p[j]);
            } else {
                assert(idx[idx.len() - 1] == idx.last());
            }
        }
    }
}

/// When every listed id is registered, so is every id listed for `d`.
pub proof fn lemma_agrees_for(idx: Seq<IndexEntry>, reg_ids: Seq<u64>, d: Seq<char>)
    requires
        agrees(idx, reg_ids),
    ensures
        forall|k: int|
            0 <= k < ids_for(idx, d).len() ==> reg_ids.contains(#[trigger] ids_for(idx, d)[k]),
{
    lemma_ids_for_entries(idx, d);
    assert forall|k: int| 0 <= k < ids_for(idx, d).len() implies reg_ids.contains(
        #[trigger] ids_for(idx, d)[k],
    ) by {
        let j = choose|j: int| 0 <= j < idx.len() && idx[j] == (d, ids_for(idx, d)[k]);
        assert(reg_ids.contains(idx[j].1));
    }
}

/// Appending an entry counts one more for its own destination and none for
/// any other.
pub proof fn lemma_count_push(idx: Seq<IndexEntry>, e: IndexEntry, d: Seq<char>)
    ensures
        count_for(idx.push(e), d) == count_for(idx, d) + if e.0 == d {
            1nat
        } else {
            0nat
        },
{
    assert(idx.push(e).drop_last() =~= idx);
}

/// Taking a sender's entries out never raises a destination's count.
pub proof fn lemma_count_without(idx: Seq<IndexEntry>, x: u64, d: Seq<char>)
    ensures
        count_for(without_id(idx, x), d) <= count_for(idx, d),
    decreases idx.len(),
{
    if idx.len() > 0 {
        let p = idx.drop_last();
        lemma_count_without(p, x, d);
        if idx.last().1 != x {
            lemma_count_push(without_id(p, x), idx.last(), d);
        }
    }
}

/// Taking out an id that the index does not list leaves it as it is.
pub proof fn lemma_without_absent(idx: Seq<IndexEntry>, x: u64)
    requires
        !entry_ids(idx).contains(x),
    ensures
        without_id(idx, x) == idx,
    decreases idx.len(),
{
    if idx.len() > 0 {
        let p = idx.drop_last();
        assert(entry_ids(p) =~= entry_ids(idx).drop_last());
        assert forall|k: int| 0 <= k < p.len() implies entry_ids(p)[k] != x by {
            assert(entry_ids(idx)[k] != x);
        }
        lemma_without_absent(p, x);
        assert(entry_ids(idx)[idx.len() - 1] != x);
        assert(p.push(idx.last()) =~= idx);
    }
}

/// Admission cap: when destination `d` holds at most `k` index entries, with
/// `k` at least one, it still holds at most `k` after any step of the pool: an
/// admission under cap `k` for `d`, an admission for another destination, and
/// the removal of any sender's entries (rollback or deregistration).
pub proof fn lemma_admission_cap(
    idx: Seq<IndexEntry>,
    d: Seq<char>,
    k: u32,
    e: Seq<char>,
    id: u64,
    x: u64,
)
    requires
        count_for(idx, d) <= k,
        1 <= k,
    ensures
        admits(idx, d, k) ==> count_for(idx.push((d, id)), d) <= k,
        e != d ==> count_for(idx.push((e, id)), d) == count_for(idx, d),
        count_for(without_id(idx, x), d) <= k,
{
    lemma_count_push(idx, (d, id), d);
    lemma_count_push(idx, (e, id), d);
    lemma_count_without(idx, x, d);
}

/// Rollback on open failure: when the connection of a fresh admission cannot
/// be opened, taking its entry out gives back the index as it was, so every
/// destination's count is as before the call.
pub proof fn lemma_rollback_restores(idx: Seq<IndexEntry>, d: Seq<char>, id: u64, c: Seq<char>)
    requires
        !entry_ids(idx).contains(id),
    ensures
        without_id(idx.push((d, id)), id) == idx,
        count_for(without_id(idx.push((d, id)), id), c) == count_for(idx, c),
{
    assert(idx.push((d, id)).drop_last() =~= idx);
    lemma_without_absent(idx, id);
}

/// Registry and index agreement: when every listed id is registered, it stays
/// so after an admission whose sender is then registered, after a rollback,
/// and after a deregistration that takes the id out of both.
pub proof fn lemma_agreement_kept(
    idx: Seq<IndexEntry>,
    reg_ids: Seq<u64>,
    d: Seq<char>,
    id: u64,
    x: u64,
    p: int,
)
    requires
        agrees(idx, reg_ids),
    ensures
        agrees(idx.push((d, id)), reg_ids.push(id)),
        agrees(without_id(idx, x), reg_ids),
        0 <= p < reg_ids.len() && reg_ids[p] == x ==> agrees(
            without_id(idx, x),
            reg_ids.remove(p),
        ),
{
    let pushed = idx.push((d, id));
    assert forall|i: int| 0 <= i < pushed.len() implies reg_ids.push(id).contains(
        #[trigger] pushed[i].1,
    ) by {
        if i < idx.len() {
            let j = choose|j: int| 0 <= j < reg_ids.len() && reg_ids[j] == idx[i].1;
            assert(reg_ids.push(id)[j] == idx[i].1);
        } else {
            assert(reg_ids.push(id)[reg_ids.len() as int] == id);
        }
    }
    crate::pool::lemma_without_id_subset(idx, x);
    let w = without_id(idx, x);
    assert forall|i: int| 0 <= i < w.len() implies reg_ids.contains(#[trigger] w[i].1) by {
        assert(idx.contains(w[i]));
        let j = choose|j: int| 0 <= j < idx.len() && idx[j] == w[i];
        assert(reg_ids.contains(idx[j].1));
    }
    if 0 <= p < reg_ids.len() && reg_ids[p] == x {
        let r = reg_ids.remove(p);
        assert forall|i: int| 0 <= i < w.len() implies r.contains(#[trigger] w[i].1) by {
            assert(reg_ids.contains(w[i].1));
            let j = choose|j: int| 0 <= j < reg_ids.len() && reg_ids[j] == w[i].1;
            assert(j != p);
            if j < p {
                assert(r[j] == reg_ids[j]);
            } else {
                assert(r[j - 1] == reg_ids[j]);
            }
        }
    }
}

/// Overflow bound: with at most one overflow slot per destination, putting a
/// sender in the slot of `d` (in place of the one there, or in a new slot) and
/// freeing a slot keep at most one per destination.
pub proof fn lemma_overflow_one_slot(keys: Seq<Seq<char>>, d: Seq<char>, p: int)
    requires
        distinct_keys(keys),
    ensures
        0 <= p < keys.len() && keys[p] == d ==> distinct_keys(keys.update(p, d)),
        !keys.contains(d) ==> distinct_keys(keys.push(d)),
        0 <= p < keys.len() ==> distinct_keys(keys.remove(p)),
{
    if 0 <= p < keys.len() && keys[p] == d {
        assert(keys.update(p, d) =~= keys);
    }
    if !keys.contains(d) {
        assert forall|i: int, j: int|
            0 <= i < keys.push(d).len() && 0 <= j < keys.push(d).len() && i != j implies keys.push(
            d,
        )[i] != keys.push(d)[j] by {
            if i < keys.len() && j == keys.len() {
                assert(keys[i] != d);
            } else if j < keys.len() && i == keys.len() {
                assert(keys[j] != d);
            }
        }
    }
    if 0 <= p < keys.len() {
        let r = keys.remove(p);
        assert forall|i: int, j: int| 0 <= i < r.len() && 0 <= j < r.len() && i != j implies r[i]
            != r[j] by {
            let a = if i < p { i } else { i + 1 };
            let b = if j < p { j } else { j + 1 };
            assert(r[i] == keys[a]);
            assert(r[j] == keys[b]);
        }
    }
}

/// A destination without index entries is always admitted, whatever the cap,
/// and then holds exactly one entry.
pub proof fn lemma_first_admission(idx: Seq<IndexEntry>, d: Seq<char>, cap: u32, id: u64)
    requires
        count_for(idx, d) == 0,
    ensures
        admits(idx, d, cap),
        count_for(idx.push((d, id)), d) == 1,
        ids_for(idx.push((d, id)), d) == seq![id],
{
    lemma_count_push(idx, (d, id), d);
    assert(idx.push((d, id)).drop_last() =~= idx);
    assert(ids_for(idx, d) =~= Seq::<u64>::empty());
    assert(ids_for(idx.push((d, id)), d) =~= seq![id]);
}

} // verus!
