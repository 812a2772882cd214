use vstd::prelude::*;
use crate::laws::{agrees, agrees_except, lemma_agreement_kept, lemma_agrees_for};

verus! {

/// One destination index entry: the destination and the id of a sender it owns.
pub type IndexEntry = (Seq<char>, u64);

/// Ids that the index lists for destination `d`, in index order.
pub open spec fn ids_for(idx: Seq<IndexEntry>, d: Seq<char>) -> Seq<u64>
    decreases idx.len(),
{
    if idx.len() == 0 {
        Seq::empty()
    } else {
        let rest = ids_for(idx.drop_last(), d);
        if idx.last().0 == d {
            rest.push(idx.last().1)
        } else {
            rest
        }
    }
}

/// Number of index entries for destination `d`.
pub open spec fn count_for(idx: Seq<IndexEntry>, d: Seq<char>) -> nat {
    ids_for(idx, d).len()
}

/// The index with every entry for sender `id` taken out, order kept.
pub open spec fn without_id(idx: Seq<IndexEntry>, id: u64) -> Seq<IndexEntry>
    decreases idx.len(),
{
    if idx.len() == 0 {
        Seq::empty()
    } else {
        let rest = without_id(idx.drop_last(), id);
        if idx.last().1 == id {
            rest
        } else {
            rest.push(idx.last())
        }
    }
}

/// Whether a new persistent sender for `d` is admitted under `cap`: the
/// destination has no entry yet, or fewer than `cap`.
pub open spec fn admits(idx: Seq<IndexEntry>, d: Seq<char>, cap: u32) -> bool {
    count_for(idx, d) == 0 || count_for(idx, d) < cap
}

/// No sender id stands twice in `ids`.
pub open spec fn distinct_ids(ids: Seq<u64>) -> bool {
    forall|i: int, j: int| 0 <= i < ids.len() && 0 <= j < ids.len() && i != j ==> ids[i] != ids[j]
}

/// No destination holds two overflow slots.
pub open spec fn distinct_keys(keys: Seq<Seq<char>>) -> bool {
    forall|i: int, j: int|
        0 <= i < keys.len() && 0 <= j < keys.len() && i != j ==> keys[i] != keys[j]
}

/// Outcome of an admission request for a new persistent sender.
#[derive(Clone, Copy, Debug, PartialEq, Eq, Structural)]
pub enum Admission {
    /// Under the cap: the entry was appended to the index; open the connection,
    /// then `commit` it, or `rollback` when opening fails.
    Open,
    /// The cap is reached: serve the request from an overflow sender.
    Full,
    /// The proposed id is already in use: draw another one and ask again.
    IdTaken,
}

/// Ids of the index entries, in order.
pub open spec fn entry_ids(idx: Seq<IndexEntry>) -> Seq<u64> {
    idx.map_values(|e: IndexEntry| e.1)
}

/// Every entry left by `without_id` stands in the original index, with
/// another id than the one taken out.
pub proof fn lemma_without_id_subset(idx: Seq<IndexEntry>, id: u64)
    ensures
        forall|k: int|
            0 <= k < without_id(idx, id).len() ==> idx.contains(#[trigger] without_id(idx, id)[k])
                && without_id(idx, id)[k].1 != id,
        without_id(idx, id).len() <= idx.len(),
    decreases idx.len(),
{
    if idx.len() > 0 {
        let p = idx.drop_last();
        lemma_without_id_subset(p, id);
        assert forall|k: int| 0 <= k < without_id(idx, id).len() implies idx.contains(
            #[trigger] without_id(idx, id)[k],
        ) && without_id(idx, id)[k].1 != id by {
            if k < without_id(p, id).len() {
                let e = without_id(p, id)[k];
                assert(p.contains(e));
                let j = choose|j: int| 0 <= j < p.len() && p[j] == e;
                assert(idx[j] == e);
            } else {
                assert(idx[idx.len() - 1] == idx.last());
            }
        }
    }
}

/// Taking a sender's entries out keeps the other ids unique.
pub proof fn lemma_without_id_distinct(idx: Seq<IndexEntry>, id: u64)
    requires
        distinct_ids(entry_ids(idx)),
    ensures
        distinct_ids(entry_ids(without_id(idx, id))),
        !entry_ids(without_id(idx, id)).contains(id),
    decreases idx.len(),
{
    if idx.len() > 0 {
        let p = idx.drop_last();
        assert(entry_ids(p) =~= entry_ids(idx).drop_last());
        lemma_without_id_distinct(p, id);
        lemma_without_id_subset(p, id);
        let w = without_id(idx, id);
        let wp = without_id(p, id);
        if idx.last().1 != id {
            assert(entry_ids(w) =~= entry_ids(wp).push(idx.last().1));
            assert forall|k: int| 0 <= k < wp.len() implies #[trigger] wp[k].1 != idx.last().1 by {
                assert(p.contains(wp[k]));
                let j = choose|j: int| 0 <= j < p.len() && p[j] == wp[k];
                assert(entry_ids(idx)[j] == wp[k].1);
                assert(entry_ids(idx)[idx.len() - 1] == idx.last().1);
            }
            assert forall|i: int, j: int|
                0 <= i < entry_ids(w).len() && 0 <= j < entry_ids(w).len() && i != j implies
                entry_ids(w)[i] != entry_ids(w)[j] by {
                if i < wp.len() && j < wp.len() {
                    assert(entry_ids(wp)[i] == entry_ids(w)[i]);
                    assert(entry_ids(wp)[j] == entry_ids(w)[j]);
                } else if i < wp.len() {
                    assert(wp[i].1 != idx.last().1);
                } else if j < wp.len() {
                    assert(wp[j].1 != idx.last().1);
                }
            }
            assert forall|k: int| 0 <= k < entry_ids(w).len() implies #[trigger] entry_ids(w)[k]
                != id by {
                if k < wp.len() {
                    assert(entry_ids(wp)[k] == entry_ids(w)[k]);
                }
            }
        } else {
            assert(w == wp);
        }
    }
}

/// State of the upstream pool, with `S` the sender handle it hands out: the
/// persistent registry (sender id and sender), the destination index
/// (destination and sender id), which is the admission counter, and the
/// overflow slots (destination and sender).
pub struct ManageConnection<S> {
    registry: Vec<(u64, S)>,
    index: Vec<(String, u64)>,
    overflow: Vec<(String, S)>,
}

impl<S> ManageConnection<S> {
    /// The destination index, in order of admission.
    pub closed spec fn index_view(&self) -> Seq<IndexEntry> {
        self.index@.map_values(|e: (String, u64)| (e.0@, e.1))
    }

    /// The persistent registry, in order of registration.
    pub closed spec fn registry_view(&self) -> Seq<(u64, S)> {
        self.registry@
    }

    /// Ids of the persistent registry, in order of registration.
    pub open spec fn registry_ids(&self) -> Seq<u64> {
        self.registry_view().map_values(|e: (u64, S)| e.0)
    }

    /// The overflow slots, destination and sender.
    pub closed spec fn overflow_view(&self) -> Seq<(Seq<char>, S)> {
        self.overflow@.map_values(|e: (String, S)| (e.0@, e.1))
    }

    /// Destinations that hold an overflow slot.
    pub open spec fn overflow_keys(&self) -> Seq<Seq<char>> {
        self.overflow_view().map_values(|e: (Seq<char>, S)| e.0)
    }

    /// Ids of the destination index.
    pub open spec fn index_ids(&self) -> Seq<u64> {
        entry_ids(self.index_view())
    }

    /// The pool's invariant: registry ids and index ids unique, and at most one
    /// overflow slot per destination.
    pub open spec fn wf(&self) -> bool {
        &&& distinct_ids(self.registry_ids())
        &&& distinct_ids(self.index_ids())
        &&& distinct_keys(self.overflow_keys())
    }

    /// An empty pool.
    pub fn new() -> (r: Self)
        ensures
            r.wf(),
            r.index_view() == Seq::<IndexEntry>::empty(),
            r.registry_view() == Seq::<(u64, S)>::empty(),
            r.overflow_view() == Seq::<(Seq<char>, S)>::empty(),
    {
        let r = ManageConnection { registry: Vec::new(), index: Vec::new(), overflow: Vec::new() };
        assert(r.index_view() =~= Seq::<IndexEntry>::empty());
        assert(r.overflow_view() =~= Seq::<(Seq<char>, S)>::empty());
        r
    }

    /// Ids that the index lists for `dest`, in index order.
    pub fn ids_of(&self, dest: &String) -> (r: Vec<u64>)
        ensures
            r@ == ids_for(self.index_view(), dest@),
    {
        let mut r: Vec<u64> = Vec::new();
        let mut i: usize = 0;
        while i < self.index.len()
            invariant
                i <= self.index.len(),
                r@ == ids_for(self.index_view().take(i as int), dest@),
            decreases self.index.len() - i,
        {
            let ghost before = self.index_view().take(i as int);
            assert(self.index_view().take(i + 1).drop_last() =~= before);
            if self.index[i].0 == *dest {
                r.push(self.index[i].1);
            }
            i = i + 1;
        }
        assert(self.index_view().take(i as int) =~= self.index_view());
        r
    }

    /// Number of index entries for `dest`.
    pub fn count(&self, dest: &String) -> (r: usize)
        ensures
            r == count_for(self.index_view(), dest@),
    {
        self.ids_of(dest).len()
    }

    /// Picks the sender for `dest` at position `draw` modulo the number of its
    /// index entries; `None` when it has none.
    pub fn select(&self, dest: &String, draw: usize) -> (r: Option<u64>)
        ensures
            ids_for(self.index_view(), dest@).len() == 0 ==> r is None,
            ids_for(self.index_view(), dest@).len() > 0 ==> r == Some(
                ids_for(self.index_view(), dest@)[draw as int % ids_for(
                    self.index_view(),
                    dest@,
                ).len() as int],
            ),
    {
        let ids = self.ids_of(dest);
        if ids.len() == 0 {
            None
        } else {
            Some(ids[draw % ids.len()])
        }
    }

    /// The registered sender that `select` picks for `dest` with `draw`; `None`
    /// when the destination has no entry or the picked id is not registered.
    pub fn pick(&self, dest: &String, draw: usize) -> (r: Option<&S>)
        ensures
            ({
                let ids = ids_for(self.index_view(), dest@);
                &&& ids.len() == 0 ==> r is None
                &&& ids.len() > 0 ==> (r is Some == self.registry_ids().contains(
                    ids[draw as int % ids.len() as int],
                ))
                &&& r matches Some(s) ==> ids.len() > 0 && self.registry_view().contains(
                    (ids[draw as int % ids.len() as int], *s),
                )
            }),
    {
        match self.select(dest, draw) {
            Some(id) => self.sender(id),
            None => None,
        }
    }

    /// A registered sender for `dest`, chosen uniformly at random among its
    /// index entries; `None` when the destination has no entry or the chosen
    /// id is not registered.
    pub fn pick_any(&self, dest: &String) -> (r: Option<&S>)
        ensures
            ids_for(self.index_view(), dest@).len() == 0 ==> r is None,
            ids_for(self.index_view(), dest@).len() > 0 && (forall|i: int|
                0 <= i < ids_for(self.index_view(), dest@).len() ==> self.registry_ids().contains(
                    #[trigger] ids_for(self.index_view(), dest@)[i],
                )) ==> r is Some,
            ids_for(self.index_view(), dest@).len() > 0 && agrees(
                self.index_view(),
                self.registry_ids(),
            ) ==> r is Some,
            r matches Some(s) ==> exists|i: int|
                0 <= i < ids_for(self.index_view(), dest@).len() && self.registry_view().contains(
                    (#[trigger] ids_for(self.index_view(), dest@)[i], *s),
                ),
    {
        let draw = rand::random::<usize>();
        let r = self.pick(dest, draw);
        proof {
            if agrees(self.index_view(), self.registry_ids()) {
                lemma_agrees_for(self.index_view(), self.registry_ids(), dest@);
            }
            let ids = ids_for(self.index_view(), dest@);
            if ids.len() > 0 {
                let i = draw as int % ids.len() as int;
                assert(0 <= i < ids.len());
            }
        }
        r
    }

    /// Number of registered persistent senders.
    pub fn registered(&self) -> (r: usize)
        ensures
            r == self.registry_view().len(),
    {
        self.registry.len()
    }

    /// Number of occupied overflow slots.
    pub fn overflow_slots(&self) -> (r: usize)
        ensures
            r == self.overflow_view().len(),
    {
        self.overflow.len()
    }

    /// Whether sender `id` stands in the index or in the registry.
    pub fn id_in_use(&self, id: u64) -> (r: bool)
        ensures
            r == (self.index_ids().contains(id) || self.registry_ids().contains(id)),
    {
        let mut i: usize = 0;
        while i < self.index.len()
            invariant
                i <= self.index.len(),
                forall|k: int| 0 <= k < i ==> self.index_ids()[k] != id,
            decreases self.index.len() - i,
        {
            if self.index[i].1 == id {
                assert(self.index_ids()[i as int] == id);
                return true;
            }
            i = i + 1;
        }
        let mut j: usize = 0;
        while j < self.registry.len()
            invariant
                j <= self.registry.len(),
                forall|k: int| 0 <= k < self.index.len() ==> self.index_ids()[k] != id,
                forall|k: int| 0 <= k < j ==> self.registry_ids()[k] != id,
            decreases self.registry.len() - j,
        {
            if self.registry[j].0 == id {
                assert(self.registry_ids()[j as int] == id);
                return true;
            }
            j = j + 1;
        }
        false
    }

    /// Admission of a new persistent sender `id` for `dest` under `cap`. When
    /// the destination has no index entry, or fewer than `cap`, and `id` is not
    /// in use, `(dest, id)` is appended to the index and `Open` returned. When
    /// the cap is reached, `Full`; when the id is in use, `IdTaken`; in both
    /// cases nothing changes.
    pub fn reserve(&mut self, dest: String, cap: u32, id: u64) -> (r: Admission)
        requires
            old(self).wf(),
        ensures
            final(self).wf(),
            (r == Admission::Full) == !admits(old(self).index_view(), dest@, cap),
            (r == Admission::IdTaken) == (admits(old(self).index_view(), dest@, cap) && (old(
                self,
            ).index_ids().contains(id) || old(self).registry_ids().contains(id))),
            r == Admission::Open ==> final(self).index_view() == old(self).index_view().push(
                (dest@, id),
            ),
            r != Admission::Open ==> final(self).index_view() == old(self).index_view(),
            r == Admission::Open && agrees(old(self).index_view(), old(self).registry_ids())
                ==> agrees_except(final(self).index_view(), final(self).registry_ids(), id),
            final(self).registry_view() == old(self).registry_view(),
            final(self).overflow_view() == old(self).overflow_view(),
    {
        let n = self.count(&dest);
        if !(n == 0 || n < cap as usize) {
            return Admission::Full;
        }
        if self.id_in_use(id) {
            return Admission::IdTaken;
        }
        let ghost before = self.index_view();
        self.index.push((dest, id));
        assert(self.index_view() =~= before.push((dest@, id)));
        assert(self.index_ids() =~= entry_ids(before).push(id));
        Admission::Open
    }

    /// Takes every index entry of sender `id` out, keeping the order of the
    /// others: the undoing of an admission whose connection could not be opened.
    pub fn rollback(&mut self, id: u64)
        requires
            old(self).wf(),
        ensures
            final(self).wf(),
            final(self).index_view() == without_id(old(self).index_view(), id),
            final(self).registry_view() == old(self).registry_view(),
            final(self).overflow_view() == old(self).overflow_view(),
    {
        let ghost before = self.index_view();
        let mut kept: Vec<(String, u64)> = Vec::new();
        let mut i: usize = 0;
        while i < self.index.len()
            invariant
                i <= self.index.len(),
                before == self.index_view(),
                kept@.map_values(|e: (String, u64)| (e.0@, e.1)) == without_id(
                    before.take(i as int),
                    id,
                ),
            decreases self.index.len() - i,
        {
            assert(before.take(i + 1).drop_last() =~= before.take(i as int));
            if self.index[i].1 != id {
                let ghost k0 = kept@;
                kept.push((self.index[i].0.clone(), self.index[i].1));
                assert(kept@.map_values(|e: (String, u64)| (e.0@, e.1)) =~= k0.map_values(
                    |e: (String, u64)| (e.0@, e.1),
                ).push(before[i as int]));
            }
            i = i + 1;
        }
        assert(before.take(i as int) =~= before);
        self.index = kept;
        proof {
            lemma_without_id_distinct(before, id);
        }
    }

    /// Registers the opened sender under `id` and returns true, unless the
    /// registry already holds `id`: then nothing changes and false is returned.
    pub fn commit(&mut self, id: u64, sender: S) -> (r: bool)
        requires
            old(self).wf(),
        ensures
            final(self).wf(),
            r == !old(self).registry_ids().contains(id),
            r ==> final(self).registry_view() == old(self).registry_view().push((id, sender)),
            !r ==> final(self).registry_view() == old(self).registry_view(),
            final(self).index_view() == old(self).index_view(),
            final(self).overflow_view() == old(self).overflow_view(),
    {
        match self.registry_position(id) {
            Some(p) => {
                assert(self.registry_ids()[p as int] == id);
                false
            },
            None => {
                let ghost before = self.registry_ids();
                self.registry.push((id, sender));
                assert(self.registry_ids() =~= before.push(id));
                true
            },
        }
    }

    /// Settles an admission once its connection was tried: when opening
    /// failed, the entry of `id` is rolled back and the error returned; when it
    /// succeeded, the sender is registered under `id` (unless `id` is already
    /// registered, which keeps the registered one) and `Ok` returned.
    pub fn finish_open(&mut self, id: u64, opened: Result<S, PoolError>) -> (r: Result<
        (),
        PoolError,
    >)
        requires
            old(self).wf(),
        ensures
            final(self).wf(),
            final(self).overflow_view() == old(self).overflow_view(),
            agrees_except(old(self).index_view(), old(self).registry_ids(), id) ==> agrees(
                final(self).index_view(),
                final(self).registry_ids(),
            ),
            match opened {
                Err(e) => {
                    &&& r == Err::<(), PoolError>(e)
                    &&& final(self).index_view() == without_id(old(self).index_view(), id)
                    &&& final(self).registry_view() == old(self).registry_view()
                },
                Ok(s) => {
                    &&& r == Ok::<(), PoolError>(())
                    &&& final(self).index_view() == old(self).index_view()
                    &&& !old(self).registry_ids().contains(id) ==> final(self).registry_view()
                        == old(self).registry_view().push((id, s))
                    &&& old(self).registry_ids().contains(id) ==> final(self).registry_view()
                        == old(self).registry_view()
                },
            },
    {
        match opened {
            Err(e) => {
                let ghost idx = self.index_view();
                let ghost reg = self.registry_ids();
                self.rollback(id);
                proof {
                    crate::pool::lemma_without_id_subset(idx, id);
                    let w = without_id(idx, id);
                    if agrees_except(idx, reg, id) {
                        assert forall|i: int| 0 <= i < w.len() implies reg.contains(
                            #[trigger] w[i].1,
                        ) by {
                            assert(idx.contains(w[i]));
                            let j = choose|j: int| 0 <= j < idx.len() && idx[j] == w[i];
                            assert(idx[j].1 != id);
                        }
                    }
                }
                Err(e)
            },
            Ok(s) => {
                let ghost idx = self.index_view();
                let ghost reg = self.registry_ids();
                self.commit(id, s);
                proof {
                    let fr = self.registry_ids();
                    if agrees_except(idx, reg, id) {
                        assert forall|i: int| 0 <= i < idx.len() implies fr.contains(
                            #[trigger] idx[i].1,
                        ) by {
                            if idx[i].1 == id {
                                if !reg.contains(id) {
                                    assert(fr == reg.push(id));
                                    assert(fr[reg.len() as int] == id);
                                }
                            } else {
                                assert(reg.contains(idx[i].1));
                                let j = choose|j: int| 0 <= j < reg.len() && reg[j] == idx[i].1;
                                if !reg.contains(id) {
                                    assert(fr == reg.push(id));
                                    assert(fr[j] == idx[i].1);
                                }
                            }
                        }
                    }
                }
                Ok(())
            },
        }
    }

    /// Position of sender `id` in the registry.
    fn registry_position(&self, id: u64) -> (r: Option<usize>)
        ensures
            r is None ==> !self.registry_ids().contains(id),
            r matches Some(p) ==> p < self.registry@.len() && self.registry_ids()[p as int] == id
                && self.registry@[p as int].0 == id,
    {
        let mut j: usize = 0;
        while j < self.registry.len()
            invariant
                j <= self.registry.len(),
                forall|k: int| 0 <= k < j ==> self.registry_ids()[k] != id,
            decreases self.registry.len() - j,
        {
            if self.registry[j].0 == id {
                return Some(j);
            }
            j = j + 1;
        }
        None
    }

    /// The registered sender with id `id`, if any.
    pub fn sender(&self, id: u64) -> (r: Option<&S>)
        ensures
            r is Some == self.registry_ids().contains(id),
            r matches Some(s) ==> self.registry_view().contains((id, *s)),
    {
        match self.registry_position(id) {
            Some(p) => {
                assert(self.registry_ids()[p as int] == id);
                assert(self.registry_view()[p as int] == (id, self.registry[p as int].1));
                Some(&self.registry[p].1)
            },
            None => None,
        }
    }

    /// Deregisters sender `id` when its connection has ended: its registry
    /// entry and its index entries are taken out, the rest kept in order.
    pub fn deregister(&mut self, id: u64)
        requires
            old(self).wf(),
        ensures
            final(self).wf(),
            final(self).index_view() == without_id(old(self).index_view(), id),
            !old(self).registry_ids().contains(id) ==> final(self).registry_view() == old(
                self,
            ).registry_view(),
            old(self).registry_ids().contains(id) ==> exists|p: int|
                0 <= p < old(self).registry_view().len() && old(self).registry_view()[p].0 == id
                    && final(self).registry_view() == old(self).registry_view().remove(p),
            final(self).overflow_view() == old(self).overflow_view(),
            agrees(old(self).index_view(), old(self).registry_ids()) ==> agrees(
                final(self).index_view(),
                final(self).registry_ids(),
            ),
    {
        let ghost idx = self.index_view();
        let ghost reg = self.registry_ids();
        self.rollback(id);
        match self.registry_position(id) {
            Some(p) => {
                let ghost before = self.registry@;
                let ghost ids = self.registry_ids();
                assert(ids[p as int] == id);
                self.registry.remove(p);
                assert(self.registry@ == before.remove(p as int));
                assert(self.registry_ids() =~= ids.remove(p as int));
                proof {
                    if agrees(idx, reg) {
                        lemma_agreement_kept(idx, reg, Seq::empty(), id, id, p as int);
                    }
                }
            },
            None => {
                proof {
                    if agrees(idx, reg) {
                        lemma_agreement_kept(idx, reg, Seq::empty(), id, id, -1);
                    }
                }
            },
        }
    }

    /// Position of the overflow slot of `dest`.
    fn overflow_position(&self, dest: &String) -> (r: Option<usize>)
        ensures
            r is None ==> !self.overflow_keys().contains(dest@),
            r matches Some(p) ==> p < self.overflow@.len() && self.overflow_keys()[p as int]
                == dest@,
    {
        let mut j: usize = 0;
        while j < self.overflow.len()
            invariant
                j <= self.overflow.len(),
                forall|k: int| 0 <= k < j ==> self.overflow_keys()[k] != dest@,
            decreases self.overflow.len() - j,
        {
            if self.overflow[j].0 == *dest {
                assert(self.overflow_keys()[j as int] == dest@);
                return Some(j);
            }
            j = j + 1;
        }
        None
    }

    /// Puts an overflow sender in the slot of `dest`: it takes the place of the
    /// sender there, if any; otherwise a slot is added at the end.
    pub fn put_overflow(&mut self, dest: String, sender: S)
        requires
            old(self).wf(),
        ensures
            final(self).wf(),
            old(self).overflow_keys().contains(dest@) ==> exists|p: int|
                0 <= p < old(self).overflow_view().len() && old(self).overflow_keys()[p] == dest@
                    && final(self).overflow_view() == old(self).overflow_view().update(
                    p,
                    (dest@, sender),
                ),
            !old(self).overflow_keys().contains(dest@) ==> final(self).overflow_view() == old(
                self,
            ).overflow_view().push((dest@, sender)),
            final(self).index_view() == old(self).index_view(),
            final(self).registry_view() == old(self).registry_view(),
    {
        let ghost d = dest@;
        let ghost before = self.overflow_view();
        let ghost keys = self.overflow_keys();
        match self.overflow_position(&dest) {
            Some(p) => {
                self.overflow.set(p, (dest, sender));
                assert(self.overflow_view() =~= before.update(p as int, (d, sender)));
                assert(self.overflow_keys() =~= keys.update(p as int, d));
            },
            None => {
                self.overflow.push((dest, sender));
                assert(self.overflow_view() =~= before.push((d, sender)));
                assert(self.overflow_keys() =~= keys.push(d));
            },
        }
    }

    /// The overflow sender of `dest`, if any.
    pub fn overflow_sender(&self, dest: &String) -> (r: Option<&S>)
        ensures
            r is Some == self.overflow_keys().contains(dest@),
            r matches Some(s) ==> self.overflow_view().contains((dest@, *s)),
    {
        match self.overflow_position(dest) {
            Some(p) => {
                assert(self.overflow_view()[p as int] == (dest@, self.overflow[p as int].1));
                Some(&self.overflow[p].1)
            },
            None => None,
        }
    }

    /// Frees the overflow slot of `dest` when its connection has ended; nothing
    /// changes when there is none.
    pub fn drop_overflow(&mut self, dest: &String)
        requires
            old(self).wf(),
        ensures
            final(self).wf(),
            !old(self).overflow_keys().contains(dest@) ==> final(self).overflow_view() == old(
                self,
            ).overflow_view(),
            old(self).overflow_keys().contains(dest@) ==> exists|p: int|
                0 <= p < old(self).overflow_view().len() && old(self).overflow_keys()[p] == dest@
                    && final(self).overflow_view() == old(self).overflow_view().remove(p),
            !final(self).overflow_keys().contains(dest@),
            final(self).index_view() == old(self).index_view(),
            final(self).registry_view() == old(self).registry_view(),
    {
        match self.overflow_position(dest) {
            Some(p) => {
                let ghost before = self.overflow_view();
                let ghost keys = self.overflow_keys();
                self.overflow.remove(p);
                assert(self.overflow_view() =~= before.remove(p as int));
                assert(self.overflow_keys() =~= keys.remove(p as int));
                assert forall|k: int| 0 <= k < self.overflow_keys().len() implies #[trigger] self.overflow_keys()[k] != dest@ by {
                    if k < p {
                        assert(keys[k] != keys[p as int]);
                    } else {
                        assert(keys[k + 1] != keys[p as int]);
                    }
                }
            },
            None => {},
        }
    }
}

/// Errors that acquiring a sender can end in.
#[derive(Clone, Debug, PartialEq, Eq)]
pub enum PoolError {
    /// The pool was not set up before the first acquisition.
    NotInitialized,
    /// The TCP connection to the destination could not be opened.
    ConnectError { dest: String },
    /// The HTTP/1.1 handshake with the destination failed.
    HandshakeError { dest: String },
    /// The selected persistent sender was closed when it was locked.
    SenderClosed,
}

/// Outcome of locking the selected persistent sender: a sender whose
/// connection is already closed is not handed out.
pub fn lock_outcome(closed: bool) -> (r: Result<(), PoolError>)
    ensures
        closed ==> r == Err::<(), PoolError>(PoolError::SenderClosed),
        !closed ==> r == Ok::<(), PoolError>(()),
{
    if closed {
        Err(PoolError::SenderClosed)
    } else {
        Ok(())
    }
}

} // verus!
