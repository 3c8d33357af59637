//! The local registry: an in-memory, id-keyed store of mod records, kept
//! sorted by id so that iteration and the persisted form are deterministic.
//!
//! The registry's mathematical model is the map from mod id to record view;
//! the sorted record sequence is its canonical representation.

use crate::records::{ModRecord, ModRecordView};
use vstd::prelude::*;

verus! {

/// The ids of a record sequence, in sequence order.
pub open spec fn ids_of(records: Seq<ModRecordView>) -> Seq<u32> {
    records.map_values(|r: ModRecordView| r.id)
}

/// Strictly increasing ids: the registry's representation invariant.
pub open spec fn sorted_by_id(records: Seq<ModRecordView>) -> bool {
    forall|i: int, j: int| 0 <= i < j < records.len() ==> records[i].id < records[j].id
}

/// The id-to-record map a record sequence denotes; a later record with the
/// same id supersedes an earlier one.
pub open spec fn map_of(records: Seq<ModRecordView>) -> Map<u32, ModRecordView>
    decreases records.len(),
{
    if records.len() == 0 {
        Map::empty()
    } else {
        map_of(records.drop_last()).insert(records.last().id, records.last())
    }
}

/// What `map_of` holds: a key is present exactly when some record carries it,
/// and each value is one of the records carrying its key.
pub proof fn lemma_map_of_contains(records: Seq<ModRecordView>)
    ensures
        forall|id: u32|
            map_of(records).contains_key(id) <==> exists|i: int|
                0 <= i < records.len() && records[i].id == id,
        forall|id: u32| #[trigger]
            map_of(records).contains_key(id) ==> exists|i: int|
                0 <= i < records.len() && records[i].id == id && map_of(records)[id]
                    == records[i],
    decreases records.len(),
{
    if records.len() == 0 {
    } else {
        let front = records.drop_last();
        lemma_map_of_contains(front);
        assert forall|id: u32| #[trigger] map_of(records).contains_key(id) implies exists|i: int|
            0 <= i < records.len() && records[i].id == id && map_of(records)[id]
                == records[i] by {
            if id == records.last().id {
                assert(records[records.len() - 1].id == id && map_of(records)[id] == records[
                    records.len() - 1
                ]);
            } else {
                let i = choose|i: int|
                    0 <= i < front.len() && front[i].id == id && map_of(front)[id] == front[i];
                assert(records[i].id == id && map_of(records)[id] == records[i]);
            }
        }
        assert forall|id: u32|
            map_of(records).contains_key(id) <==> exists|i: int|
                0 <= i < records.len() && records[i].id == id by {
            if map_of(records).contains_key(id) {
            } else {
                assert forall|i: int| 0 <= i < records.len() implies records[i].id != id by {
                    if i < records.len() - 1 {
                        assert(front[i] == records[i]);
                    }
                }
            }
        }
    }
}

/// In a sorted sequence the map value at `records[i].id` is `records[i]`
/// itself.
pub proof fn lemma_sorted_map_value(records: Seq<ModRecordView>, i: int)
    requires
        sorted_by_id(records),
        0 <= i < records.len(),
    ensures
        map_of(records).contains_key(records[i].id),
        map_of(records)[records[i].id] == records[i],
{
    lemma_map_of_contains(records);
    let id = records[i].id;
    assert(map_of(records).contains_key(id));
    let j = choose|j: int|
        0 <= j < records.len() && records[j].id == id && map_of(records)[id] == records[j];
    assert(j == i);
}

/// The key set of `map_of` is the id set of the sequence.
pub proof fn lemma_map_of_dom(records: Seq<ModRecordView>)
    ensures
        map_of(records).dom() == ids_of(records).to_set(),
{
    lemma_map_of_contains(records);
    assert forall|id: u32| #[trigger]
        ids_of(records).to_set().contains(id) implies map_of(records).contains_key(id) by {
        let i = choose|i: int| 0 <= i < ids_of(records).len() && ids_of(records)[i] == id;
        assert(records[i].id == id);
    }
    assert forall|id: u32| #[trigger]
        map_of(records).contains_key(id) implies ids_of(records).to_set().contains(id) by {
        let i = choose|i: int| 0 <= i < records.len() && records[i].id == id;
        assert(ids_of(records)[i] == id);
    }
    assert(map_of(records).dom() =~= ids_of(records).to_set());
}

/// The local persisted cache of mod metadata: at most one record per id,
/// ordered by id.
pub struct Registry {
    records: Vec<ModRecord>,
}

impl View for Registry {
    type V = Seq<ModRecordView>;

    closed spec fn view(&self) -> Seq<ModRecordView> {
        self.records.deep_view()
    }
}

impl Registry {
    /// Representation invariant: records strictly sorted by id, hence one
    /// record per id.
    pub open spec fn wf(self) -> bool {
        sorted_by_id(self@)
    }

    /// The registry's mathematical content: the map from id to record.
    pub open spec fn to_map(self) -> Map<u32, ModRecordView> {
        map_of(self@)
    }

    pub open spec fn contains_id(self, id: u32) -> bool {
        self.to_map().contains_key(id)
    }

    pub fn new() -> (r: Registry)
        ensures
            r.wf(),
            r@ == Seq::<ModRecordView>::empty(),
            r.to_map() == Map::<u32, ModRecordView>::empty(),
    {
        let r = Registry { records: Vec::new() };
        proof {
            assert(r@ =~= Seq::<ModRecordView>::empty());
        }
        r
    }

    pub fn len(&self) -> (n: usize)
        ensures
            n == self@.len(),
    {
        self.records.len()
    }

    /// The records, in id order: the registry's persisted form.
    pub fn all(&self) -> (r: &Vec<ModRecord>)
        ensures
            r.deep_view() == self@,
    {
        &self.records
    }

    /// Drop every record (the `update`/`clear` command's wipe).
    pub fn clear(&mut self)
        ensures
            final(self).wf(),
            final(self)@ == Seq::<ModRecordView>::empty(),
            final(self).to_map() == Map::<u32, ModRecordView>::empty(),
    {
        self.records.clear();
        proof {
            assert(self@ =~= Seq::<ModRecordView>::empty());
        }
    }

    /// The record stored under `id`, if any.
    pub fn lookup(&self, id: u32) -> (r: Option<&ModRecord>)
        requires
            self.wf(),
        ensures
            match r {
                Some(record) => self.contains_id(id) && record@ == self.to_map()[id]
                    && record@.id == id,
                None => !self.contains_id(id),
            },
    {
        let ghost dv = self@;
        let mut i: usize = 0;
        while i < self.records.len()
            invariant
                0 <= i <= dv.len(),
                dv == self@,
                dv.len() == self.records@.len(),
                sorted_by_id(dv),
                forall|j: int| 0 <= j < i ==> dv[j].id != id,
            decreases dv.len() - i,
        {
            if self.records[i].id == id {
                proof {
                    lemma_sorted_map_value(dv, i as int);
                }
                return Some(&self.records[i]);
            }
            i = i + 1;
        }
        proof {
            lemma_map_of_contains(dv);
        }
        None
    }

    /// Replace-or-insert: a fetched record supersedes any stale entry with
    /// the same id, and the sort by id is preserved.
    pub fn upsert(&mut self, record: ModRecord)
        requires
            old(self).wf(),
        ensures
            final(self).wf(),
            final(self).to_map() == old(self).to_map().insert(record@.id, record@),
            // Every stored record is an old one or the new one.
            forall|k: int|
                0 <= k < final(self)@.len() ==> old(self)@.contains(final(self)@[k])
                    || final(self)@[k] == record@,
            // The store only grows, and by at most the one record.
            old(self).contains_id(record@.id) ==> final(self)@.len() == old(self)@.len(),
            !old(self).contains_id(record@.id) ==> final(self)@.len() == old(self)@.len() + 1,
            // Appending a record beyond every stored id extends the sequence.
            (forall|j: int| 0 <= j < old(self)@.len() ==> old(self)@[j].id < record@.id)
                ==> final(self)@ == old(self)@.push(record@),
    {
        let ghost old_dv = self@;
        let id = record.id;
        proof {
            assert(record@.id == id);
        }
        let mut i: usize = 0;
        while i < self.records.len() && self.records[i].id < id
            invariant
                0 <= i <= old_dv.len(),
                self@ == old_dv,
                old_dv.len() == self.records@.len(),
                sorted_by_id(old_dv),
                forall|j: int| 0 <= j < i ==> old_dv[j].id < id,
                self.records == old(self).records,
            decreases old_dv.len() - i,
        {
            i = i + 1;
        }
        if i < self.records.len() && self.records[i].id == id {
            // Replace the stale entry in place.
            self.records.set(i, record);
            proof {
                let new_dv = self@;
                assert(new_dv =~~= old_dv.update(i as int, record@));
                assert(self.wf());
                lemma_map_of_contains(old_dv);
                lemma_map_of_contains(new_dv);
                assert forall|k: u32| #[trigger]
                    self.to_map().contains_key(k) implies old(self).to_map().insert(
                    id,
                    record@,
                ).contains_key(k) && self.to_map()[k] == old(self).to_map().insert(
                    id,
                    record@,
                )[k] by {
                    let m = choose|m: int|
                        0 <= m < new_dv.len() && new_dv[m].id == k && map_of(new_dv)[k] == new_dv[m];
                    lemma_sorted_map_value(new_dv, m);
                    if k == id {
                        assert(m == i);
                    } else {
                        assert(new_dv[m] == old_dv[m]);
                        lemma_sorted_map_value(old_dv, m);
                    }
                }
                assert forall|k: u32| #[trigger]
                    old(self).to_map().insert(id, record@).contains_key(
                    k,
                ) implies self.to_map().contains_key(k) by {
                    if k == id {
                        assert(new_dv[i as int].id == k);
                    } else {
                        let m = choose|m: int| 0 <= m < old_dv.len() && old_dv[m].id == k;
                        assert(new_dv[m].id == k);
                    }
                }
                assert(self.to_map() =~= old(self).to_map().insert(id, record@));
                assert(old_dv.contains(old_dv[i as int]));
                assert forall|k: int| 0 <= k < new_dv.len() implies old_dv.contains(new_dv[k])
                    || new_dv[k] == record@ by {
                    if k != i {
                        assert(new_dv[k] == old_dv[k]);
                    }
                }
                assert(old(self).contains_id(id)) by {
                    assert(old_dv[i as int].id == id);
                }
            }
        } else {
            // No entry with this id: insert at the sort position.
            proof {
                assert forall|j: int| 0 <= j < old_dv.len() implies old_dv[j].id != id by {
                    if j >= i {
                        if i < old_dv.len() {
                            if j > i {
                                assert(old_dv[i as int].id < old_dv[j].id);
                            }
                        }
                    }
                }
                lemma_map_of_contains(old_dv);
                assert(!old(self).contains_id(id));
            }
            self.records.insert(i, record);
            proof {
                let new_dv = self@;
                assert(new_dv =~~= old_dv.insert(i as int, record@));
                assert forall|a: int, b: int|
                    0 <= a < b < new_dv.len() implies new_dv[a].id < new_dv[b].id by {
                    assert(new_dv[a] == if a < i {
                        old_dv[a]
                    } else if a == i {
                        record@
                    } else {
                        old_dv[a - 1]
                    });
                    assert(new_dv[b] == if b < i {
                        old_dv[b]
                    } else if b == i {
                        record@
                    } else {
                        old_dv[b - 1]
                    });
                    if b == i {
                        assert(new_dv[a].id < id);
                    } else if a == i && b > i {
                        assert(old_dv[i as int].id > id || i == old_dv.len());
                        if b - 1 > i {
                            assert(old_dv[i as int].id < old_dv[b - 1].id);
                        }
                    }
                }
                assert(self.wf());
                lemma_map_of_contains(new_dv);
                assert forall|k: u32| #[trigger]
                    self.to_map().contains_key(k) implies old(self).to_map().insert(
                    id,
                    record@,
                ).contains_key(k) && self.to_map()[k] == old(self).to_map().insert(
                    id,
                    record@,
                )[k] by {
                    let m = choose|m: int|
                        0 <= m < new_dv.len() && new_dv[m].id == k && map_of(new_dv)[k] == new_dv[m];
                    lemma_sorted_map_value(new_dv, m);
                    if k == id {
                        assert(m == i);
                    } else {
                        if m < i {
                            assert(new_dv[m] == old_dv[m]);
                            lemma_sorted_map_value(old_dv, m);
                        } else {
                            assert(new_dv[m] == old_dv[m - 1]);
                            lemma_sorted_map_value(old_dv, m - 1);
                        }
                    }
                }
                assert forall|k: u32| #[trigger]
                    old(self).to_map().insert(id, record@).contains_key(
                    k,
                ) implies self.to_map().contains_key(k) by {
                    if k == id {
                        assert(new_dv[i as int].id == k);
                    } else {
                        let m = choose|m: int| 0 <= m < old_dv.len() && old_dv[m].id == k;
                        if m < i {
                            assert(new_dv[m].id == k);
                        } else {
                            assert(new_dv[m + 1].id == k);
                        }
                    }
                }
                assert(self.to_map() =~= old(self).to_map().insert(id, record@));
                assert forall|k: int| 0 <= k < new_dv.len() implies old_dv.contains(new_dv[k])
                    || new_dv[k] == record@ by {
                    if k < i {
                        assert(new_dv[k] == old_dv[k]);
                    } else if k > i {
                        assert(new_dv[k] == old_dv[k - 1]);
                    }
                }
                if i == old_dv.len() {
                    assert(new_dv =~~= old_dv.push(record@));
                }
                if forall|j: int| 0 <= j < old_dv.len() ==> old_dv[j].id < record@.id {
                    assert(i == old_dv.len());
                }
            }
        }
    }

    /// Build a registry from a record sequence (the persisted form being
    /// loaded): later duplicates supersede earlier ones; a sequence already
    /// sorted with unique ids is reproduced exactly.
    pub fn from_records(records: Vec<ModRecord>) -> (r: Registry)
        ensures
            r.wf(),
            r.to_map() == map_of(records.deep_view()),
            sorted_by_id(records.deep_view()) ==> r@ == records.deep_view(),
    {
        let ghost dv = records.deep_view();
        let mut r = Registry::new();
        let mut i: usize = 0;
        proof {
            assert(dv.take(0) =~= Seq::<ModRecordView>::empty());
        }
        while i < records.len()
            invariant
                0 <= i <= dv.len(),
                dv == records.deep_view(),
                dv.len() == records@.len(),
                r.wf(),
                r.to_map() == map_of(dv.take(i as int)),
                sorted_by_id(dv) ==> r@ == dv.take(i as int),
            decreases dv.len() - i,
        {
            let ghost prev = r@;
            r.upsert(records[i].clone());
            proof {
                assert(dv.take(i + 1).drop_last() =~= dv.take(i as int));
                assert(dv.take(i + 1).last() == dv[i as int]);
                assert(r.to_map() =~= map_of(dv.take(i + 1)));
                if sorted_by_id(dv) {
                    assert forall|j: int| 0 <= j < prev.len() implies prev[j].id
                        < dv[i as int].id by {
                        assert(prev[j] == dv.take(i as int)[j]);
                    }
                    assert(r@ == prev.push(dv[i as int]));
                    assert(r@ =~= dv.take(i + 1));
                }
            }
            i = i + 1;
        }
        proof {
            assert(dv.take(dv.len() as int) =~= dv);
        }
        r
    }
}

/// In a sorted sequence the ids are pairwise distinct.
pub proof fn lemma_sorted_ids_no_duplicates(records: Seq<ModRecordView>)
    requires
        sorted_by_id(records),
    ensures
        ids_of(records).no_duplicates(),
        forall|i: int, j: int|
            0 <= i < records.len() && 0 <= j < records.len() && i != j ==> records[i].id
                != records[j].id,
{
    assert forall|i: int, j: int|
        0 <= i < records.len() && 0 <= j < records.len() && i != j implies records[i].id
        != records[j].id by {
        if i < j {
            assert(records[i].id < records[j].id);
        } else {
            assert(records[j].id < records[i].id);
        }
    }
    assert forall|i: int, j: int|
        0 <= i < ids_of(records).len() && 0 <= j < ids_of(records).len() && i != j implies ids_of(
        records,
    )[i] != ids_of(records)[j] by {
        assert(ids_of(records)[i] == records[i].id && ids_of(records)[j] == records[j].id);
    }
}

/// Uniqueness law: a well-formed registry holds each id at most once.
pub proof fn lemma_registry_ids_unique(r: Registry)
    requires
        r.wf(),
    ensures
        ids_of(r@).no_duplicates(),
        forall|i: int, j: int|
            0 <= i < r@.len() && 0 <= j < r@.len() && i != j ==> r@[i].id != r@[j].id,
{
    lemma_sorted_ids_no_duplicates(r@);
}

/// Canonical-form law behind round-trip persistence: two well-formed
/// registries with the same id-to-record content are the same sequence, so
/// the stored order cannot depend on insertion order.
pub proof fn lemma_registry_extensional(a: Registry, b: Registry)
    requires
        a.wf(),
        b.wf(),
        a.to_map() == b.to_map(),
    ensures
        a@ == b@,
{
    lemma_sorted_seqs_with_equal_maps(a@, b@);
}

proof fn lemma_sorted_seqs_with_equal_maps(s1: Seq<ModRecordView>, s2: Seq<ModRecordView>)
    requires
        sorted_by_id(s1),
        sorted_by_id(s2),
        map_of(s1) == map_of(s2),
    ensures
        s1 == s2,
    decreases s1.len(),
{
    lemma_map_of_contains(s1);
    lemma_map_of_contains(s2);
    if s1.len() == 0 {
        if s2.len() > 0 {
            assert(map_of(s2).contains_key(s2[0].id));
            assert(false);
        }
        assert(s1 =~= s2);
    } else {
        if s2.len() == 0 {
            assert(map_of(s1).contains_key(s1[0].id));
            assert(false);
        }
        let x1 = s1.last();
        let x2 = s2.last();
        // The last id of each sequence is the maximum of the shared key set,
        // so the two last records agree.
        assert(map_of(s2).contains_key(x1.id));
        let i2 = choose|i: int| 0 <= i < s2.len() && s2[i].id == x1.id;
        assert(s2[i2].id <= x2.id) by {
            if i2 < s2.len() - 1 {
                assert(s2[i2].id < x2.id);
            }
        }
        assert(map_of(s1).contains_key(x2.id));
        let i1 = choose|i: int| 0 <= i < s1.len() && s1[i].id == x2.id;
        assert(s1[i1].id <= x1.id) by {
            if i1 < s1.len() - 1 {
                assert(s1[i1].id < x1.id);
            }
        }
        assert(x1.id == x2.id);
        lemma_sorted_map_value(s1, s1.len() - 1);
        lemma_sorted_map_value(s2, s2.len() - 1);
        assert(x1 == x2);
        // Removing the shared last record leaves maps that again agree.
        lemma_front_map(s1);
        lemma_front_map(s2);
        assert(map_of(s1.drop_last()) == map_of(s2.drop_last()));
        lemma_sorted_seqs_with_equal_maps(s1.drop_last(), s2.drop_last());
        assert(s1 =~= s2) by {
            assert(forall|i: int|
                0 <= i < s1.len() - 1 ==> s1[i] == s1.drop_last()[i] && s2[i] == s2.drop_last()[i]);
        }
    }
}

/// For a sorted sequence, the map of the front is the map with the last id
/// removed.
proof fn lemma_front_map(s: Seq<ModRecordView>)
    requires
        sorted_by_id(s),
        s.len() > 0,
    ensures
        map_of(s.drop_last()) == map_of(s).remove(s.last().id),
{
    lemma_map_of_contains(s.drop_last());
    assert(!map_of(s.drop_last()).contains_key(s.last().id)) by {
        if map_of(s.drop_last()).contains_key(s.last().id) {
            let i = choose|i: int| 0 <= i < s.drop_last().len() && s.drop_last()[i].id == s.last().id;
            assert(s[i].id < s.last().id);
        }
    }
    assert(map_of(s.drop_last()) =~= map_of(s).remove(s.last().id));
}

} // verus!
