//! Durable record of image recency: a mapping from image identity to the
//! timestamp at which the image was last observed in use.

use vstd::prelude::*;

verus! {

/// One recency fact: the image with this identity was last observed in use
/// at this instant (a monotonic wall-clock timestamp).
pub struct RecencyEntry {
    pub id: Vec<u8>,
    pub last_used: u64,
}

/// The mapping described by a sequence of entries; a later entry for the
/// same identity overrides an earlier one.
pub open spec fn entries_map(s: Seq<RecencyEntry>) -> Map<Seq<u8>, u64>
    decreases s.len(),
{
    if s.len() == 0 {
        Map::empty()
    } else {
        entries_map(s.drop_last()).insert(s.last().id@, s.last().last_used)
    }
}

/// No identity occurs twice in the sequence.
pub open spec fn unique_ids(s: Seq<RecencyEntry>) -> bool {
    forall|i: int, j: int| 0 <= i < j < s.len() ==> s[i].id@ != s[j].id@
}

/// What recording a "used" observation does to the mapping: insert or
/// overwrite, but never move a stored timestamp backwards.
pub open spec fn touched(m: Map<Seq<u8>, u64>, id: Seq<u8>, ts: u64) -> Map<Seq<u8>, u64> {
    if m.contains_key(id) && m[id] >= ts {
        m
    } else {
        m.insert(id, ts)
    }
}

/// Replaying a sequence of "used" observations through `touched`.
pub open spec fn fold_touch(m: Map<Seq<u8>, u64>, es: Seq<(Seq<u8>, u64)>) -> Map<Seq<u8>, u64>
    decreases es.len(),
{
    if es.len() == 0 {
        m
    } else {
        fold_touch(touched(m, es[0].0, es[0].1), es.drop_first())
    }
}

pub proof fn lemma_fold_touch_snoc(m: Map<Seq<u8>, u64>, es: Seq<(Seq<u8>, u64)>, e: (Seq<u8>, u64))
    ensures
        fold_touch(m, es.push(e)) == touched(fold_touch(m, es), e.0, e.1),
    decreases es.len(),
{
    if es.len() == 0 {
        assert(es.push(e)[0] == e);
        assert(es.push(e).drop_first() =~= Seq::<(Seq<u8>, u64)>::empty());
        assert(fold_touch(m, es.push(e)) == fold_touch(
            touched(m, es.push(e)[0].0, es.push(e)[0].1),
            es.push(e).drop_first(),
        ));
        assert(fold_touch(touched(m, e.0, e.1), Seq::<(Seq<u8>, u64)>::empty()) == touched(
            m,
            e.0,
            e.1,
        ));
    } else {
        assert(es.push(e)[0] == es[0]);
        assert(es.push(e).drop_first() =~= es.drop_first().push(e));
        assert(fold_touch(m, es.push(e)) == fold_touch(
            touched(m, es[0].0, es[0].1),
            es.drop_first().push(e),
        ));
        assert(fold_touch(m, es) == fold_touch(touched(m, es[0].0, es[0].1), es.drop_first()));
        lemma_fold_touch_snoc(touched(m, es[0].0, es[0].1), es.drop_first(), e);
    }
}

/// The recorded recency of `k` in `m`, absent when never observed.
pub open spec fn rec_of(m: Map<Seq<u8>, u64>, k: Seq<u8>) -> Option<u64> {
    if m.contains_key(k) {
        Some(m[k])
    } else {
        None
    }
}

/// The larger of two optional timestamps.
pub open spec fn opt_max(a: Option<u64>, b: Option<u64>) -> Option<u64> {
    match (a, b) {
        (Option::Some(x), Option::Some(y)) => Some(if x >= y { x } else { y }),
        (Option::Some(x), Option::None) => Some(x),
        (Option::None, Option::Some(y)) => Some(y),
        (Option::None, Option::None) => None,
    }
}

/// The greatest timestamp among the events that name identity `k` — the
/// latest "used" observation for `k`, whatever the arrival order.
pub open spec fn max_recency(evs: Seq<(Seq<u8>, u64)>, k: Seq<u8>) -> Option<u64>
    decreases evs.len(),
{
    if evs.len() == 0 {
        None
    } else if evs[0].0 == k {
        opt_max(Some(evs[0].1), max_recency(evs.drop_first(), k))
    } else {
        max_recency(evs.drop_first(), k)
    }
}

/// Replaying any event sequence leaves, for each identity, the larger of
/// its prior recency and the greatest timestamp among its own events;
/// events for other identities never disturb it.
pub proof fn lemma_touch_history(m: Map<Seq<u8>, u64>, evs: Seq<(Seq<u8>, u64)>, k: Seq<u8>)
    ensures
        rec_of(fold_touch(m, evs), k) == opt_max(rec_of(m, k), max_recency(evs, k)),
    decreases evs.len(),
{
    if evs.len() > 0 {
        let m1 = touched(m, evs[0].0, evs[0].1);
        lemma_touch_history(m1, evs.drop_first(), k);
        if evs[0].0 == k {
            assert(rec_of(m1, k) == opt_max(rec_of(m, k), Some(evs[0].1)));
        } else {
            assert(rec_of(m1, k) == rec_of(m, k));
        }
    }
}

/// Law: for any sequence of "used" events, an identity's stored recency is
/// the timestamp of its latest event, regardless of the arrival order of
/// unrelated identities.
pub proof fn lemma_latest_event_wins(m: Map<Seq<u8>, u64>, evs: Seq<(Seq<u8>, u64)>, k: Seq<u8>)
    requires
        !m.contains_key(k),
    ensures
        match max_recency(evs, k) {
            Option::Some(ts) => fold_touch(m, evs).contains_key(k) && fold_touch(m, evs)[k]
                == ts,
            Option::None => !fold_touch(m, evs).contains_key(k),
        },
{
    lemma_touch_history(m, evs, k);
}

pub proof fn lemma_entries_map_contains(s: Seq<RecencyEntry>, k: Seq<u8>)
    ensures
        entries_map(s).contains_key(k) <==> exists|i: int| 0 <= i < s.len() && s[i].id@ == k,
    decreases s.len(),
{
    if s.len() > 0 {
        lemma_entries_map_contains(s.drop_last(), k);
        if s.last().id@ == k {
            assert(s[s.len() - 1].id@ == k);
        } else if entries_map(s).contains_key(k) {
            let i = choose|i: int| 0 <= i < s.drop_last().len() && s.drop_last()[i].id@ == k;
            assert(s[i].id@ == k);
        } else if exists|i: int| 0 <= i < s.len() && s[i].id@ == k {
            let i = choose|i: int| 0 <= i < s.len() && s[i].id@ == k;
            assert(s.drop_last()[i].id@ == k);
        }
    }
}

pub proof fn lemma_entries_map_value(s: Seq<RecencyEntry>, i: int)
    requires
        unique_ids(s),
        0 <= i < s.len(),
    ensures
        entries_map(s).contains_key(s[i].id@),
        entries_map(s)[s[i].id@] == s[i].last_used,
    decreases s.len(),
{
    if i == s.len() - 1 {
    } else {
        assert(unique_ids(s.drop_last()));
        assert(s.drop_last()[i] == s[i]);
        lemma_entries_map_value(s.drop_last(), i);
        assert(s[i].id@ != s.last().id@);
    }
}

pub proof fn lemma_entries_map_push(s: Seq<RecencyEntry>, e: RecencyEntry)
    ensures
        entries_map(s.push(e)) == entries_map(s).insert(e.id@, e.last_used),
{
    assert(s.push(e).drop_last() =~= s);
    assert(s.push(e).last() == e);
}

pub proof fn lemma_entries_map_remove(s: Seq<RecencyEntry>, i: int)
    requires
        unique_ids(s),
        0 <= i < s.len(),
    ensures
        entries_map(s.remove(i)) =~= entries_map(s).remove(s[i].id@),
    decreases s.len(),
{
    let k = s[i].id@;
    if i == s.len() - 1 {
        assert(s.remove(i) =~= s.drop_last());
        lemma_entries_map_contains(s.drop_last(), k);
        assert(forall|j: int|
            0 <= j < s.drop_last().len() ==> s.drop_last()[j].id@ != k);
        assert(!entries_map(s.drop_last()).contains_key(k));
        assert(entries_map(s.drop_last()).insert(k, s[i].last_used).remove(k)
            =~= entries_map(s.drop_last()));
    } else {
        assert(unique_ids(s.drop_last()));
        assert(s.drop_last()[i] == s[i]);
        lemma_entries_map_remove(s.drop_last(), i);
        assert(s.remove(i).drop_last() =~= s.drop_last().remove(i));
        assert(s.remove(i).last() == s.last());
        assert(s.last().id@ != k);
    }
}

/// Durable record of image recency. The stored mapping is the view; the
/// well-formedness invariant keeps one entry per identity.
pub struct RecencyStore {
    entries: Vec<RecencyEntry>,
}

impl View for RecencyStore {
    type V = Map<Seq<u8>, u64>;

    closed spec fn view(&self) -> Map<Seq<u8>, u64> {
        entries_map(self.entries@)
    }
}

/// Equality of two identities as byte strings.
pub fn id_eq(a: &Vec<u8>, b: &Vec<u8>) -> (r: bool)
    ensures
        r == (a@ == b@),
{
    if a.len() != b.len() {
        return false;
    }
    let mut i: usize = 0;
    while i < a.len()
        invariant
            i <= a.len(),
            a.len() == b.len(),
            forall|j: int| 0 <= j < i ==> a@[j] == b@[j],
        decreases a.len() - i,
    {
        if a[i] != b[i] {
            return false;
        }
        i += 1;
    }
    assert(a@ =~= b@);
    true
}

impl RecencyStore {
    pub closed spec fn wf(&self) -> bool {
        unique_ids(self.entries@)
    }

    /// A store with no recency recorded for any identity.
    pub fn new() -> (s: Self)
        ensures
            s@ == Map::<Seq<u8>, u64>::empty(),
            s.wf(),
    {
        Self { entries: Vec::new() }
    }

    /// Read-only access to the stored entries, for persistence and logging.
    pub fn snapshot_entries(&self) -> (r: &Vec<RecencyEntry>)
        requires
            self.wf(),
        ensures
            entries_map(r@) == self@,
            unique_ids(r@),
    {
        &self.entries
    }

    fn find_index(&self, id: &Vec<u8>) -> (r: Option<usize>)
        ensures
            match r {
                Some(i) => i < self.entries@.len() && self.entries@[i as int].id@ == id@,
                None => forall|i: int|
                    0 <= i < self.entries@.len() ==> self.entries@[i].id@ != id@,
            },
    {
        let mut i: usize = 0;
        while i < self.entries.len()
            invariant
                i <= self.entries@.len(),
                forall|j: int| 0 <= j < i ==> self.entries@[j].id@ != id@,
            decreases self.entries@.len() - i,
        {
            if id_eq(&self.entries[i].id, id) {
                return Some(i);
            }
            i += 1;
        }
        None
    }

    /// The recorded recency of an identity; absent means "never observed in
    /// use", which sorts as older than any recorded timestamp at eviction.
    pub fn lookup(&self, id: &Vec<u8>) -> (r: Option<u64>)
        requires
            self.wf(),
        ensures
            match r {
                Some(ts) => self@.contains_key(id@) && self@[id@] == ts,
                None => !self@.contains_key(id@),
            },
    {
        proof {
            lemma_entries_map_contains(self.entries@, id@);
        }
        match self.find_index(id) {
            Some(i) => {
                proof {
                    lemma_entries_map_value(self.entries@, i as int);
                }
                Some(self.entries[i].last_used)
            },
            None => None,
        }
    }

    /// Record that `id` was observed in use at `ts`. Inserts or overwrites,
    /// but never moves the stored timestamp backwards.
    pub fn touch(&mut self, id: Vec<u8>, ts: u64)
        requires
            old(self).wf(),
        ensures
            final(self).wf(),
            final(self)@ == touched(old(self)@, id@, ts),
    {
        proof {
            lemma_entries_map_contains(self.entries@, id@);
        }
        match self.find_index(&id) {
            Some(i) => {
                proof {
                    lemma_entries_map_value(self.entries@, i as int);
                }
                if self.entries[i].last_used < ts {
                    let ghost s0 = self.entries@;
                    let _ = self.entries.remove(i);
                    proof {
                        lemma_entries_map_remove(s0, i as int);
                        assert(forall|j: int|
                            0 <= j < s0.remove(i as int).len()
                                ==> s0.remove(i as int)[j].id@ != id@) by {
                            assert(forall|j: int|
                                0 <= j < s0.remove(i as int).len() ==> #[trigger] s0.remove(
                                    i as int,
                                )[j] == if j < i { s0[j] } else { s0[j + 1] });
                        }
                    }
                    let ghost s1 = self.entries@;
                    self.entries.push(RecencyEntry { id, last_used: ts });
                    proof {
                        lemma_entries_map_push(s1, RecencyEntry { id, last_used: ts });
                        lemma_entries_map_contains(s1, id@);
                        assert(self@ =~= touched(old(self)@, id@, ts));
                    }
                }
            },
            None => {
                let ghost s0 = self.entries@;
                self.entries.push(RecencyEntry { id, last_used: ts });
                proof {
                    lemma_entries_map_push(s0, RecencyEntry { id, last_used: ts });
                    assert(!old(self)@.contains_key(id@));
                    assert(self@ =~= touched(old(self)@, id@, ts));
                }
            },
        }
    }

    /// Forget the entry for `id`, if any; absent identities are no error.
    pub fn remove(&mut self, id: &Vec<u8>)
        requires
            old(self).wf(),
        ensures
            final(self).wf(),
            final(self)@ == old(self)@.remove(id@),
    {
        proof {
            lemma_entries_map_contains(self.entries@, id@);
        }
        match self.find_index(id) {
            Some(i) => {
                let ghost s0 = self.entries@;
                let _ = self.entries.remove(i);
                proof {
                    lemma_entries_map_remove(s0, i as int);
                    assert(forall|j: int|
                        0 <= j < s0.remove(i as int).len() ==> #[trigger] s0.remove(i as int)[j]
                            == if j < i { s0[j] } else { s0[j + 1] });
                }
            },
            None => {
                proof {
                    assert(!old(self)@.contains_key(id@));
                    assert(old(self)@.remove(id@) =~= old(self)@);
                }
            },
        }
    }
}

} // verus!
