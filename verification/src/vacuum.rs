//! The vacuum engine: given a fresh inventory snapshot and the recency
//! record, it computes total usage and, when over the threshold, fixes the
//! eviction order over the images that no running container uses. Deletions
//! are driven one candidate at a time through [`VacuumPass`], so a failed
//! deletion skips that candidate and the pass goes on.

use vstd::prelude::*;
use vstd::multiset::Multiset;
use crate::recency::{id_eq, RecencyStore};

verus! {

broadcast use vstd::seq_lib::group_to_multiset_ensures, vstd::seq_lib::group_filter_ensures;

/// One image as the runtime inventory reports it: identity, size in bytes,
/// creation timestamp. Rebuilt on every vacuum pass, never persisted.
pub struct ImageRecord {
    pub id: Vec<u8>,
    pub size: u64,
    pub created: u64,
}

/// The runtime's state at one instant: all images, and the identities that
/// running containers reference (exempt from eviction).
pub struct Snapshot {
    pub images: Vec<ImageRecord>,
    pub in_use: Vec<Vec<u8>>,
}

/// Whether identity `k` occurs in `ids`.
pub open spec fn id_in(ids: Seq<Vec<u8>>, k: Seq<u8>) -> bool {
    exists|i: int| 0 <= i < ids.len() && ids[i]@ == k
}

/// Lexicographic order on identities, the final tie-break of the eviction
/// order; it makes the order total, so passes are deterministic.
pub open spec fn lex_le(a: Seq<u8>, b: Seq<u8>) -> bool
    decreases a.len(),
{
    if a.len() == 0 {
        true
    } else if b.len() == 0 {
        false
    } else if a[0] < b[0] {
        true
    } else if a[0] > b[0] {
        false
    } else {
        lex_le(a.drop_first(), b.drop_first())
    }
}

pub proof fn lemma_lex_le_total(a: Seq<u8>, b: Seq<u8>)
    ensures
        lex_le(a, b) || lex_le(b, a),
    decreases a.len(),
{
    if a.len() > 0 && b.len() > 0 && a[0] == b[0] {
        lemma_lex_le_total(a.drop_first(), b.drop_first());
    }
}

pub proof fn lemma_lex_le_trans(a: Seq<u8>, b: Seq<u8>, c: Seq<u8>)
    requires
        lex_le(a, b),
        lex_le(b, c),
    ensures
        lex_le(a, c),
    decreases a.len(),
{
    if a.len() > 0 {
        if a[0] == b[0] && b[0] == c[0] {
            lemma_lex_le_trans(a.drop_first(), b.drop_first(), c.drop_first());
        }
    }
}

/// The eviction order, given the recency mapping `m`: an image never
/// observed in use comes first; then older recency, then older creation,
/// then identity.
pub open spec fn evict_le(m: Map<Seq<u8>, u64>, a: ImageRecord, b: ImageRecord) -> bool {
    if !m.contains_key(a.id@) && m.contains_key(b.id@) {
        true
    } else if m.contains_key(a.id@) && !m.contains_key(b.id@) {
        false
    } else if m.contains_key(a.id@) && m.contains_key(b.id@) && m[a.id@] != m[b.id@] {
        m[a.id@] < m[b.id@]
    } else if a.created != b.created {
        a.created < b.created
    } else {
        lex_le(a.id@, b.id@)
    }
}

pub proof fn lemma_evict_le_total(m: Map<Seq<u8>, u64>, a: ImageRecord, b: ImageRecord)
    ensures
        evict_le(m, a, b) || evict_le(m, b, a),
{
    lemma_lex_le_total(a.id@, b.id@);
}

pub proof fn lemma_evict_le_trans(m: Map<Seq<u8>, u64>, a: ImageRecord, b: ImageRecord, c: ImageRecord)
    requires
        evict_le(m, a, b),
        evict_le(m, b, c),
    ensures
        evict_le(m, a, c),
{
    if a.created == b.created && b.created == c.created && lex_le(a.id@, b.id@) && lex_le(
        b.id@,
        c.id@,
    ) {
        lemma_lex_le_trans(a.id@, b.id@, c.id@);
    }
}

/// `s` stands in eviction order for the recency mapping `m`.
pub open spec fn sorted_for(m: Map<Seq<u8>, u64>, s: Seq<ImageRecord>) -> bool {
    forall|i: int, j: int| 0 <= i < j < s.len() ==> evict_le(m, s[i], s[j])
}

/// Total size in bytes of a sequence of images, as an exact integer.
pub open spec fn sum_sizes(s: Seq<ImageRecord>) -> int
    decreases s.len(),
{
    if s.len() == 0 {
        0
    } else {
        s[0].size + sum_sizes(s.drop_first())
    }
}

pub proof fn lemma_sum_sizes_nonneg(s: Seq<ImageRecord>)
    ensures
        sum_sizes(s) >= 0,
    decreases s.len(),
{
    if s.len() > 0 {
        lemma_sum_sizes_nonneg(s.drop_first());
    }
}

pub proof fn lemma_sum_sizes_push(s: Seq<ImageRecord>, x: ImageRecord)
    ensures
        sum_sizes(s.push(x)) == sum_sizes(s) + x.size,
    decreases s.len(),
{
    if s.len() == 0 {
        assert(s.push(x).drop_first() =~= Seq::<ImageRecord>::empty());
        assert(s.push(x)[0] == x);
        assert(sum_sizes(s.push(x).drop_first()) == 0);
        assert(sum_sizes(s.push(x)) == x.size + sum_sizes(s.push(x).drop_first()));
    } else {
        assert(s.push(x).drop_first() =~= s.drop_first().push(x));
        assert(s.push(x)[0] == s[0]);
        lemma_sum_sizes_push(s.drop_first(), x);
    }
}

pub proof fn lemma_sum_sizes_remove(s: Seq<ImageRecord>, i: int)
    requires
        0 <= i < s.len(),
    ensures
        sum_sizes(s.remove(i)) == sum_sizes(s) - s[i].size,
    decreases s.len(),
{
    if i == 0 {
        assert(s.remove(0) =~= s.drop_first());
    } else {
        assert(s.remove(i).drop_first() =~= s.drop_first().remove(i - 1));
        assert(s.remove(i)[0] == s[0]);
        lemma_sum_sizes_remove(s.drop_first(), i - 1);
    }
}

pub proof fn lemma_sum_sizes_filter_le(s: Seq<ImageRecord>, pred: spec_fn(ImageRecord) -> bool)
    ensures
        0 <= sum_sizes(s.filter(pred)) <= sum_sizes(s),
    decreases s.len(),
{
    reveal_with_fuel(Seq::<_>::filter, 2);
    lemma_sum_sizes_nonneg(s.filter(pred));
    if s.len() == 0 {
    } else {
        lemma_sum_sizes_filter_le(s.drop_last(), pred);
        assert(s =~= s.drop_last().push(s.last()));
        lemma_sum_sizes_push(s.drop_last(), s.last());
        if pred(s.last()) {
            lemma_sum_sizes_push(s.drop_last().filter(pred), s.last());
        }
    }
}

pub proof fn lemma_sum_sizes_bound(s: Seq<ImageRecord>)
    ensures
        sum_sizes(s) <= s.len() * (u64::MAX as int),
    decreases s.len(),
{
    if s.len() > 0 {
        lemma_sum_sizes_bound(s.drop_first());
        assert(s.len() * (u64::MAX as int) == (s.len() - 1) * (u64::MAX as int) + u64::MAX)
            by (nonlinear_arith);
    }
}

pub proof fn lemma_sum_sizes_skip(s: Seq<ImageRecord>, i: int)
    requires
        0 <= i < s.len(),
    ensures
        sum_sizes(s.skip(i)) == s[i].size + sum_sizes(s.skip(i + 1)),
{
    assert(s.skip(i).drop_first() =~= s.skip(i + 1));
    assert(s.skip(i)[0] == s[i]);
}

/// Whether `id` is referenced by no running container.
fn not_in_use(in_use: &Vec<Vec<u8>>, id: &Vec<u8>) -> (r: bool)
    ensures
        r == !id_in(in_use@, id@),
{
    let mut i: usize = 0;
    while i < in_use.len()
        invariant
            i <= in_use@.len(),
            forall|j: int| 0 <= j < i ==> in_use@[j]@ != id@,
        decreases in_use@.len() - i,
    {
        if id_eq(&in_use[i], id) {
            return false;
        }
        i += 1;
    }
    true
}

fn lex_le_bytes(x: &Vec<u8>, y: &Vec<u8>) -> (r: bool)
    ensures
        r == lex_le(x@, y@),
{
    let mut i: usize = 0;
    proof {
        assert(x@.skip(0) =~= x@);
        assert(y@.skip(0) =~= y@);
    }
    while i < x.len() && i < y.len()
        invariant
            i <= x@.len(),
            i <= y@.len(),
            forall|j: int| 0 <= j < i ==> x@[j] == y@[j],
            lex_le(x@, y@) == lex_le(x@.skip(i as int), y@.skip(i as int)),
        decreases x@.len() - i,
    {
        let ghost xi = x@.skip(i as int);
        let ghost yi = y@.skip(i as int);
        proof {
            assert(xi[0] == x@[i as int]);
            assert(yi[0] == y@[i as int]);
        }
        if x[i] < y[i] {
            return true;
        }
        if x[i] > y[i] {
            return false;
        }
        proof {
            assert(xi.drop_first() =~= x@.skip(i + 1));
            assert(yi.drop_first() =~= y@.skip(i + 1));
        }
        i += 1;
    }
    proof {
        assert(x@.skip(i as int).len() == x@.len() - i);
        assert(y@.skip(i as int).len() == y@.len() - i);
    }
    i == x.len()
}

/// The eviction-order comparison, decided from the recency store.
fn le_cand(store: &RecencyStore, a: &ImageRecord, b: &ImageRecord) -> (r: bool)
    requires
        store.wf(),
    ensures
        r == evict_le(store@, *a, *b),
{
    let ra = store.lookup(&a.id);
    let rb = store.lookup(&b.id);
    match (ra, rb) {
        (Option::None, Option::Some(_)) => true,
        (Option::Some(_), Option::None) => false,
        (Option::Some(ta), Option::Some(tb)) => {
            if ta != tb {
                ta < tb
            } else if a.created != b.created {
                a.created < b.created
            } else {
                lex_le_bytes(&a.id, &b.id)
            }
        },
        (Option::None, Option::None) => {
            if a.created != b.created {
                a.created < b.created
            } else {
                lex_le_bytes(&a.id, &b.id)
            }
        },
    }
}

/// Sort candidates into eviction order; the result holds exactly the same
/// images (as a multiset) with the same total size.
fn sort_candidates(store: &RecencyStore, input: Vec<ImageRecord>) -> (r: Vec<ImageRecord>)
    requires
        store.wf(),
    ensures
        r@.to_multiset() == input@.to_multiset(),
        sum_sizes(r@) == sum_sizes(input@),
        sorted_for(store@, r@),
{
    let mut rest = input;
    let ghost orig = rest@;
    let mut out: Vec<ImageRecord> = Vec::new();
    proof {
        assert(out@.to_multiset().add(rest@.to_multiset()) =~= orig.to_multiset());
    }
    while rest.len() > 0
        invariant
            store.wf(),
            out@.to_multiset().add(rest@.to_multiset()) == orig.to_multiset(),
            sum_sizes(out@) + sum_sizes(rest@) == sum_sizes(orig),
            sorted_for(store@, out@),
            forall|i: int, j: int|
                0 <= i < out@.len() && 0 <= j < rest@.len() ==> evict_le(
                    store@,
                    out@[i],
                    rest@[j],
                ),
        decreases rest@.len(),
    {
        let mut mi: usize = 0;
        let mut j: usize = 1;
        proof {
            lemma_evict_le_total(store@, rest@[0], rest@[0]);
        }
        while j < rest.len()
            invariant
                store.wf(),
                mi < j,
                j <= rest@.len(),
                rest@.len() > 0,
                forall|k: int| 0 <= k < j ==> evict_le(store@, rest@[mi as int], rest@[k]),
            decreases rest@.len() - j,
        {
            if le_cand(store, &rest[j], &rest[mi]) {
                proof {
                    lemma_evict_le_total(store@, rest@[j as int], rest@[j as int]);
                    assert forall|k: int| 0 <= k < j implies evict_le(
                        store@,
                        rest@[j as int],
                        rest@[k],
                    ) by {
                        lemma_evict_le_trans(store@, rest@[j as int], rest@[mi as int], rest@[k]);
                    }
                }
                mi = j;
            } else {
                proof {
                    lemma_evict_le_total(store@, rest@[mi as int], rest@[j as int]);
                }
            }
            j += 1;
        }
        let ghost rest0 = rest@;
        let picked = rest.remove(mi);
        proof {
            lemma_sum_sizes_remove(rest0, mi as int);
            assert(rest0.contains(picked));
            assert(rest0.to_multiset().count(picked) > 0);
            assert(rest@.to_multiset() =~= rest0.to_multiset().remove(picked));
        }
        let ghost out0 = out@;
        out.push(picked);
        proof {
            lemma_sum_sizes_push(out0, picked);
            assert(out@.to_multiset() =~= out0.to_multiset().insert(picked));
            assert(out@.to_multiset().add(rest@.to_multiset()) =~= out0.to_multiset().add(
                rest0.to_multiset(),
            ));
            // the picked minimum keeps both order invariants
            assert(forall|k: int|
                0 <= k < rest@.len() ==> #[trigger] rest@[k] == if k < mi {
                    rest0[k]
                } else {
                    rest0[k + 1]
                });
            assert(forall|i: int|
                0 <= i < out@.len() ==> #[trigger] out@[i] == if i < out0.len() {
                    out0[i]
                } else {
                    picked
                });
        }
    }
    proof {
        assert(rest@.to_multiset() =~= Multiset::<ImageRecord>::empty());
        assert(out@.to_multiset().add(rest@.to_multiset()) =~= out@.to_multiset());
    }
    out
}

/// Total size in bytes of the images in a snapshot; exact, no rounding.
pub fn total_size(images: &Vec<ImageRecord>) -> (r: u128)
    ensures
        r == sum_sizes(images@),
{
    let ghost full = images@;
    let n = images.len();
    let mut total: u128 = 0;
    let mut i: usize = 0;
    proof {
        lemma_sum_sizes_nonneg(full);
        lemma_sum_sizes_bound(full);
        assert(full.len() == n as int);
        assert(full.len() <= usize::MAX as int);
        assert(usize::MAX as int <= u64::MAX as int);
        assert(full.len() * (u64::MAX as int) <= (u64::MAX as int) * (u64::MAX as int))
            by (nonlinear_arith)
            requires
                0 <= full.len() <= u64::MAX as int,
        ;
        assert((u64::MAX as int) * (u64::MAX as int) <= u128::MAX as int) by (nonlinear_arith);
        assert(full.skip(0) =~= full);
    }
    while i < images.len()
        invariant
            i <= full.len(),
            images@ == full,
            total == sum_sizes(full) - sum_sizes(full.skip(i as int)),
            0 <= sum_sizes(full.skip(i as int)),
            sum_sizes(full) <= u128::MAX,
        decreases full.len() - i,
    {
        proof {
            lemma_sum_sizes_skip(full, i as int);
            lemma_sum_sizes_nonneg(full.skip(i + 1));
        }
        total = total + images[i].size as u128;
        i += 1;
    }
    proof {
        assert(full.skip(full.len() as int) =~= Seq::<ImageRecord>::empty());
    }
    total
}

/// How a finished vacuum pass ended: usage fell to the threshold or below,
/// or every eligible candidate was attempted and the rest is in use. The
/// second outcome is an expected steady state, not an engine error.
#[derive(PartialEq, Eq, Structural, Clone, Copy, Debug)]
pub enum PassOutcome {
    UnderThreshold,
    CandidatesExhausted,
}

/// One vacuum pass in progress: the eviction-ordered candidates, how many
/// were already attempted, the running total, and the byte threshold. The
/// caller performs each deletion and reports success or failure; the pass
/// never yields an in-use image and stops as soon as the total is within
/// the threshold.
pub struct VacuumPass {
    pub candidates: Vec<ImageRecord>,
    pub attempted: usize,
    pub total: u128,
    pub threshold: u64,
}

impl VacuumPass {
    /// The running total still exceeds the threshold.
    pub open spec fn over_threshold(&self) -> bool {
        self.total > self.threshold
    }

    /// Every candidate has been attempted.
    pub open spec fn exhausted(&self) -> bool {
        self.attempted == self.candidates@.len()
    }

    /// A pass is done when usage is within the threshold or no candidate
    /// is left to attempt.
    pub open spec fn done(&self) -> bool {
        !self.over_threshold() || self.exhausted()
    }

    pub open spec fn wf(&self) -> bool {
        &&& self.attempted <= self.candidates@.len()
        &&& self.total >= sum_sizes(self.candidates@.skip(self.attempted as int))
    }

    /// Whether the pass is done; while it is not, `target` names the next
    /// image to delete.
    pub fn finished(&self) -> (r: bool)
        ensures
            r == self.done(),
    {
        !(self.total > self.threshold as u128) || self.attempted == self.candidates.len()
    }

    /// The next image to attempt to delete: its identity and size.
    pub fn target(&self) -> (r: (&Vec<u8>, u64))
        requires
            self.wf(),
            !self.done(),
        ensures
            r.0@ == self.candidates@[self.attempted as int].id@,
            r.1 == self.candidates@[self.attempted as int].size,
    {
        (&self.candidates[self.attempted].id, self.candidates[self.attempted].size)
    }

    /// The runtime deleted the current candidate: subtract its size from
    /// the running total and forget its recency entry.
    pub fn record_success(&mut self, store: &mut RecencyStore)
        requires
            old(self).wf(),
            !old(self).done(),
            old(store).wf(),
        ensures
            final(self).wf(),
            final(store).wf(),
            final(self).candidates == old(self).candidates,
            final(self).threshold == old(self).threshold,
            final(self).attempted == old(self).attempted + 1,
            final(self).total == old(self).total - old(self).candidates@[old(
                self,
            ).attempted as int].size,
            final(store)@ == old(store)@.remove(old(self).candidates@[old(
                self,
            ).attempted as int].id@),
    {
        proof {
            lemma_sum_sizes_skip(self.candidates@, self.attempted as int);
            lemma_sum_sizes_nonneg(self.candidates@.skip(self.attempted + 1));
        }
        let n = self.candidates.len();
        assert(self.attempted < n);
        let size = self.candidates[self.attempted].size;
        store.remove(&self.candidates[self.attempted].id);
        self.total = self.total - size as u128;
        self.attempted = self.attempted + 1;
    }

    /// Deleting the current candidate failed (for example, it is referenced
    /// elsewhere): skip it and go on; the failure never aborts the pass.
    pub fn record_failure(&mut self)
        requires
            old(self).wf(),
            !old(self).done(),
        ensures
            final(self).wf(),
            final(self).candidates == old(self).candidates,
            final(self).threshold == old(self).threshold,
            final(self).total == old(self).total,
            final(self).attempted == old(self).attempted + 1,
    {
        proof {
            lemma_sum_sizes_skip(self.candidates@, self.attempted as int);
            lemma_sum_sizes_nonneg(self.candidates@.skip(self.attempted + 1));
        }
        let n = self.candidates.len();
        assert(self.attempted < n);
        self.attempted = self.attempted + 1;
    }

    /// How a finished pass ended, so logs can tell the steady state where
    /// only in-use images remain apart from an engine error.
    pub fn outcome(&self) -> (r: PassOutcome)
        requires
            self.done(),
        ensures
            r == (if self.total <= self.threshold {
                PassOutcome::UnderThreshold
            } else {
                PassOutcome::CandidatesExhausted
            }),
    {
        if self.total <= self.threshold as u128 {
            PassOutcome::UnderThreshold
        } else {
            PassOutcome::CandidatesExhausted
        }
    }
}

/// Plan a vacuum pass from a fresh snapshot: compute the exact total size,
/// and fix the eviction order over the images that no running container
/// uses — recency ascending with never-used images first, then creation
/// time, then identity.
pub fn plan_pass(snapshot: Snapshot, store: &RecencyStore, threshold: u64) -> (p: VacuumPass)
    requires
        store.wf(),
    ensures
        p.wf(),
        p.attempted == 0,
        p.threshold == threshold,
        p.total == sum_sizes(snapshot.images@),
        p.candidates@.to_multiset() == snapshot.images@.filter(
            |r: ImageRecord| !id_in(snapshot.in_use@, r.id@),
        ).to_multiset(),
        sorted_for(store@, p.candidates@),
        forall|i: int|
            0 <= i < p.candidates@.len() ==> !id_in(snapshot.in_use@, p.candidates@[i].id@),
{
    let ghost pred = |r: ImageRecord| !id_in(snapshot.in_use@, r.id@);
    let Snapshot { mut images, in_use } = snapshot;
    let ghost orig = images@;
    let total = total_size(&images);

    let mut kept: Vec<ImageRecord> = Vec::new();
    let ghost mut k: int = 0;
    proof {
        assert(orig.take(0) =~= Seq::<ImageRecord>::empty());
        assert(orig.skip(0) =~= orig);
        reveal_with_fuel(Seq::<_>::filter, 2);
    }
    while images.len() > 0
        invariant
            0 <= k <= orig.len(),
            images@ == orig.skip(k),
            kept@ == orig.take(k).filter(pred),
            pred == (|r: ImageRecord| !id_in(snapshot.in_use@, r.id@)),
            in_use@ == snapshot.in_use@,
        decreases images@.len(),
    {
        let r = images.remove(0);
        proof {
            assert(orig.skip(k)[0] == orig[k]);
            assert(orig.skip(k).remove(0) =~= orig.skip(k + 1));
        }
        let keep = not_in_use(&in_use, &r.id);
        let ghost kept0 = kept@;
        if keep {
            kept.push(r);
        }
        proof {
            reveal_with_fuel(Seq::<_>::filter, 2);
            assert(orig.take(k + 1).drop_last() =~= orig.take(k));
            assert(orig.take(k + 1).last() == orig[k]);
            assert(orig.take(k + 1).filter(pred) == if pred(orig[k]) {
                orig.take(k).filter(pred).push(orig[k])
            } else {
                orig.take(k).filter(pred)
            });
            k = k + 1;
        }
    }
    proof {
        assert(orig.take(k) =~= orig);
    }
    let candidates = sort_candidates(store, kept);
    proof {
        lemma_sum_sizes_filter_le(orig, pred);
        assert(candidates@.skip(0) =~= candidates@);
        assert forall|i: int|
            0 <= i < candidates@.len() implies !id_in(snapshot.in_use@, candidates@[i].id@) by {
            lemma_candidate_satisfies(orig.filter(pred), candidates@, pred, i);
        }
    }
    VacuumPass { candidates, attempted: 0, total, threshold }
}

/// An element of a sequence with the same multiset as a filtered sequence
/// satisfies the filter's predicate.
proof fn lemma_candidate_satisfies(
    filtered: Seq<ImageRecord>,
    cands: Seq<ImageRecord>,
    pred: spec_fn(ImageRecord) -> bool,
    i: int,
)
    requires
        exists|s: Seq<ImageRecord>| filtered == s.filter(pred),
        cands.to_multiset() == filtered.to_multiset(),
        0 <= i < cands.len(),
    ensures
        pred(cands[i]),
{
    assert(cands.contains(cands[i]));
    assert(cands.to_multiset().count(cands[i]) > 0);
    assert(filtered.to_multiset().count(cands[i]) > 0);
    assert(filtered.contains(cands[i]));
    let j = choose|j: int| 0 <= j < filtered.len() && filtered[j] == cands[i];
    let s = choose|s: Seq<ImageRecord>| filtered == s.filter(pred);
    assert(pred(s.filter(pred)[j]));
}

/// Law: vacuum never evicts an identity in the in-use set. Any candidate of
/// a pass planned from a snapshot comes from the images that no running
/// container references.
pub proof fn lemma_in_use_never_candidate(
    images: Seq<ImageRecord>,
    in_use: Seq<Vec<u8>>,
    cands: Seq<ImageRecord>,
    i: int,
)
    requires
        cands.to_multiset() == images.filter(|r: ImageRecord| !id_in(in_use, r.id@)).to_multiset(),
        0 <= i < cands.len(),
    ensures
        !id_in(in_use, cands[i].id@),
{
    lemma_candidate_satisfies(
        images.filter(|r: ImageRecord| !id_in(in_use, r.id@)),
        cands,
        |r: ImageRecord| !id_in(in_use, r.id@),
        i,
    );
}

/// Law: an identity with no recorded recency is always evicted before any
/// identity with a recorded recency — in eviction order, every never-used
/// image stands before every image with a recency entry.
pub proof fn lemma_never_used_first(
    m: Map<Seq<u8>, u64>,
    s: Seq<ImageRecord>,
    i: int,
    j: int,
)
    requires
        sorted_for(m, s),
        0 <= i < s.len(),
        0 <= j < s.len(),
        !m.contains_key(s[i].id@),
        m.contains_key(s[j].id@),
    ensures
        i < j,
{
    if j < i {
        assert(evict_le(m, s[j], s[i]));
    }
}

/// Law: a finished pass is either at or under the threshold, or has
/// attempted every candidate that was not in use.
pub proof fn lemma_finished_pass(p: VacuumPass)
    requires
        p.done(),
    ensures
        p.total <= p.threshold || p.attempted == p.candidates@.len(),
{
}

/// Law: a pass planned while total usage is at or under the threshold is
/// finished at once, so running vacuum again with no intervening events
/// performs zero deletions.
pub proof fn lemma_vacuum_idempotent(p: VacuumPass)
    requires
        p.total <= p.threshold,
    ensures
        p.done(),
{
}

} // verus!
