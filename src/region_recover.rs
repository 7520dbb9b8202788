use vstd::prelude::*;

use crate::entry::{EntryInfo, RecoverMode, Sequence};

verus! {

/// The sequence that the next scanned entry must not fall below: the last
/// recovered one, or 0 when nothing was recovered yet.
pub open spec fn last_sequence(recovered: Seq<EntryInfo>) -> Sequence {
    if recovered.len() == 0 {
        0
    } else {
        recovered.last().addr.sequence
    }
}

/// How many leading entries of `batch` keep sequences non-decreasing from
/// `prev`: the index of the first drop, or the whole batch.
pub open spec fn accepted_len(prev: Sequence, batch: Seq<EntryInfo>) -> nat
    decreases batch.len(),
{
    if batch.len() == 0 {
        0
    } else if batch[0].addr.sequence < prev {
        0
    } else {
        1 + accepted_len(batch[0].addr.sequence, batch.drop_first())
    }
}

/// Sequences never decrease along `s`.
pub open spec fn non_decreasing(s: Seq<EntryInfo>) -> bool {
    forall|i: int, j: int| 0 <= i <= j < s.len() ==> s[i].addr.sequence <= s[j].addr.sequence
}

/// What the driver of a region's scan does next.
#[derive(Debug, Clone, Copy, PartialEq, Eq, Structural)]
pub enum ScanAction {
    /// Ask the scanner for its next batch.
    Continue,
    /// Stop scanning; the recovered list is final.
    Finish,
    /// Stop scanning; the region's recovery failed with the scanner's error.
    Fail,
}

/// Decisions of one region's recovery, fed with what its scanner yields.
///
/// The driver asks the scanner for batches while `wants_next` holds, hands
/// each outcome to `on_batch`, `on_end` or `on_error`, and acts on the
/// returned `ScanAction`.
pub struct RegionRecoverRunner {
    mode: RecoverMode,
    recovered: Vec<EntryInfo>,
    finished: bool,
}

impl RegionRecoverRunner {
    pub closed spec fn spec_mode(&self) -> RecoverMode {
        self.mode
    }

    pub closed spec fn spec_recovered(&self) -> Seq<EntryInfo> {
        self.recovered@
    }

    pub closed spec fn spec_finished(&self) -> bool {
        self.finished
    }

    /// The recovered list only ever holds non-decreasing sequences.
    pub open spec fn wf(&self) -> bool {
        &&& non_decreasing(self.spec_recovered())
        &&& self.spec_mode() == RecoverMode::Skip ==> self.spec_finished()
                && self.spec_recovered().len() == 0
    }

    /// Starts a region's recovery. With `RecoverMode::Skip` it is finished at
    /// once, with nothing recovered.
    pub fn new(mode: RecoverMode) -> (r: Self)
        ensures
            r.wf(),
            r.spec_mode() == mode,
            r.spec_recovered() == Seq::<EntryInfo>::empty(),
            r.spec_finished() == (mode == RecoverMode::Skip),
    {
        RegionRecoverRunner { mode, recovered: Vec::new(), finished: mode == RecoverMode::Skip }
    }

    /// Whether the scanner should be asked for another batch.
    pub fn wants_next(&self) -> (r: bool)
        ensures
            r == !self.spec_finished(),
    {
        !self.finished
    }

    pub fn mode(&self) -> (r: RecoverMode)
        ensures
            r == self.spec_mode(),
    {
        self.mode
    }

    pub fn recovered(&self) -> (r: &Vec<EntryInfo>)
        ensures
            r@ == self.spec_recovered(),
    {
        &self.recovered
    }

    /// Ends the recovery and hands out the recovered list.
    pub fn into_recovered(self) -> (r: Vec<EntryInfo>)
        ensures
            r@ == self.spec_recovered(),
    {
        self.recovered
    }

    /// Takes one batch from the scanner. Entries are appended in order until
    /// one has a sequence below the last recovered one: that entry and all
    /// that follow are discarded, and the recovery finishes.
    pub fn on_batch(&mut self, batch: Vec<EntryInfo>) -> (r: ScanAction)
        requires
            old(self).wf(),
            !old(self).spec_finished(),
        ensures
            final(self).wf(),
            final(self).spec_mode() == old(self).spec_mode(),
            final(self).spec_recovered() == old(self).spec_recovered() + batch@.take(
                accepted_len(last_sequence(old(self).spec_recovered()), batch@) as int,
            ),
            accepted_len(last_sequence(old(self).spec_recovered()), batch@) < batch@.len()
                ==> r == ScanAction::Finish && final(self).spec_finished(),
            accepted_len(last_sequence(old(self).spec_recovered()), batch@) == batch@.len()
                ==> r == ScanAction::Continue && !final(self).spec_finished(),
    {
        let ghost prev0 = last_sequence(self.recovered@);
        let ghost rec0 = self.recovered@;
        proof {
            lemma_accepted_len_bound(prev0, batch@);
            assert(batch@.skip(0) =~= batch@);
        }
        let mut i: usize = 0;
        while i < batch.len()
            invariant
                0 <= i <= batch@.len(),
                non_decreasing(self.recovered@),
                self.mode == old(self).mode,
                rec0 == old(self).recovered@,
                prev0 == last_sequence(rec0),
                self.mode != RecoverMode::Skip,
                !self.finished,
                self.recovered@ == rec0 + batch@.take(i as int),
                i + accepted_len(last_sequence(self.recovered@), batch@.skip(i as int))
                    == accepted_len(prev0, batch@),
            decreases batch@.len() - i,
        {
            let info = batch[i];
            let last: Sequence = if self.recovered.len() == 0 {
                0
            } else {
                self.recovered[self.recovered.len() - 1].addr.sequence
            };
            assert(batch@.skip(i as int)[0] == info);
            if info.addr.sequence < last {
                self.finished = true;
                assert(accepted_len(last, batch@.skip(i as int)) == 0);
                return ScanAction::Finish;
            }
            assert(batch@.skip(i as int).drop_first() =~= batch@.skip(i + 1));
            self.recovered.push(info);
            assert(batch@.take(i + 1) =~= batch@.take(i as int).push(info));
            i += 1;
        }
        assert(batch@.skip(i as int).len() == 0);
        ScanAction::Continue
    }

    /// The scanner reached the end of the region.
    pub fn on_end(&mut self) -> (r: ScanAction)
        requires
            old(self).wf(),
        ensures
            final(self).wf(),
            final(self).spec_mode() == old(self).spec_mode(),
            final(self).spec_recovered() == old(self).spec_recovered(),
            final(self).spec_finished(),
            r == ScanAction::Finish,
    {
        self.finished = true;
        ScanAction::Finish
    }

    /// The scanner raised an error: under `RecoverMode::Strict` the region's
    /// recovery fails; otherwise it finishes with what was recovered.
    pub fn on_error(&mut self) -> (r: ScanAction)
        requires
            old(self).wf(),
        ensures
            final(self).wf(),
            final(self).spec_mode() == old(self).spec_mode(),
            final(self).spec_recovered() == old(self).spec_recovered(),
            final(self).spec_finished(),
            r == (if old(self).spec_mode() == RecoverMode::Strict {
                ScanAction::Fail
            } else {
                ScanAction::Finish
            }),
    {
        self.finished = true;
        if self.mode == RecoverMode::Strict {
            ScanAction::Fail
        } else {
            ScanAction::Finish
        }
    }
}

/// At most the whole batch is accepted.
pub proof fn lemma_accepted_len_bound(prev: Sequence, batch: Seq<EntryInfo>)
    ensures
        accepted_len(prev, batch) <= batch.len(),
    decreases batch.len(),
{
    if batch.len() > 0 && batch[0].addr.sequence >= prev {
        lemma_accepted_len_bound(batch[0].addr.sequence, batch.drop_first());
    }
}


/// The accepted part of a batch keeps sequences non-decreasing from `prev`,
/// and where it stops short, the first entry left out is a drop below the
/// last accepted sequence.
pub proof fn lemma_accepted_prefix(prev: Sequence, batch: Seq<EntryInfo>)
    ensures
        accepted_len(prev, batch) <= batch.len(),
        non_decreasing(batch.take(accepted_len(prev, batch) as int)),
        accepted_len(prev, batch) > 0 ==> prev <= batch[0].addr.sequence,
        accepted_len(prev, batch) < batch.len() ==> {
            let k = accepted_len(prev, batch) as int;
            batch[k].addr.sequence < (if k == 0 { prev } else { batch[k - 1].addr.sequence })
        },
    decreases batch.len(),
{
    if batch.len() > 0 && batch[0].addr.sequence >= prev {
        let rest = batch.drop_first();
        let p = batch[0].addr.sequence;
        lemma_accepted_prefix(p, rest);
        let k = accepted_len(prev, batch) as int;
        let t = batch.take(k);
        let tr = rest.take(k - 1);
        assert forall|i: int, j: int| 0 <= i <= j < t.len() implies t[i].addr.sequence <= t[j].addr.sequence by {
            if i > 0 {
                assert(t[i] == tr[i - 1] && t[j] == tr[j - 1]);
            } else if j > 0 {
                assert(t[j] == tr[j - 1]);
                assert(tr[0].addr.sequence <= tr[j - 1].addr.sequence);
            }
        }
        if k < batch.len() && k > 1 {
            assert(batch[k - 1] == rest[k - 2]);
        }
    }
}

} // verus!
