use std::collections::HashMap;

use vstd::prelude::*;

use crate::entry::{EntryAddress, EntryInfo, HashedEntryAddress, RegionId, Sequence, Tombstone};

verus! {

broadcast use vstd::std_specs::hash::group_hash_axioms;

/// What one recorded event did to a key.
#[derive(Debug, Clone, Copy, PartialEq, Eq, Structural)]
pub enum VersionEvent {
    /// The key was written at this address.
    Entry(EntryAddress),
    /// The key was deleted.
    Tombstone,
}

/// One version of a key hash: an entry write or a deletion, with its sequence.
#[derive(Debug, Clone, Copy, PartialEq, Eq, Structural)]
pub struct Version {
    pub hash: u64,
    pub sequence: Sequence,
    pub event: VersionEvent,
}

pub open spec fn entry_version(info: EntryInfo) -> Version {
    Version { hash: info.hash, sequence: info.addr.sequence, event: VersionEvent::Entry(info.addr) }
}

pub open spec fn tombstone_version(t: Tombstone) -> Version {
    Version { hash: t.hash, sequence: t.sequence, event: VersionEvent::Tombstone }
}

/// The versions of all regions' entries, region after region, each region
/// in its recovered order.
pub open spec fn region_versions(lists: Seq<Vec<EntryInfo>>) -> Seq<Version>
    decreases lists.len(),
{
    if lists.len() == 0 {
        Seq::empty()
    } else {
        region_versions(lists.drop_last()) + lists.last()@.map_values(
            |e: EntryInfo| entry_version(e),
        )
    }
}

/// Every version that recovery reconciles: the regions' entries, then the
/// tombstones.
pub open spec fn history(lists: Seq<Vec<EntryInfo>>, tombstones: Seq<Tombstone>) -> Seq<Version> {
    region_versions(lists) + tombstones.map_values(|t: Tombstone| tombstone_version(t))
}

/// The version of `hash` that wins: the one with the highest sequence, and
/// among equal highest sequences the one that comes last.
pub open spec fn latest(versions: Seq<Version>, hash: u64) -> Option<Version>
    decreases versions.len(),
{
    if versions.len() == 0 {
        None
    } else {
        let prev = latest(versions.drop_last(), hash);
        let v = versions.last();
        if v.hash == hash && (prev is None || prev->Some_0.sequence <= v.sequence) {
            Some(v)
        } else {
            prev
        }
    }
}

/// The highest sequence among `versions`, or 0 when there is none.
pub open spec fn max_sequence(versions: Seq<Version>) -> Sequence
    decreases versions.len(),
{
    if versions.len() == 0 {
        0
    } else {
        let m = max_sequence(versions.drop_last());
        if m < versions.last().sequence {
            versions.last().sequence
        } else {
            m
        }
    }
}


/// Lists every version in the order of `history`.
fn collect_history(lists: &Vec<Vec<EntryInfo>>, tombstones: &[Tombstone]) -> (r: Vec<Version>)
    ensures
        r@ == history(lists@, tombstones@),
{
    let mut out: Vec<Version> = Vec::new();
    let mut i: usize = 0;
    while i < lists.len()
        invariant
            0 <= i <= lists@.len(),
            out@ == region_versions(lists@.take(i as int)),
        decreases lists@.len() - i,
    {
        let infos = &lists[i];
        let ghost before = out@;
        let mut k: usize = 0;
        while k < infos.len()
            invariant
                0 <= k <= infos@.len(),
                infos == lists@[i as int],
                out@ == before + infos@.take(k as int).map_values(|e: EntryInfo| entry_version(e)),
            decreases infos@.len() - k,
        {
            let info = infos[k];
            out.push(Version { hash: info.hash, sequence: info.addr.sequence, event: VersionEvent::Entry(info.addr) });
            assert(infos@.take(k + 1).map_values(|e: EntryInfo| entry_version(e))
                =~= infos@.take(k as int).map_values(|e: EntryInfo| entry_version(e)).push(entry_version(info)));
            k += 1;
        }
        assert(infos@.take(k as int) =~= infos@);
        assert(lists@.take(i + 1).drop_last() =~= lists@.take(i as int));
        i += 1;
    }
    assert(lists@.take(i as int) =~= lists@);
    let ghost before = out@;
    let mut j: usize = 0;
    while j < tombstones.len()
        invariant
            0 <= j <= tombstones@.len(),
            out@ == before + tombstones@.take(j as int).map_values(|t: Tombstone| tombstone_version(t)),
        decreases tombstones@.len() - j,
    {
        let t = tombstones[j];
        out.push(Version { hash: t.hash, sequence: t.sequence, event: VersionEvent::Tombstone });
        assert(tombstones@.take(j + 1).map_values(|t: Tombstone| tombstone_version(t))
            =~= tombstones@.take(j as int).map_values(|t: Tombstone| tombstone_version(t)).push(tombstone_version(t)));
        j += 1;
    }
    assert(tombstones@.take(j as int) =~= tombstones@);
    out
}


/// The winning version of a hash is one of its own versions.
pub proof fn lemma_latest_hash(versions: Seq<Version>, hash: u64)
    ensures
        latest(versions, hash) is Some ==> latest(versions, hash)->Some_0.hash == hash,
    decreases versions.len(),
{
    if versions.len() > 0 {
        lemma_latest_hash(versions.drop_last(), hash);
    }
}

/// The winning version of each hash that `versions` holds, one per hash.
fn latest_per_hash(versions: &Vec<Version>) -> (r: Vec<Version>)
    ensures
        forall|j: int| 0 <= j < r@.len() ==> latest(versions@, #[trigger] r@[j].hash) == Some(r@[j]),
        forall|h: u64| latest(versions@, h) is Some ==> exists|j: int| 0 <= j < r@.len() && #[trigger] r@[j].hash == h,
        forall|j1: int, j2: int| 0 <= j1 < j2 < r@.len() ==> #[trigger] r@[j1].hash != #[trigger] r@[j2].hash,
{
    let mut slots: HashMap<u64, usize> = HashMap::new();
    let mut winners: Vec<Version> = Vec::new();
    let mut i: usize = 0;
    while i < versions.len()
        invariant
            0 <= i <= versions@.len(),
            forall|h: u64| #[trigger] slots@.contains_key(h) <==> latest(versions@.take(i as int), h) is Some,
            forall|h: u64| #[trigger] slots@.contains_key(h) ==> slots@[h] < winners@.len()
                && winners@[slots@[h] as int] == latest(versions@.take(i as int), h)->Some_0,
            forall|j: int| 0 <= j < winners@.len() ==> slots@.contains_key(#[trigger] winners@[j].hash)
                && slots@[winners@[j].hash] == j,
        decreases versions@.len() - i,
    {
        let v = versions[i];
        let ghost p = versions@.take(i as int);
        let ghost q = versions@.take(i + 1);
        assert(q.drop_last() =~= p);
        assert(q.last() == v);
        assert(forall|h: u64| h != v.hash ==> latest(q, h) == #[trigger] latest(p, h));
        proof {
            lemma_latest_hash(p, v.hash);
        }
        match slots.get(&v.hash) {
            Some(j) => {
                let j = *j;
                let ghost w0 = winners@;
                if winners[j].sequence <= v.sequence {
                    winners.set(j, v);
                }
                assert forall|k: int| 0 <= k < winners@.len() implies slots@.contains_key(#[trigger] winners@[k].hash)
                    && slots@[winners@[k].hash] == k by {
                    if k != j {
                        assert(winners@[k] == w0[k]);
                    }
                }
                assert forall|h: u64| #[trigger] slots@.contains_key(h) implies slots@[h] < winners@.len()
                    && winners@[slots@[h] as int] == latest(q, h)->Some_0 by {
                    lemma_latest_hash(p, h);
                    if h != v.hash {
                        assert(w0[slots@[h] as int].hash == h);
                    }
                }
            },
            None => {
                let ghost w0 = winners@;
                let ghost s0 = slots@;
                slots.insert(v.hash, winners.len());
                winners.push(v);
                assert forall|k: int| 0 <= k < winners@.len() implies slots@.contains_key(#[trigger] winners@[k].hash)
                    && slots@[winners@[k].hash] == k by {
                    if k < w0.len() {
                        assert(winners@[k] == w0[k]);
                        assert(slots@.contains_key(w0[k].hash));
                    }
                }
                assert forall|h: u64| #[trigger] slots@.contains_key(h) implies slots@[h] < winners@.len()
                    && winners@[slots@[h] as int] == latest(q, h)->Some_0 by {
                    if h != v.hash {
                        assert(s0.contains_key(h));
                    }
                }
            },
        }
        i += 1;
    }
    assert(versions@.take(i as int) =~= versions@);
    proof {
        assert forall|j: int| 0 <= j < winners@.len() implies latest(versions@, #[trigger] winners@[j].hash) == Some(winners@[j]) by {
            lemma_latest_hash(versions@, winners@[j].hash);
        }
        assert forall|h: u64| latest(versions@, h) is Some implies exists|j: int| 0 <= j < winners@.len() && #[trigger] winners@[j].hash == h by {
            lemma_latest_hash(versions@, h);
            assert(slots@.contains_key(h));
            assert(winners@[slots@[h] as int].hash == h);
        }
    }
    winners
}


/// The address that the indexer holds for `hash`: that of its winning
/// version, unless that version is a tombstone.
pub open spec fn live_address(versions: Seq<Version>, hash: u64) -> Option<EntryAddress> {
    match latest(versions, hash) {
        Some(v) => match v.event {
            VersionEvent::Entry(addr) => Some(addr),
            VersionEvent::Tombstone => None,
        },
        None => None,
    }
}

/// The regions among the first `n` whose recovered list is empty, in order.
pub open spec fn clean_upto(ids: Seq<RegionId>, lists: Seq<Vec<EntryInfo>>, n: int) -> Seq<RegionId>
    decreases n,
{
    if n <= 0 {
        Seq::empty()
    } else if lists[n - 1]@.len() == 0 {
        clean_upto(ids, lists, n - 1).push(ids[n - 1])
    } else {
        clean_upto(ids, lists, n - 1)
    }
}

/// The regions among the first `n` whose recovered list is not empty, in order.
pub open spec fn evictable_upto(ids: Seq<RegionId>, lists: Seq<Vec<EntryInfo>>, n: int) -> Seq<RegionId>
    decreases n,
{
    if n <= 0 {
        Seq::empty()
    } else if lists[n - 1]@.len() != 0 {
        evictable_upto(ids, lists, n - 1).push(ids[n - 1])
    } else {
        evictable_upto(ids, lists, n - 1)
    }
}

/// `indices` holds exactly the live addresses of `versions`, one per hash.
pub open spec fn indexes_exactly(indices: Seq<HashedEntryAddress>, versions: Seq<Version>) -> bool {
    &&& forall|i: int| 0 <= i < indices.len()
        ==> live_address(versions, #[trigger] indices[i].hash) == Some(indices[i].address)
    &&& forall|h: u64| live_address(versions, h) is Some
        ==> exists|i: int| 0 <= i < indices.len() && #[trigger] indices[i].hash == h
    &&& forall|i1: int, i2: int| 0 <= i1 < i2 < indices.len()
        ==> #[trigger] indices[i1].hash != #[trigger] indices[i2].hash
}

/// Splits the regions into those with and without recovered entries.
fn classify_regions(regions: &[RegionId], lists: &Vec<Vec<EntryInfo>>) -> (r: (Vec<RegionId>, Vec<RegionId>))
    requires
        regions@.len() == lists@.len(),
    ensures
        r.0@ == clean_upto(regions@, lists@, regions@.len() as int),
        r.1@ == evictable_upto(regions@, lists@, regions@.len() as int),
{
    let mut clean: Vec<RegionId> = Vec::new();
    let mut evictable: Vec<RegionId> = Vec::new();
    let mut i: usize = 0;
    while i < regions.len()
        invariant
            0 <= i <= regions@.len(),
            regions@.len() == lists@.len(),
            clean@ == clean_upto(regions@, lists@, i as int),
            evictable@ == evictable_upto(regions@, lists@, i as int),
        decreases regions@.len() - i,
    {
        if lists[i].len() == 0 {
            clean.push(regions[i]);
        } else {
            evictable.push(regions[i]);
        }
        i += 1;
    }
    (clean, evictable)
}

/// The highest sequence among `versions`, or 0.
fn highest_sequence(versions: &Vec<Version>) -> (r: Sequence)
    ensures
        r == max_sequence(versions@),
{
    let mut m: Sequence = 0;
    let mut i: usize = 0;
    while i < versions.len()
        invariant
            0 <= i <= versions@.len(),
            m == max_sequence(versions@.take(i as int)),
        decreases versions@.len() - i,
    {
        assert(versions@.take(i + 1).drop_last() =~= versions@.take(i as int));
        if m < versions[i].sequence {
            m = versions[i].sequence;
        }
        i += 1;
    }
    assert(versions@.take(i as int) =~= versions@);
    m
}

/// The indexer entries for the live winners among `winners`.
fn live_indices(winners: &Vec<Version>, Ghost(versions): Ghost<Seq<Version>>) -> (r: Vec<HashedEntryAddress>)
    requires
        forall|j: int| 0 <= j < winners@.len() ==> latest(versions, #[trigger] winners@[j].hash) == Some(winners@[j]),
        forall|h: u64| latest(versions, h) is Some ==> exists|j: int| 0 <= j < winners@.len() && #[trigger] winners@[j].hash == h,
        forall|j1: int, j2: int| 0 <= j1 < j2 < winners@.len() ==> #[trigger] winners@[j1].hash != #[trigger] winners@[j2].hash,
    ensures
        indexes_exactly(r@, versions),
{
    let mut out: Vec<HashedEntryAddress> = Vec::new();
    let ghost mut from: Seq<int> = Seq::empty();
    let mut j: usize = 0;
    while j < winners.len()
        invariant
            0 <= j <= winners@.len(),
            from.len() == out@.len(),
            forall|i: int| 0 <= i < out@.len() ==> 0 <= #[trigger] from[i] < j
                && winners@[from[i]].hash == out@[i].hash
                && winners@[from[i]].event == VersionEvent::Entry(out@[i].address),
            forall|i1: int, i2: int| 0 <= i1 < i2 < out@.len() ==> #[trigger] from[i1] < #[trigger] from[i2],
            forall|k: int| 0 <= k < j && (#[trigger] winners@[k].event) is Entry
                ==> exists|i: int| 0 <= i < out@.len() && #[trigger] from[i] == k,
            forall|k: int| 0 <= k < winners@.len() ==> latest(versions, #[trigger] winners@[k].hash) == Some(winners@[k]),
            forall|j1: int, j2: int| 0 <= j1 < j2 < winners@.len() ==> #[trigger] winners@[j1].hash != #[trigger] winners@[j2].hash,
        decreases winners@.len() - j,
    {
        let w = winners[j];
        let ghost from0 = from;
        match w.event {
            VersionEvent::Entry(address) => {
                out.push(HashedEntryAddress { hash: w.hash, address });
                proof {
                    from = from.push(j as int);
                    assert(from[from.len() - 1] == j);
                }
            },
            VersionEvent::Tombstone => {},
        }
        assert forall|k: int| 0 <= k < j + 1 && (#[trigger] winners@[k].event) is Entry
            implies exists|i: int| 0 <= i < out@.len() && #[trigger] from[i] == k by {
            if k < j {
                let i = choose|i: int| 0 <= i < from0.len() && #[trigger] from0[i] == k;
                assert(from[i] == k);
            } else {
                assert(from[from.len() - 1] == k);
            }
        }
        j += 1;
    }
    proof {
        assert forall|i: int| 0 <= i < out@.len() implies live_address(versions, #[trigger] out@[i].hash) == Some(out@[i].address) by {
            let k = from[i];
            assert(latest(versions, winners@[k].hash) == Some(winners@[k]));
        }
        assert forall|h: u64| live_address(versions, h) is Some implies exists|i: int| 0 <= i < out@.len() && #[trigger] out@[i].hash == h by {
            let k = choose|k: int| 0 <= k < winners@.len() && #[trigger] winners@[k].hash == h;
            assert(latest(versions, winners@[k].hash) == Some(winners@[k]));
            assert(winners@[k].event is Entry);
            let i = choose|i: int| 0 <= i < out@.len() && #[trigger] from[i] == k;
            assert(out@[i].hash == h);
        }
        assert forall|i1: int, i2: int| 0 <= i1 < i2 < out@.len() implies #[trigger] out@[i1].hash != #[trigger] out@[i2].hash by {
            assert(from[i1] < from[i2]);
        }
    }
    out
}


/// What recovery publishes: the indexer's entries, the regions free for
/// writes, the regions holding data, and the next sequence to hand out.
#[derive(Debug)]
pub struct Recovery {
    pub indices: Vec<HashedEntryAddress>,
    pub clean_regions: Vec<RegionId>,
    pub evictable_regions: Vec<RegionId>,
    pub next_sequence: Sequence,
}

/// Why recovery as a whole failed.
#[derive(Debug)]
pub enum RecoverError<E> {
    /// Some regions failed to recover; their errors, in region order.
    Regions(Vec<E>),
    /// A recovered sequence is `u64::MAX`, so no later sequence exists.
    SequenceExhausted,
}

/// The errors among the regions' results, in order.
pub open spec fn region_errors<E>(results: Seq<Result<Vec<EntryInfo>, E>>) -> Seq<E>
    decreases results.len(),
{
    if results.len() == 0 {
        Seq::empty()
    } else {
        let rest = region_errors(results.drop_last());
        match results.last() {
            Ok(_) => rest,
            Err(e) => rest.push(e),
        }
    }
}

/// The recovered lists among the regions' results, in order.
pub open spec fn region_lists<E>(results: Seq<Result<Vec<EntryInfo>, E>>) -> Seq<Vec<EntryInfo>>
    decreases results.len(),
{
    if results.len() == 0 {
        Seq::empty()
    } else {
        let rest = region_lists(results.drop_last());
        match results.last() {
            Ok(infos) => rest.push(infos),
            Err(_) => rest,
        }
    }
}

/// Without errors, every result holds a recovered list.
pub proof fn lemma_lists_without_errors<E>(results: Seq<Result<Vec<EntryInfo>, E>>)
    requires
        region_errors(results).len() == 0,
    ensures
        region_lists(results).len() == results.len(),
    decreases results.len(),
{
    if results.len() > 0 {
        match results.last() {
            Ok(_) => lemma_lists_without_errors(results.drop_last()),
            Err(_) => {},
        }
    }
}

/// `rec` is what recovering `regions`, whose recovered lists are `lists`,
/// together with `tombstones`, publishes.
pub open spec fn recovery_of(
    rec: Recovery,
    regions: Seq<RegionId>,
    lists: Seq<Vec<EntryInfo>>,
    tombstones: Seq<Tombstone>,
) -> bool {
    let versions = history(lists, tombstones);
    &&& indexes_exactly(rec.indices@, versions)
    &&& rec.clean_regions@ == clean_upto(regions, lists, regions.len() as int)
    &&& rec.evictable_regions@ == evictable_upto(regions, lists, regions.len() as int)
    &&& rec.next_sequence == max_sequence(versions) + 1
}

/// Top-level recovery of the large-object engine.
#[derive(Debug)]
pub struct RecoverRunner;

impl RecoverRunner {
    /// Reconciles the recovered lists of `regions` (one list per region, in
    /// the same order) with `tombstones`. Gives `None` only when the highest
    /// sequence seen is `u64::MAX`.
    pub fn reconcile(regions: &[RegionId], lists: &Vec<Vec<EntryInfo>>, tombstones: &[Tombstone]) -> (r: Option<Recovery>)
        requires
            regions@.len() == lists@.len(),
        ensures
            max_sequence(history(lists@, tombstones@)) == u64::MAX <==> r is None,
            r is Some ==> recovery_of(r->Some_0, regions@, lists@, tombstones@),
    {
        let versions = collect_history(lists, tombstones);
        let max = highest_sequence(&versions);
        if max == u64::MAX {
            return None;
        }
        let winners = latest_per_hash(&versions);
        let indices = live_indices(&winners, Ghost(versions@));
        let (clean_regions, evictable_regions) = classify_regions(regions, lists);
        Some(Recovery { indices, clean_regions, evictable_regions, next_sequence: max + 1 })
    }

    /// Recovery from the per-region results (one per region of `regions`, in
    /// the same order): all or nothing. Any region error fails the whole with
    /// every region error; otherwise the recovered lists are reconciled with
    /// `tombstones`.
    pub fn resolve<E>(regions: &[RegionId], results: Vec<Result<Vec<EntryInfo>, E>>, tombstones: &[Tombstone]) -> (r: Result<Recovery, RecoverError<E>>)
        requires
            regions@.len() == results@.len(),
        ensures
            region_errors(results@).len() > 0 ==> match r {
                Err(RecoverError::Regions(errs)) => errs@ == region_errors(results@),
                _ => false,
            },
            region_errors(results@).len() == 0 ==> {
                let lists = region_lists(results@);
                &&& max_sequence(history(lists, tombstones@)) == u64::MAX ==> (r is Err && r->Err_0 is SequenceExhausted)
                &&& max_sequence(history(lists, tombstones@)) < u64::MAX ==> r is Ok
                    && recovery_of(r->Ok_0, regions@, lists, tombstones@)
            },
    {
        let ghost all = results@;
        let mut rest = results;
        let mut lists: Vec<Vec<EntryInfo>> = Vec::new();
        let mut errs: Vec<E> = Vec::new();
        let mut k: usize = 0;
        let n: usize = rest.len();
        while rest.len() > 0
            invariant
                all.len() == n,
                k + rest@.len() == all.len(),
                rest@ == all.skip(k as int),
                lists@ == region_lists(all.take(k as int)),
                errs@ == region_errors(all.take(k as int)),
            decreases rest@.len(),
        {
            assert(all.take(k + 1).drop_last() =~= all.take(k as int));
            assert(all.take(k + 1).last() == rest@[0]);
            let res = rest.remove(0);
            match res {
                Ok(infos) => lists.push(infos),
                Err(e) => errs.push(e),
            }
            assert(rest@ =~= all.skip(k + 1));
            k += 1;
        }
        assert(all.take(k as int) =~= all);
        if errs.len() > 0 {
            return Err(RecoverError::Regions(errs));
        }
        proof {
            lemma_lists_without_errors(all);
        }
        match Self::reconcile(regions, &lists, tombstones) {
            Some(rec) => Ok(rec),
            None => Err(RecoverError::SequenceExhausted),
        }
    }
}


/// The winning version of a hash is one of its versions, and no version of
/// that hash has a higher sequence; a hash without versions has no winner.
pub proof fn lemma_latest_is_highest(versions: Seq<Version>, hash: u64)
    ensures
        latest(versions, hash) is None ==> forall|k: int| 0 <= k < versions.len() ==> #[trigger] versions[k].hash != hash,
        latest(versions, hash) is Some ==> {
            let w = latest(versions, hash)->Some_0;
            &&& exists|k: int| 0 <= k < versions.len() && #[trigger] versions[k] == w
            &&& forall|k: int| 0 <= k < versions.len() && #[trigger] versions[k].hash == hash
                ==> versions[k].sequence <= w.sequence
        },
    decreases versions.len(),
{
    if versions.len() > 0 {
        let init = versions.drop_last();
        lemma_latest_is_highest(init, hash);
        assert forall|k: int| 0 <= k < init.len() implies #[trigger] versions[k] == init[k] by {}
        if latest(versions, hash) == latest(init, hash) && latest(init, hash) is Some {
            let w = latest(init, hash)->Some_0;
            let k0 = choose|k: int| 0 <= k < init.len() && #[trigger] init[k] == w;
            assert(versions[k0] == w);
        }
        if latest(versions, hash) != latest(init, hash) {
            assert(versions[versions.len() - 1] == versions.last());
        }
    }
}

/// No version has a sequence above the highest one.
pub proof fn lemma_max_sequence_bounds(versions: Seq<Version>)
    ensures
        forall|k: int| 0 <= k < versions.len() ==> #[trigger] versions[k].sequence <= max_sequence(versions),
    decreases versions.len(),
{
    if versions.len() > 0 {
        lemma_max_sequence_bounds(versions.drop_last());
        assert forall|k: int| 0 <= k < versions.len() - 1 implies #[trigger] versions[k] == versions.drop_last()[k] by {}
    }
}

/// Some version of `hash` writes `addr`, and no version of `hash` has a
/// higher sequence.
pub open spec fn is_highest_entry(versions: Seq<Version>, hash: u64, addr: EntryAddress) -> bool {
    exists|k: int| 0 <= k < versions.len() && {
        &&& #[trigger] versions[k].hash == hash
        &&& versions[k].event == VersionEvent::Entry(addr)
        &&& forall|k2: int| 0 <= k2 < versions.len() && #[trigger] versions[k2].hash == hash
            ==> versions[k2].sequence <= versions[k].sequence
    }
}

/// Each address in the indexer after recovery is that of the highest-sequence
/// version of its hash, over all regions and tombstones.
pub proof fn lemma_indexed_address_is_highest(
    rec: Recovery,
    regions: Seq<RegionId>,
    lists: Seq<Vec<EntryInfo>>,
    tombstones: Seq<Tombstone>,
)
    requires
        recovery_of(rec, regions, lists, tombstones),
    ensures
        forall|i: int| 0 <= i < rec.indices@.len() ==> is_highest_entry(
            history(lists, tombstones),
            #[trigger] rec.indices@[i].hash,
            rec.indices@[i].address,
        ),
{
    let versions = history(lists, tombstones);
    assert forall|i: int| 0 <= i < rec.indices@.len() implies is_highest_entry(
        versions,
        #[trigger] rec.indices@[i].hash,
        rec.indices@[i].address,
    ) by {
        let h = rec.indices@[i].hash;
        lemma_latest_is_highest(versions, h);
        lemma_latest_hash(versions, h);
        let w = latest(versions, h)->Some_0;
        let k = choose|k: int| 0 <= k < versions.len() && #[trigger] versions[k] == w;
        assert(versions[k].hash == h);
    }
}

/// A hash whose winning version is a tombstone has no entry in the indexer
/// after recovery.
pub proof fn lemma_deleted_hash_not_indexed(
    rec: Recovery,
    regions: Seq<RegionId>,
    lists: Seq<Vec<EntryInfo>>,
    tombstones: Seq<Tombstone>,
    hash: u64,
)
    requires
        recovery_of(rec, regions, lists, tombstones),
        latest(history(lists, tombstones), hash) is Some,
        latest(history(lists, tombstones), hash)->Some_0.event is Tombstone,
    ensures
        forall|i: int| 0 <= i < rec.indices@.len() ==> #[trigger] rec.indices@[i].hash != hash,
{
    assert forall|i: int| 0 <= i < rec.indices@.len() implies #[trigger] rec.indices@[i].hash != hash by {
        assert(live_address(history(lists, tombstones), rec.indices@[i].hash) is Some);
    }
}

/// Each recovered entry of each region appears among the regions' versions.
pub proof fn lemma_entry_in_region_versions(lists: Seq<Vec<EntryInfo>>, r: int, k: int)
    requires
        0 <= r < lists.len(),
        0 <= k < lists[r]@.len(),
    ensures
        exists|idx: int| 0 <= idx < region_versions(lists).len()
            && #[trigger] region_versions(lists)[idx] == entry_version(lists[r]@[k]),
    decreases lists.len(),
{
    let init = lists.drop_last();
    let n = region_versions(init).len();
    if r == lists.len() - 1 {
        assert(region_versions(lists)[n + k] == entry_version(lists[r]@[k]));
    } else {
        lemma_entry_in_region_versions(init, r, k);
        let idx = choose|idx: int| 0 <= idx < n && #[trigger] region_versions(init)[idx] == entry_version(init[r]@[k]);
        assert(region_versions(lists)[idx] == region_versions(init)[idx]);
    }
}

/// After recovery the next sequence is above every sequence of every
/// recovered entry and tombstone.
pub proof fn lemma_next_sequence_above_all(
    rec: Recovery,
    regions: Seq<RegionId>,
    lists: Seq<Vec<EntryInfo>>,
    tombstones: Seq<Tombstone>,
)
    requires
        recovery_of(rec, regions, lists, tombstones),
    ensures
        forall|k: int| 0 <= k < history(lists, tombstones).len()
            ==> #[trigger] history(lists, tombstones)[k].sequence < rec.next_sequence,
        forall|k: int| 0 <= k < tombstones.len() ==> #[trigger] tombstones[k].sequence < rec.next_sequence,
        forall|r: int, k: int| 0 <= r < lists.len() && 0 <= k < lists[r]@.len()
            ==> #[trigger] lists[r]@[k].addr.sequence < rec.next_sequence,
{
    let versions = history(lists, tombstones);
    lemma_max_sequence_bounds(versions);
    let n = region_versions(lists).len();
    assert forall|k: int| 0 <= k < tombstones.len() implies #[trigger] tombstones[k].sequence < rec.next_sequence by {
        assert(versions[n + k] == tombstone_version(tombstones[k]));
        assert(versions[n + k].sequence <= max_sequence(versions));
    }
    assert forall|r: int, k: int| 0 <= r < lists.len() && 0 <= k < lists[r]@.len()
        implies #[trigger] lists[r]@[k].addr.sequence < rec.next_sequence by {
        lemma_entry_in_region_versions(lists, r, k);
        let idx = choose|idx: int| 0 <= idx < region_versions(lists).len()
            && #[trigger] region_versions(lists)[idx] == entry_version(lists[r]@[k]);
        assert(versions[idx] == region_versions(lists)[idx]);
        assert(versions[idx].sequence <= max_sequence(versions));
    }
}

/// Membership in `clean_upto`: exactly the regions with an empty list.
pub proof fn lemma_clean_upto_contains(ids: Seq<RegionId>, lists: Seq<Vec<EntryInfo>>, n: int, x: RegionId)
    requires
        0 <= n <= ids.len(),
        n <= lists.len(),
    ensures
        clean_upto(ids, lists, n).contains(x) <==> exists|i: int| 0 <= i < n && ids[i] == x && #[trigger] lists[i]@.len() == 0,
    decreases n,
{
    if n > 0 {
        lemma_clean_upto_contains(ids, lists, n - 1, x);
        let prev = clean_upto(ids, lists, n - 1);
        if lists[n - 1]@.len() == 0 {
            let q = prev.push(ids[n - 1]);
            assert(q.contains(x) <==> prev.contains(x) || ids[n - 1] == x) by {
                if q.contains(x) {
                    let j = choose|j: int| 0 <= j < q.len() && #[trigger] q[j] == x;
                    if j < prev.len() {
                        assert(prev[j] == x);
                    }
                }
                if prev.contains(x) {
                    let j = choose|j: int| 0 <= j < prev.len() && #[trigger] prev[j] == x;
                    assert(q[j] == x);
                }
                if ids[n - 1] == x {
                    assert(q[prev.len() as int] == x);
                }
            }
        }
    }
}

/// With distinct region ids, a region is clean after recovery exactly when
/// its recovered list is empty.
pub proof fn lemma_clean_iff_empty(
    rec: Recovery,
    regions: Seq<RegionId>,
    lists: Seq<Vec<EntryInfo>>,
    tombstones: Seq<Tombstone>,
)
    requires
        recovery_of(rec, regions, lists, tombstones),
        regions.len() == lists.len(),
        regions.no_duplicates(),
    ensures
        forall|i: int| 0 <= i < regions.len()
            ==> (rec.clean_regions@.contains(#[trigger] regions[i]) <==> lists[i]@.len() == 0),
{
    assert forall|i: int| 0 <= i < regions.len()
        implies (rec.clean_regions@.contains(#[trigger] regions[i]) <==> lists[i]@.len() == 0) by {
        lemma_clean_upto_contains(regions, lists, regions.len() as int, regions[i]);
    }
}

} // verus!
