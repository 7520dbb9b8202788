use foyer_recover::entry::{EntryAddress, EntryInfo, HashedEntryAddress, RecoverMode, Tombstone};
use foyer_recover::recover::{RecoverError, RecoverRunner, Recovery};
use foyer_recover::region_recover::{RegionRecoverRunner, ScanAction};

const A: u64 = 0xA;
const B: u64 = 0xB;

fn addr(region: u32, offset: u32, sequence: u64) -> EntryAddress {
    EntryAddress { region, offset, len: 4096, sequence }
}

fn info(hash: u64, region: u32, offset: u32, sequence: u64) -> EntryInfo {
    EntryInfo { hash, addr: addr(region, offset, sequence) }
}

fn sorted(mut v: Vec<HashedEntryAddress>) -> Vec<HashedEntryAddress> {
    v.sort_by_key(|e| e.hash);
    v
}

fn recover(regions: &[u32], results: Vec<Result<Vec<EntryInfo>, String>>, tombstones: &[Tombstone]) -> Recovery {
    RecoverRunner::resolve(regions, results, tombstones).expect("recovery succeeds")
}

#[test]
fn clean_startup() {
    let rec = recover(&[0, 1, 2], vec![Ok(vec![]), Ok(vec![]), Ok(vec![])], &[]);
    assert_eq!(rec.clean_regions, vec![0, 1, 2]);
    assert!(rec.evictable_regions.is_empty());
    assert!(rec.indices.is_empty());
    assert_eq!(rec.next_sequence, 1);
}

#[test]
fn simple_recovery() {
    let rec = recover(&[0], vec![Ok(vec![info(A, 0, 0, 10), info(B, 0, 4096, 11)])], &[]);
    assert_eq!(
        sorted(rec.indices),
        vec![
            HashedEntryAddress { hash: A, address: addr(0, 0, 10) },
            HashedEntryAddress { hash: B, address: addr(0, 4096, 11) },
        ]
    );
    assert!(rec.clean_regions.is_empty());
    assert_eq!(rec.evictable_regions, vec![0]);
    assert_eq!(rec.next_sequence, 12);
}

#[test]
fn tombstone_wins() {
    let rec = recover(&[0], vec![Ok(vec![info(A, 0, 0, 5)])], &[Tombstone { hash: A, sequence: 7 }]);
    assert!(rec.indices.is_empty());
    assert_eq!(rec.next_sequence, 8);
    assert_eq!(rec.evictable_regions, vec![0]);
    assert!(rec.clean_regions.is_empty());
}

#[test]
fn entry_supersedes_tombstone() {
    let rec = recover(
        &[0, 1],
        vec![Ok(vec![info(A, 0, 0, 5)]), Ok(vec![info(A, 1, 0, 20)])],
        &[Tombstone { hash: A, sequence: 10 }],
    );
    assert_eq!(rec.indices, vec![HashedEntryAddress { hash: A, address: addr(1, 0, 20) }]);
    assert_eq!(rec.next_sequence, 21);
    assert_eq!(rec.evictable_regions, vec![0, 1]);
}

#[test]
fn torn_write_discards_tail() {
    let mut runner = RegionRecoverRunner::new(RecoverMode::Strict);
    assert!(runner.wants_next());
    let x = info(1, 0, 0, 3);
    let y = info(2, 0, 4096, 4);
    let z = info(3, 0, 8192, 2);
    assert_eq!(runner.on_batch(vec![x, y, z]), ScanAction::Finish);
    assert!(!runner.wants_next());
    let recovered = runner.into_recovered();
    assert_eq!(recovered, vec![x, y]);
    let rec = recover(&[0], vec![Ok(recovered)], &[]);
    assert_eq!(
        sorted(rec.indices),
        vec![
            HashedEntryAddress { hash: 1, address: x.addr },
            HashedEntryAddress { hash: 2, address: y.addr },
        ]
    );
    assert_eq!(rec.next_sequence, 5);
}

#[test]
fn drop_across_batches_stops_recovery() {
    let mut runner = RegionRecoverRunner::new(RecoverMode::Quiet);
    assert_eq!(runner.on_batch(vec![info(1, 0, 0, 7), info(2, 0, 1, 7)]), ScanAction::Continue);
    assert!(runner.wants_next());
    assert_eq!(runner.on_batch(vec![info(3, 0, 2, 6), info(4, 0, 3, 9)]), ScanAction::Finish);
    assert_eq!(runner.recovered().len(), 2);
    assert_eq!(runner.on_end(), ScanAction::Finish);
    assert_eq!(runner.into_recovered(), vec![info(1, 0, 0, 7), info(2, 0, 1, 7)]);
}

#[test]
fn strict_mode_failure() {
    let mut runner = RegionRecoverRunner::new(RecoverMode::Strict);
    assert_eq!(runner.on_batch(vec![info(A, 1, 0, 3)]), ScanAction::Continue);
    assert_eq!(runner.on_error(), ScanAction::Fail);
    assert!(!runner.wants_next());

    let results: Vec<Result<Vec<EntryInfo>, String>> =
        vec![Ok(vec![info(B, 0, 0, 1)]), Err("region 1: bad block".to_string())];
    match RecoverRunner::resolve(&[0, 1], results, &[]) {
        Err(RecoverError::Regions(errs)) => assert_eq!(errs, vec!["region 1: bad block".to_string()]),
        other => panic!("unexpected: {:?}", other),
    }
}

#[test]
fn quiet_mode_keeps_partial_region() {
    let mut runner = RegionRecoverRunner::new(RecoverMode::Quiet);
    assert_eq!(runner.on_batch(vec![info(A, 1, 0, 3)]), ScanAction::Continue);
    assert_eq!(runner.on_error(), ScanAction::Finish);
    let partial = runner.into_recovered();
    assert_eq!(partial, vec![info(A, 1, 0, 3)]);
    let rec = recover(&[0, 1], vec![Ok(vec![]), Ok(partial)], &[]);
    assert_eq!(rec.indices, vec![HashedEntryAddress { hash: A, address: addr(1, 0, 3) }]);
    assert_eq!(rec.clean_regions, vec![0]);
    assert_eq!(rec.evictable_regions, vec![1]);
    assert_eq!(rec.next_sequence, 4);
}

#[test]
fn skip_mode_recovers_nothing() {
    let runner = RegionRecoverRunner::new(RecoverMode::Skip);
    assert!(!runner.wants_next());
    assert_eq!(runner.mode(), RecoverMode::Skip);
    assert!(runner.into_recovered().is_empty());
}

#[test]
fn all_region_errors_are_reported() {
    let results: Vec<Result<Vec<EntryInfo>, String>> =
        vec![Err("a".to_string()), Ok(vec![]), Err("c".to_string())];
    match RecoverRunner::resolve(&[0, 1, 2], results, &[]) {
        Err(RecoverError::Regions(errs)) => assert_eq!(errs, vec!["a".to_string(), "c".to_string()]),
        other => panic!("unexpected: {:?}", other),
    }
}

#[test]
fn tombstone_wins_tie_with_entry() {
    let rec = recover(&[0], vec![Ok(vec![info(A, 0, 0, 9)])], &[Tombstone { hash: A, sequence: 9 }]);
    assert!(rec.indices.is_empty());
    assert_eq!(rec.next_sequence, 10);
}

#[test]
fn later_entry_wins_tie_between_entries() {
    let rec = recover(&[3, 4], vec![Ok(vec![info(A, 3, 0, 9)]), Ok(vec![info(A, 4, 0, 9)])], &[]);
    assert_eq!(rec.indices, vec![HashedEntryAddress { hash: A, address: addr(4, 0, 9) }]);
    assert_eq!(rec.evictable_regions, vec![3, 4]);
}

#[test]
fn tombstone_without_entry_only_advances_sequence() {
    let rec = recover(&[0], vec![Ok(vec![])], &[Tombstone { hash: B, sequence: 40 }]);
    assert!(rec.indices.is_empty());
    assert_eq!(rec.clean_regions, vec![0]);
    assert_eq!(rec.next_sequence, 41);
}

#[test]
fn highest_sequence_exhausts_counter() {
    let results: Vec<Result<Vec<EntryInfo>, String>> = vec![Ok(vec![info(A, 0, 0, u64::MAX)])];
    assert!(matches!(RecoverRunner::resolve(&[0], results, &[]), Err(RecoverError::SequenceExhausted)));
    let lists = vec![vec![info(A, 0, 0, u64::MAX - 1)]];
    let rec = RecoverRunner::reconcile(&[0], &lists, &[]).expect("fits");
    assert_eq!(rec.next_sequence, u64::MAX);
}

#[test]
fn next_sequence_is_above_every_version() {
    let rec = recover(
        &[0, 1],
        vec![Ok(vec![info(A, 0, 0, 3), info(B, 0, 1, 30)]), Ok(vec![info(A, 1, 0, 12)])],
        &[Tombstone { hash: A, sequence: 25 }, Tombstone { hash: 7, sequence: 2 }],
    );
    assert_eq!(rec.next_sequence, 31);
    assert_eq!(rec.indices, vec![HashedEntryAddress { hash: B, address: addr(0, 1, 30) }]);
}
