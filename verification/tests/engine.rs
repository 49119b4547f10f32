use bckpcln::backups::cleanup_needed;
use bckpcln::backups::process_step;
use bckpcln::backups::split_duration;
use bckpcln::backups::update_isolations;
use bckpcln::backups::Backup;
use bckpcln::backups::BackupsFolder;
use bckpcln::backups::Isolation;
use bckpcln::dates::creation_date_from_filename;
use bckpcln::human_size::HumanSize;

const GIB: u64 = 1073741824;
const DAY: u64 = 86400;

fn snap(name: &str, size: u64) -> Backup {
    let date = creation_date_from_filename(name).unwrap();
    Backup::new(date, format!("/backups/{}", name), size)
}

fn folder(names_sizes: &[(&str, u64)]) -> BackupsFolder {
    let backups: Vec<Backup> = names_sizes.iter().map(|(n, s)| snap(n, *s)).collect();
    BackupsFolder::new(String::from("/backups"), backups).unwrap()
}

fn eviction_names(f: &BackupsFolder) -> Vec<String> {
    let mut names = Vec::new();
    let mut it = f.iter_backups_in_deletion_order();
    while let Some((victim, _residual)) = it.next() {
        names.push(victim.path);
    }
    names
}

#[test]
fn empty_folder() {
    // Empty folder: zero aggregate size and an iterator that yields nothing.
    let f = BackupsFolder::new(String::from("/backups"), Vec::new()).unwrap();
    assert_eq!(f.total_files_size, 0);
    assert_eq!(f.backups.len(), 0);
    let mut it = f.iter_backups_in_deletion_order();
    assert!(it.next().is_none());
}

#[test]
fn single_snapshot() {
    // One snapshot: sentinel isolation, yielded on the first step.
    let f = folder(&[("2024-01-01_0000_00", 10)]);
    assert_eq!(f.backups[0].isolation, Isolation::Max);
    let mut it = f.iter_backups_in_deletion_order();
    let (victim, residual) = it.next().unwrap();
    assert_eq!(victim.path, "/backups/2024-01-01_0000_00");
    assert_eq!(residual.backups.len(), 0);
    assert!(it.next().is_none());
}

#[test]
fn two_snapshots_older_leaves_first() {
    // Two snapshots: both sentinels; the tie breaks towards the older date.
    let f = folder(&[("2024-03-05_0000_00", 1), ("2024-01-01_0000_00", 2)]);
    assert_eq!(f.backups[0].isolation, Isolation::Max);
    assert_eq!(f.backups[1].isolation, Isolation::Max);
    let names = eviction_names(&f);
    assert_eq!(
        names,
        vec![
            String::from("/backups/2024-01-01_0000_00"),
            String::from("/backups/2024-03-05_0000_00"),
        ]
    );
}

#[test]
fn interior_isolation_is_min_gap() {
    // Jan 1, Jan 10, Jan 20: the middle one's isolation is min(9, 10) days.
    let f = folder(&[
        ("2024-01-01_0000_00", 1),
        ("2024-01-10_0000_00", 1),
        ("2024-01-20_0000_00", 1),
    ]);
    assert_eq!(f.backups[0].isolation, Isolation::Max);
    assert_eq!(f.backups[1].isolation, Isolation::Finite(9 * DAY));
    assert_eq!(f.backups[2].isolation, Isolation::Max);
}

#[test]
fn interior_isolation_bounded_by_adjacent_gaps() {
    // Days 1, 2, 12, 22, 23: the middle member's isolation is the full
    // 10-day gap on each side, larger than both neighbours' isolations —
    // each isolation is bounded by the gaps to the neighbours, not by the
    // neighbours' own isolations.
    let f = folder(&[
        ("2024-01-01_0000_00", 1),
        ("2024-01-02_0000_00", 1),
        ("2024-01-12_0000_00", 1),
        ("2024-01-22_0000_00", 1),
        ("2024-01-23_0000_00", 1),
    ]);
    assert_eq!(f.backups[1].isolation, Isolation::Finite(DAY));
    assert_eq!(f.backups[2].isolation, Isolation::Finite(10 * DAY));
    assert_eq!(f.backups[3].isolation, Isolation::Finite(DAY));
}

#[test]
fn non_uniform_ties_broken_by_age() {
    // The middle leaves first; of the two remaining endpoints, the older.
    let f = folder(&[
        ("2024-01-01_0000_00", 1),
        ("2024-01-10_0000_00", 1),
        ("2024-01-20_0000_00", 1),
    ]);
    let names = eviction_names(&f);
    assert_eq!(
        names,
        vec![
            String::from("/backups/2024-01-10_0000_00"),
            String::from("/backups/2024-01-01_0000_00"),
            String::from("/backups/2024-01-20_0000_00"),
        ]
    );
}

#[test]
fn uniformly_spaced_eviction_order() {
    // Four snapshots one day apart, 1 GiB each, ceiling 2G: the engine
    // offers 01-02 first, then 01-03; consuming those two reaches the
    // ceiling exactly.
    let f = folder(&[
        ("2024-01-01_0000_00", GIB),
        ("2024-01-02_0000_00", GIB),
        ("2024-01-03_0000_00", GIB),
        ("2024-01-04_0000_00", GIB),
    ]);
    assert_eq!(f.total_files_size, 4 * GIB);
    let max_size = u64::from_human_size("2G").unwrap();
    assert!(cleanup_needed(f.total_files_size, max_size));

    let mut evicted = Vec::new();
    let mut residual = f.total_files_size;
    let mut it = f.iter_backups_in_deletion_order();
    while let Some((victim, _)) = it.next() {
        assert!(victim.size <= residual);
        let (next_residual, done) = process_step(residual, victim.size, true, max_size);
        residual = next_residual;
        evicted.push(victim.path);
        if done {
            break;
        }
    }
    assert_eq!(residual, 2 * GIB);
    assert_eq!(
        evicted,
        vec![
            String::from("/backups/2024-01-02_0000_00"),
            String::from("/backups/2024-01-03_0000_00"),
        ]
    );
}

#[test]
fn endpoints_always_leave_last() {
    // Ten snapshots one day apart: the last two evicted are day 1 and
    // day 10, in that order, and no earlier eviction touches them.
    let names: Vec<String> =
        (1..=10).map(|d| format!("2024-01-{:02}_0000_00", d)).collect();
    let list: Vec<Backup> = names.iter().map(|n| snap(n, 5)).collect();
    let f = BackupsFolder::new(String::from("/backups"), list).unwrap();
    let order = eviction_names(&f);
    assert_eq!(order.len(), 10);
    assert_eq!(order[8], "/backups/2024-01-01_0000_00");
    assert_eq!(order[9], "/backups/2024-01-10_0000_00");
    for name in order[..8].iter() {
        assert_ne!(name, "/backups/2024-01-01_0000_00");
        assert_ne!(name, "/backups/2024-01-10_0000_00");
    }
    // The union of what the iterator yields is the original set.
    let mut sorted_order = order.clone();
    sorted_order.sort();
    let mut expected: Vec<String> =
        names.iter().map(|n| format!("/backups/{}", n)).collect();
    expected.sort();
    assert_eq!(sorted_order, expected);
}

#[test]
fn iteration_is_deterministic() {
    // Two engines over identical snapshot lists yield identical
    // (path, size) sequences.
    let listing: Vec<(&str, u64)> = vec![
        ("2024-01-01_0000_00", 7),
        ("2024-02-03_0405_06", 11),
        ("2024-02-04_0405_06", 13),
        ("2024-06-30_1200_00", 17),
        ("2024-07-01_1200_00", 19),
    ];
    let f1 = folder(&listing);
    let f2 = folder(&listing);
    let mut it1 = f1.iter_backups_in_deletion_order();
    let mut it2 = f2.iter_backups_in_deletion_order();
    loop {
        match (it1.next(), it2.next()) {
            (Some((a, _)), Some((b, _))) => {
                assert_eq!(a.path, b.path);
                assert_eq!(a.size, b.size);
            }
            (None, None) => break,
            _ => panic!("the iterators ended at different steps"),
        }
    }
}

#[test]
fn residual_folder_keeps_invariants() {
    // After each step the residual state still carries the sentinel at its
    // endpoints and the original total size (the engine never updates it).
    let f = folder(&[
        ("2024-01-01_0000_00", 1),
        ("2024-01-02_0000_00", 2),
        ("2024-01-05_0000_00", 3),
        ("2024-01-06_0000_00", 4),
    ]);
    let total = f.total_files_size;
    let mut it = f.iter_backups_in_deletion_order();
    let mut remaining = f.backups.len();
    while let Some((_victim, residual)) = it.next() {
        remaining -= 1;
        assert_eq!(residual.backups.len(), remaining);
        assert_eq!(residual.total_files_size, total);
        let n = residual.backups.len();
        for (i, b) in residual.backups.iter().enumerate() {
            if i == 0 || i == n - 1 {
                assert_eq!(b.isolation, Isolation::Max);
            } else {
                assert!(matches!(b.isolation, Isolation::Finite(_)));
            }
        }
    }
    assert_eq!(remaining, 0);
}

#[test]
fn update_isolations_is_idempotent() {
    let mut list = vec![
        snap("2024-01-20_0000_00", 1),
        snap("2024-01-01_0000_00", 2),
        snap("2024-01-10_0000_00", 3),
    ];
    update_isolations(&mut list);
    let once: Vec<(String, u64, Isolation)> =
        list.iter().map(|b| (b.path.clone(), b.size, b.isolation)).collect();
    update_isolations(&mut list);
    let twice: Vec<(String, u64, Isolation)> =
        list.iter().map(|b| (b.path.clone(), b.size, b.isolation)).collect();
    assert_eq!(once, twice);
}

#[test]
fn duplicate_dates_are_rejected() {
    let list = vec![snap("2024-01-01_0000_00", 1), snap("2024-01-01_0000_00", 2)];
    assert!(BackupsFolder::new(String::from("/backups"), list).is_none());
}

#[test]
fn size_overflow_is_rejected() {
    let list = vec![
        snap("2024-01-01_0000_00", u64::MAX),
        snap("2024-01-02_0000_00", 1),
    ];
    assert!(BackupsFolder::new(String::from("/backups"), list).is_none());
}

#[test]
fn total_is_sum_of_sizes() {
    let f = folder(&[
        ("2024-01-01_0000_00", 100),
        ("2024-01-02_0000_00", 23),
        ("2024-01-03_0000_00", 7),
    ]);
    assert_eq!(f.total_files_size, 130);
}

#[test]
fn cleanup_needed_compares_to_ceiling() {
    assert!(cleanup_needed(11, 10));
    assert!(!cleanup_needed(10, 10));
    assert!(!cleanup_needed(9, 10));
}

#[test]
fn process_step_frees_only_on_success() {
    assert_eq!(process_step(100, 30, true, 50), (70, false));
    assert_eq!(process_step(70, 30, true, 50), (40, true));
    assert_eq!(process_step(100, 30, false, 50), (100, false));
    assert_eq!(process_step(50, 50, true, 0), (0, true));
}

#[test]
fn split_duration_breaks_into_parts() {
    // 1 day, 2 hours, 3 minutes, 4 seconds.
    let secs = DAY + 2 * 3600 + 3 * 60 + 4;
    assert_eq!(split_duration(secs), (1, 2, 3, 4));
    assert_eq!(split_duration(0), (0, 0, 0, 0));
}
