use xtable::version_chain::{VersionChain, VersionEntry};

fn entry(v: u64) -> VersionEntry {
    VersionEntry::new(v, format!("e{}", v), "k".into(), format!("T{}", v), 0)
}

#[test]
fn chain_is_strictly_monotonic() {
    let mut c = VersionChain::new("k".into());
    c.append(entry(1));
    c.append(entry(3));
    c.append(entry(5));
    assert_eq!(c.entries.iter().map(|e| e.commit_version).collect::<Vec<_>>(), vec![1, 3, 5]);
}

#[test]
fn read_at_snapshot_picks_newest_le_snapshot() {
    let mut c = VersionChain::new("k".into());
    c.append(entry(1));
    c.append(entry(3));
    c.append(entry(5));
    assert_eq!(c.read_at_snapshot(0).map(|e| e.commit_version), None);
    assert_eq!(c.read_at_snapshot(1).map(|e| e.commit_version), Some(1));
    assert_eq!(c.read_at_snapshot(2).map(|e| e.commit_version), Some(1));
    assert_eq!(c.read_at_snapshot(3).map(|e| e.commit_version), Some(3));
    assert_eq!(c.read_at_snapshot(4).map(|e| e.commit_version), Some(3));
    assert_eq!(c.read_at_snapshot(5).map(|e| e.commit_version), Some(5));
    assert_eq!(c.read_at_snapshot(100).map(|e| e.commit_version), Some(5));
}

#[test]
fn latest_commit_version_is_max() {
    let mut c = VersionChain::new("k".into());
    assert_eq!(c.latest_commit_version(), 0);
    c.append(entry(7));
    assert_eq!(c.latest_commit_version(), 7);
    c.append(entry(11));
    assert_eq!(c.latest_commit_version(), 11);
}

#[test]
fn prune_below_removes_old_but_keeps_newest() {
    let mut c = VersionChain::new("k".into());
    c.append(entry(1));
    c.append(entry(2));
    c.append(entry(3));
    c.append(entry(4));
    c.append(entry(5));
    // Prune below 3 — should keep [3, 4, 5]
    let removed = c.prune_below(3);
    assert_eq!(removed, 2);
    assert_eq!(c.entries.len(), 3);
    assert_eq!(c.entries[0].commit_version, 3);
    assert_eq!(c.entries[2].commit_version, 5);
}

#[test]
fn prune_below_zero_keeps_all_with_active_zero_snapshot() {
    // A min_snapshot of 0 means "active snapshot at version 0" — but
    // since commit_versions start at 1, this means nothing is below 0,
    // so no entries should be dropped.
    let mut c = VersionChain::new("k".into());
    c.append(entry(1));
    c.append(entry(2));
    let removed = c.prune_below(0);
    assert_eq!(removed, 0);
    assert_eq!(c.entries.len(), 2);
}

#[test]
fn prune_below_max_drops_all_but_newest() {
    // u64::MAX = "no active readers" → GC aggressively, keep only newest.
    let mut c = VersionChain::new("k".into());
    c.append(entry(1));
    c.append(entry(2));
    let removed = c.prune_below(u64::MAX);
    assert_eq!(removed, 1);
    assert_eq!(c.entries.len(), 1);
    assert_eq!(c.entries[0].commit_version, 2);
}

#[test]
fn prune_below_does_not_remove_newest_even_if_older_than_min() {
    let mut c = VersionChain::new("k".into());
    c.append(entry(1));
    // Only one entry: prune_below must not remove it.
    let removed = c.prune_below(1000);
    assert_eq!(removed, 0);
    assert_eq!(c.entries.len(), 1);
}

#[test]
fn prune_below_drops_everything_below_but_the_newest() {
    let mut c = VersionChain::new("k".into());
    c.append(entry(1));
    c.append(entry(5));
    assert_eq!(c.prune_below(3), 1);
    assert_eq!(c.entries.len(), 1);
    assert_eq!(c.entries[0].commit_version, 5);
    assert_eq!(c.prune_below(9), 0);
    let mut none = VersionChain::new("k".into());
    assert_eq!(none.prune_below(u64::MAX), 0);
}
