use light_store::store::{seed_trusted, LightBlock, SledStore, Status};

const ALL_STATUSES: [Status; 4] = [Status::Unverified, Status::Verified, Status::Trusted, Status::Failed];

fn block(height: u64) -> LightBlock {
    LightBlock::new(height, vec![height as u8, 0xab, 0xcd])
}

fn same(a: &LightBlock, b: &LightBlock) -> bool {
    a.height == b.height && a.data == b.data
}

#[test]
fn scenario_unverified_verified_trusted() {
    let mut store = SledStore::new();
    let b = block(100);
    store.insert(b.duplicate(), Status::Unverified);
    assert!(store.get(100, Status::Unverified).is_some());
    assert!(store.get(100, Status::Trusted).is_none());

    store.update(&b, Status::Verified);
    assert!(store.get(100, Status::Unverified).is_none());
    assert!(store.get(100, Status::Verified).is_some());

    store.update(&b, Status::Trusted);
    assert!(store.get(100, Status::Verified).is_none());
    let t = store.get(100, Status::Trusted).unwrap();
    assert!(same(&t, &b));
    let latest = store.latest(Status::Trusted).unwrap();
    assert!(same(&latest, &b));
}

#[test]
fn latest_of_empty_table_is_absent() {
    let store = SledStore::new();
    for s in ALL_STATUSES {
        assert!(store.latest(s).is_none());
    }
}

#[test]
fn latest_picks_greatest_height() {
    let mut store = SledStore::new();
    for h in [5u64, 1, 900, 42] {
        store.insert(block(h), Status::Verified);
    }
    let latest = store.latest(Status::Verified).unwrap();
    assert_eq!(latest.height(), 900);
    assert!(same(&latest, &block(900)));
    assert!(store.latest(Status::Trusted).is_none());
}

#[test]
fn insert_then_get_then_remove() {
    let mut store = SledStore::new();
    let b = LightBlock::new(7, vec![1, 2, 3, 4]);
    store.insert(b.duplicate(), Status::Failed);
    let got = store.get(7, Status::Failed).unwrap();
    assert!(same(&got, &b));
    store.remove(7, Status::Failed);
    assert!(store.get(7, Status::Failed).is_none());
}

#[test]
fn remove_absent_height_is_harmless() {
    let mut store = SledStore::new();
    store.insert(block(3), Status::Trusted);
    store.remove(4, Status::Trusted);
    store.remove(3, Status::Verified);
    assert!(store.get(3, Status::Trusted).is_some());
    assert_eq!(store.all(Status::Trusted).len(), 1);
}

#[test]
fn update_leaves_one_status() {
    let mut store = SledStore::new();
    let b = block(12);
    for s in ALL_STATUSES {
        store.insert(b.duplicate(), s);
    }
    store.update(&b, Status::Failed);
    for s in ALL_STATUSES {
        assert_eq!(store.get(12, s).is_some(), s == Status::Failed);
    }
}

#[test]
fn insert_does_not_clear_other_statuses() {
    let mut store = SledStore::new();
    store.insert(block(8), Status::Unverified);
    store.insert(block(8), Status::Verified);
    assert!(store.get(8, Status::Unverified).is_some());
    assert!(store.get(8, Status::Verified).is_some());
}

#[test]
fn updates_on_distinct_heights_do_not_interfere() {
    let mut store = SledStore::new();
    let a = block(10);
    let b = block(11);
    store.update(&a, Status::Unverified);
    store.update(&b, Status::Unverified);
    store.update(&a, Status::Verified);
    store.update(&b, Status::Failed);
    store.update(&a, Status::Trusted);
    for s in ALL_STATUSES {
        assert_eq!(store.get(10, s).is_some(), s == Status::Trusted);
        assert_eq!(store.get(11, s).is_some(), s == Status::Failed);
    }
}

#[test]
fn all_yields_each_block_once() {
    let mut store = SledStore::new();
    for h in [30u64, 2, 17, 2, 256, 70000] {
        store.insert(block(h), Status::Verified);
    }
    store.insert(block(99), Status::Trusted);
    let mut heights: Vec<u64> = store.all(Status::Verified).iter().map(|b| b.height()).collect();
    heights.sort();
    assert_eq!(heights, vec![2, 17, 30, 256, 70000]);
    assert!(store.all(Status::Failed).is_empty());
}

#[test]
fn reinsert_replaces_block() {
    let mut store = SledStore::new();
    store.insert(LightBlock::new(5, vec![1]), Status::Verified);
    store.insert(LightBlock::new(5, vec![2]), Status::Verified);
    assert_eq!(store.get(5, Status::Verified).unwrap().data, vec![2]);
    assert_eq!(store.all(Status::Verified).len(), 1);
}

#[test]
fn seed_copies_latest_trusted_only() {
    let mut primary = SledStore::new();
    primary.insert(block(4), Status::Trusted);
    primary.insert(block(40), Status::Trusted);
    primary.insert(block(400), Status::Verified);
    let mut shared = SledStore::new();
    seed_trusted(&primary, &mut shared);
    let all = shared.all(Status::Trusted);
    assert_eq!(all.len(), 1);
    assert!(same(&all[0], &block(40)));
    assert!(shared.get(400, Status::Verified).is_none());
}

#[test]
fn seed_from_empty_primary_changes_nothing() {
    let primary = SledStore::new();
    let mut shared = SledStore::new();
    shared.insert(block(2), Status::Trusted);
    seed_trusted(&primary, &mut shared);
    assert_eq!(shared.all(Status::Trusted).len(), 1);
    assert!(shared.get(2, Status::Trusted).is_some());
}

#[test]
fn all_is_in_ascending_height_order() {
    let mut store = SledStore::new();
    for h in [70000u64, 24, 23, 256, 255, u64::MAX, 0, 4294967296] {
        store.insert(block(h), Status::Unverified);
    }
    let heights: Vec<u64> = store.all(Status::Unverified).iter().map(|b| b.height()).collect();
    assert_eq!(heights, vec![0, 23, 24, 255, 256, 70000, 4294967296, u64::MAX]);
}
