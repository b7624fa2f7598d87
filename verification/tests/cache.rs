//! Tests of the cache of decoded pixels.

use ptex::cache::{CacheKey, CacheValue, PixelCache};
use ptex::format::FaceDataHeader;
use ptex::shared::SharedState;
use ptex::{PixelData, Res};

fn block(pos: u64) -> CacheKey {
    CacheKey::Block {
        pos,
        fdh: FaceDataHeader { data: 7 },
        res: Res::new(1, 1),
        levelid: 0,
    }
}

fn pixels(n: usize, b: u8) -> CacheValue {
    CacheValue::Pixels(PixelData::new(vec![b; n]))
}

fn bytes(v: Option<CacheValue>) -> Option<Vec<u8>> {
    match v {
        Some(CacheValue::Pixels(p)) => Some(p.to_vec()),
        _ => None,
    }
}

#[test]
fn entries_are_charged_for_payload_and_overhead() {
    let mut c = PixelCache::new(1000);
    c.insert_or_get(block(1), pixels(4, 9));
    let s = c.stats(3, 5);
    assert_eq!((s.hits, s.misses), (3, 5));
    assert_eq!((s.entries, s.bytes_resident, s.bytes_budget), (1, 100, 1000));
    assert_eq!(pixels(4, 9).size(), 100);
}

#[test]
fn what_was_stored_is_found() {
    let mut c = PixelCache::new(1000);
    assert_eq!(bytes(c.get(&block(1))), None);
    c.insert_or_get(block(1), pixels(4, 9));
    c.insert_or_get(block(2), pixels(2, 8));
    assert_eq!(bytes(c.get(&block(1))), Some(vec![9; 4]));
    assert_eq!(bytes(c.get(&block(2))), Some(vec![8; 2]));
    // a second value for a key is not taken: the first one stays
    let kept = c.insert_or_get(block(1), pixels(3, 7));
    assert_eq!(bytes(Some(kept)), Some(vec![9; 4]));
    assert_eq!(c.stats(0, 0).bytes_resident, 198);
}

#[test]
fn the_entry_unused_for_longest_goes_first() {
    let mut c = PixelCache::new(300);
    c.insert_or_get(block(1), pixels(4, 1));
    c.insert_or_get(block(2), pixels(4, 2));
    c.insert_or_get(block(3), pixels(4, 3));
    assert!(c.get(&block(1)).is_some());
    c.insert_or_get(block(4), pixels(4, 4));
    assert!(c.get(&block(2)).is_none());
    assert!(c.get(&block(1)).is_some());
    assert!(c.get(&block(3)).is_some());
    assert_eq!(c.stats(0, 0).evictions, 1);
    // making room for one large entry takes two small ones with it
    c.insert_or_get(block(5), pixels(100, 5));
    let s = c.stats(0, 0);
    assert_eq!((s.entries, s.evictions, s.bytes_resident), (2, 3, 296));
    assert!(c.get(&block(3)).is_some());
}

#[test]
fn a_value_larger_than_the_budget_is_not_cached() {
    let mut c = PixelCache::new(300);
    c.insert_or_get(block(1), pixels(4, 1));
    let r = c.insert_or_get(block(2), pixels(205, 2));
    assert_eq!(bytes(Some(r)), Some(vec![2; 205]));
    assert!(c.get(&block(2)).is_none());
    let s = c.stats(0, 0);
    assert_eq!((s.entries, s.oversized, s.evictions), (1, 1, 0));
    // exactly the budget fits
    c.insert_or_get(block(3), pixels(204, 3));
    let s = c.stats(0, 0);
    assert_eq!((s.entries, s.evictions, s.bytes_resident), (1, 1, 300));
}

#[test]
fn budgets_and_clearing() {
    let mut c = PixelCache::new(1000);
    for i in 0..5 {
        c.insert_or_get(block(i), pixels(4, i as u8));
    }
    c.set_budget(250);
    assert_eq!(c.budget(), 250);
    let s = c.stats(0, 0);
    assert_eq!((s.entries, s.evictions, s.bytes_resident), (2, 3, 200));
    assert!(c.get(&block(4)).is_some());
    assert!(c.get(&block(3)).is_some());
    c.clear();
    let s = c.stats(0, 0);
    assert_eq!((s.entries, s.evictions, s.bytes_resident, s.bytes_budget), (0, 3, 0, 250));
}

#[test]
fn different_things_have_different_keys() {
    let res = Res::new(1, 2);
    let other = Res::new(2, 1);
    let fdh = FaceDataHeader { data: 0 };
    let keys = [
        CacheKey::Block { pos: 0, fdh, res, levelid: 0 },
        CacheKey::Block { pos: 0, fdh, res, levelid: 1 },
        CacheKey::Block { pos: 0, fdh, res: other, levelid: 0 },
        CacheKey::Block { pos: 0, fdh: FaceDataHeader { data: 1 }, res, levelid: 0 },
        CacheKey::Reduced { faceid: 0, res },
        CacheKey::Reduced { faceid: 1, res },
        CacheKey::TileDir { pos: 0, res },
        CacheKey::TileDir { pos: 0, res: other },
    ];
    for (i, a) in keys.iter().enumerate() {
        for b in &keys[i + 1..] {
            assert_ne!(a.code(), b.code());
        }
    }
}

#[test]
fn lookups_are_counted() {
    let mut s = SharedState::new(2, 1000);
    assert!(s.lookup(&block(1)).is_none());
    s.store(block(1), pixels(4, 1));
    assert!(s.lookup(&block(1)).is_some());
    assert!(s.lookup(&block(1)).is_some());
    let stats = s.stats();
    assert_eq!((stats.hits, stats.misses), (2, 1));
    assert!(s.level(1).is_none());
    assert!(s.metadata().is_none());
}
