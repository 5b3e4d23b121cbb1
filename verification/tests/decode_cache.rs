//! The decode cache.

use snemu::decode_cache::{DecodeCache, Decoded};

const A: Decoded = Decoded { raw: 0x0000_0013, ilen: 4 }; // nop (addi x0,x0,0)
const B: Decoded = Decoded { raw: 0x0010_0093, ilen: 4 }; // addi x1,x0,1

#[test]
fn a_miss_then_insert_then_hit_returns_the_decoded_instruction() {
    let mut cache = DecodeCache::default();
    assert_eq!(cache.get(0, 0x1000), None, "cold lookup misses");
    cache.insert(0x1000, A);
    assert_eq!(cache.get(0, 0x1000), Some(A), "warm lookup hits");
}

#[test]
fn a_satp_change_flushes_stale_entries() {
    let mut cache = DecodeCache::default();
    cache.insert(0x1000, A); // satp still 0 (its default)
    assert_eq!(cache.get(0, 0x1000), Some(A));
    assert_eq!(cache.get(1, 0x1000), None, "new satp sees no stale entry");
    assert_eq!(cache.get(0, 0x1000), None);
}

#[test]
fn an_sfence_flush_drops_entries_but_keeps_the_address_space() {
    let mut cache = DecodeCache::default();
    let _ = cache.get(7, 0x2000); // establish satp=7
    cache.insert(0x2000, B);
    assert_eq!(cache.get(7, 0x2000), Some(B));
    cache.flush();
    assert_eq!(cache.get(7, 0x2000), None, "flushed");
}

#[test]
fn hits_count_only_the_fast_path() {
    let mut cache = DecodeCache::default();
    let _ = cache.get(0, 0x1000); // miss
    cache.insert(0x1000, A);
    let _ = cache.get(0, 0x1000); // hit
    let _ = cache.get(0, 0x1000); // hit
    assert_eq!(cache.hits(), 2);
}
