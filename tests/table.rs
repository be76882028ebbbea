use std::cell::Cell;
use std::rc::Rc;

use int_hashmap::{next_power_of_two, HashMap};

#[test]
fn empty_hashmap() {
    let hashmap: HashMap<f32> = HashMap::new();
    assert_eq!(hashmap.capacity(), 0);
    assert_eq!(hashmap.get(0), None);
}

#[test]
fn resize() {
    let mut hashmap: HashMap<f32> = HashMap::with_capacity(1);
    hashmap.insert(0, 0.1);
    hashmap.insert(1, 0.2);
    assert_eq!(hashmap.get(0).copied(), Some(0.1));
    assert_eq!(hashmap.get(1).copied(), Some(0.2));
}

#[test]
fn capacity() {
    let mut hashmap: HashMap<f32> = HashMap::with_capacity(12);
    assert_eq!(hashmap.capacity(), 16);
    hashmap.insert(15, 0.21);
    assert_eq!(hashmap.capacity(), 16);
}

#[test]
fn collision() {
    let mut hashmap: HashMap<f32> = HashMap::with_capacity(2);
    hashmap.insert(2, 0.1); // 2 % 2 == 0
    hashmap.insert(4, 0.2); // 4 % 2 == 0

    assert_eq!(hashmap.get(2).copied(), Some(0.1));
    assert_eq!(hashmap.get(4).copied(), Some(0.2));
}

#[test]
fn double_insert() {
    let mut hashmap: HashMap<f32> = HashMap::new();
    hashmap.insert(10, 0.1);
    assert_eq!(hashmap.insert(10, 0.2), Some(0.1));
    assert_eq!(hashmap.get(10).copied(), Some(0.2));
    assert_eq!(hashmap.len(), 1);
}

/// A simple linear congruential generator, so that the values vary from key
/// to key in a reproducible way.
fn next_value(state: &mut u64) -> f32 {
    *state = state.wrapping_mul(6364136223846793005).wrapping_add(1442695040888963407);
    ((*state >> 40) as f32) / ((1u64 << 24) as f32)
}

#[test]
fn dont_die_please() {
    let mut hashmap: HashMap<f32> = HashMap::new();
    let mut array = vec![];
    let mut state: u64 = 1;

    for key in 0..1_000_000 {
        let value = next_value(&mut state);
        hashmap.insert(key, value);
        array.push(value);
    }

    for (key, value) in array.iter().enumerate() {
        assert_eq!(hashmap.get(key), Some(value));
    }
}

#[test]
fn fresh_table_finds_nothing() {
    let hashmap: HashMap<u64> = HashMap::new();
    assert_eq!(hashmap.len(), 0);
    for key in [0usize, 1, 7, usize::MAX] {
        assert_eq!(hashmap.get(key), None);
    }
    let sized: HashMap<u64> = HashMap::with_capacity(8);
    assert_eq!(sized.capacity(), 8);
    assert_eq!(sized.get(3), None);
}

#[test]
fn round_trip_distinct_keys() {
    let keys = [5usize, 17, 3, 1000, 64, 0, 33];
    let mut hashmap: HashMap<u64> = HashMap::new();
    for (i, key) in keys.iter().enumerate() {
        assert_eq!(hashmap.insert(*key, (i as u64) * 10 + 1), None);
    }
    for (i, key) in keys.iter().enumerate() {
        assert_eq!(hashmap.get(*key).copied(), Some((i as u64) * 10 + 1));
    }
    assert_eq!(hashmap.len(), keys.len());
}

#[test]
fn update_keeps_len_and_new_key_grows_it() {
    let mut hashmap: HashMap<u64> = HashMap::new();
    assert_eq!(hashmap.insert(4, 40), None);
    assert_eq!(hashmap.len(), 1);
    assert_eq!(hashmap.insert(4, 41), Some(40));
    assert_eq!(hashmap.len(), 1);
    assert_eq!(hashmap.insert(5, 50), None);
    assert_eq!(hashmap.len(), 2);
}

#[test]
fn growth_preserves_contents() {
    let mut hashmap: HashMap<u64> = HashMap::with_capacity(2);
    for key in 0..100usize {
        hashmap.insert(key * 3, key as u64);
        let cap = hashmap.capacity();
        assert!(cap.is_power_of_two());
        assert!(cap >= hashmap.len());
    }
    assert_eq!(hashmap.capacity(), 128);
    for key in 0..100usize {
        assert_eq!(hashmap.get(key * 3).copied(), Some(key as u64));
    }
}

#[test]
fn growth_from_full_table_doubles() {
    let mut hashmap: HashMap<u64> = HashMap::with_capacity(4);
    for key in 0..4usize {
        hashmap.insert(key, 1);
    }
    assert_eq!(hashmap.capacity(), 4);
    hashmap.insert(4, 1);
    assert_eq!(hashmap.capacity(), 8);
    assert_eq!(hashmap.len(), 5);
}

#[test]
fn last_write_wins_under_stress() {
    let n: usize = 200_000;
    let mut hashmap: HashMap<u64> = HashMap::new();
    for key in 0..n {
        hashmap.insert(key, key as u64);
    }
    for key in (0..n).step_by(2) {
        assert_eq!(hashmap.insert(key, key as u64 + 7), Some(key as u64));
    }
    assert_eq!(hashmap.len(), n);
    for key in 0..n {
        let expected = if key % 2 == 0 { key as u64 + 7 } else { key as u64 };
        assert_eq!(hashmap.get(key).copied(), Some(expected));
    }
}

/// A value that counts its live instances.
struct Counted {
    live: Rc<Cell<i64>>,
}

impl Counted {
    fn new(live: &Rc<Cell<i64>>) -> Counted {
        live.set(live.get() + 1);
        Counted { live: live.clone() }
    }
}

impl Drop for Counted {
    fn drop(&mut self) {
        self.live.set(self.live.get() - 1);
    }
}

#[test]
fn dropping_table_drops_each_entry_once() {
    let live = Rc::new(Cell::new(0i64));
    {
        let mut hashmap: HashMap<Counted> = HashMap::with_capacity(16);
        for key in 0..5usize {
            hashmap.insert(key * 16, Counted::new(&live));
        }
        assert_eq!(live.get(), 5);
        assert_eq!(hashmap.capacity(), 16);
    }
    assert_eq!(live.get(), 0);
}

#[test]
fn overwrite_remove_and_growth_drop_correctly() {
    let live = Rc::new(Cell::new(0i64));
    {
        let mut hashmap: HashMap<Counted> = HashMap::new();
        for key in 0..20usize {
            hashmap.insert(key, Counted::new(&live));
        }
        assert_eq!(live.get(), 20);
        let old = hashmap.insert(3, Counted::new(&live));
        assert!(old.is_some());
        drop(old);
        assert_eq!(live.get(), 20);
        let taken = hashmap.remove(7);
        assert!(taken.is_some());
        drop(taken);
        assert_eq!(live.get(), 19);
        hashmap.resize(64);
        assert_eq!(live.get(), 19);
    }
    assert_eq!(live.get(), 0);
}

#[test]
fn remove_keeps_later_chain_members_reachable() {
    let mut hashmap: HashMap<u64> = HashMap::with_capacity(4);
    hashmap.insert(0, 10);
    hashmap.insert(4, 14);
    hashmap.insert(8, 18);
    assert_eq!(hashmap.remove(4), Some(14));
    assert_eq!(hashmap.get(4), None);
    assert_eq!(hashmap.get(8).copied(), Some(18));
    assert_eq!(hashmap.get(0).copied(), Some(10));
    assert_eq!(hashmap.len(), 2);
    assert_eq!(hashmap.remove(4), None);
    assert_eq!(hashmap.len(), 2);
    assert_eq!(hashmap.insert(12, 22), None);
    assert_eq!(hashmap.get(12).copied(), Some(22));
    assert_eq!(hashmap.get(8).copied(), Some(18));
}

#[test]
fn remove_from_empty_table() {
    let mut hashmap: HashMap<u64> = HashMap::new();
    assert_eq!(hashmap.remove(3), None);
    assert_eq!(hashmap.capacity(), 0);
}

#[test]
fn get_mut_writes_through() {
    let mut hashmap: HashMap<u64> = HashMap::new();
    hashmap.insert(9, 1);
    if let Some(v) = hashmap.get_mut(9) {
        *v = 99;
    }
    assert_eq!(hashmap.get(9).copied(), Some(99));
    assert!(hashmap.get_mut(10).is_none());
}

#[test]
fn reserve_grows_only_when_needed() {
    let mut hashmap: HashMap<u64> = HashMap::with_capacity(8);
    hashmap.insert(1, 1);
    hashmap.reserve(7);
    assert_eq!(hashmap.capacity(), 8);
    hashmap.reserve(8);
    assert_eq!(hashmap.capacity(), 16);
    assert_eq!(hashmap.get(1).copied(), Some(1));
}

#[test]
fn resize_rehashes_to_new_modulus() {
    let mut hashmap: HashMap<u64> = HashMap::with_capacity(2);
    hashmap.insert(2, 20);
    hashmap.insert(5, 50);
    hashmap.resize(12);
    assert_eq!(hashmap.capacity(), 16);
    assert_eq!(hashmap.get(2).copied(), Some(20));
    assert_eq!(hashmap.get(5).copied(), Some(50));
    assert_eq!(hashmap.len(), 2);
}

#[test]
fn rounding_to_powers_of_two() {
    assert_eq!(next_power_of_two(0), 1);
    assert_eq!(next_power_of_two(1), 1);
    assert_eq!(next_power_of_two(12), 16);
    assert_eq!(next_power_of_two(16), 16);
    assert_eq!(next_power_of_two(17), 32);
    let zero: HashMap<u64> = HashMap::with_capacity(0);
    assert_eq!(zero.capacity(), 1);
}

#[test]
fn tombstones_are_compacted_at_same_capacity() {
    let mut hashmap: HashMap<u64> = HashMap::with_capacity(4);
    for key in 0..4usize {
        hashmap.insert(key, key as u64);
    }
    for key in 0..4usize {
        assert_eq!(hashmap.remove(key), Some(key as u64));
    }
    assert_eq!(hashmap.len(), 0);
    assert_eq!(hashmap.capacity(), 4);
    for key in 0..8usize {
        assert_eq!(hashmap.get(key), None);
    }
    for key in 10..14usize {
        assert_eq!(hashmap.insert(key, 1), None);
    }
    assert_eq!(hashmap.capacity(), 4);
    assert_eq!(hashmap.len(), 4);
    for key in 10..14usize {
        assert_eq!(hashmap.get(key).copied(), Some(1));
    }
}

#[test]
fn remove_then_len_falls_by_one() {
    let mut hashmap: HashMap<u64> = HashMap::with_capacity(8);
    hashmap.insert(1, 10);
    hashmap.insert(9, 90);
    hashmap.insert(17, 170);
    assert_eq!(hashmap.len(), 3);
    assert_eq!(hashmap.remove(9), Some(90));
    assert_eq!(hashmap.len(), 2);
    assert_eq!(hashmap.remove(9), None);
    assert_eq!(hashmap.len(), 2);
    assert_eq!(hashmap.get(17).copied(), Some(170));
    assert_eq!(hashmap.insert(25, 250), None);
    assert_eq!(hashmap.get(25).copied(), Some(250));
    assert_eq!(hashmap.len(), 3);
}

#[test]
fn churn_on_small_table_keeps_contents() {
    let mut hashmap: HashMap<u64> = HashMap::with_capacity(8);
    for round in 0..1000usize {
        let key = round * 8 + (round % 3);
        assert_eq!(hashmap.insert(key, round as u64), None);
        if round >= 4 {
            let gone = (round - 4) * 8 + ((round - 4) % 3);
            assert_eq!(hashmap.remove(gone), Some((round - 4) as u64));
        }
        assert!(hashmap.len() <= 5);
    }
    assert_eq!(hashmap.capacity(), 8);
    for round in 996..1000usize {
        let key = round * 8 + (round % 3);
        assert_eq!(hashmap.get(key).copied(), Some(round as u64));
    }
}
