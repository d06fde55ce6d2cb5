use xpd_timer::wheel::{to_level, MAX_OFFSET};
use xpd_timer::{Entity, Wheel};

fn data_of<T>(batch: Vec<Entity<T>>) -> Vec<T> {
    batch.into_iter().map(|e| e.data).collect()
}

fn all_buckets_empty<T>(wheel: &Wheel<T>) -> bool {
    (0..6).all(|level| wheel.bucket(level).occupied() == 0) && wheel.homeless_len() == 0
}

#[test]
fn lib_it_works() {}

#[test]
fn test_next_ticks() {
    let mut wheel = Wheel::<u32>::new();

    wheel.schedule(1, (64 * 64) + 1);
    assert_eq!(wheel.next_ticks(), (64 * 64));

    wheel.schedule(1, (64 * 64));
    assert_eq!(wheel.next_ticks(), (64 * 64));

    wheel.schedule(1, (64 * 64) - 1);
    assert_eq!(wheel.next_ticks(), (64 * (64 - 2)));
}

#[test]
fn to_level_boundaries() {
    assert_eq!(to_level(1), Some(0));
    assert_eq!(to_level(63), Some(0));
    assert_eq!(to_level(64), Some(1));
    assert_eq!(to_level(4095), Some(1));
    assert_eq!(to_level(4096), Some(2));
    assert_eq!(to_level(262144), Some(3));
    assert_eq!(to_level(16777216), Some(4));
    assert_eq!(to_level(1073741823), Some(4));
    assert_eq!(to_level(1073741824), Some(5));
    assert_eq!(to_level(MAX_OFFSET - 1), Some(5));
    assert_eq!(to_level(MAX_OFFSET), None);
    assert_eq!(to_level(u64::MAX), None);
}

#[test]
fn offset_one_is_delivered_at_tick_one() {
    let mut wheel = Wheel::new();
    wheel.schedule("A", 1);
    let got = wheel.tick_to(1);
    assert_eq!(got.len(), 1);
    assert_eq!(got[0].data, "A");
    assert_eq!(got[0].fire_tick, 1);
    assert_eq!(wheel.ticks(), 1);
    assert!(all_buckets_empty(&wheel));
}

#[test]
fn offset_sixty_four_waits_for_the_first_cascade() {
    let mut wheel = Wheel::new();
    wheel.schedule("B", 64);
    assert!(wheel.tick_to(63).is_empty());
    assert_eq!(data_of(wheel.tick_to(64)), vec!["B"]);
    assert!(all_buckets_empty(&wheel));
}

#[test]
fn offset_sixty_five_is_refiled_into_level_zero() {
    let mut wheel = Wheel::new();
    wheel.schedule("C", 65);
    assert_eq!(data_of(wheel.tick_to(65)), vec!["C"]);

    let mut stepped = Wheel::new();
    stepped.schedule("C", 65);
    for t in 1..65u64 {
        assert!(stepped.tick_to(t).is_empty());
    }
    assert_eq!(stepped.bucket(0).occupied(), 1);
    assert_eq!(data_of(stepped.tick_to(65)), vec!["C"]);
}

#[test]
fn offset_four_thousand_ninety_six_is_delivered() {
    let mut wheel = Wheel::new();
    wheel.schedule("D", 4096);
    assert!(wheel.tick_to(4095).is_empty());
    assert_eq!(data_of(wheel.tick_to(4096)), vec!["D"]);
}

#[test]
fn mixed_offsets_ticked_one_at_a_time() {
    let offsets = [1u64, 5, 5, 63, 64, 4095, 4096];
    let mut wheel = Wheel::new();
    for (i, o) in offsets.iter().enumerate() {
        wheel.schedule((i, *o), *o);
    }
    let mut seen = vec![0u32; offsets.len()];
    for t in 1..=4096u64 {
        for e in wheel.tick_to(t) {
            let (i, o) = e.data;
            assert_eq!(o, t);
            assert_eq!(e.fire_tick, o);
            seen[i] += 1;
        }
    }
    assert_eq!(seen, vec![1; offsets.len()]);
    assert!(all_buckets_empty(&wheel));
}

#[test]
fn entries_beyond_the_horizon_are_delivered_once() {
    let h = MAX_OFFSET;
    let mut wheel = Wheel::new();
    wheel.schedule("E", h - 1);
    wheel.schedule("F", h);
    wheel.schedule("G", h + 1);
    assert_eq!(wheel.homeless_len(), 2);
    let mut got: Vec<(&str, u64)> = Vec::new();
    let batch = 1u64 << 24;
    let mut t = 0u64;
    while t < h + 1 {
        t = (t + batch).min(h + 1);
        for e in wheel.tick_to(t) {
            assert!(e.fire_tick <= t);
            got.push((e.data, t));
        }
    }
    let fire = [h - 1, h, h + 1];
    for (i, g) in got.iter().enumerate() {
        assert!(g.1 >= fire[i] && g.1 - fire[i] < batch);
    }
    let names: Vec<&str> = got.iter().map(|g| g.0).collect();
    assert_eq!(names, vec!["E", "F", "G"]);
    assert!(all_buckets_empty(&wheel));
}

#[test]
fn horizon_entries_ticked_exactly_to_their_ticks() {
    let h = MAX_OFFSET;
    let mut wheel = Wheel::new();
    wheel.schedule("E", h - 1);
    wheel.schedule("F", h);
    wheel.schedule("G", h + 1);
    assert!(wheel.tick_to(h - 2).is_empty());
    assert_eq!(data_of(wheel.tick_to(h - 1)), vec!["E"]);
    assert_eq!(data_of(wheel.tick_to(h)), vec!["F"]);
    assert_eq!(data_of(wheel.tick_to(h + 1)), vec!["G"]);
    assert!(all_buckets_empty(&wheel));
}

#[test]
fn one_jump_to_the_furthest_offset_delivers_everything() {
    let offsets = [3u64, 70, 700, 7000, 70000, 700000, 7000000];
    let mut wheel = Wheel::new();
    for o in offsets {
        wheel.schedule(o, o);
    }
    let got = wheel.tick_to(7000000);
    assert_eq!(got.len(), offsets.len());
    let mut data: Vec<u64> = got.iter().map(|e| e.data).collect();
    data.sort();
    assert_eq!(data, offsets.to_vec());
    for e in &got {
        assert!(e.fire_tick <= wheel.ticks());
    }
    assert!(all_buckets_empty(&wheel));
}

#[test]
fn pseudo_random_offsets_come_back_as_the_same_multiset() {
    let mut seed = 0x2545_f491_4f6c_dd1du64;
    let mut offsets = Vec::new();
    for _ in 0..2000 {
        seed ^= seed << 13;
        seed ^= seed >> 7;
        seed ^= seed << 17;
        offsets.push(seed % 1_000_000 + 1);
    }
    let mut wheel = Wheel::new();
    wheel.tick_to(12345);
    for o in &offsets {
        wheel.schedule(*o, *o);
    }
    let furthest = *offsets.iter().max().unwrap();
    let got = wheel.tick_to(12345 + furthest);
    let mut data: Vec<u64> = got.iter().map(|e| e.data).collect();
    data.sort();
    let mut expected = offsets.clone();
    expected.sort();
    assert_eq!(data, expected);
    for e in &got {
        assert_eq!(e.fire_tick, 12345 + e.data);
    }
    assert!(all_buckets_empty(&wheel));
}

#[test]
fn ticking_to_the_same_target_twice_changes_nothing() {
    let mut wheel = Wheel::new();
    wheel.schedule(1u8, 10);
    wheel.schedule(2u8, 100);
    assert_eq!(data_of(wheel.tick_to(50)), vec![1]);
    let next = wheel.next_ticks();
    assert!(wheel.tick_to(50).is_empty());
    assert_eq!(wheel.ticks(), 50);
    assert_eq!(wheel.next_ticks(), next);
    assert_eq!(data_of(wheel.tick_to(100)), vec![2]);
}

#[test]
fn ticks_never_move_backwards() {
    let mut wheel = Wheel::<u8>::new();
    wheel.tick_to(10);
    assert_eq!(wheel.ticks(), 10);
    assert!(wheel.tick_to(5).is_empty());
    assert_eq!(wheel.ticks(), 10);
    wheel.schedule(7, 3);
    assert_eq!(wheel.ticks(), 10);
}

#[test]
fn next_ticks_is_at_least_one_and_repeatable() {
    let mut wheel = Wheel::new();
    assert_eq!(wheel.next_ticks(), 64 * 64);
    wheel.schedule('x', 1);
    assert_eq!(wheel.next_ticks(), 1);
    assert_eq!(wheel.next_ticks(), 1);
    wheel.schedule('y', 30);
    wheel.tick_to(1);
    assert_eq!(wheel.next_ticks(), 28);
    assert_eq!(wheel.next_ticks(), 28);
    wheel.tick_to(3);
    assert_eq!(wheel.next_ticks(), 26);
}

#[test]
fn same_tick_entries_all_come_out() {
    let mut wheel = Wheel::new();
    for i in 0..100u32 {
        wheel.schedule(i, 777);
    }
    assert!(wheel.tick_to(776).is_empty());
    let mut data = data_of(wheel.tick_to(777));
    data.sort();
    assert_eq!(data, (0..100).collect::<Vec<u32>>());
}

#[test]
fn large_jumps_beyond_u32_deliver_due_entries() {
    let mut wheel = Wheel::new();
    wheel.schedule(1u8, 5_000_000_000);
    wheel.schedule(2u8, 9_000_000_000);
    assert_eq!(data_of(wheel.tick_to(6_000_000_000)), vec![1]);
    assert_eq!(data_of(wheel.tick_to(20_000_000_000)), vec![2]);
    assert_eq!(wheel.ticks(), 20_000_000_000);
}
