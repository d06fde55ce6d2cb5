use xpd_timer::{Bucket, Entity};

fn content(item: u64) -> Entity<u64> {
    Entity::new(item, item)
}

#[test]
fn test_new() {
    let bucket = Bucket::<i64>::new(0);
    assert_eq!(bucket.occupied(), 0);
    assert_eq!(bucket.cursor(), 0);
    assert_eq!(bucket.step_size_in_bits(), 0);
    assert_eq!(bucket.level(), 0);
    assert_eq!(bucket.slot_count(), 64);
}

#[test]
fn test_add() {
    // level 0
    let mut bucket = Bucket::<u64>::new(0);
    bucket.add(content(63), 63);
    assert_eq!(bucket.occupied(), 1u64 << (63 - 1));

    bucket.add(Entity::new(163, 163), 63);
    assert_eq!(bucket.occupied(), 1u64 << (63 - 1));

    bucket.add(content(8), 8);
    assert_eq!(bucket.occupied(), 1u64 << (63 - 1) | 1u64 << (8 - 1));

    let items = bucket.items_at(63).unwrap();
    assert_eq!(items.len(), 2);

    let items = bucket.items_at(8).unwrap();
    assert_eq!(items.len(), 1);
    assert_eq!(items[0].data, 8);

    // level 1
    let mut bucket2 = Bucket::<i64>::new(1);
    bucket2.add(Entity::new(64, 64), 64);
    bucket2.add(Entity::new(65, 65), 65);
    assert_eq!(bucket2.occupied(), 1u64 << (1 - 1));

    bucket2.add(Entity::new(128, 128), 128);
    assert_eq!(bucket2.occupied(), 1u64 << (1 - 1) | 1u64 << (2 - 1));

    let items = bucket2.items_at(1).unwrap();
    assert_eq!(items.len(), 2);

    let items = bucket2.items_at(2).unwrap();
    assert_eq!(items.len(), 1);
    assert_eq!(items[0].data, 128);
}

#[test]
fn test_tick() {
    let mut bucket = Bucket::<u64>::new(0);
    bucket.add(content(1), 1);
    bucket.add(content(5), 5);
    assert_eq!(bucket.occupied(), 0b0001_0001);

    let (result, next_tick_times) = bucket.tick(1);
    let result = result.unwrap();
    assert_eq!(result.len(), 1);
    assert_eq!(result[0].data, 1);
    assert_eq!(next_tick_times, 0);
    assert_eq!(bucket.cursor(), 1);
    assert_eq!(bucket.occupied(), 0b0000_1000);

    let (result, next_tick_times) = bucket.tick(4);
    let result = result.unwrap();
    assert_eq!(result.len(), 1);
    assert_eq!(result[0].data, 5);
    assert_eq!(next_tick_times, 0);
    assert_eq!(bucket.cursor(), 5);
    assert_eq!(bucket.occupied(), 0b0000_0000);

    bucket.add(content(105), 5);
    assert_eq!(bucket.occupied(), 0b0001_0000);
    let (result, next_tick_times) = bucket.tick(4);
    assert_eq!(result, None);
    assert_eq!(next_tick_times, 0);
    assert_eq!(bucket.cursor(), 9);
    assert_eq!(bucket.occupied(), 0b0000_0001);

    let (result, next_tick_times) = bucket.tick(4);
    let result = result.unwrap();
    assert_eq!(result.len(), 1);
    assert_eq!(result[0].data, 105);
    assert_eq!(next_tick_times, 0);
    assert_eq!(bucket.cursor(), 13);
    assert_eq!(bucket.occupied(), 0b0000_0000);

    let (result, next_tick_times) = bucket.tick(100);
    assert_eq!(result, None);
    assert_eq!(next_tick_times, 1);
    assert_eq!(bucket.occupied(), 0b0000_0000);
}

#[test]
fn test_non_stop_ticks() {
    let mut bucket = Bucket::<u64>::new(0);
    assert_eq!(bucket.non_stop_ticks(), 64);

    bucket.add(content(1), 1);
    assert_eq!(bucket.non_stop_ticks(), 0);

    bucket.tick(1);
    assert_eq!(bucket.non_stop_ticks(), 64 - 1);

    bucket.tick(10);
    assert_eq!(bucket.non_stop_ticks(), 64 - 1 - 10);

    bucket.add(content(64 - 1), 64 - 1);
    assert_eq!(bucket.non_stop_ticks(), 64 - 1 - 10);
}

#[test]
fn tick_drains_slots_in_ring_order_and_keeps_insertion_order() {
    let mut bucket = Bucket::<u64>::new(0);
    bucket.add(content(30), 3);
    bucket.add(content(10), 1);
    bucket.add(content(31), 3);
    let (result, carry) = bucket.tick(3);
    let data: Vec<u64> = result.unwrap().into_iter().map(|e| e.data).collect();
    assert_eq!(data, vec![10, 30, 31]);
    assert_eq!(carry, 0);
    assert_eq!(bucket.cursor(), 3);
}

#[test]
fn tick_reports_wraps_for_the_next_level() {
    let mut bucket = Bucket::<u64>::new(0);
    let (_, carry) = bucket.tick(63);
    assert_eq!(carry, 0);
    let (_, carry) = bucket.tick(1);
    assert_eq!(carry, 1);
    assert_eq!(bucket.cursor(), 0);
    let (_, carry) = bucket.tick(u32::MAX);
    assert_eq!(carry, (u32::MAX as u64 / 64) as u32);
    assert_eq!(bucket.cursor(), (u32::MAX % 64) as u32);
}

#[test]
fn higher_level_offsets_fall_in_coarse_slots() {
    let mut bucket = Bucket::<u64>::new(2);
    assert_eq!(bucket.step_size_in_bits(), 12);
    bucket.add(content(4096 * 3 + 7), 4096 * 3 + 7);
    assert_eq!(bucket.occupied(), 1u64 << 2);
    assert_eq!(bucket.items_at(3).unwrap()[0].data, 4096 * 3 + 7);
    assert_eq!(bucket.non_stop_ticks(), 2 * 4096);
    let top = Bucket::<u64>::new(5);
    assert_eq!(top.non_stop_ticks(), 64 * 1073741824);
}
