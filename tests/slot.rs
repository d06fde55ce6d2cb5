use std::mem::{align_of, size_of};

use xpd_timer::{Entity, Slot};

#[test]
fn size_of_item() {
    assert_eq!(size_of::<Entity<String>>(), 32);
    assert_eq!(align_of::<Entity<String>>(), 8);
}

#[test]
fn slot_push_and_take_keep_order() {
    let mut slot = Slot::<u32>::new();
    assert!(slot.items().is_none());
    slot.push(Entity::new(1, 10));
    slot.push(Entity::new(2, 10));
    let data: Vec<u32> = slot.items().unwrap().iter().map(|e| e.data).collect();
    assert_eq!(data, vec![1, 2]);
    let taken = slot.take().unwrap();
    assert_eq!(taken.len(), 2);
    assert!(slot.items().is_none());
    assert!(slot.take().is_none());
}
