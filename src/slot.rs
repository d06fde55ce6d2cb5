use vstd::prelude::*;

verus! {

/// A scheduled payload together with the absolute wheel tick at which it expires.
#[derive(Debug, PartialEq, Eq)]
pub struct Entity<T> {
    pub data: T,
    pub fire_tick: u64,
}

impl<T> Entity<T> {
    pub fn new(data: T, fire_tick: u64) -> (r: Self)
        ensures
            r.data == data,
            r.fire_tick == fire_tick,
    {
        Entity { data, fire_tick }
    }
}

/// One cell of a bucket ring: the entities that share a coarse expiry offset,
/// in insertion order. `None` stands for a slot that was never filled or was drained.
#[derive(Debug)]
pub struct Slot<T> {
    items: Option<Vec<Entity<T>>>,
}

impl<T> View for Slot<T> {
    type V = Seq<Entity<T>>;

    closed spec fn view(&self) -> Seq<Entity<T>> {
        match self.items {
            Some(v) => v@,
            None => Seq::empty(),
        }
    }
}

impl<T> Slot<T> {
    pub fn new() -> (r: Self)
        ensures
            r@ == Seq::<Entity<T>>::empty(),
    {
        Slot { items: None }
    }

    /// Appends an entity behind those already present.
    pub fn push(&mut self, item: Entity<T>)
        ensures
            final(self)@ == old(self)@.push(item),
    {
        match &mut self.items {
            Some(v) => {
                v.push(item);
            },
            None => {
                let mut v = Vec::new();
                v.push(item);
                self.items = Some(v);
                assert(self@ =~= Seq::<Entity<T>>::empty().push(item));
            },
        }
    }

    /// Hands out everything the slot holds and leaves it empty.
    pub fn take(&mut self) -> (r: Option<Vec<Entity<T>>>)
        ensures
            final(self)@ == Seq::<Entity<T>>::empty(),
            match r {
                Some(v) => v@ == old(self)@,
                None => old(self)@.len() == 0,
            },
    {
        self.items.take()
    }

    /// The entities held, oldest first; `None` when the slot is empty.
    pub fn items(&self) -> (r: Option<&Vec<Entity<T>>>)
        ensures
            match r {
                Some(v) => v@ == self@,
                None => self@.len() == 0,
            },
    {
        match &self.items {
            Some(v) => Some(v),
            None => None,
        }
    }
}

} // verus!
