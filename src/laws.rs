use vstd::prelude::*;

use vstd::multiset::Multiset;

use crate::slot::Entity;
use crate::wheel::{WheelView, ticked};

verus! {

broadcast use {vstd::multiset::group_multiset_axioms, vstd::seq_lib::group_to_multiset_ensures};

/// The wheel after scheduling each `(data, offset)` of `entries` in turn.
pub open spec fn scheduled_all<T>(start: WheelView<T>, entries: Seq<(T, u64)>) -> WheelView<T>
    decreases entries.len(),
{
    if entries.len() == 0 {
        start
    } else {
        scheduled_all(start, entries.drop_last()).scheduled(entries.last().0, entries.last().1)
    }
}

/// The entities that scheduling `entries` at tick `now` creates.
pub open spec fn entities_of<T>(now: int, entries: Seq<(T, u64)>) -> Seq<Entity<T>> {
    entries.map_values(|p: (T, u64)| Entity { data: p.0, fire_tick: (now + p.1) as u64 })
}

proof fn lemma_scheduled_all<T>(start: WheelView<T>, entries: Seq<(T, u64)>)
    ensures
        scheduled_all(start, entries).ticks == start.ticks,
        scheduled_all(start, entries).resident =~= start.resident.add(
            entities_of(start.ticks, entries).to_multiset(),
        ),
    decreases entries.len(),
{
    if entries.len() > 0 {
        let d = entries.drop_last();
        lemma_scheduled_all(start, d);
        let e = Entity { data: entries.last().0, fire_tick: (start.ticks + entries.last().1) as u64 };
        assert(entities_of(start.ticks, entries) =~= entities_of(start.ticks, d).push(e));
    }
}

/// Scheduling entries on a wheel that holds nothing and then ticking to a target
/// that none of them lies beyond hands out exactly those entries, each at or after
/// its own tick, and leaves the wheel empty.
pub proof fn lemma_schedule_then_tick_delivers_all<T>(
    start: WheelView<T>,
    entries: Seq<(T, u64)>,
    target: u64,
    after: WheelView<T>,
    out: Seq<Entity<T>>,
)
    requires
        0 <= start.ticks,
        start.resident.len() == 0,
        forall|k: int| 0 <= k < entries.len() ==> start.ticks + (#[trigger] entries[k]).1 <= target,
        ticked(scheduled_all(start, entries), after, target, out),
    ensures
        out.len() == entries.len(),
        out.to_multiset() =~= entities_of(start.ticks, entries).to_multiset(),
        after.resident.len() == 0,
        forall|k: int| 0 <= k < out.len() ==> (#[trigger] out[k]).fire_tick <= after.ticks,
{
    lemma_scheduled_all(start, entries);
    let all = entities_of(start.ticks, entries);
    vstd::multiset::lemma_multiset_empty_len(start.resident);
    assert(start.resident =~= Multiset::empty());
    let mid = scheduled_all(start, entries);
    assert(mid.resident =~= all.to_multiset());
    if after.resident.len() > 0 {
        let e = after.resident.choose();
        assert(after.resident.count(e) > 0);
        assert(mid.resident.count(e) > 0);
        assert(all.contains(e));
        let k = choose|k: int| 0 <= k < all.len() && all[k] == e;
        assert(entries[k].1 + start.ticks <= target);
        assert(e.fire_tick == start.ticks + entries[k].1);
        assert(after.ticks >= target);
    }
    vstd::multiset::lemma_multiset_empty_len(after.resident);
    assert(after.resident =~= Multiset::empty());
    assert(out.to_multiset() =~= all.to_multiset());
    assert(out.len() == out.to_multiset().len());
    assert(all.len() == all.to_multiset().len());
}

/// Ticking to a target a second time hands out nothing and changes nothing.
pub proof fn lemma_tick_to_twice<T>(
    v0: WheelView<T>,
    v1: WheelView<T>,
    v2: WheelView<T>,
    target: u64,
    out1: Seq<Entity<T>>,
    out2: Seq<Entity<T>>,
)
    requires
        ticked(v0, v1, target, out1),
        ticked(v1, v2, target, out2),
    ensures
        out2.len() == 0,
        v2 == v1,
{
    if out2.len() > 0 {
        let e = out2[0];
        assert(out2.to_multiset().count(e) > 0);
        assert(v1.resident.count(e) > 0);
    }
    assert(out2.to_multiset() =~= Multiset::empty());
    assert(v2.resident =~= v1.resident);
}

/// Neither scheduling nor ticking moves the wheel's tick backwards.
pub proof fn lemma_ticks_never_decrease<T>(
    before: WheelView<T>,
    after: WheelView<T>,
    target: u64,
    out: Seq<Entity<T>>,
    data: T,
    offset: u64,
)
    requires
        ticked(before, after, target, out),
    ensures
        after.ticks >= before.ticks,
        before.scheduled(data, offset).ticks == before.ticks,
{
}

} // verus!
