use vstd::prelude::*;

use vstd::multiset::Multiset;

use crate::bucket::{
    Bucket, BucketView, cleared, drained, lemma_occupied_slot_beyond_free_run, level_span, reach,
    ring_dist,
};
use crate::slot::Entity;

verus! {

broadcast use {vstd::multiset::group_multiset_axioms, vstd::seq_lib::group_to_multiset_ensures};

/// Number of buckets, one per level.
pub const LEVEL_COUNT: usize = 6;

/// Offsets from this many ticks on lie beyond the buckets: 64 to the power 6.
pub const MAX_OFFSET: u64 = 68719476736;

/// Level `level` is the one whose slots can hold an entity `offset` ticks ahead.
pub open spec fn level_fits(offset: int, level: int) -> bool {
    &&& 0 <= level < 6
    &&& level == 0 || level_span(level) <= offset
    &&& offset < level_span(level + 1)
}

/// The level an offset belongs to; `None` for offsets beyond the wheel's horizon.
pub fn to_level(offset: u64) -> (r: Option<usize>)
    ensures
        match r {
            Some(level) => level_fits(offset as int, level as int),
            None => offset >= MAX_OFFSET,
        },
{
    if offset < 64 {
        Some(0)
    } else if offset < 4096 {
        Some(1)
    } else if offset < 262144 {
        Some(2)
    } else if offset < 16777216 {
        Some(3)
    } else if offset < 1073741824 {
        Some(4)
    } else if offset < MAX_OFFSET {
        Some(5)
    } else {
        None
    }
}

/// The entities held by a ring of slots, counted with multiplicity.
pub open spec fn slot_set<T>(slots: Seq<Seq<Entity<T>>>) -> Multiset<Entity<T>>
    decreases slots.len(),
{
    if slots.len() == 0 {
        Multiset::empty()
    } else {
        slot_set(slots.drop_last()).add(slots.last().to_multiset())
    }
}

/// The entities held by a sequence of buckets, counted with multiplicity.
pub open spec fn bucket_set<T>(buckets: Seq<Bucket<T>>) -> Multiset<Entity<T>>
    decreases buckets.len(),
{
    if buckets.len() == 0 {
        Multiset::empty()
    } else {
        bucket_set(buckets.drop_last()).add(slot_set(buckets.last()@.slots))
    }
}

/// Where an entity sits in a bucket of `level`, `dist` slots ahead of the cursor,
/// when the wheel stands at `now`: it is not yet due, it fits the level, and its
/// slot comes round no later than it is due.
pub open spec fn placed<T>(e: Entity<T>, level: int, dist: int, now: int) -> bool {
    &&& now < e.fire_tick
    &&& e.fire_tick - now < level_span(level + 1)
    &&& now / level_span(level) + dist <= e.fire_tick as int / level_span(level)
}

/// An entity beyond the horizon is not due before the top level next ticks.
pub open spec fn homeless_ok<T>(e: Entity<T>, now: int) -> bool {
    &&& now < e.fire_tick
    &&& now / level_span(5) < e.fire_tick as int / level_span(5)
}

/// The tick count the wheel may sleep through, given the free runs of levels 0 and 1.
pub open spec fn widened(level0: int, level1: int) -> int {
    if level0 == 64 {
        vstd::math::max(64, level1)
    } else {
        vstd::math::max(1, level0)
    }
}

/// What `tick_to(target)` does to the wheel seen from outside, handing out `out`:
/// the wheel stands at the later of its tick and `target`, and `out` holds exactly
/// the entities that had come due by then.
pub open spec fn ticked<T>(
    before: WheelView<T>,
    after: WheelView<T>,
    target: u64,
    out: Seq<Entity<T>>,
) -> bool {
    &&& after.ticks == vstd::math::max(before.ticks, target as int)
    &&& out.to_multiset().add(after.resident) == before.resident
    &&& forall|k: int| 0 <= k < out.len() ==> (#[trigger] out[k]).fire_tick <= after.ticks
    &&& forall|e: Entity<T>| after.resident.count(e) > 0 ==> e.fire_tick > after.ticks
}

/// The wheel seen from outside: the current tick and the entities it holds.
pub struct WheelView<T> {
    pub ticks: int,
    pub resident: Multiset<Entity<T>>,
}

impl<T> WheelView<T> {
    /// The wheel after `data` was scheduled `offset` ticks ahead.
    pub open spec fn scheduled(self, data: T, offset: u64) -> Self {
        WheelView {
            ticks: self.ticks,
            resident: self.resident.insert(Entity { data, fire_tick: (self.ticks + offset) as u64 }),
        }
    }
}

proof fn lemma_slot_set_update<T>(slots: Seq<Seq<Entity<T>>>, q: int, x: Seq<Entity<T>>)
    requires
        0 <= q < slots.len(),
    ensures
        slot_set(slots.update(q, x)).add(slots[q].to_multiset()) =~= slot_set(slots).add(
            x.to_multiset(),
        ),
    decreases slots.len(),
{
    let u = slots.update(q, x);
    let lhs = slot_set(u).add(slots[q].to_multiset());
    let rhs = slot_set(slots).add(x.to_multiset());
    assert(slot_set(u) == slot_set(u.drop_last()).add(u.last().to_multiset()));
    assert(slot_set(slots) == slot_set(slots.drop_last()).add(slots.last().to_multiset()));
    if q == slots.len() - 1 {
        assert(u.drop_last() =~= slots.drop_last());
        assert(u.last() == x);
        assert forall|v: Entity<T>| #[trigger] lhs.count(v) == rhs.count(v) by {}
    } else {
        assert(u.drop_last() =~= slots.drop_last().update(q, x));
        assert(u.last() == slots.last());
        assert(slots.drop_last()[q] == slots[q]);
        lemma_slot_set_update(slots.drop_last(), q, x);
        let inner_l = slot_set(slots.drop_last().update(q, x)).add(slots[q].to_multiset());
        let inner_r = slot_set(slots.drop_last()).add(x.to_multiset());
        assert forall|v: Entity<T>| #[trigger] lhs.count(v) == rhs.count(v) by {
            assert(inner_l.count(v) == inner_r.count(v));
        }
    }
    assert(lhs =~= rhs);
}

proof fn lemma_bucket_set_update<T>(buckets: Seq<Bucket<T>>, l: int, b: Bucket<T>)
    requires
        0 <= l < buckets.len(),
    ensures
        bucket_set(buckets.update(l, b)).add(slot_set(buckets[l]@.slots)) =~= bucket_set(
            buckets,
        ).add(slot_set(b@.slots)),
    decreases buckets.len(),
{
    let u = buckets.update(l, b);
    let lhs = bucket_set(u).add(slot_set(buckets[l]@.slots));
    let rhs = bucket_set(buckets).add(slot_set(b@.slots));
    assert(bucket_set(u) == bucket_set(u.drop_last()).add(slot_set(u.last()@.slots)));
    assert(bucket_set(buckets) == bucket_set(buckets.drop_last()).add(
        slot_set(buckets.last()@.slots),
    ));
    if l == buckets.len() - 1 {
        assert(u.drop_last() =~= buckets.drop_last());
        assert(u.last() == b);
        assert forall|v: Entity<T>| #[trigger] lhs.count(v) == rhs.count(v) by {}
    } else {
        assert(u.drop_last() =~= buckets.drop_last().update(l, b));
        assert(u.last() == buckets.last());
        assert(buckets.drop_last()[l] == buckets[l]);
        lemma_bucket_set_update(buckets.drop_last(), l, b);
        let inner_l = bucket_set(buckets.drop_last().update(l, b)).add(slot_set(buckets[l]@.slots));
        let inner_r = bucket_set(buckets.drop_last()).add(slot_set(b@.slots));
        assert forall|v: Entity<T>| #[trigger] lhs.count(v) == rhs.count(v) by {
            assert(inner_l.count(v) == inner_r.count(v));
        }
    }
    assert(lhs =~= rhs);
}

/// Floor division by a level's span never loses by adding.
proof fn lemma_div_superadditive(a: int, b: int, level: int)
    requires
        0 <= a,
        0 <= b,
        0 <= level < 6,
    ensures
        a / level_span(level) + b / level_span(level) <= (a + b) / level_span(level),
{
    if level == 0 {
    } else if level == 1 {
    } else if level == 2 {
    } else if level == 3 {
    } else if level == 4 {
    } else {
    }
}

/// The wheel proper: six buckets, the tick counter, and the entities beyond the
/// horizon of the top bucket.
pub struct Wheel<T> {
    buckets: Vec<Bucket<T>>,
    ticks: u64,
    homeless: Option<Vec<Entity<T>>>,
}

impl<T> View for Wheel<T> {
    type V = WheelView<T>;

    closed spec fn view(&self) -> WheelView<T> {
        WheelView {
            ticks: self.ticks as int,
            resident: bucket_set(self.buckets@).add(self.homeless_seq().to_multiset()),
        }
    }
}

impl<T> Wheel<T> {
    pub closed spec fn homeless_seq(&self) -> Seq<Entity<T>> {
        match self.homeless {
            Some(v) => v@,
            None => Seq::empty(),
        }
    }

    /// Bucket `l` is well formed and its cursor and entities agree with tick `now`.
    closed spec fn bucket_synced(&self, l: int, now: int) -> bool {
        let b = self.buckets@[l];
        &&& b.wf()
        &&& b@.level == l
        &&& b@.cursor == (now / level_span(l)) % 64
        &&& forall|q: int, k: int|
            0 <= q < 64 && 0 <= k < b@.slots[q].len() ==> placed(
                #[trigger] b@.slots[q][k],
                l,
                ring_dist(b@.cursor, q),
                now,
            )
    }

    /// The buckets below `upto` agree with the current tick, those from `upto` on
    /// with tick `t0`, and the entities beyond the horizon with tick `th`.
    closed spec fn layout(&self, upto: int, t0: int, th: int) -> bool {
        &&& self.buckets@.len() == 6
        &&& forall|l: int| 0 <= l < upto ==> #[trigger] self.bucket_synced(l, self.ticks as int)
        &&& forall|l: int| upto <= l < 6 ==> #[trigger] self.bucket_synced(l, t0)
        &&& forall|k: int|
            0 <= k < self.homeless_seq().len() ==> homeless_ok(
                #[trigger] self.homeless_seq()[k],
                th,
            )
    }

    pub closed spec fn wf(&self) -> bool {
        self.layout(6, 0, self.ticks as int)
    }

    /// An empty wheel at tick zero.
    pub fn new() -> (r: Self)
        ensures
            r.wf(),
            r@.ticks == 0,
            r@.resident =~= Multiset::empty(),
    {
        let mut buckets: Vec<Bucket<T>> = Vec::new();
        let mut level: usize = 0;
        while level < LEVEL_COUNT
            invariant
                level <= 6,
                buckets@.len() == level,
                forall|l: int|
                    0 <= l < level ==> {
                        let b = #[trigger] buckets@[l];
                        &&& b.wf()
                        &&& b@.level == l
                        &&& b@.cursor == 0
                        &&& b@.slots == Seq::new(64, |p: int| Seq::<Entity<T>>::empty())
                    },
                bucket_set(buckets@) =~= Multiset::empty(),
            decreases 6 - level,
        {
            let b = Bucket::new(level as u32);
            proof {
                let s = Seq::new(64, |p: int| Seq::<Entity<T>>::empty());
                assert(slot_set(s) =~= Multiset::empty()) by {
                    lemma_empty_slots_hold_nothing(s);
                }
                assert(buckets@.push(b).drop_last() =~= buckets@);
            }
            buckets.push(b);
            level = level + 1;
        }
        let r = Wheel { buckets, ticks: 0, homeless: None };
        assert forall|l: int| 0 <= l < 6 implies #[trigger] r.bucket_synced(l, 0) by {
            let b = r.buckets@[l];
            assert(b@.slots == Seq::new(64, |p: int| Seq::<Entity<T>>::empty()));
        }
        r
    }

    /// Files an entity that is not yet due, at the level its distance from the
    /// current tick calls for, or among the homeless beyond the horizon.
    fn place(&mut self, entity: Entity<T>, upto: Ghost<int>, t0: Ghost<int>, th: Ghost<int>)
        requires
            old(self).layout(upto@, t0@, th@),
            1 <= upto@ <= 6,
            old(self).ticks < entity.fire_tick,
            entity.fire_tick - old(self).ticks < level_span(upto@) || (upto@ == 6 && th@
                == old(self).ticks),
        ensures
            final(self).layout(upto@, t0@, th@),
            final(self).ticks == old(self).ticks,
            final(self)@.resident =~= old(self)@.resident.insert(entity),
    {
        let ghost before = *self;
        let ghost now = self.ticks as int;
        let offset = entity.fire_tick - self.ticks;
        match to_level(offset) {
            Some(level) => {
                let ghost old_b = self.buckets@[level as int];
                proof {
                    lemma_level_span_values();
                    assert(level < upto@);
                    assert(self.bucket_synced(level as int, now));
                    lemma_fits_slot_index(offset as int, level as int);
                    assert(1 <= old_b@.slot_index(offset) < 64);
                }
                self.buckets[level].add(entity, offset);
                proof {
                    let new_b = self.buckets@[level as int];
                    let k = old_b@.slot_index(offset);
                    let p = (old_b@.cursor + k) % 64;
                    assert(self.buckets@ == before.buckets@.update(level as int, new_b));
                    assert(ring_dist(old_b@.cursor, p) == k);
                    lemma_div_superadditive(now, offset as int, level as int);
                    assert(placed(entity, level as int, k, now));
                    assert forall|q: int, j: int|
                        0 <= q < 64 && 0 <= j < new_b@.slots[q].len() implies placed(
                        #[trigger] new_b@.slots[q][j],
                        level as int,
                        ring_dist(new_b@.cursor, q),
                        now,
                    ) by {
                        if q != p || j < old_b@.slots[q].len() {
                            assert(new_b@.slots[q][j] == old_b@.slots[q][j]);
                        }
                    }
                    assert(self.bucket_synced(level as int, now));
                    assert forall|l: int| 0 <= l < upto@ implies #[trigger] self.bucket_synced(
                        l,
                        now,
                    ) by {
                        if l != level {
                            assert(self.buckets@[l] == before.buckets@[l]);
                            assert(before.bucket_synced(l, now));
                        }
                    }
                    assert forall|l: int| upto@ <= l < 6 implies #[trigger] self.bucket_synced(
                        l,
                        t0@,
                    ) by {
                        assert(self.buckets@[l] == before.buckets@[l]);
                        assert(before.bucket_synced(l, t0@));
                    }
                    lemma_slot_set_update(old_b@.slots, p, old_b@.slots[p].push(entity));
                    lemma_bucket_set_update(before.buckets@, level as int, new_b);
                    let hs = self.homeless_seq().to_multiset();
                    assert(self.homeless_seq() == before.homeless_seq());
                    let a = slot_set(old_b@.slots);
                    let b = slot_set(new_b@.slots);
                    let old_p = old_b@.slots[p];
                    assert(new_b@.slots == old_b@.slots.update(p, old_p.push(entity)));
                    assert(old_p.push(entity).to_multiset() =~= old_p.to_multiset().insert(entity));
                    assert forall|v: Entity<T>| #[trigger] b.count(v) == a.insert(entity).count(v) by {
                        assert(b.add(old_p.to_multiset()).count(v) == a.add(
                            old_p.push(entity).to_multiset(),
                        ).count(v));
                    }
                    assert forall|v: Entity<T>| #[trigger] self@.resident.count(v)
                        == before@.resident.insert(entity).count(v) by {
                        assert(bucket_set(self.buckets@).add(a).count(v) == bucket_set(
                            before.buckets@,
                        ).add(b).count(v));
                    }
                }
            },
            None => {
                let ghost old_h = self.homeless_seq();
                match &mut self.homeless {
                    Some(v) => {
                        v.push(entity);
                    },
                    None => {
                        let mut v = Vec::new();
                        v.push(entity);
                        self.homeless = Some(v);
                    },
                }
                proof {
                    assert(self.homeless_seq() =~= old_h.push(entity));
                    assert(self.buckets@ == before.buckets@);
                    assert forall|l: int| 0 <= l < upto@ implies #[trigger] self.bucket_synced(
                        l,
                        now,
                    ) by {
                        assert(before.bucket_synced(l, now));
                    }
                    assert forall|l: int| upto@ <= l < 6 implies #[trigger] self.bucket_synced(
                        l,
                        t0@,
                    ) by {
                        assert(before.bucket_synced(l, t0@));
                    }
                    lemma_level_span_values();
                    assert(homeless_ok(entity, th@));
                    assert forall|k: int| 0 <= k < self.homeless_seq().len() implies homeless_ok(
                        #[trigger] self.homeless_seq()[k],
                        th@,
                    ) by {
                        if k < old_h.len() {
                            assert(self.homeless_seq()[k] == old_h[k]);
                        }
                    }
                    assert(self.layout(upto@, t0@, th@));
                }
            },
        }
    }

    /// Schedules `data` to expire `offset` ticks from now.
    pub fn schedule(&mut self, data: T, offset: u64)
        requires
            old(self).wf(),
            offset > 0,
            old(self)@.ticks + offset <= u64::MAX,
        ensures
            final(self).wf(),
            final(self)@ == old(self)@.scheduled(data, offset),
    {
        let entity = Entity { data, fire_tick: self.ticks + offset };
        let ghost now = self.ticks as int;
        proof {
            lemma_level_span_values();
        }
        self.place(entity, Ghost(6), Ghost(0), Ghost(now));
        assert(self@.resident =~= old(self)@.scheduled(data, offset).resident);
    }

    /// Hands each entity whose tick has come to `out`, in order, and files the
    /// others again at the level their remaining distance calls for.
    fn dispose_of(
        &mut self,
        entities: Vec<Entity<T>>,
        out: &mut Vec<Entity<T>>,
        upto: Ghost<int>,
        t0: Ghost<int>,
        th: Ghost<int>,
    )
        requires
            old(self).layout(upto@, t0@, th@),
            1 <= upto@ <= 6,
            forall|k: int|
                0 <= k < entities@.len() ==> (#[trigger] entities@[k]).fire_tick - old(self).ticks
                    < level_span(upto@) || (upto@ == 6 && th@ == old(self).ticks),
        ensures
            final(self).layout(upto@, t0@, th@),
            final(self).ticks == old(self).ticks,
            final(self)@.resident.add(final(out)@.to_multiset()) =~= old(self)@.resident.add(
                old(out)@.to_multiset(),
            ).add(entities@.to_multiset()),
            final(out)@.len() >= old(out)@.len(),
            final(out)@.subrange(0, old(out)@.len() as int) == old(out)@,
            forall|k: int|
                old(out)@.len() <= k < final(out)@.len() ==> (#[trigger] final(out)@[k]).fire_tick
                    <= old(self).ticks,
    {
        let ghost es = entities@;
        let ghost r0 = self@.resident;
        let ghost out0 = out@;
        for e in it: entities
            invariant
                it.seq() == es,
                self.layout(upto@, t0@, th@),
                self.ticks == old(self).ticks,
                forall|k: int|
                    0 <= k < es.len() ==> (#[trigger] es[k]).fire_tick - self.ticks < level_span(
                        upto@,
                    ) || (upto@ == 6 && th@ == self.ticks),
                1 <= upto@ <= 6,
                self@.resident.add(out@.to_multiset()) =~= r0.add(out0.to_multiset()).add(
                    es.take(it.index()).to_multiset(),
                ),
                out@.len() >= out0.len(),
                out@.subrange(0, out0.len() as int) == out0,
                forall|k: int|
                    out0.len() <= k < out@.len() ==> (#[trigger] out@[k]).fire_tick <= self.ticks,
        {
            let ghost i = it.index();
            let ghost before_res = self@.resident;
            let ghost before_out = out@;
            proof {
                assert(es.take(i + 1) =~= es.take(i).push(e));
            }
            if e.fire_tick <= self.ticks {
                out.push(e);
                proof {
                    assert(out@.subrange(0, out0.len() as int) =~= before_out.subrange(
                        0,
                        out0.len() as int,
                    ));
                }
            } else {
                self.place(e, upto, t0, th);
            }
            proof {
                let lhs = self@.resident.add(out@.to_multiset());
                let rhs = r0.add(out0.to_multiset()).add(es.take(i + 1).to_multiset());
                let mid = r0.add(out0.to_multiset()).add(es.take(i).to_multiset());
                assert(before_res.add(before_out.to_multiset()) =~= mid);
                assert forall|v: Entity<T>| #[trigger] lhs.count(v) == rhs.count(v) by {
                    assert(before_res.add(before_out.to_multiset()).count(v) == mid.count(v));
                }
            }
        }
        proof {
            assert(es.take(es.len() as int) =~= es);
        }
    }
    /// The current tick.
    pub fn ticks(&self) -> (r: u64)
        ensures
            r == self@.ticks,
    {
        self.ticks
    }

    /// The bucket serving `level`.
    pub fn bucket(&self, level: usize) -> (r: &Bucket<T>)
        requires
            self.wf(),
            level < 6,
        ensures
            r.wf(),
            r@.level == level,
            r@.cursor == (self@.ticks / level_span(level as int)) % 64,
    {
        proof {
            assert(self.bucket_synced(level as int, self.ticks as int));
        }
        &self.buckets[level]
    }

    /// How many entities wait beyond the horizon of the top bucket.
    pub fn homeless_len(&self) -> (r: usize)
        ensures
            r == self.homeless_seq().len(),
    {
        match &self.homeless {
            Some(v) => v.len(),
            None => 0,
        }
    }

    /// What `next_ticks` returns: level 0's run of free ticks, at least one, and when
    /// level 0 is empty all the way round, level 1's run if that is longer.
    pub closed spec fn spec_next_ticks(&self) -> int {
        widened(self.buckets@[0]@.non_stop(), self.buckets@[1]@.non_stop())
    }

    /// How many ticks the wheel may be left alone for. Never zero.
    pub fn next_ticks(&self) -> (r: u32)
        requires
            self.wf(),
        ensures
            r >= 1,
            r == self.spec_next_ticks(),
            forall|e: Entity<T>|
                self@.resident.count(e) > 0 ==> e.fire_tick >= self@.ticks + r,
    {
        proof {
            self.lemma_next_ticks_safe();
        }
        proof {
            assert(self.bucket_synced(0, self.ticks as int));
            assert(self.bucket_synced(1, self.ticks as int));
            vstd::std_specs::bits::axiom_u64_trailing_zeros(self.buckets@[0]@.occupied);
            vstd::std_specs::bits::axiom_u64_trailing_zeros(self.buckets@[1]@.occupied);
            lemma_level_span_values();
        }
        let level0 = self.buckets[0].non_stop_ticks();
        if level0 == 64 {
            let level1 = self.buckets[1].non_stop_ticks();
            if level1 > 64 {
                level1 as u32
            } else {
                64
            }
        } else if level0 == 0 {
            1
        } else {
            level0 as u32
        }
    }

    /// Nothing the wheel holds comes due before `spec_next_ticks` more ticks.
    proof fn lemma_next_ticks_safe(&self)
        requires
            self.wf(),
        ensures
            forall|e: Entity<T>|
                self@.resident.count(e) > 0 ==> e.fire_tick >= self@.ticks + self.spec_next_ticks(),
    {
        let t = self.ticks as int;
        let r = self.spec_next_ticks();
        let b0 = self.buckets@[0]@;
        let b1 = self.buckets@[1]@;
        assert(self.bucket_synced(0, t));
        assert(self.bucket_synced(1, t));
        lemma_level_span_values();
        vstd::std_specs::bits::axiom_u64_trailing_zeros(b0.occupied);
        vstd::std_specs::bits::axiom_u64_trailing_zeros(b1.occupied);
        let n0 = b0.non_stop();
        let n1 = b1.non_stop();
        assert(t / 1 == t);
        assert(b0.cursor == t % 64);
        assert(level_span(b0.level) == 1);
        assert(level_span(b1.level) == 64);
        let m0 = vstd::math::min(64 - b0.cursor, b0.occupied.trailing_zeros() as int);
        assert(n0 == m0 * level_span(b0.level));
        assert(m0 * 1 == m0) by (nonlinear_arith);
        assert(n0 == vstd::math::min(64 - t % 64, b0.occupied.trailing_zeros() as int));
        assert(n1 == vstd::math::min(64 - (t / 64) % 64, b1.occupied.trailing_zeros() as int) * 64);
        let f = |e: Entity<T>| e.fire_tick >= t + r;
        assert forall|l: int, q: int, k: int|
            0 <= l < self.buckets@.len() && 0 <= q < self.buckets@[l]@.slots.len() && 0 <= k
                < self.buckets@[l]@.slots[q].len() implies f(
            #[trigger] self.buckets@[l]@.slots[q][k],
        ) by {
            let b = self.buckets@[l]@;
            assert(self.bucket_synced(l, t));
            let e = b.slots[q][k];
            let d = ring_dist(b.cursor, q);
            assert(placed(e, l, d, t));
            lemma_occupied_slot_beyond_free_run(b, q);
            lemma_not_due_before_next_ticks(
                t,
                e.fire_tick as int,
                l,
                d,
                b0.occupied.trailing_zeros() as int,
                b1.occupied.trailing_zeros() as int,
            );
        }
        lemma_bucket_set_all(self.buckets@, f);
        let h = self.homeless_seq();
        assert forall|e: Entity<T>| self@.resident.count(e) > 0 implies e.fire_tick >= self@.ticks
            + r by {
            if bucket_set(self.buckets@).count(e) == 0 {
                assert(h.to_multiset().count(e) > 0);
                assert(h.contains(e));
                let k = choose|k: int| 0 <= k < h.len() && h[k] == e;
                assert(homeless_ok(h[k], t));
                lemma_not_due_before_next_ticks(
                    t,
                    e.fire_tick as int,
                    5,
                    1,
                    b0.occupied.trailing_zeros() as int,
                    b1.occupied.trailing_zeros() as int,
                );
            } else {
                assert(f(e));
            }
        }
    }

    /// Every entity the wheel holds is still to come: its `fire_tick` lies after the
    /// current tick.
    pub proof fn lemma_resident_after_now(&self)
        requires
            self.wf(),
        ensures
            forall|e: Entity<T>| self@.resident.count(e) > 0 ==> e.fire_tick > self@.ticks,
    {
        let now = self.ticks as int;
        let f = |e: Entity<T>| e.fire_tick > now;
        assert forall|l: int, q: int, k: int|
            0 <= l < self.buckets@.len() && 0 <= q < self.buckets@[l]@.slots.len() && 0 <= k
                < self.buckets@[l]@.slots[q].len() implies f(
            #[trigger] self.buckets@[l]@.slots[q][k],
        ) by {
            assert(self.bucket_synced(l, now));
        }
        lemma_bucket_set_all(self.buckets@, f);
        let h = self.homeless_seq();
        assert forall|e: Entity<T>| self@.resident.count(e) > 0 implies e.fire_tick
            > self@.ticks by {
            if bucket_set(self.buckets@).count(e) == 0 {
                assert(h.to_multiset().count(e) > 0);
                assert(h.contains(e));
                let k = choose|k: int| 0 <= k < h.len() && h[k] == e;
                assert(homeless_ok(h[k], now));
            }
        }
    }

    /// A bucket that agrees with tick `t0` agrees with any later tick in the same
    /// slot of its level.
    proof fn lemma_synced_later(&self, l: int, t0: int, target: int)
        requires
            0 <= l < 6,
            0 <= t0 <= target,
            self.bucket_synced(l, t0),
            t0 / level_span(l) == target / level_span(l),
        ensures
            self.bucket_synced(l, target),
    {
        let b = self.buckets@[l];
        assert forall|q: int, k: int|
            0 <= q < 64 && 0 <= k < b@.slots[q].len() implies placed(
            #[trigger] b@.slots[q][k],
            l,
            ring_dist(b@.cursor, q),
            target,
        ) by {
            if ring_dist(b@.cursor, q) == 0 {
                assert(q == b@.cursor);
            }
            let e = b@.slots[q][k];
            assert(placed(e, l, ring_dist(b@.cursor, q), t0));
            lemma_div_lt_implies_lt(target, e.fire_tick as int, l);
        }
    }

    /// Advances the wheel to `target`, at most `u32::MAX` ticks on, handing the
    /// entities that came due to `out`.
    fn advance(&mut self, target: u64, out: &mut Vec<Entity<T>>)
        requires
            old(self).wf(),
            old(self).ticks < target,
            target - old(self).ticks <= u32::MAX,
        ensures
            final(self).wf(),
            final(self).ticks == target,
            final(self)@.resident.add(final(out)@.to_multiset()) =~= old(self)@.resident.add(
                old(out)@.to_multiset(),
            ),
            final(out)@.len() >= old(out)@.len(),
            final(out)@.subrange(0, old(out)@.len() as int) == old(out)@,
            forall|k: int|
                old(out)@.len() <= k < final(out)@.len() ==> (#[trigger] final(out)@[k]).fire_tick
                    <= target,
    {
        let ghost t0 = self.ticks as int;
        let ghost r0 = self@.resident;
        let ghost out0 = out@;
        let mut times: u32 = (target - self.ticks) as u32;
        self.ticks = target;
        let mut level: usize = 0;
        proof {
            assert forall|l: int| 0 <= l < 6 implies #[trigger] self.bucket_synced(l, t0) by {
                assert(old(self).bucket_synced(l, t0));
            }
            lemma_level_span_values();
        }
        while level < LEVEL_COUNT && times > 0
            invariant
                self.ticks == target,
                0 <= t0 < target,
                target - t0 <= u32::MAX,
                level <= 6,
                self.layout(level as int, t0, t0),
                level < 6 ==> times == target as int / level_span(level as int) - t0 / level_span(
                    level as int,
                ),
                self@.resident.add(out@.to_multiset()) =~= r0.add(out0.to_multiset()),
                out@.len() >= out0.len(),
                out@.subrange(0, out0.len() as int) == out0,
                forall|k: int|
                    out0.len() <= k < out@.len() ==> (#[trigger] out@[k]).fire_tick <= target,
            decreases 6 - level,
        {
            let ghost before = *self;
            let ghost l = level as int;
            let ghost old_b = self.buckets@[l];
            proof {
                assert(self.bucket_synced(l, t0));
            }
            let (result, next_level_tick_times) = self.buckets[level].tick(times);
            let ghost mid = *self;
            let ghost new_b = self.buckets@[l];
            let ghost gone = drained(old_b@.slots, old_b@.cursor, reach(times));
            proof {
                assert(self.buckets@ == before.buckets@.update(l, new_b));
                lemma_tick_resyncs(old_b@, new_b@, l, t0, target as int, times);
                lemma_cascade(t0, target as int, l);
                assert(self.bucket_synced(l, target as int));
                assert forall|j: int| 0 <= j < l + 1 implies #[trigger] self.bucket_synced(
                    j,
                    target as int,
                ) by {
                    if j != l {
                        assert(self.buckets@[j] == before.buckets@[j]);
                        assert(before.bucket_synced(j, target as int));
                    }
                }
                assert forall|j: int| l + 1 <= j < 6 implies #[trigger] self.bucket_synced(
                    j,
                    t0,
                ) by {
                    assert(self.buckets@[j] == before.buckets@[j]);
                    assert(before.bucket_synced(j, t0));
                }
                assert(self.homeless_seq() == before.homeless_seq());
                assert(self.layout(l + 1, t0, t0));
                lemma_cleared_sets(old_b@.slots, old_b@.cursor, reach(times));
                lemma_bucket_set_update(before.buckets@, l, new_b);
                assert forall|v: Entity<T>| #[trigger] self@.resident.add(gone.to_multiset()).count(
                    v,
                ) == before@.resident.count(v) by {
                    assert(bucket_set(self.buckets@).add(slot_set(old_b@.slots)).count(v)
                        == bucket_set(before.buckets@).add(slot_set(new_b@.slots)).count(v));
                }
                let f = |e: Entity<T>| e.fire_tick - target < level_span(l + 1);
                assert forall|q: int, k: int|
                    0 <= q < 64 && 0 <= k < old_b@.slots[q].len() implies f(
                    #[trigger] old_b@.slots[q][k],
                ) by {
                    assert(placed(old_b@.slots[q][k], l, ring_dist(old_b@.cursor, q), t0));
                }
                lemma_drained_all(old_b@.slots, old_b@.cursor, reach(times), f);
                assert forall|k: int| 0 <= k < gone.len() implies (#[trigger] gone[k]).fire_tick
                    - target < level_span(l + 1) by {
                    assert(f(gone[k]));
                }
            }
            match result {
                Some(entities) => {
                    proof {
                        assert forall|k: int| 0 <= k < entities@.len() implies (
                        #[trigger] entities@[k]).fire_tick - self.ticks < level_span(l + 1) by {
                            assert(gone[k].fire_tick - target < level_span(l + 1));
                        }
                    }
                    let ghost prev = out@;
                    self.dispose_of(entities, out, Ghost(l + 1), Ghost(t0), Ghost(t0));
                    proof {
                        lemma_out_extends(out0, prev, out@, target as int);
                        assert forall|v: Entity<T>| #[trigger] self@.resident.add(
                            out@.to_multiset(),
                        ).count(v) == r0.add(out0.to_multiset()).count(v) by {
                            assert(mid@.resident.add(gone.to_multiset()).count(v)
                                == before@.resident.count(v));
                        }
                    }
                },
                None => {
                    proof {
                        assert(gone.to_multiset() =~= Multiset::empty());
                        assert forall|v: Entity<T>| #[trigger] self@.resident.add(
                            out@.to_multiset(),
                        ).count(v) == r0.add(out0.to_multiset()).count(v) by {
                            assert(mid@.resident.add(gone.to_multiset()).count(v)
                                == before@.resident.count(v));
                        }
                    }
                },
            }
            level = level + 1;
            times = next_level_tick_times;
        }
        if level == LEVEL_COUNT {
            let ghost before = *self;
            let homeless = self.homeless.take();
            proof {
                assert(self.homeless_seq() =~= Seq::<Entity<T>>::empty());
                assert forall|j: int| 0 <= j < 6 implies #[trigger] self.bucket_synced(
                    j,
                    target as int,
                ) by {
                    assert(before.bucket_synced(j, target as int));
                }
                assert(self.layout(6, t0, target as int));
            }
            match homeless {
                Some(entities) => {
                    let ghost prev = out@;
                    self.dispose_of(entities, out, Ghost(6), Ghost(t0), Ghost(target as int));
                    proof {
                        lemma_out_extends(out0, prev, out@, target as int);
                        assert forall|v: Entity<T>| #[trigger] self@.resident.add(
                            out@.to_multiset(),
                        ).count(v) == r0.add(out0.to_multiset()).count(v) by {
                            assert(bucket_set(before.buckets@).add(entities@.to_multiset())
                                == before@.resident);
                        }
                    }
                },
                None => {
                    proof {
                        assert(before.homeless_seq() =~= Seq::<Entity<T>>::empty());
                        assert(self@.resident =~= before@.resident);
                    }
                },
            }
            proof {
                assert forall|j: int| 0 <= j < 6 implies #[trigger] self.bucket_synced(
                    j,
                    self.ticks as int,
                ) by {
                    assert(self.bucket_synced(j, target as int));
                }
            }
        } else {
            proof {
                let l = level as int;
                lemma_same_epoch_above(t0, target as int, l, 5);
                assert forall|j: int| 0 <= j < 6 implies #[trigger] self.bucket_synced(
                    j,
                    self.ticks as int,
                ) by {
                    if j >= l {
                        lemma_same_epoch_above(t0, target as int, l, j);
                        self.lemma_synced_later(j, t0, target as int);
                    }
                }
                assert forall|k: int| 0 <= k < self.homeless_seq().len() implies homeless_ok(
                    #[trigger] self.homeless_seq()[k],
                    self.ticks as int,
                ) by {
                    let e = self.homeless_seq()[k];
                    assert(homeless_ok(e, t0));
                    lemma_div_lt_implies_lt(target as int, e.fire_tick as int, 5);
                }
            }
        }
    }

    /// Advances the wheel to tick `target` and returns every entity that came due,
    /// that is whose `fire_tick` is at most `target`. A target that is not ahead of
    /// the wheel leaves it as it is.
    pub fn tick_to(&mut self, target: u64) -> (r: Vec<Entity<T>>)
        requires
            old(self).wf(),
        ensures
            final(self).wf(),
            ticked(old(self)@, final(self)@, target, r@),
            target <= old(self)@.ticks ==> *final(self) == *old(self) && r@.len() == 0,
    {
        let mut out: Vec<Entity<T>> = Vec::new();
        let ghost r0 = self@.resident;
        let ghost start = *self;
        proof {
            assert(out@.to_multiset() =~= Multiset::empty());
        }
        while self.ticks < target
            invariant
                self.wf(),
                start.ticks <= self.ticks,
                target > start.ticks ==> self.ticks <= target,
                target <= start.ticks ==> *self == start && out@.len() == 0,
                self@.resident.add(out@.to_multiset()) =~= r0,
                forall|k: int| 0 <= k < out@.len() ==> (#[trigger] out@[k]).fire_tick <= self.ticks,
            decreases target - self.ticks,
        {
            let ghost prev = out@;
            let step_target = if target - self.ticks > u32::MAX as u64 {
                self.ticks + u32::MAX as u64
            } else {
                target
            };
            self.advance(step_target, &mut out);
            proof {
                assert forall|k: int| 0 <= k < out@.len() implies (#[trigger] out@[k]).fire_tick
                    <= self.ticks by {
                    if k < prev.len() {
                        assert(out@[k] == out@.subrange(0, prev.len() as int)[k]);
                    }
                }
            }
        }
        proof {
            self.lemma_resident_after_now();
            assert forall|v: Entity<T>| #[trigger] out@.to_multiset().add(self@.resident).count(v)
                == r0.count(v) by {
                assert(self@.resident.add(out@.to_multiset()).count(v) == r0.count(v));
            }
            assert(out@.to_multiset().add(self@.resident) =~= r0);
        }
        out
    }
}

proof fn lemma_span_step(x: int, level: int)
    requires
        0 <= x,
        0 <= level < 6,
    ensures
        x / level_span(level + 1) == (x / level_span(level)) / 64,
{
    lemma_level_span_values();
    vstd::arithmetic::div_mod::lemma_div_denominator(x, level_span(level), 64);
    assert(level_span(level) * 64 == level_span(level + 1));
}

/// Ticking a level by the difference of two ticks' quotients moves its cursor to
/// the later tick's slot and owes the next level the difference of its quotients.
proof fn lemma_cascade(t0: int, target: int, level: int)
    requires
        0 <= t0 <= target,
        0 <= level < 6,
    ensures
        ((t0 / level_span(level)) % 64 + (target / level_span(level) - t0 / level_span(level)))
            % 64 == (target / level_span(level)) % 64,
        ((t0 / level_span(level)) % 64 + (target / level_span(level) - t0 / level_span(level)))
            / 64 == target / level_span(level + 1) - t0 / level_span(level + 1),
{
    lemma_span_step(t0, level);
    lemma_span_step(target, level);
    let a = t0 / level_span(level);
    let b = target / level_span(level);
    assert(a % 64 + (b - a) == b - 64 * (a / 64));
    vstd::arithmetic::div_mod::lemma_mod_multiples_vanish(-(a / 64), b, 64);
    vstd::arithmetic::div_mod::lemma_hoist_over_denominator(b, -(a / 64), 64);
    assert(b + -(a / 64) * 64 == b - 64 * (a / 64));
    assert(64 * -(a / 64) + b == b - 64 * (a / 64));
}

/// Two ticks in the same slot of a level are in the same slot of the level above.
proof fn lemma_same_epoch_up(x: int, y: int, level: int)
    requires
        0 <= x,
        0 <= y,
        0 <= level < 6,
        x / level_span(level) == y / level_span(level),
    ensures
        x / level_span(level + 1) == y / level_span(level + 1),
{
    lemma_span_step(x, level);
    lemma_span_step(y, level);
}

proof fn lemma_div_lt_implies_lt(x: int, y: int, level: int)
    requires
        0 <= level <= 6,
        x / level_span(level) < y / level_span(level),
    ensures
        x < y,
{
    lemma_level_span_values();
    if y <= x {
        vstd::arithmetic::div_mod::lemma_div_is_ordered(y, x, level_span(level));
    }
}

/// Every entity that a tick drains comes out of one of the bucket's slots.
proof fn lemma_drained_all<T>(
    slots: Seq<Seq<Entity<T>>>,
    c: int,
    n: int,
    f: spec_fn(Entity<T>) -> bool,
)
    requires
        slots.len() == 64,
        forall|q: int, k: int|
            0 <= q < 64 && 0 <= k < slots[q].len() ==> f(#[trigger] slots[q][k]),
    ensures
        forall|k: int|
            0 <= k < drained(slots, c, n).len() ==> f(#[trigger] drained(slots, c, n)[k]),
    decreases n,
{
    reveal(drained);
    if n > 0 {
        lemma_drained_all(slots, c, n - 1, f);
        let prev = drained(slots, c, n - 1);
        let last = slots[(c + n) % 64];
        assert forall|k: int| 0 <= k < drained(slots, c, n).len() implies f(
            #[trigger] drained(slots, c, n)[k],
        ) by {
            if k < prev.len() {
                assert(drained(slots, c, n)[k] == prev[k]);
            } else {
                assert(drained(slots, c, n)[k] == last[k - prev.len()]);
            }
        }
    }
}

/// What a tick drains and what it leaves together are what the ring held.
proof fn lemma_cleared_sets<T>(slots: Seq<Seq<Entity<T>>>, c: int, n: int)
    requires
        slots.len() == 64,
        0 <= c < 64,
        0 <= n <= 63,
    ensures
        slot_set(slots) =~= slot_set(cleared(slots, c, n)).add(drained(slots, c, n).to_multiset()),
    decreases n,
{
    reveal(cleared);
    reveal(drained);
    if n == 0 {
        assert(cleared(slots, c, 0) =~= slots);
        assert(drained(slots, c, 0) =~= Seq::<Entity<T>>::empty());
    } else {
        lemma_cleared_sets(slots, c, n - 1);
        let pos = (c + n) % 64;
        let prev = cleared(slots, c, n - 1);
        assert(ring_dist(c, pos) == n);
        assert(cleared(slots, c, n) =~= prev.update(pos, Seq::empty()));
        assert(prev[pos] == slots[pos]);
        lemma_slot_set_update(prev, pos, Seq::empty());
        let d0 = drained(slots, c, n - 1);
        vstd::seq_lib::lemma_multiset_commutative(d0, slots[pos]);
        let lhs = slot_set(slots);
        let rhs = slot_set(cleared(slots, c, n)).add(drained(slots, c, n).to_multiset());
        assert(Seq::<Entity<T>>::empty().to_multiset() =~= Multiset::empty());
        assert forall|v: Entity<T>| #[trigger] lhs.count(v) == rhs.count(v) by {
            assert(slot_set(cleared(slots, c, n)).add(slots[pos].to_multiset()).count(v)
                == slot_set(prev).add(Seq::<Entity<T>>::empty().to_multiset()).count(v));
        }
    }
}

/// After a level was ticked from `t0` on to `target`, the entities left in it sit
/// where `target` wants them.
proof fn lemma_tick_resyncs<T>(
    old_b: BucketView<T>,
    new_b: BucketView<T>,
    level: int,
    t0: int,
    target: int,
    times: u32,
)
    requires
        0 <= t0 < target,
        0 <= level < 6,
        old_b.wf(),
        old_b.cursor == (t0 / level_span(level)) % 64,
        forall|q: int, k: int|
            0 <= q < 64 && 0 <= k < old_b.slots[q].len() ==> placed(
                #[trigger] old_b.slots[q][k],
                level,
                ring_dist(old_b.cursor, q),
                t0,
            ),
        times == target / level_span(level) - t0 / level_span(level),
        new_b.slots == cleared(old_b.slots, old_b.cursor, reach(times)),
        new_b.cursor == (old_b.cursor + times) % 64,
    ensures
        new_b.cursor == (target / level_span(level)) % 64,
        forall|q: int, k: int|
            0 <= q < 64 && 0 <= k < new_b.slots[q].len() ==> placed(
                #[trigger] new_b.slots[q][k],
                level,
                ring_dist(new_b.cursor, q),
                target,
            ),
{
    reveal(cleared);
    lemma_cascade(t0, target, level);
    lemma_level_span_values();
    assert forall|q: int, k: int|
        0 <= q < 64 && 0 <= k < new_b.slots[q].len() implies placed(
        #[trigger] new_b.slots[q][k],
        level,
        ring_dist(new_b.cursor, q),
        target,
    ) by {
        let d = ring_dist(old_b.cursor, q);
        assert(new_b.slots[q] == old_b.slots[q]);
        if d == 0 {
            assert(q == old_b.cursor);
        }
        assert(d > times);
        assert(ring_dist(new_b.cursor, q) == d - times);
        let e = old_b.slots[q][k];
        assert(placed(e, level, d, t0));
        lemma_div_lt_implies_lt(target, e.fire_tick as int, level);
    }

}

proof fn lemma_same_epoch_above(x: int, y: int, level: int, l: int)
    requires
        0 <= x,
        0 <= y,
        0 <= level <= l <= 6,
        x / level_span(level) == y / level_span(level),
    ensures
        x / level_span(l) == y / level_span(l),
    decreases l - level,
{
    if l > level {
        lemma_same_epoch_above(x, y, level, l - 1);
        lemma_same_epoch_up(x, y, l - 1);
    }
}

proof fn lemma_slot_set_all<T>(slots: Seq<Seq<Entity<T>>>, f: spec_fn(Entity<T>) -> bool)
    requires
        forall|q: int, k: int|
            0 <= q < slots.len() && 0 <= k < slots[q].len() ==> f(#[trigger] slots[q][k]),
    ensures
        forall|e: Entity<T>| slot_set(slots).count(e) > 0 ==> f(e),
    decreases slots.len(),
{
    if slots.len() > 0 {
        let d = slots.drop_last();
        assert forall|q: int, k: int| 0 <= q < d.len() && 0 <= k < d[q].len() implies f(
            #[trigger] d[q][k],
        ) by {
            assert(d[q] == slots[q]);
        }
        lemma_slot_set_all(d, f);
        let last = slots.last();
        assert forall|e: Entity<T>| slot_set(slots).count(e) > 0 implies f(e) by {
            if slot_set(d).count(e) == 0 {
                assert(last.to_multiset().count(e) > 0);
                assert(last.contains(e));
                let k = choose|k: int| 0 <= k < last.len() && last[k] == e;
                assert(f(slots[slots.len() - 1][k]));
            }
        }
    }
}

proof fn lemma_bucket_set_all<T>(buckets: Seq<Bucket<T>>, f: spec_fn(Entity<T>) -> bool)
    requires
        forall|l: int, q: int, k: int|
            0 <= l < buckets.len() && 0 <= q < buckets[l]@.slots.len() && 0 <= k
                < buckets[l]@.slots[q].len() ==> f(#[trigger] buckets[l]@.slots[q][k]),
    ensures
        forall|e: Entity<T>| bucket_set(buckets).count(e) > 0 ==> f(e),
    decreases buckets.len(),
{
    if buckets.len() > 0 {
        let d = buckets.drop_last();
        assert forall|l: int, q: int, k: int|
            0 <= l < d.len() && 0 <= q < d[l]@.slots.len() && 0 <= k < d[l]@.slots[q].len() implies f(
            #[trigger] d[l]@.slots[q][k],
        ) by {
            assert(d[l] == buckets[l]);
        }
        lemma_bucket_set_all(d, f);
        let last = buckets.last();
        assert forall|q: int, k: int|
            0 <= q < last@.slots.len() && 0 <= k < last@.slots[q].len() implies f(
            #[trigger] last@.slots[q][k],
        ) by {
            assert(f(buckets[buckets.len() - 1]@.slots[q][k]));
        }
        lemma_slot_set_all(last@.slots, f);
        assert(bucket_set(buckets) == bucket_set(d).add(slot_set(last@.slots)));
        assert forall|e: Entity<T>| bucket_set(buckets).count(e) > 0 implies f(e) by {
            if bucket_set(d).count(e) == 0 {
                assert(slot_set(last@.slots).count(e) > 0);
            }
        }
    }
}

/// Appending due entities twice in a row is appending them once.
proof fn lemma_out_extends<T>(
    out0: Seq<Entity<T>>,
    prev: Seq<Entity<T>>,
    cur: Seq<Entity<T>>,
    bound: int,
)
    requires
        prev.len() >= out0.len(),
        prev.subrange(0, out0.len() as int) == out0,
        forall|k: int| out0.len() <= k < prev.len() ==> (#[trigger] prev[k]).fire_tick <= bound,
        cur.len() >= prev.len(),
        cur.subrange(0, prev.len() as int) == prev,
        forall|k: int| prev.len() <= k < cur.len() ==> (#[trigger] cur[k]).fire_tick <= bound,
    ensures
        cur.subrange(0, out0.len() as int) == out0,
        forall|k: int| out0.len() <= k < cur.len() ==> (#[trigger] cur[k]).fire_tick <= bound,
{
    assert(cur.subrange(0, out0.len() as int) =~= prev.subrange(0, out0.len() as int));
    assert forall|k: int| out0.len() <= k < cur.len() implies (#[trigger] cur[k]).fire_tick
        <= bound by {
        if k < prev.len() {
            assert(cur[k] == cur.subrange(0, prev.len() as int)[k]);
        }
    }
}

/// Order between two ticks' quotients at a level carries over to every level above.
proof fn lemma_quotient_le_up(x: int, y: int, j: int, l: int)
    requires
        0 <= x,
        0 <= y,
        0 <= j <= l <= 6,
    ensures
        x / level_span(j) <= y / level_span(j) ==> x / level_span(l) <= y / level_span(l),
    decreases l - j,
{
    if l > j {
        lemma_quotient_le_up(x, y, j, l - 1);
        lemma_span_step(x, l - 1);
        lemma_span_step(y, l - 1);
        if x / level_span(l - 1) <= y / level_span(l - 1) {
            vstd::arithmetic::div_mod::lemma_div_is_ordered(
                x / level_span(l - 1),
                y / level_span(l - 1),
                64,
            );
        }
    }
}

/// An entity placed `d` slots ahead at `level` is not due before the wheel's
/// `next_ticks`, given the free runs `tz0` and `tz1` of levels 0 and 1.
proof fn lemma_not_due_before_next_ticks(t: int, fire: int, level: int, d: int, tz0: int, tz1: int)
    requires
        0 <= t,
        0 <= fire,
        0 <= level < 6,
        1 <= d < 64,
        t / level_span(level) + d <= fire / level_span(level),
        0 <= tz0 <= 64,
        0 <= tz1 <= 64,
        level == 0 ==> d >= 1 + tz0,
        level == 1 ==> d >= 1 + tz1,
    ensures
        fire >= t + widened(
            vstd::math::min(64 - t % 64, tz0),
            vstd::math::min(64 - (t / 64) % 64, tz1) * 64,
        ),
{
    lemma_level_span_values();
    let n0 = vstd::math::min(64 - t % 64, tz0);
    let n1 = vstd::math::min(64 - (t / 64) % 64, tz1) * 64;
    if level == 0 {
        assert(fire >= t + d);
    } else {
        lemma_quotient_le_up(fire, t, 1, level);
        assert(fire / 64 > t / 64);
        assert(fire >= 64 * (t / 64) + 64);
        if n0 == 64 {
            assert(t % 64 == 0);
            if level == 1 {
                assert(fire >= 64 * (t / 64) + 64 * d);
            } else {
                lemma_quotient_le_up(fire, t, 2, level);
                assert(fire / 4096 > t / 4096);
                assert(t % 4096 == 64 * ((t / 64) % 64) + t % 64);
                assert(fire >= 4096 * (t / 4096) + 4096);
            }
        }
    }
}

proof fn lemma_fits_slot_index(offset: int, level: int)
    requires
        level_fits(offset, level),
        offset > 0,
    ensures
        1 <= offset / level_span(level) < 64,
{
    lemma_level_span_values();
}

proof fn lemma_level_span_values()
    ensures
        level_span(0) == 1,
        level_span(1) == 64,
        level_span(2) == 4096,
        level_span(3) == 262144,
        level_span(4) == 16777216,
        level_span(5) == 1073741824,
        level_span(6) == 68719476736,
{
}

proof fn lemma_empty_slots_hold_nothing<T>(slots: Seq<Seq<Entity<T>>>)
    requires
        forall|q: int| 0 <= q < slots.len() ==> (#[trigger] slots[q]).len() == 0,
    ensures
        slot_set(slots) =~= Multiset::empty(),
    decreases slots.len(),
{
    if slots.len() > 0 {
        lemma_empty_slots_hold_nothing(slots.drop_last());
        assert(slots.last() =~= Seq::<Entity<T>>::empty());
    }
}

} // verus!
