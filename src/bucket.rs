use vstd::prelude::*;

use crate::slot::{Entity, Slot};

verus! {

/// Number of slots in a bucket ring.
pub const SLOT_NUM: u32 = 64;

/// `SLOT_NUM` as a power of two.
pub const SLOT_NUM_POWER_OF_2: u32 = 6;

const SLOT_NUM_MASK: u32 = 63;

/// Ticks of the wheel that one slot of a bucket at `level` spans: 64 to the power `level`.
pub open spec fn level_span(level: int) -> int {
    if level <= 0 {
        1
    } else if level == 1 {
        64
    } else if level == 2 {
        4096
    } else if level == 3 {
        262144
    } else if level == 4 {
        16777216
    } else if level == 5 {
        1073741824
    } else {
        68719476736
    }
}

/// Bit `i` of an occupancy word.
pub open spec fn bit_set(occupied: u64, i: int) -> bool {
    (occupied >> (i as u64)) & 1u64 == 1u64
}

/// Distance, going forward round the ring, from the cursor to slot `p`.
pub open spec fn ring_dist(cursor: int, p: int) -> int {
    (p - cursor) % 64
}

/// What a bucket holds, slot by slot, together with its bookkeeping.
pub struct BucketView<T> {
    pub slots: Seq<Seq<Entity<T>>>,
    pub occupied: u64,
    pub cursor: int,
    pub level: int,
}

impl<T> BucketView<T> {
    /// Bit `i` of `occupied` is set exactly when the slot `i + 1` places ahead of
    /// the cursor holds an entity.
    pub open spec fn occupancy_agrees(self) -> bool {
        forall|i: int|
            0 <= i < 64 ==> (#[trigger] bit_set(self.occupied, i) <==> self.slots[(self.cursor + i
                + 1) % 64].len() > 0)
    }

    pub open spec fn wf(self) -> bool {
        &&& self.slots.len() == 64
        &&& 0 <= self.cursor < 64
        &&& 0 <= self.level < 6
        &&& self.slots[self.cursor].len() == 0
        &&& self.occupancy_agrees()
    }

    /// How many ticks of the wheel the bucket can be advanced by before its ring
    /// wraps or its cursor meets an occupied slot.
    pub open spec fn non_stop(self) -> int {
        vstd::math::min(64 - self.cursor, self.occupied.trailing_zeros() as int) * level_span(
            self.level,
        )
    }

    /// The slot, counted forward from the cursor, that an offset falls into at this level.
    pub open spec fn slot_index(self, offset: u64) -> int {
        offset as int / level_span(self.level)
    }

    /// The bucket after `entity` was filed under `offset`.
    pub open spec fn with_added(self, entity: Entity<T>, offset: u64) -> Self {
        let k = self.slot_index(offset);
        let p = (self.cursor + k) % 64;
        BucketView {
            slots: self.slots.update(p, self.slots[p].push(entity)),
            occupied: self.occupied | (1u64 << (k - 1) as u64),
            cursor: self.cursor,
            level: self.level,
        }
    }
}

/// The entities met when the cursor moves `n` slots forward from `cursor`, slot by
/// slot, each slot's entities in their order.
pub open spec fn drained<T>(slots: Seq<Seq<Entity<T>>>, cursor: int, n: int) -> Seq<Entity<T>>
    decreases n,
{
    if n <= 0 {
        Seq::empty()
    } else {
        drained(slots, cursor, n - 1) + slots[(cursor + n) % 64]
    }
}

/// The ring after the `n` slots ahead of `cursor` were emptied.
#[verifier::opaque]
pub open spec fn cleared<T>(slots: Seq<Seq<Entity<T>>>, cursor: int, n: int) -> Seq<
    Seq<Entity<T>>,
> {
    Seq::new(
        slots.len(),
        |q: int|
            if 1 <= ring_dist(cursor, q) <= n {
                Seq::empty()
            } else {
                slots[q]
            },
    )
}

/// How many distinct slots a tick of `times` can reach.
pub open spec fn reach(times: u32) -> int {
    if times < 63 {
        times as int
    } else {
        63
    }
}

/// One level of the wheel: a ring of 64 slots, the cursor on the slot ticked last,
/// and a word whose bit `i` marks the slot `i + 1` places ahead as occupied.
#[derive(Debug)]
pub struct Bucket<T> {
    occupied: u64,
    cursor: u32,
    slots: Vec<Slot<T>>,
    step_size_in_bits: u32,
    level: u32,
}

impl<T> View for Bucket<T> {
    type V = BucketView<T>;

    closed spec fn view(&self) -> BucketView<T> {
        BucketView {
            slots: self.slots@.map_values(|s: Slot<T>| s@),
            occupied: self.occupied,
            cursor: self.cursor as int,
            level: self.level as int,
        }
    }
}

proof fn lemma_bit_or(occupied: u64, j: u64, i: u64)
    requires
        j < 64,
        i < 64,
    ensures
        ((occupied | (1u64 << j)) >> i) & 1u64 == 1u64 <==> (i == j || (occupied >> i) & 1u64
            == 1u64),
{
    assert(((occupied | (1u64 << j)) >> i) & 1u64 == 1u64 <==> (i == j || (occupied >> i) & 1u64
        == 1u64)) by (bit_vector)
        requires
            j < 64,
            i < 64,
    ;
}

proof fn lemma_shr_is_div_span(x: u64, level: u32)
    requires
        level < 6,
    ensures
        x >> (6 * level) as u64 == x as int / level_span(level as int),
{
    if level == 0 {
        assert(x >> 0u64 == x) by (bit_vector);
    } else if level == 1 {
        assert(x >> 6u64 == x / 64) by (bit_vector);
    } else if level == 2 {
        assert(x >> 12u64 == x / 4096) by (bit_vector);
    } else if level == 3 {
        assert(x >> 18u64 == x / 262144) by (bit_vector);
    } else if level == 4 {
        assert(x >> 24u64 == x / 16777216) by (bit_vector);
    } else {
        assert(x >> 30u64 == x / 1073741824) by (bit_vector);
    }
}

proof fn lemma_shl_is_mul_span(x: u64, level: u32)
    requires
        level < 6,
        x <= 64,
    ensures
        x << (6 * level) as u64 == x * level_span(level as int),
{
    if level == 0 {
        assert(x << 0u64 == x) by (bit_vector);
    } else if level == 1 {
        assert(x <= 64 ==> x << 6u64 == x * 64) by (bit_vector);
    } else if level == 2 {
        assert(x <= 64 ==> x << 12u64 == x * 4096) by (bit_vector);
    } else if level == 3 {
        assert(x <= 64 ==> x << 18u64 == x * 262144) by (bit_vector);
    } else if level == 4 {
        assert(x <= 64 ==> x << 24u64 == x * 16777216) by (bit_vector);
    } else {
        assert(x <= 64 ==> x << 30u64 == x * 1073741824) by (bit_vector);
    }
}

proof fn lemma_shr_bit(occupied: u64, s: u64, i: u64)
    requires
        s < 64,
        i < 64,
    ensures
        ((occupied >> s) >> i) & 1u64 == 1u64 <==> (i + s < 64 && (occupied >> (i + s) as u64)
            & 1u64 == 1u64),
{
    assert(((occupied >> s) >> i) & 1u64 == 1u64 <==> (i + s < 64 && (occupied >> (i + s) as u64)
        & 1u64 == 1u64)) by (bit_vector)
        requires
            s < 64,
            i < 64,
    ;
}

proof fn lemma_zero_has_no_bits(i: int)
    requires
        0 <= i < 64,
    ensures
        !bit_set(0u64, i),
{
    let k = i as u64;
    assert((0u64 >> k) & 1u64 == 0u64) by (bit_vector);
}

/// Every slot of a well-formed bucket whose occupancy word is zero is empty.
proof fn lemma_no_bits_all_empty<T>(v: BucketView<T>)
    requires
        v.wf(),
        v.occupied == 0,
    ensures
        forall|q: int| 0 <= q < 64 ==> (#[trigger] v.slots[q]).len() == 0,
{
    assert forall|q: int| 0 <= q < 64 implies (#[trigger] v.slots[q]).len() == 0 by {
        let i = (q - v.cursor - 1) % 64;
        lemma_zero_has_no_bits(i);
        assert(bit_set(v.occupied, i) <==> v.slots[(v.cursor + i + 1) % 64].len() > 0);
        assert((v.cursor + i + 1) % 64 == q);
    }
}

/// Slots that hold nothing add nothing to what the cursor collects.
proof fn lemma_drained_skip<T>(slots: Seq<Seq<Entity<T>>>, cursor: int, n: int, k: int)
    requires
        0 <= n,
        1 <= k,
        forall|j: int| 1 <= j < k ==> (#[trigger] slots[(cursor + n + j) % 64]).len() == 0,
    ensures
        drained(slots, cursor, n + k) == drained(slots, cursor, n) + slots[(cursor + n + k) % 64],
    decreases k,
{
    reveal(drained);
    if k > 1 {
        lemma_drained_skip(slots, cursor, n, k - 1);
        let e = slots[(cursor + n + (k - 1)) % 64];
        assert(e.len() == 0);
        assert(drained(slots, cursor, n + k - 1) =~= drained(slots, cursor, n));
    }
}

proof fn lemma_drained_tail<T>(slots: Seq<Seq<Entity<T>>>, cursor: int, n: int, m: int)
    requires
        0 <= n <= m,
        forall|j: int| n < j <= m ==> (#[trigger] slots[(cursor + j) % 64]).len() == 0,
    ensures
        drained(slots, cursor, m) == drained(slots, cursor, n),
    decreases m - n,
{
    reveal(drained);
    if m > n {
        lemma_drained_tail(slots, cursor, n, m - 1);
        assert(drained(slots, cursor, m) =~= drained(slots, cursor, m - 1));
    }
}

/// Bit `i` of a well-formed bucket speaks for the slot `i + 1` places ahead.
proof fn lemma_agrees_at<T>(v: BucketView<T>, i: int)
    requires
        v.wf(),
        0 <= i < 64,
    ensures
        bit_set(v.occupied, i) <==> v.slots[(v.cursor + i + 1) % 64].len() > 0,
{
}

/// The ring positions: slot `q` lies `ring_dist(c0, q)` places ahead of `c0`.
proof fn lemma_ring_pos(c0: int, p: int, q: int)
    requires
        0 <= c0 < 64,
        0 <= q < 64,
        0 <= p,
    ensures
        0 <= ring_dist(c0, q) < 64,
        ((c0 + p) % 64 + (ring_dist(c0, q) - p - 1) + 1) % 64 == q,
        (c0 + ring_dist(c0, q)) % 64 == q,
{
}

proof fn lemma_mod_add(a: int, b: int)
    requires
        0 <= a,
        0 <= b,
    ensures
        (a % 64 + b) % 64 == (a + b) % 64,
{
}

/// Moving the cursor over `s` empty slots and then draining the next one keeps
/// `cleared` and `drained` in step with the distance travelled.
#[verifier::rlimit(40)]
proof fn lemma_skip_then_take<T>(
    orig: Seq<Seq<Entity<T>>>,
    c0: int,
    p: int,
    mid: BucketView<T>,
    s: int,
)
    requires
        mid.wf(),
        orig.len() == 64,
        0 <= c0 < 64,
        0 <= p,
        0 <= s,
        p + s + 1 <= 63,
        mid.slots == cleared(orig, c0, p),
        mid.cursor == (c0 + p) % 64,
        forall|i: int| 0 <= i < s ==> !#[trigger] bit_set(mid.occupied, i),
    ensures
        mid.slots.update((c0 + p + s + 1) % 64, Seq::empty()) == cleared(orig, c0, p + s + 1),
        mid.slots[(c0 + p + s + 1) % 64] == orig[(c0 + p + s + 1) % 64],
        drained(orig, c0, p + s + 1) == drained(orig, c0, p) + orig[(c0 + p + s + 1) % 64],
{
    reveal(cleared);
    let landing = (c0 + p + s + 1) % 64;
    assert(ring_dist(c0, landing) == p + s + 1);
    assert forall|j: int| 1 <= j < s + 1 implies (#[trigger] orig[(c0 + p + j) % 64]).len() == 0 by {
        let q = (c0 + p + j) % 64;
        lemma_ring_pos(c0, p, q);
        assert(ring_dist(c0, q) == p + j);
        lemma_agrees_at(mid, j - 1);
    }
    lemma_drained_skip(orig, c0, p, s + 1);
    let lhs = mid.slots.update(landing, Seq::empty());
    let rhs = cleared(orig, c0, p + s + 1);
    assert forall|q: int| 0 <= q < 64 implies #[trigger] lhs[q] =~= rhs[q] by {
        lemma_ring_pos(c0, p, q);
        let d = ring_dist(c0, q);
        if p < d <= p + s {
            lemma_agrees_at(mid, d - p - 1);
        }
    }
    assert(lhs =~= rhs);
}

/// Moving the cursor from `p` to `n` places ahead of `c0` over empty slots changes
/// neither `cleared` nor `drained`.
#[verifier::rlimit(40)]
proof fn lemma_skip_tail<T>(orig: Seq<Seq<Entity<T>>>, c0: int, p: int, mid: BucketView<T>, n: int)
    requires
        mid.wf(),
        orig.len() == 64,
        0 <= c0 < 64,
        0 <= p <= n <= 63,
        mid.slots == cleared(orig, c0, p),
        mid.cursor == (c0 + p) % 64,
        forall|i: int| 0 <= i < n - p ==> !#[trigger] bit_set(mid.occupied, i),
    ensures
        mid.slots == cleared(orig, c0, n),
        drained(orig, c0, n) == drained(orig, c0, p),
{
    reveal(cleared);
    assert forall|j: int| p < j <= n implies (#[trigger] orig[(c0 + j) % 64]).len() == 0 by {
        let q = (c0 + j) % 64;
        lemma_ring_pos(c0, p, q);
        assert(ring_dist(c0, q) == j);
        lemma_agrees_at(mid, j - p - 1);
    }
    lemma_drained_tail(orig, c0, p, n);
    let rhs = cleared(orig, c0, n);
    assert forall|q: int| 0 <= q < 64 implies #[trigger] mid.slots[q] =~= rhs[q] by {
        lemma_ring_pos(c0, p, q);
        let d = ring_dist(c0, q);
        if p < d <= n {
            lemma_agrees_at(mid, d - p - 1);
        }
    }
    assert(mid.slots =~= rhs);
}

/// Moving the cursor of a well-formed bucket over empty slots, with the occupancy
/// word shifted along, keeps it well formed.
proof fn lemma_advance_keeps_wf<T>(before: BucketView<T>, step: int, after: BucketView<T>)
    requires
        before.wf(),
        0 <= step < 0x1_0000_0000,
        forall|i: int| 0 <= i < step && i < 64 ==> !#[trigger] bit_set(before.occupied, i),
        after.slots == before.slots,
        after.level == before.level,
        after.cursor == (before.cursor + step) % 64,
        after.occupied == if step >= 64 {
            0u64
        } else {
            before.occupied >> (step as u64)
        },
    ensures
        after.wf(),
{
    if step >= 64 {
        assert forall|q: int| 0 <= q < 64 implies (#[trigger] before.slots[q]).len() == 0 by {
            lemma_ring_pos(before.cursor, 0, q);
            if ring_dist(before.cursor, q) != 0 {
                lemma_agrees_at(before, ring_dist(before.cursor, q) - 1);
            }
        }
        assert forall|i: int| 0 <= i < 64 implies (#[trigger] bit_set(after.occupied, i)
            <==> after.slots[(after.cursor + i + 1) % 64].len() > 0) by {
            lemma_zero_has_no_bits(i);
        }
    } else {
        assert forall|i: int| 0 <= i < 64 implies (#[trigger] bit_set(after.occupied, i)
            <==> after.slots[(after.cursor + i + 1) % 64].len() > 0) by {
            lemma_shr_bit(before.occupied, step as u64, i as u64);
            assert((after.cursor + i + 1) % 64 == (before.cursor + step + i + 1) % 64);
            if i + step < 64 {
                lemma_agrees_at(before, i + step);
            } else {
                let j = i + step - 64;
                assert((before.cursor + step + i + 1) % 64 == (before.cursor + j + 1) % 64);
                lemma_agrees_at(before, j);
            }
        }
        if step > 0 {
            lemma_agrees_at(before, step - 1);
        }
    }
}

/// An occupied slot lies beyond the run of free slots that the occupancy word's
/// trailing zeros count.
pub proof fn lemma_occupied_slot_beyond_free_run<T>(v: BucketView<T>, q: int)
    requires
        v.wf(),
        0 <= q < 64,
        v.slots[q].len() > 0,
    ensures
        ring_dist(v.cursor, q) >= 1 + v.occupied.trailing_zeros(),
{
    let d = ring_dist(v.cursor, q);
    lemma_ring_pos(v.cursor, 0, q);
    if d == 0 {
        assert(q == v.cursor);
    } else {
        lemma_agrees_at(v, d - 1);
        vstd::std_specs::bits::axiom_u64_trailing_zeros(v.occupied);
        if d - 1 < v.occupied.trailing_zeros() {
            let j = (d - 1) as u64;
            assert((v.occupied >> j) & 1u64 == 0u64);
        }
    }
}

impl<T> Bucket<T> {
    pub closed spec fn layout_ok(&self) -> bool {
        &&& self.slots@.len() == 64
        &&& self.step_size_in_bits == 6 * self.level
    }

    pub open spec fn wf(&self) -> bool {
        self@.wf() && self.layout_ok()
    }

    /// An empty bucket for `level` (counted from 0).
    pub fn new(level: u32) -> (r: Self)
        requires
            level < 6,
        ensures
            r.wf(),
            r@.level == level,
            r@.cursor == 0,
            r@.occupied == 0,
            r@.slots == Seq::new(64, |p: int| Seq::<Entity<T>>::empty()),
    {
        let step_size_in_bits = SLOT_NUM_POWER_OF_2 * level;
        let mut slots: Vec<Slot<T>> = Vec::new();
        let mut i: u32 = 0;
        while i < SLOT_NUM
            invariant
                i <= 64,
                slots@.len() == i,
                forall|p: int| 0 <= p < i ==> (#[trigger] slots@[p])@ == Seq::<Entity<T>>::empty(),
            decreases 64 - i,
        {
            slots.push(Slot::new());
            i = i + 1;
        }
        let r = Bucket { occupied: 0, cursor: 0, slots, step_size_in_bits, level };
        assert(r@.slots =~= Seq::new(64, |p: int| Seq::<Entity<T>>::empty()));
        assert forall|i: int| 0 <= i < 64 implies !#[trigger] bit_set(0u64, i) by {
            let k = i as u64;
            assert((0u64 >> k) & 1u64 == 0u64) by (bit_vector);
        }
        r
    }

    /// Files `entity` in the slot `offset >> (6 * level)` places ahead of the cursor.
    pub fn add(&mut self, entity: Entity<T>, offset: u64)
        requires
            old(self).wf(),
            1 <= old(self)@.slot_index(offset) < 64,
        ensures
            final(self).wf(),
            final(self)@ == old(self)@.with_added(entity, offset),
    {
        let ghost before = self@;
        proof {
            lemma_shr_is_div_span(offset, self.level);
        }
        let slot_index = (offset >> (self.step_size_in_bits as u64)) as u32;
        let bit = (slot_index - 1) as u64;
        let occupied = self.occupied;
        self.occupied = occupied | (1u64 << bit);
        let sum = slot_index + self.cursor;
        assert(sum & 63 == sum % 64) by (bit_vector);
        let p = sum & SLOT_NUM_MASK;
        self.slots[p as usize].push(entity);
        let ghost after = before.with_added(entity, offset);
        assert(self@.slots =~= after.slots);
        assert forall|i: int| 0 <= i < 64 implies (#[trigger] bit_set(self.occupied, i)
            <==> self@.slots[(self@.cursor + i + 1) % 64].len() > 0) by {
            lemma_bit_or(occupied, bit, i as u64);
            assert(before.occupancy_agrees());
            assert(bit_set(occupied, i) <==> before.slots[(before.cursor + i + 1) % 64].len() > 0);
        }
    }

    /// How many ticks this bucket can be advanced by before its ring wraps or its
    /// cursor meets an occupied slot, in ticks of the wheel. Zero means the very next
    /// tick at this level has work or wraps.
    pub fn non_stop_ticks(&self) -> (r: u64)
        requires
            self.wf(),
        ensures
            r == self@.non_stop(),
    {
        proof {
            vstd::std_specs::bits::axiom_u64_trailing_zeros(self.occupied);
        }
        let distance_to_zero = (SLOT_NUM - self.cursor) as u64;
        let next_entity_pos = self.occupied.trailing_zeros() as u64;
        let m = if distance_to_zero < next_entity_pos {
            distance_to_zero
        } else {
            next_entity_pos
        };
        proof {
            lemma_shl_is_mul_span(m, self.level);
        }
        m << (self.step_size_in_bits as u64)
    }

    /// Moves the cursor `step` slots forward over slots that are all empty.
    fn advance_empty(&mut self, step: u32)
        requires
            old(self).wf(),
            forall|i: int| 0 <= i < step && i < 64 ==> !#[trigger] bit_set(old(self)@.occupied, i),
        ensures
            final(self).wf(),
            final(self)@.slots == old(self)@.slots,
            final(self)@.level == old(self)@.level,
            final(self)@.cursor == (old(self)@.cursor + step) % 64,
            step < 64 ==> final(self)@.occupied == old(self)@.occupied >> (step as u64),
            step >= 64 ==> final(self)@.occupied == 0,
    {
        let ghost before = self@;
        let sum = self.cursor as u64 + step as u64;
        assert(sum & 63 == sum % 64) by (bit_vector);
        self.cursor = (sum & (SLOT_NUM_MASK as u64)) as u32;
        if step >= 64 {
            self.occupied = 0;
        } else {
            self.occupied = self.occupied >> (step as u64);
        }
        proof {
            lemma_advance_keeps_wf(before, step as int, self@);
        }
    }

    /// Moves the cursor one slot forward and hands out what that slot holds.
    fn take_next(&mut self) -> (r: Option<Vec<Entity<T>>>)
        requires
            old(self).wf(),
        ensures
            final(self).wf(),
            final(self)@.level == old(self)@.level,
            final(self)@.cursor == (old(self)@.cursor + 1) % 64,
            final(self)@.occupied == old(self)@.occupied >> 1u64,
            final(self)@.slots == old(self)@.slots.update(
                (old(self)@.cursor + 1) % 64,
                Seq::empty(),
            ),
            match r {
                Some(v) => v@ == old(self)@.slots[(old(self)@.cursor + 1) % 64],
                None => old(self)@.slots[(old(self)@.cursor + 1) % 64].len() == 0,
            },
    {
        let ghost before = self@;
        let occupied = self.occupied;
        assert(before.occupied == occupied);
        let sum = self.cursor + 1;
        assert(sum & 63 == sum % 64) by (bit_vector);
        self.cursor = sum & SLOT_NUM_MASK;
        let r = self.slots[self.cursor as usize].take();
        self.occupied = occupied >> 1u64;
        assert(self@.slots =~= before.slots.update((before.cursor + 1) % 64, Seq::empty()));
        assert forall|i: int| 0 <= i < 64 implies (#[trigger] bit_set(self.occupied, i)
            <==> self@.slots[(self@.cursor + i + 1) % 64].len() > 0) by {
            lemma_shr_bit(occupied, 1u64, i as u64);
            if i < 63 {
                lemma_agrees_at(before, i + 1);
                assert((self@.cursor + i + 1) % 64 == (before.cursor + (i + 1) + 1) % 64);
            }
        }
        r
    }

    /// Advances the cursor `times` slots. Returns the entities of every slot the
    /// cursor reaches, in ring order (`None` when there are none), and how many times
    /// the ring wrapped, which is how many ticks the next level owes.
    #[verifier::rlimit(50)]
    pub fn tick(&mut self, times: u32) -> (r: (Option<Vec<Entity<T>>>, u32))
        requires
            old(self).wf(),
        ensures
            final(self).wf(),
            final(self)@.level == old(self)@.level,
            final(self)@.cursor == (old(self)@.cursor + times) % 64,
            final(self)@.slots == cleared(old(self)@.slots, old(self)@.cursor, reach(times)),
            r.1 == (old(self)@.cursor + times) / 64,
            match r.0 {
                Some(v) => v@ == drained(old(self)@.slots, old(self)@.cursor, reach(times)) && v@.len()
                    > 0,
                None => drained(old(self)@.slots, old(self)@.cursor, reach(times)).len() == 0,
            },
    {
        let ghost before = self@;
        let ghost c0 = before.cursor;
        let wide = times as u64 + self.cursor as u64;
        assert(wide >> 6u64 == wide / 64) by (bit_vector);
        let next_level_tick_times = (wide >> 6u64) as u32;
        let mut entities: Option<Vec<Entity<T>>> = None;
        let mut left_times: u32 = times;
        proof {
            vstd::std_specs::bits::axiom_u64_trailing_zeros(self.occupied);
            reveal(cleared);
            reveal(drained);
            assert(cleared(before.slots, c0, 0) =~= before.slots);
            lemma_agrees_at(before, 63);
            let o = before.occupied;
            assert((o >> 63u64) & 1u64 != 1u64 ==> o >> 63u64 == 0) by (bit_vector);
        }
        if self.occupied > 0 && times > self.occupied.trailing_zeros() {
            let mut temp_entities: Vec<Entity<T>> = Vec::new();
            while left_times > 0 && self.occupied > 0
                invariant
                    self.wf(),
                    self@.level == before.level,
                    before.wf(),
                    c0 == before.cursor,
                    left_times <= times,
                    times - left_times <= 63,
                    self@.cursor == (c0 + (times - left_times)) % 64,
                    self@.slots == cleared(before.slots, c0, times - left_times),
                    temp_entities@ == drained(before.slots, c0, times - left_times),
                    self.occupied >> (63 - (times - left_times)) as u64 == 0,
                    left_times == times ==> self.occupied == before.occupied && times
                        > before.occupied.trailing_zeros(),
                    left_times < times ==> temp_entities@.len() > 0,
                decreases left_times,
            {
                let ghost p = times - left_times;
                let ghost mid = self@;
                let occupied = self.occupied;
                proof {
                    vstd::std_specs::bits::axiom_u64_trailing_zeros(occupied);
                }
                let non_empty_index = occupied.trailing_zeros();
                proof {
                    let k = non_empty_index as u64;
                    let z = (63 - p) as u64;
                    assert(occupied >> z == 0 && (occupied >> k) & 1u64 == 1u64 && k < 64 ==> k < z)
                        by (bit_vector);
                }
                if left_times <= non_empty_index {
                    self.advance_empty(left_times);
                    proof {
                        lemma_mod_add(c0 + p, left_times as int);
                        lemma_skip_tail(before.slots, c0, p, mid, p + left_times);
                        let z = (63 - p) as u64;
                        let l = left_times as u64;
                        assert(occupied >> z == 0 && l <= z ==> (occupied >> l) >> (z - l) as u64
                            == 0) by (bit_vector);
                    }
                    left_times = 0;
                } else {
                    self.advance_empty(non_empty_index);
                    let taken = self.take_next();
                    proof {
                        lemma_mod_add(c0 + p, non_empty_index as int);
                        lemma_mod_add(c0 + p + non_empty_index, 1);
                        lemma_skip_then_take(before.slots, c0, p, mid, non_empty_index as int);
                        lemma_mod_add(c0 + p, non_empty_index + 1);
                        lemma_agrees_at(mid, non_empty_index as int);
                    }
                    match taken {
                        Some(mut timeout_entities) => {
                            temp_entities.append(&mut timeout_entities);
                        },
                        None => {},
                    }
                    left_times = left_times - non_empty_index - 1;
                    proof {
                        let z = (63 - p) as u64;
                        let l = (non_empty_index + 1) as u64;
                        assert(occupied >> z == 0 && l <= z ==> ((occupied >> (l - 1) as u64)
                            >> 1u64) >> (z - l) as u64 == 0) by (bit_vector);
                    }
                }
            }
            proof {
                let p = times - left_times;
                if left_times > 0 {
                    assert forall|i: int| 0 <= i < reach(times) - p implies !#[trigger] bit_set(
                        self@.occupied,
                        i,
                    ) by {
                        lemma_zero_has_no_bits(i);
                    }
                    lemma_skip_tail(before.slots, c0, p, self@, reach(times));
                }
            }
            entities = Some(temp_entities);
        } else {
            proof {
                assert forall|i: int| 0 <= i < reach(times) implies !#[trigger] bit_set(
                    before.occupied,
                    i,
                ) by {
                    lemma_zero_has_no_bits(i);
                    if before.occupied != 0 {
                        lemma_agrees_at(before, 63);
                        assert(i < times);
                    }
                }
                lemma_skip_tail(before.slots, c0, 0, before, reach(times));
            }
        }
        self.advance_empty(left_times);
        (entities, next_level_tick_times)
    }

    /// The occupancy word.
    pub fn occupied(&self) -> (r: u64)
        ensures
            r == self@.occupied,
    {
        self.occupied
    }

    /// The ring index of the slot ticked last.
    pub fn cursor(&self) -> (r: u32)
        ensures
            r == self@.cursor,
    {
        self.cursor
    }

    /// The level this bucket serves.
    pub fn level(&self) -> (r: u32)
        ensures
            r == self@.level,
    {
        self.level
    }

    /// How far an offset is shifted right to give its slot index: six bits per level.
    pub fn step_size_in_bits(&self) -> (r: u32)
        requires
            self.wf(),
        ensures
            r == 6 * self@.level,
    {
        self.step_size_in_bits
    }

    /// Number of slots in the ring.
    pub fn slot_count(&self) -> (r: usize)
        requires
            self.wf(),
        ensures
            r == 64,
    {
        self.slots.len()
    }

    /// The entities held by the slot at ring index `index`, oldest first.
    pub fn items_at(&self, index: usize) -> (r: Option<&Vec<Entity<T>>>)
        requires
            self.wf(),
            index < 64,
        ensures
            match r {
                Some(v) => v@ == self@.slots[index as int],
                None => self@.slots[index as int].len() == 0,
            },
    {
        self.slots[index].items()
    }
}

} // verus!
