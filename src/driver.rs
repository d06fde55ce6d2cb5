use vstd::prelude::*;

use crate::slot::Entity;
use crate::wheel::{Wheel, WheelView, ticked};

verus! {

/// The tick that `elapsed_nanos` since the start stands for, held to what a `u64` holds.
pub open spec fn ticks_due(elapsed_nanos: u128, interval_nanos: u64) -> int {
    vstd::math::min(elapsed_nanos as int / interval_nanos as int, u64::MAX as int)
}

/// Nanoseconds from `elapsed_nanos` on until `deadline_nanos`, none if it has passed.
pub open spec fn remaining(deadline_nanos: u128, elapsed_nanos: u128) -> int {
    vstd::math::max(deadline_nanos - elapsed_nanos, 0)
}

/// The sleep before the next round: `interval_nanos * next_ticks`, held to what a
/// `u64` holds, less the time the round took; `None` when nothing is left of it.
pub open spec fn park_of(interval_nanos: int, next_ticks: int, process_nanos: int) -> Option<u64> {
    let span = vstd::math::min(interval_nanos * next_ticks, u64::MAX as int);
    if span > process_nanos {
        Some((span - process_nanos) as u64)
    } else {
        None
    }
}

/// The decisions of the thread that owns a wheel: which tick the clock has reached,
/// where a submission goes, and how long to sleep. Clocks, queues and channels stay
/// with the caller, who hands in nanosecond counts and carries out what comes back.
pub struct Driver<T> {
    wheel: Wheel<T>,
    interval_nanos: u64,
}

impl<T> Driver<T> {
    pub closed spec fn wf(&self) -> bool {
        self.wheel.wf() && self.interval_nanos >= 1
    }

    /// The wheel the driver owns.
    pub closed spec fn wheel_view(&self) -> WheelView<T> {
        self.wheel@
    }

    /// The length of one tick in nanoseconds.
    pub closed spec fn interval(&self) -> int {
        self.interval_nanos as int
    }

    /// What the wheel's `next_ticks` returns.
    pub closed spec fn next_ticks(&self) -> int {
        self.wheel.spec_next_ticks()
    }

    /// A driver with an empty wheel whose ticks last `interval_nanos`.
    pub fn new(interval_nanos: u64) -> (r: Self)
        requires
            interval_nanos >= 1,
        ensures
            r.wf(),
            r.interval() == interval_nanos,
            r.wheel_view().ticks == 0,
            r.wheel_view().resident.len() == 0,
    {
        let wheel = Wheel::new();
        Driver { wheel, interval_nanos }
    }

    /// Brings the wheel up to the tick that `elapsed_nanos` since the start stands
    /// for and returns what came due, to be delivered.
    pub fn advance(&mut self, elapsed_nanos: u128) -> (r: Vec<Entity<T>>)
        requires
            old(self).wf(),
        ensures
            final(self).wf(),
            final(self).interval() == old(self).interval(),
            ticked(
                old(self).wheel_view(),
                final(self).wheel_view(),
                ticks_due(elapsed_nanos, old(self).interval() as u64) as u64,
                r@,
            ),
    {
        let due = elapsed_nanos / (self.interval_nanos as u128);
        let target: u64 = if due > u64::MAX as u128 {
            u64::MAX
        } else {
            due as u64
        };
        self.wheel.tick_to(target)
    }

    /// Takes in a submission due `deadline_nanos` after the start, `elapsed_nanos`
    /// after it. One due within a tick comes straight back, to be delivered now;
    /// another is scheduled the whole number of ticks ahead that its remaining time
    /// covers, held to what the tick counter can reach.
    pub fn submit(&mut self, data: T, deadline_nanos: u128, elapsed_nanos: u128) -> (r: Option<
        T,
    >)
        requires
            old(self).wf(),
        ensures
            final(self).wf(),
            final(self).interval() == old(self).interval(),
            ({
                let rest = remaining(deadline_nanos, elapsed_nanos);
                let room = u64::MAX - old(self).wheel_view().ticks;
                if rest <= old(self).interval() || room == 0 {
                    r == Some(data) && final(self).wheel_view() == old(self).wheel_view()
                } else {
                    r.is_none() && final(self).wheel_view() == old(self).wheel_view().scheduled(
                        data,
                        vstd::math::min(rest / old(self).interval(), room) as u64,
                    )
                }
            }),
    {
        let rest: u128 = if deadline_nanos > elapsed_nanos {
            deadline_nanos - elapsed_nanos
        } else {
            0
        };
        let room = u64::MAX - self.wheel.ticks();
        if rest <= self.interval_nanos as u128 || room == 0 {
            return Some(data);
        }
        let interval = self.interval_nanos as u128;
        let whole = rest / interval;
        assert(whole >= 1) by (nonlinear_arith)
            requires
                rest > interval,
                interval >= 1,
                whole == rest / interval,
        ;
        let offset: u64 = if whole > room as u128 {
            room
        } else {
            whole as u64
        };
        self.wheel.schedule(data, offset);
        None
    }

    /// How long to sleep after a round that took `process_nanos`: until the wheel
    /// may next have work; `None` when that time has already passed.
    pub fn park_nanos(&self, process_nanos: u64) -> (r: Option<u64>)
        requires
            self.wf(),
        ensures
            r == park_of(self.interval(), self.next_ticks(), process_nanos as int),
    {
        let next_ticks = self.wheel.next_ticks();
        let span = self.interval_nanos.checked_mul(next_ticks as u64);
        let span = match span {
            Some(s) => s,
            None => u64::MAX,
        };
        if span > process_nanos {
            Some(span - process_nanos)
        } else {
            None
        }
    }

    /// The wheel's current tick.
    pub fn ticks(&self) -> (r: u64)
        ensures
            r == self.wheel_view().ticks,
    {
        self.wheel.ticks()
    }
}

} // verus!
