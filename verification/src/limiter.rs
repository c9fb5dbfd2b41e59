//! Fixed-cycle limiter: never drops, only delays.
//!
//! Semantics (per family):
//! - **Free band:** `count < soft_start` - grant immediately.
//! - **Soft band:** `soft_start <= count < limit` - wait
//!   `(time_left_in_cycle / slots_left) * soft_pace`, then grant.
//! - **Overflow:** `count >= limit` - wait `time_left_in_cycle` (no `soft_pace`), roll into the
//!   next cycle, then grant.
//!
//! Times are nanoseconds on one monotonic clock. The limiter decides; whoever drives it sleeps
//! until the deadlines that it hands out and wakes the other waiters when it says so.

use crate::decimal::{pow10, power_of_ten, unscale, Decimal};
use vstd::prelude::*;

verus! {

/// The shortest wait in the soft band, one millisecond.
pub const MIN_DELAY: u64 = 1_000_000;

#[derive(Debug, Clone, Copy, PartialEq, Eq, Structural)]
pub enum AdmitPhase {
    Free,
    Soft,
    OverflowRollover,
}

#[derive(Debug, Clone, Copy, PartialEq, Eq, Structural)]
pub struct AdmitOutcome {
    pub phase: AdmitPhase,
    pub limit: usize,
    /// Active grants in this cycle after this admission.
    pub grants_active: usize,
    pub delay: u64,
    /// Time left in the cycle when the wait was computed; for a grant without a wait, when it was
    /// made.
    pub window_remaining: u64,
}

/// A wait that an admission has to sit out.
#[derive(Debug, Clone, Copy, PartialEq, Eq, Structural)]
pub struct AdmitWait {
    pub deadline: u64,
    pub phase: AdmitPhase,
    pub delay: u64,
    /// Time left in the cycle when the wait was computed.
    pub window_remaining: u64,
    pub rollover: bool,
}

#[derive(Debug, Clone, Copy, PartialEq, Eq, Structural)]
pub enum AdmitAction {
    Grant(AdmitOutcome),
    Wait(AdmitWait),
}

impl AdmitAction {
    /// Whether the other waiters are to be woken: after a grant, which changed the count, and not
    /// before a wait.
    pub fn wakes_others(&self) -> (r: bool)
        ensures
            r == (self is Grant),
    {
        match self {
            AdmitAction::Grant(_) => true,
            AdmitAction::Wait(_) => false,
        }
    }
}

/// What ended a wait.
#[derive(Debug, Clone, Copy, PartialEq, Eq, Structural)]
pub enum Wake {
    /// The deadline passed.
    Deadline,
    /// Another admission changed the count.
    Notified,
}

/// What comes of a wait that ended.
#[derive(Debug, Clone, Copy, PartialEq, Eq, Structural)]
pub struct Resumed {
    /// The admission, or nothing when the request has to ask again.
    pub outcome: Option<AdmitOutcome>,
    /// Whether the other waiters are to be woken.
    pub notify: bool,
}

/// A pace factor: `digits / 10^scale`, at most one. Zero digits leave only the shortest wait.
#[derive(Debug, Clone, Copy, PartialEq, Eq, Structural)]
pub struct Pace {
    pub digits: u64,
    pub scale: u32,
}

impl Pace {
    pub open spec fn wf(self) -> bool {
        self.digits <= pow10(self.scale as nat)
    }

    /// The pace is at most another one.
    pub open spec fn at_most(self, other: Pace) -> bool {
        self.digits * pow10(other.scale as nat) <= other.digits * pow10(self.scale as nat)
    }
}

/// The pace for a configured number: the number itself, and one for a greater one. What no valid
/// configuration holds counts as 0.01 where it is not positive, and as no pace where it is not a
/// number.
pub open spec fn clamped_pace(soft_pace: Decimal) -> Pace {
    match soft_pace {
        Decimal::Nan => Pace { digits: 0, scale: 0 },
        _ => if !soft_pace.positive() {
            Pace { digits: 1, scale: 2 }
        } else if soft_pace.greater_than(1, 1) {
            Pace { digits: 1, scale: 0 }
        } else {
            match soft_pace {
                Decimal::Finite { digits, exponent, .. } => Pace {
                    digits,
                    scale: (-exponent) as u32,
                },
                _ => Pace { digits: 0, scale: 0 },
            }
        },
    }
}

/// `limit * soft_ratio`, rounded down; zero for what is not a positive number.
pub open spec fn ratio_floor(limit: nat, soft_ratio: Decimal) -> nat {
    if soft_ratio.positive() {
        limit * soft_ratio.num() / soft_ratio.den()
    } else {
        0
    }
}

/// Where the soft band begins: `limit * soft_ratio` rounded down, and never past the last slot. A
/// ratio that is not a number, which no valid configuration holds, counts as one slot.
pub open spec fn soft_band_start(limit: nat, soft_ratio: Decimal) -> nat {
    if soft_ratio is Nan {
        if limit == 1 {
            0
        } else {
            1
        }
    } else if soft_ratio is Infinite && soft_ratio.positive() {
        (limit - 1) as nat
    } else if ratio_floor(limit, soft_ratio) > limit - 1 {
        (limit - 1) as nat
    } else {
        ratio_floor(limit, soft_ratio)
    }
}

/// The integer nearest to `n / d`; of two equally near ones, the even one.
pub open spec fn nearest(n: nat, d: nat) -> nat {
    let q = n / d;
    let r = n % d;
    if 2 * r < d || (2 * r == d && q % 2 == 0) {
        q
    } else {
        q + 1
    }
}

/// The wait in the soft band: `(remaining / slots) * pace` to the nearest nanosecond, where both
/// the remaining time and the wait count as at least a millisecond.
pub open spec fn soft_wait(remaining: nat, slots: nat, pace: Pace) -> nat {
    let left = if remaining < MIN_DELAY {
        MIN_DELAY as nat
    } else {
        remaining
    };
    let wait = nearest(left * pace.digits as nat, slots * pow10(pace.scale as nat));
    if wait < MIN_DELAY {
        MIN_DELAY as nat
    } else {
        wait
    }
}

/// The admission state of one family.
#[derive(Debug, Clone, Copy, PartialEq, Eq, Structural)]
pub struct SoftLimiter {
    pub limit: usize,
    pub soft_start: usize,
    pub soft_pace: Pace,
    pub window: u64,
    pub cycle_start: u64,
    pub count: usize,
}

/// A limiter at the beginning of its first cycle. A limit of zero counts as one.
pub open spec fn fresh(
    limit: u32,
    soft_ratio: Decimal,
    soft_pace: Decimal,
    window: u64,
    now: u64,
) -> SoftLimiter {
    let slots = if limit == 0 {
        1usize
    } else {
        limit as usize
    };
    SoftLimiter {
        limit: slots,
        soft_start: soft_band_start(slots as nat, soft_ratio) as usize,
        soft_pace: clamped_pace(soft_pace),
        window,
        cycle_start: now,
        count: 0,
    }
}

impl SoftLimiter {
    /// A limit of at least one that a 32-bit number can give, a soft band that is not empty, cycles
    /// that are not empty, and a current cycle whose end the clock can show.
    pub open spec fn wf(self) -> bool {
        &&& 1 <= self.limit <= u32::MAX
        &&& self.soft_start < self.limit
        &&& self.soft_pace.wf()
        &&& self.window > 0
        &&& self.cycle_start + self.window <= u64::MAX
    }

    /// The clock can show the end of a cycle that begins at `now`, and the shortest wait.
    pub open spec fn clock_fits(self, now: u64) -> bool {
        now + self.window + MIN_DELAY <= u64::MAX
    }

    /// The end of the current cycle.
    pub open spec fn cycle_end(self) -> int {
        self.cycle_start + self.window
    }

    /// The number of cycle boundaries passed by `now`.
    pub open spec fn cycles_passed(self, now: u64) -> int {
        if now < self.cycle_end() {
            0
        } else {
            (now - self.cycle_start) / (self.window as int)
        }
    }

    /// The state at `now`: in the cycle that holds `now`, with a fresh count if that is a new one.
    pub open spec fn advanced(self, now: u64) -> SoftLimiter {
        if now < self.cycle_end() {
            self
        } else {
            SoftLimiter {
                cycle_start: (self.cycle_start + self.cycles_passed(now) * self.window) as u64,
                count: 0,
                ..self
            }
        }
    }

    /// The time left in the current cycle at `now`.
    pub open spec fn remaining(self, now: u64) -> u64 {
        if now < self.cycle_end() {
            (self.cycle_end() - now) as u64
        } else {
            0
        }
    }

    /// The same state with one more grant.
    pub open spec fn granted(self) -> SoftLimiter {
        SoftLimiter { count: (self.count + 1) as usize, ..self }
    }

    /// What a request at `now` is told, in the cycle that holds `now`.
    pub open spec fn decision(self, now: u64) -> AdmitAction {
        let remaining = self.remaining(now);
        if self.count < self.soft_start {
            AdmitAction::Grant(
                AdmitOutcome {
                    phase: AdmitPhase::Free,
                    limit: self.limit,
                    grants_active: (self.count + 1) as usize,
                    delay: 0,
                    window_remaining: remaining,
                },
            )
        } else if self.count < self.limit {
            let delay = soft_wait(
                remaining as nat,
                (self.limit - self.count) as nat,
                self.soft_pace,
            ) as u64;
            AdmitAction::Wait(
                AdmitWait {
                    deadline: (now + delay) as u64,
                    phase: AdmitPhase::Soft,
                    delay,
                    window_remaining: remaining,
                    rollover: false,
                },
            )
        } else {
            AdmitAction::Wait(
                AdmitWait {
                    deadline: self.cycle_end() as u64,
                    phase: AdmitPhase::OverflowRollover,
                    delay: remaining,
                    window_remaining: remaining,
                    rollover: true,
                },
            )
        }
    }

    /// A wait that passed its deadline is granted, unless it sat in the soft band and the cycle
    /// has filled up meanwhile. Stated in the cycle that holds the present.
    pub open spec fn grants_after(self, wait: AdmitWait) -> bool {
        wait.rollover || self.count < self.limit
    }

    /// The admission that a granted wait gets.
    pub open spec fn late_outcome(self, wait: AdmitWait) -> AdmitOutcome {
        AdmitOutcome {
            phase: wait.phase,
            limit: self.limit,
            grants_active: (self.count + 1) as usize,
            delay: wait.delay,
            window_remaining: wait.window_remaining,
        }
    }
}

proof fn lemma_nearest_bounded(n: nat, d: nat, m: nat)
    requires
        d > 0,
        n <= m * d,
    ensures
        nearest(n, d) <= m,
{
    let q = n / d;
    let r = n % d;
    assert(n == q * d + r) by {
        vstd::arithmetic::div_mod::lemma_fundamental_div_mod(n as int, d as int);
        vstd::arithmetic::mul::lemma_mul_is_commutative(d as int, q as int);
    }
    assert(r < d);
    assert(q <= m && (r > 0 ==> q < m)) by (nonlinear_arith)
        requires
            q * d + r <= m * d,
            d > 0,
            0 <= r,
    ;
}

proof fn lemma_soft_wait_bounded(remaining: nat, slots: nat, pace: Pace)
    requires
        slots >= 1,
        pace.wf(),
    ensures
        MIN_DELAY <= soft_wait(remaining, slots, pace),
        soft_wait(remaining, slots, pace) <= remaining || soft_wait(remaining, slots, pace)
            == MIN_DELAY,
{
    let left = if remaining < MIN_DELAY {
        MIN_DELAY as nat
    } else {
        remaining
    };
    let p = pow10(pace.scale as nat);
    crate::decimal::lemma_pow10_positive(pace.scale as nat);
    assert(left * pace.digits as nat <= left * (slots * p) && slots * p > 0) by (nonlinear_arith)
        requires
            pace.digits <= p,
            slots >= 1,
            p >= 1,
    ;
    lemma_nearest_bounded(left * pace.digits as nat, slots * p, left);
}

/// The pace for a configured number.
fn clamp_pace(soft_pace: Decimal) -> (r: Pace)
    ensures
        r == clamped_pace(soft_pace),
        r.wf(),
{
    proof {
        crate::decimal::lemma_pow10_values();
    }
    match soft_pace {
        Decimal::Nan => Pace { digits: 0, scale: 0 },
        Decimal::Infinite { negative } => if negative {
            Pace { digits: 1, scale: 2 }
        } else {
            Pace { digits: 1, scale: 0 }
        },
        Decimal::Finite { negative, digits, exponent } => {
            if negative || digits == 0 {
                return Pace { digits: 1, scale: 2 };
            }
            if exponent > 0 {
                proof {
                    crate::decimal::lemma_pow10_positive((exponent - 1) as nat);
                    assert(digits as nat * pow10(exponent as nat) >= 10) by (nonlinear_arith)
                        requires
                            digits >= 1,
                            pow10(exponent as nat) >= 10,
                    ;
                }
                return Pace { digits: 1, scale: 0 };
            }
            if exponent == 0 {
                assert(soft_pace.num() == digits && soft_pace.den() == 1);
                return Pace { digits: 1, scale: 0 };
            }
            let scale: u32 = unscale(exponent);
            if scale >= 20 {
                proof {
                    crate::decimal::lemma_pow10_monotone(20, scale as nat);
                }
                return Pace { digits, scale };
            }
            if digits as u128 > power_of_ten(scale) {
                Pace { digits: 1, scale: 0 }
            } else {
                Pace { digits, scale }
            }
        },
    }
}

proof fn lemma_div_one(a: nat)
    ensures
        a / 1 == a,
{
}

/// Where the soft band begins.
fn soft_start_of(limit: u32, soft_ratio: Decimal) -> (r: usize)
    requires
        limit >= 1,
    ensures
        r == soft_band_start(limit as nat, soft_ratio),
        r < limit,
{
    let last: usize = (limit - 1) as usize;
    match soft_ratio {
        Decimal::Nan => if limit == 1 {
            0
        } else {
            1
        },
        Decimal::Infinite { negative } => if negative {
            0
        } else {
            last
        },
        Decimal::Finite { negative, digits, exponent } => {
            if negative || digits == 0 {
                return 0;
            }
            if exponent >= 0 {
                proof {
                    crate::decimal::lemma_pow10_positive(exponent as nat);
                    let num = soft_ratio.num();
                    assert(num >= 1) by {
                        assert(digits as nat * pow10(exponent as nat) >= 1) by (nonlinear_arith)
                            requires
                                digits >= 1,
                                pow10(exponent as nat) >= 1,
                        ;
                    }
                    assert(limit as nat * num >= limit) by (nonlinear_arith)
                        requires
                            num >= 1,
                            limit >= 1,
                    ;
                    lemma_div_one(limit as nat * num);
                }
                return last;
            }
            let scale: u32 = unscale(exponent);
            proof {
                assert(limit as nat * digits as nat <= u32::MAX * u64::MAX) by (nonlinear_arith)
                    requires
                        limit <= u32::MAX,
                        digits <= u64::MAX,
                ;
            }
            if scale >= 30 {
                proof {
                    crate::decimal::lemma_pow10_values();
                    crate::decimal::lemma_pow10_monotone(30, scale as nat);
                    vstd::arithmetic::div_mod::lemma_basic_div(
                        limit as int * digits as int,
                        pow10(scale as nat) as int,
                    );
                }
                return 0;
            }
            let one: u128 = power_of_ten(scale);
            proof {
                crate::decimal::lemma_pow10_positive(scale as nat);
            }
            let floor: u128 = (limit as u128 * digits as u128) / one;
            if floor > last as u128 {
                last
            } else {
                floor as usize
            }
        },
    }
}

impl SoftLimiter {
    /// A limiter whose first cycle begins at `now`. A limit of zero counts as one.
    pub fn new(limit: u32, soft_ratio: Decimal, soft_pace: Decimal, window: u64, now: u64) -> (r:
        SoftLimiter)
        requires
            window > 0,
            now + window <= u64::MAX,
        ensures
            r == fresh(limit, soft_ratio, soft_pace, window, now),
            r.soft_start == soft_band_start(r.limit as nat, soft_ratio),
            r.wf(),
    {
        let limit: u32 = if limit == 0 {
            1
        } else {
            limit
        };
        SoftLimiter {
            limit: limit as usize,
            soft_start: soft_start_of(limit, soft_ratio),
            soft_pace: clamp_pace(soft_pace),
            window,
            cycle_start: now,
            count: 0,
        }
    }

    /// Moves on to the cycle that holds `now`.
    pub fn advance_cycles(&mut self, now: u64)
        requires
            old(self).wf(),
            old(self).clock_fits(now),
        ensures
            final(self).wf(),
            *final(self) == old(self).advanced(now),
            now < final(self).cycle_end(),
            old(self).cycle_end() <= now ==> final(self).cycle_start <= now,
    {
        if now < self.cycle_start + self.window {
            return;
        }
        let passed: u64 = (now - self.cycle_start) / self.window;
        proof {
            let t = (now - self.cycle_start) as int;
            let w = self.window as int;
            vstd::arithmetic::div_mod::lemma_fundamental_div_mod(t, w);
            vstd::arithmetic::mul::lemma_mul_is_commutative(w, t / w);
            vstd::arithmetic::div_mod::lemma_mod_bound(t, w);
        }
        self.cycle_start = self.cycle_start + passed * self.window;
        self.count = 0;
    }

    fn left_in_cycle(&self, now: u64) -> (r: u64)
        requires
            self.wf(),
        ensures
            r == self.remaining(now),
    {
        let cycle_end: u64 = self.cycle_start + self.window;
        if now < cycle_end {
            cycle_end - now
        } else {
            0
        }
    }

    /// The wait in the soft band.
    pub fn soft_delay(window_remaining: u64, slots_left: usize, soft_pace: Pace) -> (r: u64)
        requires
            slots_left >= 1,
            soft_pace.wf(),
        ensures
            r == soft_wait(window_remaining as nat, slots_left as nat, soft_pace),
            MIN_DELAY <= r,
            r <= window_remaining || r == MIN_DELAY,
    {
        let left: u64 = if window_remaining < MIN_DELAY {
            MIN_DELAY
        } else {
            window_remaining
        };
        let ghost p = pow10(soft_pace.scale as nat);
        let ghost exact = slots_left as nat * p;
        proof {
            crate::decimal::lemma_pow10_values();
            crate::decimal::lemma_pow10_positive(soft_pace.scale as nat);
            assert(left as nat * soft_pace.digits as nat <= u64::MAX * u64::MAX) by (nonlinear_arith)
                requires
                    left <= u64::MAX,
                    soft_pace.digits <= u64::MAX,
            ;
            assert(p <= exact) by (nonlinear_arith)
                requires
                    exact == slots_left as nat * p,
                    slots_left >= 1,
            ;
            lemma_soft_wait_bounded(window_remaining as nat, slots_left as nat, soft_pace);
            if exact > u128::MAX {
                lemma_nearest_bounded(left as nat * soft_pace.digits as nat, exact, 1);
            }
        }
        if soft_pace.scale > 38 {
            proof {
                crate::decimal::lemma_pow10_monotone(39, soft_pace.scale as nat);
            }
            return MIN_DELAY;
        }
        proof {
            crate::decimal::lemma_pow10_monotone(soft_pace.scale as nat, 38);
        }
        let one: u128 = power_of_ten(soft_pace.scale);
        let most: u128 = u128::MAX / slots_left as u128;
        if one > most {
            assert(exact > u128::MAX) by (nonlinear_arith)
                requires
                    exact == slots_left as nat * one as nat,
                    most == u128::MAX as int / slots_left as int,
                    one > most,
                    slots_left >= 1,
            ;
            return MIN_DELAY;
        }
        proof {
            assert(exact <= u128::MAX) by (nonlinear_arith)
                requires
                    exact == slots_left as nat * one as nat,
                    most == u128::MAX as int / slots_left as int,
                    one <= most,
                    slots_left >= 1,
            ;
            assert(left as nat * soft_pace.digits as nat <= left as nat * exact) by (nonlinear_arith)
                requires
                    soft_pace.digits <= exact,
            ;
            lemma_nearest_bounded(
                left as nat * soft_pace.digits as nat,
                exact,
                left as nat,
            );
        }
        let n: u128 = left as u128 * soft_pace.digits as u128;
        let d: u128 = slots_left as u128 * one;
        let q: u128 = n / d;
        let r: u128 = n % d;
        let wait: u128 = if r < d - r || (r == d - r && q % 2 == 0) {
            q
        } else {
            q + 1
        };
        if wait < MIN_DELAY as u128 {
            MIN_DELAY
        } else {
            wait as u64
        }
    }

    /// Decides on a request at `now`: a grant, or a wait to be handed to `resume` when it ends.
    /// `wakes_others` says whether the other waiters are to be woken.
    pub fn try_admit(&mut self, now: u64) -> (r: AdmitAction)
        requires
            old(self).wf(),
            old(self).clock_fits(now),
        ensures
            final(self).wf(),
            r == old(self).advanced(now).decision(now),
            *final(self) == match r {
                AdmitAction::Grant(_) => old(self).advanced(now).granted(),
                AdmitAction::Wait(_) => old(self).advanced(now),
            },
            r matches AdmitAction::Grant(out) ==> final(self).count == out.grants_active,
            now < old(self).cycle_start + old(self).window ==> final(self).count == old(self).count
                + if r is Grant {
                1int
            } else {
                0
            },
    {
        self.advance_cycles(now);
        let window_remaining: u64 = self.left_in_cycle(now);
        if self.count < self.soft_start {
            self.count = self.count + 1;
            AdmitAction::Grant(
                AdmitOutcome {
                    phase: AdmitPhase::Free,
                    limit: self.limit,
                    grants_active: self.count,
                    delay: 0,
                    window_remaining,
                },
            )
        } else if self.count < self.limit {
            let slots_left: usize = self.limit - self.count;
            let delay: u64 = Self::soft_delay(window_remaining, slots_left, self.soft_pace);
            AdmitAction::Wait(
                AdmitWait {
                    deadline: now + delay,
                    phase: AdmitPhase::Soft,
                    delay,
                    window_remaining,
                    rollover: false,
                },
            )
        } else {
            AdmitAction::Wait(
                AdmitWait {
                    deadline: self.cycle_start + self.window,
                    phase: AdmitPhase::OverflowRollover,
                    delay: window_remaining,
                    window_remaining,
                    rollover: true,
                },
            )
        }
    }

    /// Decides on a wait that ended at `now`. A waiter that was woken early, or that finds the
    /// cycle full, has to ask again.
    pub fn resume(&mut self, wait: &AdmitWait, wake: Wake, now: u64) -> (r: Resumed)
        requires
            old(self).wf(),
            old(self).clock_fits(now),
            wake == Wake::Deadline && wait.rollover ==> old(self).advanced(now).count < usize::MAX,
        ensures
            final(self).wf(),
            r.notify == (wake == Wake::Deadline),
            wake == Wake::Notified ==> r.outcome is None && *final(self) == *old(self),
            wake == Wake::Deadline ==> {
                let here = old(self).advanced(now);
                if here.grants_after(*wait) {
                    &&& r.outcome == Some(here.late_outcome(*wait))
                    &&& *final(self) == here.granted()
                } else {
                    &&& r.outcome is None
                    &&& *final(self) == here
                }
            },
            r.outcome matches Some(out) ==> final(self).count == out.grants_active,
            now < old(self).cycle_start + old(self).window ==> final(self).count == old(self).count
                + if r.outcome is Some {
                1int
            } else {
                0
            },
    {
        match wake {
            Wake::Notified => Resumed { outcome: None, notify: false },
            Wake::Deadline => {
                self.advance_cycles(now);
                if !wait.rollover && self.count >= self.limit {
                    return Resumed { outcome: None, notify: true };
                }
                self.count = self.count + 1;
                Resumed {
                    outcome: Some(
                        AdmitOutcome {
                            phase: wait.phase,
                            limit: self.limit,
                            grants_active: self.count,
                            delay: wait.delay,
                            window_remaining: wait.window_remaining,
                        },
                    ),
                    notify: true,
                }
            },
        }
    }

    /// The grants of the cycle that holds `now`.
    pub fn grants_in_cycle(&mut self, now: u64) -> (r: usize)
        requires
            old(self).wf(),
            old(self).clock_fits(now),
        ensures
            final(self).wf(),
            *final(self) == old(self).advanced(now),
            r == final(self).count,
    {
        self.advance_cycles(now);
        self.count
    }

    pub fn limit(&self) -> (r: usize)
        ensures
            r == self.limit,
    {
        self.limit
    }

    /// Puts the count of the current cycle.
    pub fn set_count(&mut self, count: usize)
        ensures
            *final(self) == (SoftLimiter { count, ..*old(self) }),
    {
        self.count = count;
    }

    /// Puts the beginning of the current cycle.
    pub fn set_cycle_start(&mut self, start: u64)
        ensures
            *final(self) == (SoftLimiter { cycle_start: start, ..*old(self) }),
    {
        self.cycle_start = start;
    }
}

proof fn lemma_advanced_cycle(l: SoftLimiter, now: u64)
    requires
        l.wf(),
        l.clock_fits(now),
    ensures
        l.advanced(now).wf(),
        l.advanced(now).cycle_start == l.cycle_start + l.cycles_passed(now) * l.window,
        now < l.advanced(now).cycle_end(),
        l.cycle_start <= now ==> l.advanced(now).cycle_start <= now,
        l.cycles_passed(now) >= 0,
        l.cycle_end() <= now ==> l.cycles_passed(now) >= 1,
{
    let t = now - l.cycle_start;
    let w = l.window as int;
    if now >= l.cycle_end() {
        vstd::arithmetic::div_mod::lemma_fundamental_div_mod(t, w);
        vstd::arithmetic::mul::lemma_mul_is_commutative(w, t / w);
        vstd::arithmetic::div_mod::lemma_mod_bound(t, w);
        assert(t / w >= 1) by (nonlinear_arith)
            requires
                t == (t / w) * w + t % w,
                t >= w,
                0 <= t % w < w,
                w > 0,
        ;
    }
}

/// With a ratio and a pace that a valid configuration can hold, the bands are those of the
/// configuration: the free band is exactly the first `limit * soft_ratio` requests of a cycle,
/// rounded down, the soft band the ones from there to the limit, and the pace of the soft band is
/// the configured number.
pub proof fn lemma_bands_are_as_configured(
    limit: u32,
    soft_ratio: Decimal,
    soft_pace: Decimal,
    window: u64,
    start: u64,
    count: usize,
    now: u64,
)
    requires
        limit >= 1,
        soft_ratio.inside_unit(),
        soft_pace.upto_unit(),
    ensures
        ({
            let l = SoftLimiter { count, ..fresh(limit, soft_ratio, soft_pace, window, start) };
            let free = ratio_floor(limit as nat, soft_ratio);
            &&& l.soft_start == free
            &&& free < limit
            &&& l.soft_pace.digits * soft_pace.den() == soft_pace.num() * pow10(
                l.soft_pace.scale as nat,
            )
            &&& match l.decision(now) {
                AdmitAction::Grant(out) => count < free && out.phase == AdmitPhase::Free,
                AdmitAction::Wait(wait) => {
                    &&& wait.phase == AdmitPhase::Soft <==> free <= count < limit
                    &&& wait.phase == AdmitPhase::OverflowRollover <==> count >= limit
                },
            }
        }),
{
    let num = soft_ratio.num();
    let den = soft_ratio.den();
    assert(num < den);
    vstd::arithmetic::div_mod::lemma_fundamental_div_mod(limit * num, den as int);
    vstd::arithmetic::div_mod::lemma_mod_bound(limit * num, den as int);
    let q = (limit * num) / (den as int);
    assert(q < limit) by (nonlinear_arith)
        requires
            limit * num == den * q + (limit * num) % (den as int),
            0 <= (limit * num) % (den as int),
            num < den,
            limit >= 1,
    ;
    assert(q >= 0) by (nonlinear_arith)
        requires
            q == (limit * num) / (den as int),
            limit * num >= 0,
            den > 0,
    ;
    if let Decimal::Finite { digits, exponent, .. } = soft_pace {
        if exponent > 0 {
            crate::decimal::lemma_pow10_positive((exponent - 1) as nat);
            assert(digits as nat * pow10(exponent as nat) >= 10) by (nonlinear_arith)
                requires
                    digits >= 1,
                    pow10(exponent as nat) >= 10,
            ;
        }
    }
}

/// Cycle boundaries are fixed ticks: the cycle that holds `now` begins a whole number of windows
/// after the one that the limiter was in, whenever the requests came.
pub proof fn lemma_boundaries_are_fixed_ticks(l: SoftLimiter, now: u64)
    requires
        l.wf(),
        l.clock_fits(now),
        l.cycle_start <= now,
    ensures
        l.advanced(now).cycle_start <= now < l.advanced(now).cycle_end(),
        (l.advanced(now).cycle_start - l.cycle_start) % (l.window as int) == 0,
        l.advanced(now).window == l.window,
{
    lemma_advanced_cycle(l, now);
    vstd::arithmetic::div_mod::lemma_mod_multiples_basic(l.cycles_passed(now), l.window as int);
}

/// Looking at the limiter in between changes nothing: the state at a time depends on that time
/// alone, not on the times at which it was asked before.
pub proof fn lemma_looking_changes_nothing(l: SoftLimiter, earlier: u64, later: u64)
    requires
        l.wf(),
        l.clock_fits(later),
        earlier <= later,
    ensures
        l.advanced(earlier).advanced(later) == l.advanced(later),
{
    lemma_advanced_cycle(l, earlier);
    lemma_advanced_cycle(l, later);
    let mid = l.advanced(earlier);
    lemma_advanced_cycle(mid, later);
    if earlier >= l.cycle_end() {
        let w = l.window as int;
        let a = l.cycles_passed(earlier);
        let b = mid.cycles_passed(later);
        let c = l.cycles_passed(later);
        let x = mid.advanced(later).cycle_start as int;
        let y = l.advanced(later).cycle_start as int;
        assert(x == l.cycle_start + a * w + b * w);
        assert(y == l.cycle_start + c * w);
        assert(mid.cycle_start <= later);
        assert(a + b == c) by (nonlinear_arith)
            requires
                x == l.cycle_start + a * w + b * w,
                y == l.cycle_start + c * w,
                x <= later < x + w,
                y <= later < y + w,
                w > 0,
        ;
        assert(x == y) by (nonlinear_arith)
            requires
                x == l.cycle_start + a * w + b * w,
                y == l.cycle_start + c * w,
                a + b == c,
        ;
    }
}

/// When a boundary passes, the count starts again at zero.
pub proof fn lemma_boundary_resets_count(l: SoftLimiter, now: u64)
    requires
        l.wf(),
        l.clock_fits(now),
        l.cycle_end() <= now,
    ensures
        l.advanced(now).count == 0,
        l.advanced(now).cycle_start > l.cycle_start,
{
    lemma_advanced_cycle(l, now);
    assert(l.cycles_passed(now) * l.window > 0) by (nonlinear_arith)
        requires
            l.cycles_passed(now) >= 1,
            l.window > 0,
    ;
}

/// No request is turned away, and no wait is longer than the window: what is not granted at once
/// gets a deadline ahead. An overflow waits for the time left in the cycle exactly, so until its
/// end; a soft wait is no longer than that time, or the shortest wait.
pub proof fn lemma_waits_are_bounded(l: SoftLimiter, now: u64)
    requires
        l.wf(),
        l.clock_fits(now),
        l.cycle_start <= now,
    ensures
        match l.advanced(now).decision(now) {
            AdmitAction::Grant(out) => out.phase == AdmitPhase::Free && out.delay == 0,
            AdmitAction::Wait(wait) => {
                &&& now < wait.deadline
                &&& wait.window_remaining <= l.window
                &&& wait.deadline == now + wait.delay
                &&& wait.rollover ==> wait.delay == wait.window_remaining
                &&& wait.rollover ==> wait.deadline == l.advanced(now).cycle_end()
                &&& !wait.rollover ==> MIN_DELAY <= wait.delay
                &&& !wait.rollover ==> wait.delay <= wait.window_remaining || wait.delay
                    == MIN_DELAY
            },
        },
{
    lemma_advanced_cycle(l, now);
    let here = l.advanced(now);
    if here.soft_start <= here.count && here.count < here.limit {
        lemma_soft_wait_bounded(
            here.remaining(now) as nat,
            (here.limit - here.count) as nat,
            here.soft_pace,
        );
    }
}

/// A wait that is sat out is granted: if nothing else touched the limiter, the waiter that wakes
/// at or after its deadline is let through. An overflow then is the first of a new cycle; a soft
/// wait takes one of the slots within the limit.
pub proof fn lemma_wait_sat_out_is_granted(l: SoftLimiter, now: u64, later: u64, wait: AdmitWait)
    requires
        l.wf(),
        l.clock_fits(now),
        l.clock_fits(later),
        l.cycle_start <= now,
        l.advanced(now).decision(now) == AdmitAction::Wait(wait),
        wait.deadline <= later,
    ensures
        l.advanced(now).advanced(later).grants_after(wait),
        l.advanced(now).advanced(later).late_outcome(wait).grants_active <= l.limit,
        wait.rollover ==> l.advanced(now).advanced(later).late_outcome(wait).grants_active
            == 1,
        wait.rollover ==> l.advanced(now).advanced(later).cycle_start >= wait.deadline,
{
    lemma_waits_are_bounded(l, now);
    lemma_advanced_cycle(l, now);
    let here = l.advanced(now);
    lemma_advanced_cycle(here, later);
    if wait.rollover {
        let k = here.cycles_passed(later);
        assert(k * here.window >= here.window) by (nonlinear_arith)
            requires
                k >= 1,
                here.window > 0,
        ;
    }
}

/// Nobody starves: a waiter that passed its soft deadline and finds the cycle full is next told
/// to wait for the end of that cycle, and such a wait is granted at its deadline in whatever state
/// the others have left the limiter.
pub proof fn lemma_full_cycle_leads_to_a_sure_grant(
    l: SoftLimiter,
    wait: AdmitWait,
    now: u64,
    others: SoftLimiter,
)
    requires
        l.wf(),
        l.clock_fits(now),
        !l.advanced(now).grants_after(wait),
    ensures
        match l.advanced(now).decision(now) {
            AdmitAction::Grant(_) => false,
            AdmitAction::Wait(next) => next.rollover && next.deadline == l.advanced(
                now,
            ).cycle_end() && others.grants_after(next),
        },
{
    lemma_advanced_cycle(l, now);
}

/// Only a rollover can lift the count above the limit: grants in the free and in the soft band
/// keep within it.
pub proof fn lemma_bands_keep_within_limit(l: SoftLimiter, now: u64, wait: AdmitWait)
    requires
        l.wf(),
        l.clock_fits(now),
    ensures
        l.advanced(now).decision(now) is Grant ==> l.advanced(now).granted().count <= l.limit,
        !wait.rollover && l.advanced(now).grants_after(wait) ==> l.advanced(now).granted().count
            <= l.limit,
{
}

proof fn lemma_nearest_monotone(n1: nat, d1: nat, n2: nat, d2: nat)
    requires
        d1 > 0,
        d2 > 0,
        n1 * d2 <= n2 * d1,
    ensures
        nearest(n1, d1) <= nearest(n2, d2),
{
    let q1 = n1 / d1;
    let r1 = n1 % d1;
    let q2 = n2 / d2;
    let r2 = n2 % d2;
    vstd::arithmetic::div_mod::lemma_fundamental_div_mod(n1 as int, d1 as int);
    vstd::arithmetic::div_mod::lemma_fundamental_div_mod(n2 as int, d2 as int);
    assert((d1 * q1 + r1) * d2 <= (d2 * q2 + r2) * d1);
    assert(q1 <= q2) by (nonlinear_arith)
        requires
            (d1 * q1 + r1) * d2 <= (d2 * q2 + r2) * d1,
            0 <= r2 < d2,
            0 <= r1,
            d1 > 0,
            d2 > 0,
    ;
    if q1 == q2 {
        assert(r1 * d2 <= r2 * d1) by (nonlinear_arith)
            requires
                (d1 * q1 + r1) * d2 <= (d2 * q2 + r2) * d1,
                q1 == q2,
        ;
        if 2 * r1 >= d1 {
            assert(2 * r2 >= d2) by (nonlinear_arith)
                requires
                    r1 * d2 <= r2 * d1,
                    2 * r1 >= d1,
                    d1 > 0,
                    d2 > 0,
            ;
            if 2 * r1 > d1 {
                assert(2 * r2 > d2) by (nonlinear_arith)
                    requires
                        r1 * d2 <= r2 * d1,
                        2 * r1 > d1,
                        d1 > 0,
                        d2 > 0,
                ;
            }
        }
    }
}

/// The curve: in the soft band a wait gets no shorter when more of the cycle is left, and no
/// shorter when fewer slots are left.
pub proof fn lemma_waits_grow_as_the_budget_shrinks(
    less_time: nat,
    more_time: nat,
    fewer_slots: nat,
    more_slots: nat,
    pace: Pace,
)
    requires
        pace.wf(),
        less_time <= more_time,
        1 <= fewer_slots <= more_slots,
    ensures
        soft_wait(less_time, more_slots, pace) <= soft_wait(more_time, fewer_slots, pace),
{
    let a = if less_time < MIN_DELAY {
        MIN_DELAY as nat
    } else {
        less_time
    };
    let b = if more_time < MIN_DELAY {
        MIN_DELAY as nat
    } else {
        more_time
    };
    let p = pow10(pace.scale as nat);
    let g = pace.digits as nat;
    crate::decimal::lemma_pow10_positive(pace.scale as nat);
    assert((a * g) * (fewer_slots * p) <= (b * g) * (more_slots * p)) by (nonlinear_arith)
        requires
            a <= b,
            fewer_slots <= more_slots,
    ;
    assert(fewer_slots * p > 0 && more_slots * p > 0) by (nonlinear_arith)
        requires
            1 <= fewer_slots <= more_slots,
            p >= 1,
    ;
    lemma_nearest_monotone(a * g, more_slots * p, b * g, fewer_slots * p);
}

/// In the soft band a wait gets no shorter when the pace is greater.
pub proof fn lemma_waits_grow_with_the_pace(
    remaining: nat,
    slots: nat,
    lesser: Pace,
    greater: Pace,
)
    requires
        slots >= 1,
        lesser.at_most(greater),
    ensures
        soft_wait(remaining, slots, lesser) <= soft_wait(remaining, slots, greater),
{
    let left = if remaining < MIN_DELAY {
        MIN_DELAY as nat
    } else {
        remaining
    };
    let p1 = pow10(lesser.scale as nat);
    let p2 = pow10(greater.scale as nat);
    let g1 = lesser.digits as nat;
    let g2 = greater.digits as nat;
    crate::decimal::lemma_pow10_positive(lesser.scale as nat);
    crate::decimal::lemma_pow10_positive(greater.scale as nat);
    assert((left * g1) * (slots * p2) == (left * slots) * (g1 * p2)) by (nonlinear_arith);
    assert((left * g2) * (slots * p1) == (left * slots) * (g2 * p1)) by (nonlinear_arith);
    assert((left * slots) * (g1 * p2) <= (left * slots) * (g2 * p1)) by (nonlinear_arith)
        requires
            g1 * p2 <= g2 * p1,
    ;
    assert(slots * p1 > 0 && slots * p2 > 0) by (nonlinear_arith)
        requires
            slots >= 1,
            p1 >= 1,
            p2 >= 1,
    ;
    lemma_nearest_monotone(left * g1, slots * p1, left * g2, slots * p2);
}

/// Time moves a limiter and nothing else: within the window it stays as it is, and past it the
/// limiter is in the cycle that holds the time, a whole number of windows later, with no grants
/// yet. What it was made with never changes.
pub proof fn lemma_time_moves_the_cycle_alone(l: SoftLimiter, now: u64)
    requires
        l.wf(),
        l.clock_fits(now),
    ensures
        ({
            let here = l.advanced(now);
            &&& now < l.cycle_start + l.window ==> here == l
            &&& now >= l.cycle_start + l.window ==> {
                &&& here.count == 0
                &&& l.cycle_start < here.cycle_start <= now < here.cycle_start + l.window
                &&& (here.cycle_start - l.cycle_start) % (l.window as int) == 0
            }
            &&& here.limit == l.limit
            &&& here.soft_start == l.soft_start
            &&& here.soft_pace == l.soft_pace
            &&& here.window == l.window
        }),
{
    lemma_advanced_cycle(l, now);
    if now >= l.cycle_end() {
        lemma_boundaries_are_fixed_ticks(l, now);
        lemma_boundary_resets_count(l, now);
    }
}

/// A limiter after a number of grants.
pub open spec fn after_grants(l: SoftLimiter, n: nat) -> SoftLimiter
    decreases n,
{
    if n == 0 {
        l
    } else {
        after_grants(l, (n - 1) as nat).granted()
    }
}

/// Every grant counts, and counts once: whatever the count was, any number of grants in a cycle
/// raises it by that number, and a grant changes nothing else.
pub proof fn lemma_every_grant_counts_once(l: SoftLimiter, n: nat)
    requires
        l.count + n <= usize::MAX,
    ensures
        after_grants(l, n).count == l.count + n,
        after_grants(l, n) == (SoftLimiter { count: (l.count + n) as usize, ..l }),
    decreases n,
{
    if n > 0 {
        lemma_every_grant_counts_once(l, (n - 1) as nat);
    }
}

/// The nearest integer is nearest: the quotient is no more than a half away from it, and of two
/// that are a half away it is the even one.
pub proof fn lemma_nearest_is_nearest(n: nat, d: nat)
    requires
        d > 0,
    ensures
        2 * n <= 2 * (nearest(n, d) * d) + d,
        2 * (nearest(n, d) * d) <= 2 * n + d,
        2 * n == 2 * (nearest(n, d) * d) + d || 2 * (nearest(n, d) * d) == 2 * n + d ==> nearest(
            n,
            d,
        ) % 2 == 0,
{
    let q = n / d;
    let r = n % d;
    vstd::arithmetic::div_mod::lemma_fundamental_div_mod(n as int, d as int);
    vstd::arithmetic::mul::lemma_mul_is_commutative(d as int, q as int);
    assert((q + 1) * d == q * d + d) by (nonlinear_arith);
}

/// What a request is told, in the terms of its cycle: how many grants there were, how many are
/// free and how many there may be, and how much time is left. Below the free ones it is granted at
/// once, and its number is one more than there were. From there to the limit it waits for its share
/// of the time left, scaled by the pace and to the nearest nanosecond, or a millisecond if that is
/// less. At the limit it waits for all of the time left. It never waits for anything else.
pub proof fn lemma_what_a_request_is_told(l: SoftLimiter, now: u64)
    requires
        l.wf(),
        l.clock_fits(now),
    ensures
        ({
            let here = l.advanced(now);
            let left = here.cycle_start + here.window - now;
            let counted = if left < 1_000_000 {
                1_000_000
            } else {
                left
            };
            let slots = here.limit - here.count;
            let share = counted * here.soft_pace.digits;
            let parts = slots * pow10(here.soft_pace.scale as nat);
            match here.decision(now) {
                AdmitAction::Grant(out) => {
                    &&& here.count < here.soft_start
                    &&& out.phase == AdmitPhase::Free
                    &&& out.limit == here.limit
                    &&& out.grants_active == here.count + 1
                    &&& out.grants_active == here.granted().count
                    &&& out.delay == 0
                    &&& out.window_remaining == left
                },
                AdmitAction::Wait(wait) => {
                    &&& here.count >= here.soft_start
                    &&& wait.window_remaining == left
                    &&& wait.deadline == now + wait.delay
                    &&& wait.rollover == (here.count >= here.limit)
                    &&& wait.rollover ==> wait.phase == AdmitPhase::OverflowRollover && wait.delay
                        == left
                    &&& !wait.rollover ==> {
                        &&& wait.phase == AdmitPhase::Soft
                        &&& wait.delay >= 1_000_000
                        &&& 2 * share <= 2 * (wait.delay * parts) + parts
                        &&& wait.delay > 1_000_000 ==> 2 * (wait.delay * parts) <= 2 * share + parts
                    }
                },
            }
        }),
{
    lemma_advanced_cycle(l, now);
    let here = l.advanced(now);
    if here.soft_start <= here.count && here.count < here.limit {
        let left = here.remaining(now) as nat;
        let slots = (here.limit - here.count) as nat;
        let counted: nat = if left < 1_000_000 {
            1_000_000
        } else {
            left
        };
        let p = pow10(here.soft_pace.scale as nat);
        let n = counted * here.soft_pace.digits as nat;
        let d = slots * p;
        crate::decimal::lemma_pow10_positive(here.soft_pace.scale as nat);
        assert(d > 0) by (nonlinear_arith)
            requires
                d == slots * p,
                slots >= 1,
                p >= 1,
        ;
        lemma_soft_wait_bounded(left, slots, here.soft_pace);
        lemma_nearest_is_nearest(n, d);
        let w = soft_wait(left, slots, here.soft_pace);
        let q = nearest(n, d);
        assert(q * d <= w * d) by (nonlinear_arith)
            requires
                q <= w,
        ;
    }
}

/// What a wait ends in: an overflow that sat out its wait is always granted, a soft wait exactly
/// when the cycle has room, and the grant is the next one of the cycle; the outcome tells what the
/// waiter was told, and the number of the grant.
pub proof fn lemma_what_a_wait_ends_in(here: SoftLimiter, wait: AdmitWait)
    requires
        here.count < usize::MAX,
    ensures
        here.grants_after(wait) <==> wait.rollover || here.count < here.limit,
        here.late_outcome(wait).grants_active == here.count + 1,
        here.late_outcome(wait).grants_active == here.granted().count,
        here.late_outcome(wait).limit == here.limit,
        here.late_outcome(wait).phase == wait.phase,
        here.late_outcome(wait).delay == wait.delay,
        here.late_outcome(wait).window_remaining == wait.window_remaining,
{
}

/// A new limiter has the limit it is given, or one, and begins its first cycle then, with no
/// grants.
pub proof fn lemma_new_limiters_begin_empty(
    limit: u32,
    soft_ratio: Decimal,
    soft_pace: Decimal,
    window: u64,
    now: u64,
)
    ensures
        ({
            let l = fresh(limit, soft_ratio, soft_pace, window, now);
            &&& l.limit >= 1
            &&& limit >= 1 ==> l.limit == limit
            &&& limit == 0 ==> l.limit == 1
            &&& l.window == window
            &&& l.cycle_start == now
            &&& l.count == 0
        }),
{
}

/// The free band of a new limiter, for every ratio: the whole part of the limit times the ratio,
/// short of the last slot, nothing for a ratio that is not positive, and one slot of several for
/// what is not a number.
pub proof fn lemma_free_band_of_every_ratio(
    limit: u32,
    negative: bool,
    digits: u64,
    exponent: i32,
    soft_pace: Decimal,
    window: u64,
    now: u64,
)
    requires
        limit >= 1,
    ensures
        ({
            let free = |ratio: Decimal| fresh(limit, ratio, soft_pace, window, now).soft_start;
            let f = free(Decimal::Finite { negative, digits, exponent });
            let unit = pow10((-exponent) as nat);
            &&& negative || digits == 0 ==> f == 0
            &&& !negative && digits > 0 && (exponent >= 0 || digits >= unit) ==> f == limit - 1
            &&& !negative && digits > 0 && exponent < 0 && digits < unit ==> f * unit <= limit
                * digits < (f + 1) * unit
            &&& free(Decimal::Infinite { negative: false }) == limit - 1
            &&& free(Decimal::Infinite { negative: true }) == 0
            &&& free(Decimal::Nan) == if limit == 1 {
                0int
            } else {
                1
            }
        }),
{
    let ratio = Decimal::Finite { negative, digits, exponent };
    if !negative && digits > 0 {
        if exponent >= 0 {
            crate::decimal::lemma_pow10_positive(exponent as nat);
            let num = ratio.num();
            assert(num >= 1) by {
                assert(digits as nat * pow10(exponent as nat) >= 1) by (nonlinear_arith)
                    requires
                        digits >= 1,
                        pow10(exponent as nat) >= 1,
                ;
            }
            assert(limit as nat * num >= limit) by (nonlinear_arith)
                requires
                    num >= 1,
            ;
            lemma_div_one(limit as nat * num);
        } else {
            let unit = pow10((-exponent) as nat);
            let n = limit as int * digits;
            let q = n / (unit as int);
            crate::decimal::lemma_pow10_positive((-exponent) as nat);
            vstd::arithmetic::div_mod::lemma_fundamental_div_mod(n, unit as int);
            vstd::arithmetic::div_mod::lemma_mod_bound(n, unit as int);
            assert(n >= 0) by (nonlinear_arith)
                requires
                    n == limit as int * digits,
            ;
            assert(q * unit <= n < (q + 1) * unit) by (nonlinear_arith)
                requires
                    n == unit * q + n % (unit as int),
                    0 <= n % (unit as int) < unit,
            ;
            if digits < unit {
                assert(q < limit) by (nonlinear_arith)
                    requires
                        q * unit <= n,
                        n == limit as int * digits,
                        digits < unit,
                        limit >= 1,
                ;
            } else {
                assert(q >= limit) by (nonlinear_arith)
                    requires
                        n < (q + 1) * unit,
                        n == limit as int * digits,
                        digits >= unit,
                        unit >= 1,
                ;
            }
            assert(q >= 0) by (nonlinear_arith)
                requires
                    n < (q + 1) * unit,
                    n >= 0,
                    unit >= 1,
            ;
        }
    }
}

/// The pace of a new limiter, for every number: the number itself if it is positive and at most
/// one, one for a greater one, a hundredth for one that is not positive, and nothing for what is
/// not a number.
pub proof fn lemma_pace_of_every_number(
    limit: u32,
    soft_ratio: Decimal,
    negative: bool,
    digits: u64,
    exponent: i32,
    window: u64,
    now: u64,
)
    ensures
        ({
            let pace = |p: Decimal| fresh(limit, soft_ratio, p, window, now).soft_pace;
            let p = pace(Decimal::Finite { negative, digits, exponent });
            let unit = pow10((-exponent) as nat);
            &&& negative || digits == 0 ==> p == (Pace { digits: 1, scale: 2 })
            &&& !negative && digits > 0 && (exponent > 0 || digits > unit) ==> p == (Pace {
                digits: 1,
                scale: 0,
            })
            &&& !negative && digits > 0 && exponent <= 0 && digits <= unit ==> p.digits == digits
                && p.scale == -exponent
            &&& pace(Decimal::Infinite { negative: false }) == (Pace { digits: 1, scale: 0 })
            &&& pace(Decimal::Infinite { negative: true }) == (Pace { digits: 1, scale: 2 })
            &&& pace(Decimal::Nan) == (Pace { digits: 0, scale: 0 })
        }),
{
    if exponent > 0 && digits > 0 {
        crate::decimal::lemma_pow10_positive((exponent - 1) as nat);
        assert(digits as nat * pow10(exponent as nat) >= 10) by (nonlinear_arith)
            requires
                digits >= 1,
                pow10(exponent as nat) >= 10,
        ;
    }
    assert(pow10(0) == 1);
}

/// A soft wait is the share of one slot in the time left, scaled by the pace and taken to the
/// nearest nanosecond, wherever that is more than a millisecond; time left below a millisecond
/// counts as one. For any time, any number of slots and any pace.
pub proof fn lemma_soft_wait_is_a_share_of_the_time(remaining: nat, slots: nat, pace: Pace)
    requires
        slots >= 1,
    ensures
        ({
            let counted: nat = if remaining < 1_000_000 {
                1_000_000
            } else {
                remaining
            };
            let wait = soft_wait(remaining, slots, pace);
            let share = counted * pace.digits;
            let parts = slots * pow10(pace.scale as nat);
            &&& wait >= 1_000_000
            &&& 2 * share <= 2 * (wait * parts) + parts
            &&& wait > 1_000_000 ==> 2 * (wait * parts) <= 2 * share + parts
        }),
{
    let counted: nat = if remaining < 1_000_000 {
        1_000_000
    } else {
        remaining
    };
    let p = pow10(pace.scale as nat);
    let n = counted * pace.digits as nat;
    let d = slots * p;
    crate::decimal::lemma_pow10_positive(pace.scale as nat);
    assert(d > 0) by (nonlinear_arith)
        requires
            d == slots * p,
            slots >= 1,
            p >= 1,
    ;
    lemma_nearest_is_nearest(n, d);
    let w = soft_wait(remaining, slots, pace);
    let q = nearest(n, d);
    assert(q * d <= w * d) by (nonlinear_arith)
        requires
            q <= w,
    ;
}

} // verus!
