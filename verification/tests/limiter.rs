use safethrottle::decimal::Decimal;
use safethrottle::limiter::{
    AdmitAction, AdmitOutcome, AdmitPhase, Pace, SoftLimiter, Wake, MIN_DELAY,
};

const SEC: u64 = 1_000_000_000;

fn decimal(digits: u64, exponent: i32) -> Decimal {
    Decimal::Finite { negative: false, digits, exponent }
}

fn seven_tenths() -> Decimal {
    decimal(7, -1)
}

/// Asks, sits out every wait, and asks again until the request is granted.
fn wait_through(lim: &mut SoftLimiter, now: &mut u64) -> AdmitOutcome {
    loop {
        match lim.try_admit(*now) {
            AdmitAction::Grant(out) => return out,
            AdmitAction::Wait(wait) => {
                if wait.deadline > *now {
                    *now = wait.deadline;
                }
                if let Some(out) = lim.resume(&wait, Wake::Deadline, *now).outcome {
                    return out;
                }
            }
        }
    }
}

#[test]
fn free_band_grants_immediately() {
    let mut now = 0;
    let mut lim = SoftLimiter::new(20, seven_tenths(), seven_tenths(), 60 * SEC, now);
    for i in 1..=14 {
        let out = wait_through(&mut lim, &mut now);
        assert_eq!(out.phase, AdmitPhase::Free);
        assert_eq!(out.grants_active, i);
        assert_eq!(out.delay, 0);
    }
    assert_eq!(now, 0);
}

#[test]
fn soft_band_uses_pace_formula() {
    let mut now = 0;
    let mut lim = SoftLimiter::new(20, seven_tenths(), seven_tenths(), 60 * SEC, now);
    lim.set_count(14);
    lim.set_cycle_start(now);
    now += 30 * SEC;

    let out = wait_through(&mut lim, &mut now);
    assert_eq!(out.phase, AdmitPhase::Soft);
    assert!((out.delay as f64 / SEC as f64 - 3.5).abs() < 0.01);
    assert_eq!(out.delay, 3_500_000_000);
    assert_eq!(out.grants_active, 15);
}

#[test]
fn overflow_waits_for_cycle_boundary() {
    let mut now = 0;
    let mut lim = SoftLimiter::new(20, seven_tenths(), seven_tenths(), 60 * SEC, now);
    lim.set_count(20);
    lim.set_cycle_start(now);
    now += 36 * SEC;

    let t0 = now;
    let wait = match lim.try_admit(now) {
        AdmitAction::Wait(wait) => wait,
        AdmitAction::Grant(_) => panic!("granted in a full cycle"),
    };
    assert!(wait.deadline > t0 + 23 * SEC + 2_000_000);
    assert_eq!(wait.deadline, t0 + 24 * SEC);

    now = wait.deadline;
    let out = lim.resume(&wait, Wake::Deadline, now).outcome.expect("join");
    assert_eq!(out.phase, AdmitPhase::OverflowRollover);
    assert!(out.delay >= 24 * SEC);
    assert_eq!(out.grants_active, 1);
    assert!(now - t0 >= 24 * SEC);
}

#[test]
fn cycle_resets_count() {
    let mut now = 0;
    let mut lim = SoftLimiter::new(5, seven_tenths(), seven_tenths(), 10 * SEC, now);
    for _ in 0..5 {
        wait_through(&mut lim, &mut now);
    }
    assert_eq!(lim.grants_in_cycle(now), 5);
    now += 10 * SEC;
    assert_eq!(lim.grants_in_cycle(now), 0);
    let out = wait_through(&mut lim, &mut now);
    assert_eq!(out.phase, AdmitPhase::Free);
    assert_eq!(out.grants_active, 1);
}

#[test]
fn burst_against_one_family() {
    let mut now = 0;
    let mut lim = SoftLimiter::new(10, seven_tenths(), seven_tenths(), 60 * SEC, now);
    for i in 1..=7 {
        let out = wait_through(&mut lim, &mut now);
        assert_eq!((out.phase, out.grants_active, now), (AdmitPhase::Free, i, 0));
    }
    let eighth = wait_through(&mut lim, &mut now);
    assert_eq!(eighth.phase, AdmitPhase::Soft);
    assert_eq!((eighth.delay, now, eighth.grants_active), (14 * SEC, 14 * SEC, 8));
    let ninth = wait_through(&mut lim, &mut now);
    assert_eq!((ninth.delay, now, ninth.grants_active), (16_100_000_000, 30_100_000_000, 9));
    let tenth = wait_through(&mut lim, &mut now);
    assert_eq!((tenth.delay, now, tenth.grants_active), (20_930_000_000, 51_030_000_000, 10));
    let eleventh = wait_through(&mut lim, &mut now);
    assert_eq!(eleventh.phase, AdmitPhase::OverflowRollover);
    assert_eq!((eleventh.delay, now, eleventh.grants_active), (8_970_000_000, 60 * SEC, 1));
    let twelfth = wait_through(&mut lim, &mut now);
    assert_eq!((twelfth.phase, now, twelfth.grants_active), (AdmitPhase::Free, 60 * SEC, 2));
}

#[test]
fn soft_band_bounds() {
    let at = |limit: u32, ratio: Decimal| {
        SoftLimiter::new(limit, ratio, seven_tenths(), 60 * SEC, 0).soft_start
    };
    assert_eq!(at(20, seven_tenths()), 14);
    assert_eq!(at(10, seven_tenths()), 7);
    assert_eq!(at(100, decimal(29, -2)), 29);
    assert_eq!(at(1, seven_tenths()), 0);
    assert_eq!(at(0, seven_tenths()), 0);
    assert_eq!(at(2, decimal(1, -1)), 0);
    assert_eq!(at(2, decimal(1, -2)), 0);
    assert_eq!(at(2, decimal(5, -1)), 1);
    assert_eq!(at(10, decimal(1, -40)), 0);
    assert_eq!(at(10, decimal(5, 3)), 9);
    assert_eq!(at(10, Decimal::Nan), 1);
    assert_eq!(at(2, Decimal::Nan), 1);
    assert_eq!(at(1, Decimal::Nan), 0);
    assert_eq!(at(10, Decimal::Infinite { negative: false }), 9);
    assert_eq!(at(10, Decimal::Infinite { negative: true }), 0);
    assert_eq!(at(10, Decimal::Finite { negative: true, digits: 7, exponent: -1 }), 0);
}

#[test]
fn a_limit_of_zero_counts_as_one() {
    let lim = SoftLimiter::new(0, seven_tenths(), seven_tenths(), 60 * SEC, 0);
    assert_eq!(lim.limit(), 1);
}

#[test]
fn pace_is_clamped() {
    let pace = |p: Decimal| SoftLimiter::new(10, seven_tenths(), p, 60 * SEC, 0).soft_pace;
    assert_eq!(pace(decimal(7, -1)), Pace { digits: 7, scale: 1 });
    assert_eq!(pace(decimal(1, -3)), Pace { digits: 1, scale: 3 });
    assert_eq!(pace(decimal(25, -300)), Pace { digits: 25, scale: 300 });
    assert_eq!(pace(decimal(1, 0)), Pace { digits: 1, scale: 0 });
    assert_eq!(pace(decimal(11, -1)), Pace { digits: 1, scale: 0 });
    assert_eq!(pace(decimal(0, -3)), Pace { digits: 1, scale: 2 });
    assert_eq!(pace(decimal(3, 0)), Pace { digits: 1, scale: 0 });
    assert_eq!(pace(Decimal::Infinite { negative: false }), Pace { digits: 1, scale: 0 });
    assert_eq!(pace(Decimal::Infinite { negative: true }), Pace { digits: 1, scale: 2 });
    assert_eq!(pace(Decimal::Nan), Pace { digits: 0, scale: 0 });
}

#[test]
fn soft_delay_values() {
    let pace = Pace { digits: 7, scale: 1 };
    assert_eq!(SoftLimiter::soft_delay(60 * SEC, 3, pace), 14 * SEC);
    assert_eq!(SoftLimiter::soft_delay(46 * SEC, 2, pace), 16_100_000_000);
    assert_eq!(SoftLimiter::soft_delay(0, 1, pace), MIN_DELAY);
    assert_eq!(SoftLimiter::soft_delay(10 * SEC, 3, Pace { digits: 1, scale: 0 }), 3_333_333_333);
    assert_eq!(SoftLimiter::soft_delay(20 * SEC, 3, Pace { digits: 1, scale: 0 }), 6_666_666_667);
    assert_eq!(SoftLimiter::soft_delay(60 * SEC, 3, Pace { digits: 0, scale: 0 }), MIN_DELAY);
    assert_eq!(SoftLimiter::soft_delay(60 * SEC, 3, Pace { digits: 1, scale: 3 }), 20_000_000);
    assert_eq!(SoftLimiter::soft_delay(60 * SEC, 3, Pace { digits: 1, scale: 300 }), MIN_DELAY);
    let digits = 1_000_000_000_000_000_000;
    let tenth = Pace { digits, scale: 19 };
    assert_eq!(SoftLimiter::soft_delay(60 * SEC, 3, tenth), 2 * SEC);
    let tiny = Pace { digits, scale: 38 };
    assert_eq!(SoftLimiter::soft_delay(u64::MAX, 3, tiny), MIN_DELAY);
    assert_eq!(SoftLimiter::soft_delay(u64::MAX, usize::MAX, tenth), MIN_DELAY);
    assert_eq!(SoftLimiter::soft_delay(u64::MAX, 1, Pace { digits: 1, scale: 0 }), u64::MAX);
}

#[test]
fn boundaries_are_fixed_ticks() {
    let mut lim = SoftLimiter::new(10, seven_tenths(), seven_tenths(), 60 * SEC, 0);
    let mut other = lim;
    lim.advance_cycles(61 * SEC);
    lim.advance_cycles(125 * SEC);
    assert_eq!(lim.cycle_start, 120 * SEC);
    other.advance_cycles(125 * SEC);
    assert_eq!(lim, other);
}

#[test]
fn early_wake_asks_again() {
    let mut lim = SoftLimiter::new(10, seven_tenths(), seven_tenths(), 60 * SEC, 0);
    lim.set_count(7);
    let wait = match lim.try_admit(0) {
        AdmitAction::Wait(wait) => wait,
        AdmitAction::Grant(_) => panic!("granted in the soft band"),
    };
    let before = lim;
    let resumed = lim.resume(&wait, Wake::Notified, SEC);
    assert!(resumed.outcome.is_none());
    assert!(!resumed.notify);
    assert_eq!(lim, before);
}

#[test]
fn soft_waiter_that_finds_the_cycle_full_asks_again() {
    let mut lim = SoftLimiter::new(10, seven_tenths(), seven_tenths(), 60 * SEC, 0);
    lim.set_count(9);
    let wait = match lim.try_admit(0) {
        AdmitAction::Wait(wait) => wait,
        AdmitAction::Grant(_) => panic!("granted in the soft band"),
    };
    lim.set_count(10);
    let resumed = lim.resume(&wait, Wake::Deadline, wait.deadline);
    assert!(resumed.outcome.is_none());
    assert!(resumed.notify);
    assert_eq!(lim.count, 10);
}

#[test]
fn waits_grow_as_the_budget_shrinks() {
    let pace = Pace { digits: 7, scale: 1 };
    let mut last = 0;
    for slots in (1..=6).rev() {
        let wait = SoftLimiter::soft_delay(60 * SEC, slots, pace);
        assert!(wait > last);
        assert!(wait <= 60 * SEC);
        last = wait;
    }
}

#[test]
fn waits_grow_with_the_pace() {
    let paces = [(1, 300), (1, 3), (5, 2), (7, 1), (70, 2), (71, 2), (1, 0)];
    let mut last = 0;
    for (digits, scale) in paces {
        let wait = SoftLimiter::soft_delay(60 * SEC, 3, Pace { digits, scale });
        assert!(wait >= last);
        last = wait;
    }
    assert_eq!(last, 20 * SEC);
}

#[test]
fn the_outcome_tells_the_time_left_when_the_wait_was_computed() {
    let mut now = 0;
    let mut lim = SoftLimiter::new(10, seven_tenths(), seven_tenths(), 60 * SEC, now);
    for _ in 0..7 {
        assert_eq!(wait_through(&mut lim, &mut now).window_remaining, 60 * SEC);
    }
    let eighth = wait_through(&mut lim, &mut now);
    assert_eq!((now, eighth.window_remaining), (14 * SEC, 60 * SEC));
    let ninth = wait_through(&mut lim, &mut now);
    assert_eq!(ninth.window_remaining, 46 * SEC);
}

#[test]
fn an_overflow_waits_for_exactly_the_window_left() {
    for left in [1, 999_999, 1_000_000, 9 * SEC, 60 * SEC] {
        let mut now = 60 * SEC - left;
        let mut lim = SoftLimiter::new(10, seven_tenths(), seven_tenths(), 60 * SEC, 0);
        lim.set_count(10);
        let out = wait_through(&mut lim, &mut now);
        assert_eq!(out.phase, AdmitPhase::OverflowRollover);
        assert_eq!((out.delay, out.window_remaining, now), (left, left, 60 * SEC));
        assert_eq!(out.grants_active, 1);
    }
}

#[test]
fn a_small_ratio_leaves_no_free_band() {
    let mut now = 0;
    let mut lim = SoftLimiter::new(2, decimal(1, -1), seven_tenths(), 60 * SEC, now);
    let phases: Vec<AdmitPhase> =
        (0..3).map(|_| wait_through(&mut lim, &mut now).phase).collect();
    assert_eq!(phases, [AdmitPhase::Soft, AdmitPhase::Soft, AdmitPhase::OverflowRollover]);
}

#[test]
fn a_grant_wakes_the_other_waiters() {
    let mut lim = SoftLimiter::new(2, decimal(5, -1), seven_tenths(), 60 * SEC, 0);
    assert!(lim.try_admit(0).wakes_others());
    assert!(!lim.try_admit(0).wakes_others());
}

#[test]
fn a_full_counter_matters_to_rollovers_only() {
    let mut lim = SoftLimiter::new(10, seven_tenths(), seven_tenths(), 60 * SEC, 0);
    lim.set_count(usize::MAX);
    let wait = match lim.try_admit(0) {
        AdmitAction::Wait(wait) => wait,
        AdmitAction::Grant(_) => panic!("granted in a full cycle"),
    };
    assert!(lim.resume(&wait, Wake::Notified, SEC).outcome.is_none());
    assert_eq!(lim.count, usize::MAX);
    let out = lim.resume(&wait, Wake::Deadline, wait.deadline).outcome.expect("granted");
    assert_eq!(out.grants_active, 1);
}
