//! The clock of the game and the traffic of the day.

use traffic_control::time::day_cycle::DayCycle;
use traffic_control::time::game_clock::GameClock;

#[test]
fn new_starts_at_six_am() {
    let c = GameClock::new();
    assert_eq!(c.game_time, 6 * 3600 * 1_000_000);
    assert_eq!(c.game_hour(), 6_000_000);
}

#[test]
fn tick_advances_by_time_scale() {
    let mut c = GameClock::new();
    c.time_scale = 2_000_000;
    let dt = c.tick(1_000_000);
    assert_eq!(dt, 2_000_000);
    assert_eq!(c.game_time, 6 * 3600 * 1_000_000 + 2_000_000);
}

#[test]
fn paused_tick_returns_zero_and_does_not_advance() {
    let mut c = GameClock::new();
    let t0 = c.game_time;
    c.pause();
    assert_eq!(c.tick(1_000_000), 0);
    assert_eq!(c.game_time, t0);
}

#[test]
fn wraps_past_midnight() {
    let mut c = GameClock::new();
    c.time_scale = 1_000_000;
    c.game_time = 86_400_000_000 - 500_000;
    c.tick(1_000_000);
    assert!(c.game_time < 1_000_000, "expected wrap, got {}", c.game_time);
    assert_eq!(c.game_time, 500_000);
}

#[test]
fn long_ticks_stay_within_the_day() {
    let mut c = GameClock::new();
    c.set_time_scale(3_600_000_000);
    assert_eq!(c.tick(48_000_000), 48 * 3600 * 1_000_000);
    assert_eq!(c.game_hour(), 6_000_000);
    c.tick(43_000_000);
    assert_eq!(c.game_hour(), 1_000_000);
}

#[test]
fn set_time_scale_clamps() {
    let mut c = GameClock::new();
    c.set_time_scale(10_000);
    assert_eq!(c.time_scale, 100_000);
    c.set_time_scale(10_000_000_000);
    assert_eq!(c.time_scale, 3_600_000_000);
}

#[test]
fn resumed_clock_runs_again() {
    let mut c = GameClock::default();
    c.pause();
    c.resume();
    assert!(c.tick(1_000_000) > 0);
}

#[test]
fn midnight_is_low() {
    let m = DayCycle::spawn_multiplier(0);
    assert!(m < 100_000, "midnight multiplier should be low, got {}", m);
}

#[test]
fn morning_rush_is_high() {
    let m = DayCycle::spawn_multiplier(8_000_000);
    assert!(m > 2_500_000, "morning rush multiplier should be high, got {}", m);
}

#[test]
fn traffic_changes_steadily_between_hours() {
    let a = DayCycle::spawn_multiplier(0);
    let b = DayCycle::spawn_multiplier(24_000_000);
    assert_eq!(a, b);
    let mut last = DayCycle::spawn_multiplier(0);
    for k in 1..=240 {
        let next = DayCycle::spawn_multiplier(k * 100_000);
        assert!((next - last).abs() < 500_000);
        last = next;
    }
}
