//! The clock of the game.

use vstd::prelude::*;

use crate::units::{between, clamp_to, floor_div, saturated, scale, scaled};

verus! {

/// One day, in microseconds.
pub const DAY: i64 = 86_400_000_000;

/// The clock of the game.
#[derive(Clone, Copy, Debug)]
pub struct GameClock {
    /// Time since midnight, in microseconds.
    pub game_time: i64,
    /// How much faster the game runs than the world, in millionths.
    pub time_scale: i64,
    pub paused: bool,
}

impl GameClock {
    /// The clock at six in the morning, one hour to the minute.
    pub open spec fn morning() -> GameClock {
        GameClock { game_time: 21_600_000_000, time_scale: 60_000_000, paused: false }
    }

    /// The clock at six in the morning, one hour to the minute.
    pub fn new() -> (r: GameClock)
        ensures
            r == GameClock::morning(),
    {
        GameClock { game_time: 21_600_000_000, time_scale: 60_000_000, paused: false }
    }

    /// The time that passes in the game while `dt` passes in the world.
    pub open spec fn game_span(self, dt: i64) -> int {
        if self.paused {
            0
        } else {
            saturated(scaled(dt as int, self.time_scale as int))
        }
    }

    /// The clock after `dt`: it shows the time of day.
    pub open spec fn advanced(self, dt: i64) -> GameClock {
        if self.paused {
            self
        } else {
            GameClock {
                game_time: ((self.game_time + self.game_span(dt)) % (DAY as int)) as i64,
                ..self
            }
        }
    }

    /// Advances the clock by `dt` of the world's time and tells how much passed in the game.
    pub fn tick(&mut self, dt: i64) -> (r: i64)
        ensures
            *final(self) == old(self).advanced(dt),
            r == old(self).game_span(dt),
    {
        if self.paused {
            return 0;
        }
        let game_dt: i64 = scale(dt, self.time_scale);
        let t: i128 = self.game_time as i128 + game_dt as i128;
        let days: i128 = floor_div(t, DAY as i128);
        proof {
            let d = DAY as int;
            let (ti, q) = (t as int, days as int);
            assert(ti == d * q + ti % d && 0 <= ti % d < d) by (nonlinear_arith)
                requires
                    d == 86_400_000_000,
                    q == ti / d,
            ;
        }
        assert(-1_000_000_000_000_000 < days < 1_000_000_000_000_000);
        self.game_time = (t - days * 86_400_000_000) as i64;
        game_dt
    }

    /// The hour of the day, in millionths of an hour.
    pub open spec fn hour(self) -> int {
        self.game_time as int / 3_600
    }

    /// The hour of the day, in millionths of an hour.
    pub fn game_hour(&self) -> (r: i64)
        ensures
            r == self.hour(),
    {
        floor_div(self.game_time as i128, 3_600) as i64
    }

    /// Stops the clock.
    pub fn pause(&mut self)
        ensures
            *final(self) == (GameClock { paused: true, ..*old(self) }),
    {
        self.paused = true;
    }

    /// Lets the clock run on.
    pub fn resume(&mut self)
        ensures
            *final(self) == (GameClock { paused: false, ..*old(self) }),
    {
        self.paused = false;
    }

    /// Sets how much faster the game runs, from a tenth to an hour to the second.
    pub fn set_time_scale(&mut self, s: i64)
        ensures
            *final(self) == (GameClock {
                time_scale: between(s as int, 100_000, 3_600_000_000) as i64,
                ..*old(self)
            }),
    {
        self.time_scale = clamp_to(s, 100_000, 3_600_000_000);
    }
}

impl Default for GameClock {
    fn default() -> (r: GameClock)
        ensures
            r == GameClock::morning(),
    {
        GameClock::new()
    }
}

/// A clock that shows a time of day still does so after every step, and its hour is one of the day;
/// a stopped clock does not move.
pub proof fn law_clock_stays_in_day(c: GameClock, dt: i64)
    requires
        0 <= c.game_time < DAY,
    ensures
        0 <= c.advanced(dt).game_time < DAY,
        0 <= c.advanced(dt).hour() < 24_000_000,
        c.paused ==> c.advanced(dt) == c && c.game_span(dt) == 0,
        c.advanced(dt).game_time == (c.game_time + c.game_span(dt)) % (DAY as int),
{
}

/// While a clock runs, the game goes on by the time of the world times the scale, and starts over at
/// midnight; two steps one after the other lead as far as their spans together.
pub proof fn law_clock_runs(c: GameClock, a: i64, b: i64)
    requires
        !c.paused,
        0 <= c.game_time < 86_400_000_000,
        0 <= a <= 1_000_000_000_000,
        0 <= b <= 1_000_000_000_000,
        100_000 <= c.time_scale <= 3_600_000_000,
    ensures
        ({
            let span = c.game_span(a);
            &&& span * 1_000_000 <= a * c.time_scale < (span + 1) * 1_000_000
            &&& c.game_time + span < 86_400_000_000 ==> c.advanced(a).game_time == c.game_time + span
            &&& exists|days: int|
                c.advanced(a).game_time == c.game_time + span - #[trigger] (days * 86_400_000_000)
            &&& c.advanced(a).advanced(b).game_time == (c.game_time + span + c.game_span(b))
                % 86_400_000_000
            &&& c.advanced(a).time_scale == c.time_scale && !c.advanced(a).paused
        }),
{
    let (x, s) = (a as int, c.time_scale as int);
    assert(0 <= x * s <= 3_600_000_000_000_000_000_000) by (nonlinear_arith)
        requires
            0 <= x <= 1_000_000_000_000,
            0 <= s <= 3_600_000_000,
    ;
    let (y, z) = (b as int, c.game_time as int);
    assert(0 <= y * s <= 3_600_000_000_000_000_000_000) by (nonlinear_arith)
        requires
            0 <= y <= 1_000_000_000_000,
            0 <= s <= 3_600_000_000,
    ;
    let t = c.game_time + c.game_span(a);
    let days = t / 86_400_000_000;
    assert(t % 86_400_000_000 == t - days * 86_400_000_000);
    assert(c.advanced(a).game_time == c.game_time + c.game_span(a) - (days * 86_400_000_000));
}

/// The game starts at six in the morning, a minute of it passes in a second, and the hour of the day
/// is counted in millionths: 3600 seconds are one hour.
pub proof fn law_hours_of_the_day(c: GameClock)
    ensures
        GameClock::morning().hour() == 6_000_000,
        GameClock::morning().time_scale == 60 * 1_000_000,
        !GameClock::morning().paused,
        c.hour() * 3_600 <= c.game_time < (c.hour() + 1) * 3_600,
        c.game_time <= i64::MAX - 3_600_000_000 ==> (GameClock {
            game_time: (c.game_time + 3_600_000_000) as i64,
            ..c
        }).hour() == c.hour() + 1_000_000,
{
}

} // verus!
