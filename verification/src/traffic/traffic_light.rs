//! A signal with one phase for all approaches.

use vstd::prelude::*;
use vstd::string::*;

use crate::state::LightControlMode;
use crate::units::{larger, max_of, saturate, saturated, smaller};

verus! {

/// What a signal shows.
#[derive(Clone, Copy, Debug, PartialEq, Eq, Structural)]
pub enum LightPhase {
    Red,
    Yellow,
    Green,
}

impl LightPhase {
    /// The number of the phase in messages.
    pub open spec fn code(self) -> u8 {
        match self {
            LightPhase::Red => 0,
            LightPhase::Yellow => 1,
            LightPhase::Green => 2,
        }
    }

    /// The phase with a number; unknown numbers mean red.
    pub open spec fn of_code(v: u8) -> LightPhase {
        if v == 1 {
            LightPhase::Yellow
        } else if v == 2 {
            LightPhase::Green
        } else {
            LightPhase::Red
        }
    }

    /// The phase with a number; unknown numbers mean red.
    pub fn from_u8(v: u8) -> (r: LightPhase)
        ensures
            r == LightPhase::of_code(v),
    {
        if v == 1 {
            LightPhase::Yellow
        } else if v == 2 {
            LightPhase::Green
        } else {
            LightPhase::Red
        }
    }

    /// The number of the phase in messages.
    pub fn to_u8(self) -> (r: u8)
        ensures
            r == self.code(),
    {
        match self {
            LightPhase::Red => 0,
            LightPhase::Yellow => 1,
            LightPhase::Green => 2,
        }
    }
}

/// Reading the number of a phase gives the phase back.
pub proof fn law_phase_round_trip(p: LightPhase)
    ensures
        LightPhase::of_code(p.code()) == p,
{
}

/// The name of a control mode.
pub open spec fn mode_text(mode: LightControlMode) -> Seq<char> {
    match mode {
        LightControlMode::Manual => "manual"@,
        LightControlMode::SemiAuto => "semi_auto"@,
        LightControlMode::Auto => "auto"@,
        LightControlMode::Adaptive => "adaptive"@,
    }
}

/// The name of a control mode.
pub fn mode_label(mode: LightControlMode) -> (r: &'static str)
    ensures
        r@ == mode_text(mode),
{
    match mode {
        LightControlMode::Manual => "manual",
        LightControlMode::SemiAuto => "semi_auto",
        LightControlMode::Auto => "auto",
        LightControlMode::Adaptive => "adaptive",
    }
}

/// Reading the name of a mode gives the mode back.
pub proof fn law_mode_round_trip(mode: LightControlMode)
    ensures
        crate::commands::light_mode_named(mode_text(mode)) == Some(mode),
{
    reveal_strlit("manual");
    reveal_strlit("semi_auto");
    reveal_strlit("auto");
    reveal_strlit("adaptive");
    assert("manual"@.len() == 6);
    assert("semi_auto"@.len() == 9);
    assert("auto"@.len() == 4);
    assert("adaptive"@.len() == 8);
}

/// What the front end is told of a signal.
pub struct LightStateUpdate {
    pub intersection_id: u64,
    pub phase: u8,
    pub time_remaining: i64,
    pub queue_count: u32,
    pub mode: String,
    pub green_duration: i64,
    pub red_duration: i64,
    /// What each approach is shown, for signals with several phases.
    pub junction_arm_phases: Option<Vec<u8>>,
}

/// Shortest green or red that can be set.
pub const MIN_PHASE: i64 = 5_000_000;

/// A signal with one phase for all approaches.
#[derive(Clone, Copy, Debug)]
pub struct TrafficLight {
    pub intersection_id: u64,
    pub mode: LightControlMode,
    pub current_phase: LightPhase,
    /// Time spent in the current phase.
    pub phase_timer: i64,
    pub green_duration: i64,
    pub yellow_duration: i64,
    pub red_duration: i64,
    /// Vehicles waiting, for the adaptive mode.
    pub queue_count: u32,
}

/// Length of green in the adaptive mode: 20 s and 2 s for each waiting vehicle up to 20.
pub open spec fn adaptive_green(queue: u32) -> int {
    20_000_000 + smaller(queue as int, 20) * 2_000_000
}

/// The phase that follows.
pub open spec fn next_phase(p: LightPhase) -> LightPhase {
    match p {
        LightPhase::Green => LightPhase::Yellow,
        LightPhase::Yellow => LightPhase::Red,
        LightPhase::Red => LightPhase::Green,
    }
}

impl TrafficLight {
    /// How long the current phase lasts.
    pub open spec fn phase_length(self) -> int {
        match self.current_phase {
            LightPhase::Green => if self.mode == LightControlMode::Adaptive {
                adaptive_green(self.queue_count)
            } else {
                self.green_duration as int
            },
            LightPhase::Yellow => self.yellow_duration as int,
            LightPhase::Red => self.red_duration as int,
        }
    }

    /// The signal after `dt`: by hand it keeps its phase; else the phase that has run its
    /// length gives way to the next, which starts afresh.
    pub open spec fn stepped(self, dt: i64) -> TrafficLight {
        let timer = saturated(self.phase_timer + dt);
        if self.mode == LightControlMode::Manual {
            self
        } else if timer >= self.phase_length() {
            TrafficLight {
                current_phase: next_phase(self.current_phase),
                phase_timer: 0,
                ..self
            }
        } else {
            TrafficLight { phase_timer: timer as i64, ..self }
        }
    }

    /// A signal on a fixed program, starting with red.
    pub open spec fn fresh(intersection_id: u64) -> TrafficLight {
        TrafficLight {
            intersection_id,
            mode: LightControlMode::Auto,
            current_phase: LightPhase::Red,
            phase_timer: 0,
            green_duration: 30_000_000,
            yellow_duration: 3_000_000,
            red_duration: 30_000_000,
            queue_count: 0,
        }
    }

    /// A signal on a fixed program, starting with red.
    pub fn new(intersection_id: u64) -> (r: TrafficLight)
        ensures
            r == TrafficLight::fresh(intersection_id),
    {
        TrafficLight {
            intersection_id,
            mode: LightControlMode::Auto,
            current_phase: LightPhase::Red,
            phase_timer: 0,
            green_duration: 30_000_000,
            yellow_duration: 3_000_000,
            red_duration: 30_000_000,
            queue_count: 0,
        }
    }

    /// A signal at a crossing for pedestrians; it runs the same program.
    pub fn new_pedestrian(intersection_id: u64) -> (r: TrafficLight)
        ensures
            r == TrafficLight::fresh(intersection_id),
    {
        TrafficLight::new(intersection_id)
    }

    /// Advances the signal by `dt`.
    pub fn update(&mut self, dt: i64)
        ensures
            *final(self) == old(self).stepped(dt),
    {
        if self.mode == LightControlMode::Manual {
            return ;
        }
        let length: i64 = match self.current_phase {
            LightPhase::Green => if self.mode == LightControlMode::Adaptive {
                self.adaptive_green_duration()
            } else {
                self.green_duration
            },
            LightPhase::Yellow => self.yellow_duration,
            LightPhase::Red => self.red_duration,
        };
        self.phase_timer = saturate(self.phase_timer as i128 + dt as i128);
        if self.phase_timer >= length {
            let next: LightPhase = match self.current_phase {
                LightPhase::Green => LightPhase::Yellow,
                LightPhase::Yellow => LightPhase::Red,
                LightPhase::Red => LightPhase::Green,
            };
            self.force_phase(next);
        }
    }

    fn adaptive_green_duration(&self) -> (r: i64)
        ensures
            r == adaptive_green(self.queue_count),
    {
        let q: i64 = if self.queue_count <= 20 {
            self.queue_count as i64
        } else {
            20
        };
        20_000_000 + q * 2_000_000
    }

    /// Sets the phase and starts it afresh.
    pub fn force_phase(&mut self, phase: LightPhase)
        ensures
            *final(self) == (TrafficLight { current_phase: phase, phase_timer: 0, ..*old(self) }),
    {
        self.current_phase = phase;
        self.phase_timer = 0;
    }

    /// Sets the control mode.
    pub fn set_mode(&mut self, mode: LightControlMode)
        ensures
            *final(self) == (TrafficLight { mode, ..*old(self) }),
    {
        self.mode = mode;
    }

    /// Whether the signal shows green.
    pub fn is_green(&self) -> (r: bool)
        ensures
            r == (self.current_phase == LightPhase::Green),
    {
        self.current_phase == LightPhase::Green
    }

    /// Whether the signal shows red.
    pub fn is_red(&self) -> (r: bool)
        ensures
            r == (self.current_phase == LightPhase::Red),
    {
        self.current_phase == LightPhase::Red
    }

    /// The time left in the phase by its set length.
    pub open spec fn remaining_time(self) -> int {
        let length = match self.current_phase {
            LightPhase::Green => self.green_duration,
            LightPhase::Yellow => self.yellow_duration,
            LightPhase::Red => self.red_duration,
        };
        saturated(larger(length - self.phase_timer, 0))
    }

    /// The time left in the phase by its set length.
    pub fn time_remaining(&self) -> (r: i64)
        ensures
            r == self.remaining_time(),
    {
        let length: i64 = match self.current_phase {
            LightPhase::Green => self.green_duration,
            LightPhase::Yellow => self.yellow_duration,
            LightPhase::Red => self.red_duration,
        };
        let left: i128 = length as i128 - self.phase_timer as i128;
        if left >= 0 {
            saturate(left)
        } else {
            0
        }
    }

    /// Whether `u` tells of the signal.
    pub open spec fn told_by(self, u: LightStateUpdate) -> bool {
        &&& u.intersection_id == self.intersection_id
        &&& u.phase == self.current_phase.code()
        &&& u.time_remaining == self.remaining_time()
        &&& u.queue_count == self.queue_count
        &&& u.mode@ == mode_text(self.mode)
        &&& u.green_duration == self.green_duration
        &&& u.red_duration == self.red_duration
        &&& u.junction_arm_phases is None
    }

    /// What the front end is told of the signal.
    pub fn to_state_update(&self) -> (u: LightStateUpdate)
        ensures
            self.told_by(u),
    {
        LightStateUpdate {
            intersection_id: self.intersection_id,
            phase: self.current_phase.to_u8(),
            time_remaining: self.time_remaining(),
            queue_count: self.queue_count,
            mode: mode_label(self.mode).to_owned(),
            green_duration: self.green_duration,
            red_duration: self.red_duration,
            junction_arm_phases: None,
        }
    }

    /// Sets the lengths of green and red, each at least 5 s.
    pub fn set_durations(&mut self, green: i64, red: i64)
        ensures
            *final(self) == (TrafficLight {
                green_duration: larger(green as int, MIN_PHASE as int) as i64,
                red_duration: larger(red as int, MIN_PHASE as int) as i64,
                ..*old(self)
            }),
    {
        self.green_duration = max_of(green, MIN_PHASE);
        self.red_duration = max_of(red, MIN_PHASE);
    }
}

/// A signal keeps its phase or goes on to the next; green is always followed by yellow and
/// yellow by red.
pub proof fn law_phase_order(l: TrafficLight, dt: i64)
    ensures
        l.stepped(dt).current_phase == l.current_phase || l.stepped(dt).current_phase == next_phase(
            l.current_phase,
        ),
        l.mode == LightControlMode::Manual ==> l.stepped(dt) == l,
        l.stepped(dt).intersection_id == l.intersection_id,
        l.stepped(dt).mode == l.mode,
{
}

/// A signal that is not set by hand shows red, yellow or green until the time that is set for it is
/// over, and green, red or yellow after that; in the adaptive mode green lasts 20 s, and 2 s longer
/// for each of up to twenty waiting vehicles. A phase that goes on has run `dt` longer, a new one
/// starts afresh, and nothing else changes.
pub proof fn law_phases_last_their_time(l: TrafficLight, dt: i64)
    requires
        l.mode != LightControlMode::Manual,
        i64::MIN <= l.phase_timer + dt,
    ensures
        ({
            let now = l.stepped(dt);
            let run = l.phase_timer + dt;
            let waiting = if l.queue_count > 20 {
                20
            } else {
                l.queue_count as int
            };
            &&& l.current_phase == LightPhase::Red ==> now.current_phase == if run < l.red_duration {
                LightPhase::Red
            } else {
                LightPhase::Green
            }
            &&& l.current_phase == LightPhase::Yellow ==> now.current_phase == if run
                < l.yellow_duration {
                LightPhase::Yellow
            } else {
                LightPhase::Red
            }
            &&& l.current_phase == LightPhase::Green && l.mode != LightControlMode::Adaptive
                ==> now.current_phase == if run < l.green_duration {
                LightPhase::Green
            } else {
                LightPhase::Yellow
            }
            &&& l.current_phase == LightPhase::Green && l.mode == LightControlMode::Adaptive
                ==> now.current_phase == if run < 20_000_000 + 2_000_000 * waiting {
                LightPhase::Green
            } else {
                LightPhase::Yellow
            }
            &&& now.current_phase == l.current_phase ==> now.phase_timer == run
            &&& now.current_phase != l.current_phase ==> now.phase_timer == 0
            &&& now.mode == l.mode && now.intersection_id == l.intersection_id
            &&& now.green_duration == l.green_duration && now.yellow_duration == l.yellow_duration
            &&& now.red_duration == l.red_duration && now.queue_count == l.queue_count
        }),
{
}

/// What is told as the time left is how long the phase still goes on: one moment less and it is still
/// shown, and after it another phase is.
pub proof fn law_time_left_is_kept(l: TrafficLight, dt: i64)
    requires
        l.mode == LightControlMode::Auto || l.mode == LightControlMode::SemiAuto,
        0 <= l.phase_timer,
        0 <= dt,
        0 <= l.red_duration,
        0 <= l.yellow_duration,
        0 <= l.green_duration,
    ensures
        l.remaining_time() >= 0,
        l.stepped(dt).current_phase == l.current_phase <==> dt < l.remaining_time(),
{
}

/// A signal that is never set by hand shows, one after the other, red, green and yellow, each for the
/// time that is set for it.
pub proof fn law_full_round(l: TrafficLight)
    requires
        l.mode == LightControlMode::Auto || l.mode == LightControlMode::SemiAuto,
        l.current_phase == LightPhase::Red,
        l.phase_timer == 0,
    ensures
        ({
            let green = l.stepped(l.red_duration);
            let yellow = green.stepped(l.green_duration);
            let red = yellow.stepped(l.yellow_duration);
            &&& green.current_phase == LightPhase::Green
            &&& yellow.current_phase == LightPhase::Yellow
            &&& red == l
        }),
{
}

} // verus!
