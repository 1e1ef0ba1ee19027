use vstd::prelude::*;

use crate::util::ExtInt;

verus! {

/// One round of simulation time, in milliseconds.
pub const ROUND_TIME_MILLIS: u32 = 5000;

/// How long an activated ability stays in effect.
#[derive(Clone, Copy, Debug, PartialEq, Eq, Structural)]
pub enum Duration {
    Mode,
    Permanent,
    Instant,
    Rounds(u32),
}

/// The plain values of an activateable ability that its per-entity state
/// reads: activation cost, duration kind, cooldown in rounds, whether it
/// may only be used in combat, and its mutual-exclusion group.
#[derive(Debug)]
pub struct Ability {
    pub ap: u32,
    pub duration: Duration,
    pub cooldown: u32,
    pub combat_only: bool,
    pub group: String,
}

/// The per-entity state of one ability: the cooldown left before it can
/// be used again (infinite while a mode is switched on) and how long the
/// current activation has run.
#[derive(Debug)]
pub struct AbilityState {
    pub ability: Ability,
    pub group: String,
    pub remaining_duration: ExtInt,
    pub combat_only: bool,
    pub cur_duration: u32,
}

impl AbilityState {
    pub fn new(ability: Ability) -> (s: AbilityState)
        ensures
            s.group@ == ability.group@,
            s.combat_only == ability.combat_only,
            s.remaining_duration == ExtInt::Int(0u32),
            s.cur_duration == 0,
            s.ability.ap == ability.ap,
            s.ability.duration == ability.duration,
            s.ability.cooldown == ability.cooldown,
            s.ability.combat_only == ability.combat_only,
    {
        let group = ability.group.clone();
        let combat_only = ability.combat_only;
        AbilityState {
            ability,
            group,
            remaining_duration: ExtInt::Int(0),
            combat_only,
            cur_duration: 0,
        }
    }

    /// Advances this ability's clocks by the elapsed time and reports
    /// whether a round boundary was crossed, which callers use to notify
    /// listeners.
    pub fn update(&mut self, millis_elapsed: u32) -> (notify: bool)
        requires
            old(self).cur_duration + millis_elapsed <= u32::MAX,
        ensures
            final(self).cur_duration == old(self).cur_duration + millis_elapsed,
            final(self).remaining_duration == old(self).remaining_duration.spec_saturating_sub(
                millis_elapsed,
            ),
            final(self).ability == old(self).ability,
            final(self).group == old(self).group,
            final(self).combat_only == old(self).combat_only,
            notify == (old(self).cur_duration / ROUND_TIME_MILLIS != final(self).cur_duration
                / ROUND_TIME_MILLIS),
    {
        let cur_mod = self.cur_duration / ROUND_TIME_MILLIS;
        self.cur_duration = self.cur_duration + millis_elapsed;
        self.remaining_duration = self.remaining_duration.saturating_sub(millis_elapsed);
        cur_mod != self.cur_duration / ROUND_TIME_MILLIS
    }

    /// The action points one activation costs.
    pub fn activate_ap(&self) -> (r: u32)
        ensures
            r == self.ability.ap,
    {
        self.ability.ap
    }

    /// Whether the ability can be activated now: off cooldown, and in
    /// combat where it is combat-only.
    pub fn is_available(&self, combat_active: bool) -> (r: bool)
        ensures
            r == (!(self.combat_only && !combat_active) && self.remaining_duration == ExtInt::Int(
                0u32,
            )),
    {
        if self.combat_only && !combat_active {
            return false;
        }
        self.remaining_duration.is_zero()
    }

    /// Whether the ability is a mode that is currently switched on.
    pub fn is_active_mode(&self) -> (r: bool)
        ensures
            r == (self.remaining_duration == ExtInt::Infinity),
    {
        self.remaining_duration.is_infinite()
    }

    /// Activates the ability: a mode stays on until deactivated; anything
    /// else starts its cooldown.
    pub fn activate(&mut self)
        requires
            old(self).ability.cooldown * ROUND_TIME_MILLIS <= u32::MAX,
        ensures
            final(self).remaining_duration == (match old(self).ability.duration {
                Duration::Mode => ExtInt::Infinity,
                _ => ExtInt::Int((old(self).ability.cooldown * ROUND_TIME_MILLIS) as u32),
            }),
            final(self).cur_duration == 0,
            final(self).ability == old(self).ability,
            final(self).group == old(self).group,
            final(self).combat_only == old(self).combat_only,
    {
        self.remaining_duration = match self.ability.duration {
            Duration::Mode => ExtInt::Infinity,
            Duration::Permanent | Duration::Instant | Duration::Rounds(_) => ExtInt::Int(
                self.ability.cooldown * ROUND_TIME_MILLIS,
            ),
        };
        self.cur_duration = 0;
    }

    /// Puts the ability on cooldown for the given number of rounds.
    pub fn set_cooldown_rounds(&mut self, rounds: u32)
        requires
            rounds * ROUND_TIME_MILLIS <= u32::MAX,
        ensures
            final(self).remaining_duration == ExtInt::Int((rounds * ROUND_TIME_MILLIS) as u32),
            final(self).cur_duration == 0,
            final(self).ability == old(self).ability,
            final(self).group == old(self).group,
            final(self).combat_only == old(self).combat_only,
    {
        self.remaining_duration = ExtInt::Int(rounds * ROUND_TIME_MILLIS);
        self.cur_duration = 0;
    }

    /// Switches an active mode off, starting its cooldown; anything that
    /// is not an active mode is left alone.
    pub fn deactivate(&mut self)
        requires
            old(self).ability.cooldown * ROUND_TIME_MILLIS <= u32::MAX,
        ensures
            final(self).remaining_duration == (if old(self).remaining_duration
                == ExtInt::Infinity {
                ExtInt::Int((old(self).ability.cooldown * ROUND_TIME_MILLIS) as u32)
            } else {
                old(self).remaining_duration
            }),
            final(self).cur_duration == old(self).cur_duration,
            final(self).ability == old(self).ability,
            final(self).group == old(self).group,
            final(self).combat_only == old(self).combat_only,
    {
        if !self.is_active_mode() {
            return ;
        }
        self.remaining_duration = ExtInt::Int(self.ability.cooldown * ROUND_TIME_MILLIS);
    }

    pub fn remaining_duration(&self) -> (r: ExtInt)
        ensures
            r == self.remaining_duration,
    {
        self.remaining_duration
    }

    /// The remaining duration in whole rounds, rounded up.
    pub fn remaining_duration_rounds(&self) -> (r: ExtInt)
        ensures
            r == (match self.remaining_duration {
                ExtInt::Infinity => ExtInt::Infinity,
                ExtInt::Int(dur) => ExtInt::Int(
                    ((dur + ROUND_TIME_MILLIS - 1) as u64 / ROUND_TIME_MILLIS as u64) as u32,
                ),
            }),
    {
        match self.remaining_duration {
            ExtInt::Infinity => ExtInt::Infinity,
            ExtInt::Int(dur) => {
                let rounds = (dur as u64 + (ROUND_TIME_MILLIS - 1) as u64) / (
                ROUND_TIME_MILLIS as u64);
                proof {
                    assert(rounds <= 0xFFFF_FFFF) by (nonlinear_arith)
                        requires
                            rounds == (dur as int + 4999) / 5000,
                            0 <= dur <= 0xFFFF_FFFFu32,
                    ;
                }
                ExtInt::Int(rounds as u32)
            },
        }
    }
}

} // verus!
