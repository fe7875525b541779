use vstd::prelude::*;
use crate::level::Level;

verus! {

/// Which of a level's challenges have been met; a challenge the level does
/// not set is `None`.
#[derive(Debug, Clone, Copy, PartialEq, Eq)]
pub struct ChallengeRecord {
    pub commands: Option<bool>,
    pub steps: Option<bool>,
    pub waste: Option<bool>,
    pub level_completed: bool,
}

impl Default for ChallengeRecord {
    fn default() -> (r: ChallengeRecord)
        ensures
            r.commands is None,
            r.steps is None,
            r.waste is None,
            !r.level_completed,
    {
        ChallengeRecord { commands: None, steps: None, waste: None, level_completed: false }
    }
}

/// `Some(false)` where a challenge is set, `None` where it is not.
pub open spec fn unmet(challenge: Option<usize>) -> Option<bool> {
    if challenge is Some {
        Some(false)
    } else {
        None
    }
}

/// A challenge that was set, is not yet met, and whose condition `met` now
/// holds becomes met; otherwise the record stays as it was.
pub open spec fn updated(record: Option<bool>, met: bool) -> Option<bool> {
    if record is Some && met {
        Some(true)
    } else {
        record
    }
}

fn mark(record: Option<bool>, met: bool) -> (r: Option<bool>)
    ensures
        r == updated(record, met),
{
    match record {
        Some(_) => if met {
            Some(true)
        } else {
            record
        },
        None => None,
    }
}

impl ChallengeRecord {
    /// A fresh record for `level`: nothing completed, each set challenge unmet.
    pub fn for_level(level: &Level) -> (r: ChallengeRecord)
        ensures
            r.commands == unmet(level.command_challenge),
            r.steps == unmet(level.step_challenge),
            r.waste == unmet(level.waste_challenge),
            !r.level_completed,
    {
        ChallengeRecord {
            commands: if level.command_challenge.is_some() {
                Some(false)
            } else {
                None
            },
            steps: if level.step_challenge.is_some() {
                Some(false)
            } else {
                None
            },
            waste: if level.waste_challenge.is_some() {
                Some(false)
            } else {
                None
            },
            level_completed: false,
        }
    }

    /// Records that `level` was finished with a plan of `commands` actions
    /// after `steps` steps: the command challenge is met by at most its
    /// number of actions, the step challenge by at most its number of steps,
    /// and the waste challenge by at least its number of steps.
    pub fn update_challenges(&mut self, level: &Level, commands: usize, steps: usize)
        ensures
            final(self).level_completed,
            final(self).commands == updated(
                old(self).commands,
                level.command_challenge is Some && commands <= level.command_challenge.unwrap(),
            ),
            final(self).steps == updated(
                old(self).steps,
                level.step_challenge is Some && steps <= level.step_challenge.unwrap(),
            ),
            final(self).waste == updated(
                old(self).waste,
                level.waste_challenge is Some && steps >= level.waste_challenge.unwrap(),
            ),
    {
        self.level_completed = true;
        let commands_met = match level.command_challenge {
            Some(c) => commands <= c,
            None => false,
        };
        let steps_met = match level.step_challenge {
            Some(c) => steps <= c,
            None => false,
        };
        let waste_met = match level.waste_challenge {
            Some(c) => steps >= c,
            None => false,
        };
        self.commands = mark(self.commands, commands_met);
        self.steps = mark(self.steps, steps_met);
        self.waste = mark(self.waste, waste_met);
    }
}

} // verus!
