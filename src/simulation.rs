use vstd::prelude::*;
use crate::actions::{Action, ActionPlan, CWRotation};
use crate::level::{inner, Level, Tile};
use crate::player::Player;

verus! {

/// What happened to a player during one step.
#[derive(Debug, Clone, Copy, PartialEq, Eq, Structural)]
pub enum SimulationEvent {
    /// The player ended the step on a finish tile.
    Finished,
    /// The player with this index ended the step where there is no tile.
    Died(usize),
}

/// The coordinate one step from `p` in the direction of `a`.
pub open spec fn offset(p: (int, int), a: Action) -> (int, int) {
    match a {
        Action::Forward => (p.0 + 1, p.1),
        Action::Backward => (p.0 - 1, p.1),
        Action::Left => (p.0, p.1 - 1),
        Action::Right => (p.0, p.1 + 1),
    }
}

/// How many steps in direction `a` stay within the range of `i32`.
pub open spec fn room(p: (int, int), a: Action) -> int {
    match a {
        Action::Forward => i32::MAX - p.0,
        Action::Backward => p.0 - i32::MIN,
        Action::Left => p.1 - i32::MIN,
        Action::Right => i32::MAX - p.1,
    }
}

/// Where a player who has just entered `p`, moving in direction `a`, comes
/// to rest: it keeps sliding while it stands on ice and the next tile is not
/// a wall.
pub open spec fn glide(level: Level, p: (int, int), a: Action) -> (int, int)
    decreases (if room(p, a) > 0 { room(p, a) } else { 0 }),
{
    if level.tile_at(p) == Some(Tile::Ice) && level.tile_at(offset(p, a)) != Some(Tile::Wall)
        && room(p, a) > 0 {
        glide(level, offset(p, a), a)
    } else {
        p
    }
}

/// The facing after entering tile `t`.
pub open spec fn turn_by_tile(r: CWRotation, t: Option<Tile>) -> CWRotation {
    match t {
        Some(Tile::CWRot) => CWRotation::from_quarters((r.quarters() + 1) % 4),
        Some(Tile::CCWRot) => CWRotation::from_quarters((r.quarters() + 3) % 4),
        _ => r,
    }
}

/// The event for player `index` ending a step on tile `t`.
pub open spec fn event_of(t: Option<Tile>, index: int) -> Option<SimulationEvent> {
    match t {
        Some(Tile::Finish) => Some(SimulationEvent::Finished),
        None => Some(SimulationEvent::Died(index as usize)),
        Some(_) => None,
    }
}

/// One player's move for `action`. The action is first turned into the
/// player's frame. A wall straight ahead leaves the player as it was;
/// otherwise the player enters the next tile, slides over ice, and turns if
/// it comes to rest on a rotator. The event comes from the tile it ends on.
pub open spec fn step_player(level: Level, p: Player, action: Action, index: int) -> (
    Player,
    Option<SimulationEvent>,
) {
    let d = p.rotation.apply(action);
    let next = offset(p.pos(), d);
    if level.tile_at(next) == Some(Tile::Wall) {
        (p, event_of(level.tile_at(p.pos()), index))
    } else {
        let f = glide(level, next, d);
        let t = level.tile_at(f);
        (
            Player { position: (f.0 as i32, f.1 as i32), rotation: turn_by_tile(p.rotation, t) },
            event_of(t, index),
        )
    }
}

/// A tile of a well-formed level lies strictly inside the range of `i32`.
pub proof fn lemma_tile_inner(level: Level, p: (int, int))
    requires
        level.wf(),
        level.tile_at(p) is Some,
    ensures
        inner(p),
{
    let s = level.tiles@;
    let i = choose|i: int| 0 <= i < s.len() && crate::level::key_of(s[i]) == p;
    assert(inner(crate::level::key_of(s[i])));
}

/// The coordinate one step from `p`; `p` must lie strictly inside the range.
fn step_from(p: (i32, i32), a: Action) -> (r: (i32, i32))
    requires
        inner((p.0 as int, p.1 as int)),
    ensures
        (r.0 as int, r.1 as int) == offset((p.0 as int, p.1 as int), a),
{
    match a {
        Action::Forward => (p.0 + 1, p.1),
        Action::Backward => (p.0 - 1, p.1),
        Action::Left => (p.0, p.1 - 1),
        Action::Right => (p.0, p.1 + 1),
    }
}

fn is_wall(t: Option<&Tile>) -> (r: bool)
    ensures
        r == (match t {
            Some(x) => *x == Tile::Wall,
            None => false,
        }),
{
    match t {
        Some(Tile::Wall) => true,
        _ => false,
    }
}

spec fn is_ice_spec(t: Option<&Tile>) -> bool {
    match t {
        Some(x) => *x == Tile::Ice,
        None => false,
    }
}

fn is_ice(t: Option<&Tile>) -> (r: bool)
    ensures
        r == is_ice_spec(t),
{
    match t {
        Some(Tile::Ice) => true,
        _ => false,
    }
}

fn event_for(t: Option<&Tile>, index: usize) -> (r: Option<SimulationEvent>)
    ensures
        r == event_of(
            match t {
                Some(x) => Some(*x),
                None => None,
            },
            index as int,
        ),
{
    match t {
        Some(Tile::Finish) => Some(SimulationEvent::Finished),
        None => Some(SimulationEvent::Died(index)),
        Some(_) => None,
    }
}

/// One player's move; see `step_player`.
fn move_player(level: &Level, player: Player, action: Action, index: usize) -> (r: (
    Player,
    Option<SimulationEvent>,
))
    requires
        level.wf(),
        inner(player.pos()),
    ensures
        r == step_player(*level, player, action, index as int),
{
    let d = (player.rotation.to_combinator())(&action);
    let next = step_from(player.position, d);
    let next_tile = level.get(next);
    if is_wall(next_tile) {
        return (player, event_for(level.get(player.position), index));
    }
    let ghost start = (next.0 as int, next.1 as int);
    let mut cur = next;
    let mut tile = next_tile;
    let mut sliding = is_ice(tile);
    while sliding
        invariant
            level.wf(),
            glide(*level, (cur.0 as int, cur.1 as int), d) == glide(*level, start, d),
            match tile {
                Some(x) => level.tile_at((cur.0 as int, cur.1 as int)) == Some(*x),
                None => level.tile_at((cur.0 as int, cur.1 as int)) == None::<Tile>,
            },
            sliding ==> is_ice_spec(tile),
            !sliding ==> glide(*level, (cur.0 as int, cur.1 as int), d) == (
                cur.0 as int,
                cur.1 as int,
            ),
        decreases room((cur.0 as int, cur.1 as int), d), if sliding { 1int } else { 0int },
    {
        proof {
            lemma_tile_inner(*level, (cur.0 as int, cur.1 as int));
        }
        let ahead = step_from(cur, d);
        let ahead_tile = level.get(ahead);
        if is_wall(ahead_tile) {
            sliding = false;
        } else {
            cur = ahead;
            tile = ahead_tile;
            sliding = is_ice(tile);
        }
    }
    let rotation = match tile {
        Some(Tile::CWRot) => player.rotation.rotate_cw(),
        Some(Tile::CCWRot) => player.rotation.rotate_ccw(),
        _ => player.rotation,
    };
    (Player { position: cur, rotation }, event_for(tile, index))
}

/// Moves every player for `action`, each on its own, and reports what
/// happened to each, in the order of `players`.
pub fn run_simulation_step(level: &Level, players: &[Player], action: Action) -> (r: Vec<
    (Player, Option<SimulationEvent>),
>)
    requires
        level.wf(),
        forall|i: int| 0 <= i < players@.len() ==> inner(#[trigger] players@[i].pos()),
    ensures
        r@.len() == players@.len(),
        forall|i: int|
            0 <= i < players@.len() ==> #[trigger] r@[i] == step_player(
                *level,
                players@[i],
                action,
                i,
            ),
{
    let mut out: Vec<(Player, Option<SimulationEvent>)> = Vec::new();
    let mut i: usize = 0;
    while i < players.len()
        invariant
            level.wf(),
            i <= players@.len(),
            out@.len() == i,
            forall|k: int| 0 <= k < players@.len() ==> inner(#[trigger] players@[k].pos()),
            forall|k: int|
                0 <= k < i ==> #[trigger] out@[k] == step_player(*level, players@[k], action, k),
        decreases players@.len() - i,
    {
        out.push(move_player(level, players[i], action, i));
        i = i + 1;
    }
    out
}


/// Whether a plan is being run.
#[derive(Debug, Clone, Copy, PartialEq, Eq, Structural, Hash)]
pub enum SimulationState {
    Running,
    Paused,
    Stopped,
}

impl Default for SimulationState {
    fn default() -> (r: SimulationState)
        ensures
            r == SimulationState::Stopped,
    {
        SimulationState::Stopped
    }
}

/// The index of the action of the plan that ran last.
#[derive(Debug, Clone, Copy, PartialEq, Eq, Structural, Hash)]
pub struct SimulationProgramCounter(pub usize);

/// Drives a plan one action per tick, cycling through it until stopped.
#[derive(Debug, Clone, Copy, PartialEq, Eq, Structural)]
pub struct CyclicExecutor {
    pub pc: SimulationProgramCounter,
    pub state: SimulationState,
}

impl CyclicExecutor {
    pub fn new() -> (r: CyclicExecutor)
        ensures
            r.pc.0 == 0,
            r.state == SimulationState::Stopped,
    {
        CyclicExecutor { pc: SimulationProgramCounter(0), state: SimulationState::Stopped }
    }

    /// From `Stopped`, with a nonempty plan: resets the counter, starts
    /// running and returns the plan's first action. Otherwise nothing changes.
    pub fn start(&mut self, plan: &ActionPlan) -> (r: Option<Action>)
        ensures
            if old(self).state == SimulationState::Stopped && plan@.len() > 0 {
                &&& final(self).pc.0 == 0
                &&& final(self).state == SimulationState::Running
                &&& r == Some(plan@[0])
            } else {
                &&& *final(self) == *old(self)
                &&& r is None
            },
    {
        if self.state == SimulationState::Stopped && plan.0.len() > 0 {
            self.pc = SimulationProgramCounter(0);
            self.state = SimulationState::Running;
            Some(plan.0[0])
        } else {
            None
        }
    }

    /// While running a nonempty plan: advances the counter by one, wrapping
    /// at the plan's length, and returns the action it now points at.
    /// Otherwise nothing changes.
    pub fn tick(&mut self, plan: &ActionPlan) -> (r: Option<Action>)
        ensures
            if old(self).state == SimulationState::Running && plan@.len() > 0 {
                &&& final(self).pc.0 == (old(self).pc.0 + 1) % (plan@.len() as int)
                &&& final(self).state == SimulationState::Running
                &&& r == Some(plan@[final(self).pc.0 as int])
            } else {
                &&& *final(self) == *old(self)
                &&& r is None
            },
    {
        if self.state == SimulationState::Running && plan.0.len() > 0 {
            let len = plan.0.len();
            let next = (self.pc.0 % len + 1) % len;
            proof {
                vstd::arithmetic::div_mod::lemma_add_mod_noop(self.pc.0 as int, 1, len as int);
                vstd::arithmetic::div_mod::lemma_mod_twice(self.pc.0 as int + 1, len as int);
                vstd::arithmetic::div_mod::lemma_add_mod_noop_right(
                    self.pc.0 as int % len as int,
                    1,
                    len as int,
                );
                vstd::arithmetic::div_mod::lemma_add_mod_noop_right(1, self.pc.0 as int, len as int);
            }
            self.pc = SimulationProgramCounter(next);
            Some(plan.0[next])
        } else {
            None
        }
    }

    /// Halts ticking, keeping the counter.
    pub fn pause(&mut self)
        ensures
            final(self).pc == old(self).pc,
            final(self).state == SimulationState::Paused,
    {
        self.state = SimulationState::Paused;
    }

    /// Halts, keeping the counter until the next start.
    pub fn stop(&mut self)
        ensures
            final(self).pc == old(self).pc,
            final(self).state == SimulationState::Stopped,
    {
        self.state = SimulationState::Stopped;
    }
}

} // verus!
