//! Laws of a single step of the simulation.
use vstd::prelude::*;
use crate::actions::Action;
use crate::level::{inner, Level, Tile};
use crate::player::Player;
use crate::simulation::{glide, lemma_tile_inner, offset, room, step_player, SimulationEvent};

verus! {

/// The coordinate `j` steps from `p` in direction `d`.
pub open spec fn ahead(p: (int, int), d: Action, j: nat) -> (int, int)
    decreases j,
{
    if j == 0 {
        p
    } else {
        offset(ahead(p, d, (j - 1) as nat), d)
    }
}

pub open spec fn in_range(p: (int, int)) -> bool {
    i32::MIN <= p.0 <= i32::MAX && i32::MIN <= p.1 <= i32::MAX
}

proof fn lemma_glide_in_range(level: Level, q: (int, int), d: Action)
    requires
        level.wf(),
        in_range(q),
    ensures
        in_range(glide(level, q, d)),
    decreases (if room(q, d) > 0 { room(q, d) } else { 0 }),
{
    if level.tile_at(q) == Some(Tile::Ice) && level.tile_at(offset(q, d)) != Some(Tile::Wall)
        && room(q, d) > 0 {
        lemma_tile_inner(level, q);
        lemma_glide_in_range(level, offset(q, d), d);
    }
}

/// Where the step leaves the player, as a mathematical coordinate.
proof fn lemma_step_position(level: Level, p: Player, a: Action, index: int)
    requires
        level.wf(),
        inner(p.pos()),
        level.tile_at(offset(p.pos(), p.rotation.apply(a))) != Some(Tile::Wall),
    ensures
        step_player(level, p, a, index).0.pos() == glide(
            level,
            offset(p.pos(), p.rotation.apply(a)),
            p.rotation.apply(a),
        ),
{
    let d = p.rotation.apply(a);
    lemma_glide_in_range(level, offset(p.pos(), d), d);
}

proof fn lemma_glide_over_ice(level: Level, p: (int, int), d: Action, j: nat, k: nat)
    requires
        level.wf(),
        1 <= j <= k,
        forall|i: nat| 1 <= i <= k ==> level.tile_at(#[trigger] ahead(p, d, i)) == Some(Tile::Ice),
        level.tile_at(ahead(p, d, k + 1)) != Some(Tile::Wall),
    ensures
        glide(level, ahead(p, d, j), d) == glide(level, ahead(p, d, k + 1), d),
    decreases k - j,
{
    let q = ahead(p, d, j);
    lemma_tile_inner(level, q);
    assert(ahead(p, d, j + 1) == offset(q, d));
    if j < k {
        assert(level.tile_at(ahead(p, d, j + 1)) == Some(Tile::Ice));
        lemma_glide_over_ice(level, p, d, j + 1, k);
    }
}

/// A run of ice tiles straight ahead: a wall after it leaves the player on
/// its last ice tile, with no event and the same facing; no tile after it
/// makes the player fall; a finish tile after it finishes.
pub proof fn lemma_ice_chain(level: Level, p: Player, a: Action, index: int, k: nat)
    requires
        level.wf(),
        inner(p.pos()),
        k >= 1,
        forall|i: nat|
            1 <= i <= k ==> level.tile_at(#[trigger] ahead(p.pos(), p.rotation.apply(a), i))
                == Some(Tile::Ice),
    ensures
        level.tile_at(ahead(p.pos(), p.rotation.apply(a), k + 1)) == Some(Tile::Wall) ==> {
            &&& step_player(level, p, a, index).0.pos() == ahead(p.pos(), p.rotation.apply(a), k)
            &&& step_player(level, p, a, index).0.rotation == p.rotation
            &&& step_player(level, p, a, index).1 is None
        },
        level.tile_at(ahead(p.pos(), p.rotation.apply(a), k + 1)) is None ==> step_player(
            level,
            p,
            a,
            index,
        ).1 == Some(SimulationEvent::Died(index as usize)),
        level.tile_at(ahead(p.pos(), p.rotation.apply(a), k + 1)) == Some(Tile::Finish) ==> {
            &&& step_player(level, p, a, index).0.pos() == ahead(
                p.pos(),
                p.rotation.apply(a),
                k + 1,
            )
            &&& step_player(level, p, a, index).1 == Some(SimulationEvent::Finished)
        },
{
    let d = p.rotation.apply(a);
    let s = p.pos();
    assert(ahead(s, d, 1) == offset(ahead(s, d, 0), d));
    assert(level.tile_at(ahead(s, d, 1)) == Some(Tile::Ice));
    lemma_step_position(level, p, a, index);
    let last = ahead(s, d, k);
    lemma_tile_inner(level, last);
    assert(ahead(s, d, k + 1) == offset(last, d));
    if level.tile_at(ahead(s, d, k + 1)) == Some(Tile::Wall) {
        if k > 1 {
            assert(level.tile_at(ahead(s, d, (k - 1) as nat)) == Some(Tile::Ice));
            lemma_glide_over_ice_to_wall(level, s, d, 1, k);
        }
    } else {
        lemma_glide_over_ice(level, s, d, 1, k);
    }
}

proof fn lemma_glide_over_ice_to_wall(level: Level, p: (int, int), d: Action, j: nat, k: nat)
    requires
        level.wf(),
        1 <= j <= k,
        forall|i: nat| 1 <= i <= k ==> level.tile_at(#[trigger] ahead(p, d, i)) == Some(Tile::Ice),
        level.tile_at(ahead(p, d, k + 1)) == Some(Tile::Wall),
    ensures
        glide(level, ahead(p, d, j), d) == ahead(p, d, k),
    decreases k - j,
{
    let q = ahead(p, d, j);
    lemma_tile_inner(level, q);
    assert(ahead(p, d, j + 1) == offset(q, d));
    if j < k {
        assert(level.tile_at(ahead(p, d, j + 1)) == Some(Tile::Ice));
        lemma_glide_over_ice_to_wall(level, p, d, j + 1, k);
    }
}

/// A wall straight ahead leaves the player exactly as it was.
pub proof fn lemma_wall_no_op(level: Level, p: Player, a: Action, index: int)
    requires
        level.tile_at(offset(p.pos(), p.rotation.apply(a))) == Some(Tile::Wall),
    ensures
        step_player(level, p, a, index).0 == p,
{
}

/// Coming to rest on a clockwise rotator turns the player's forward a
/// quarter turn clockwise in world terms (and a counter-clockwise rotator a
/// quarter turn the other way); ending a step anywhere else, or against a
/// wall, keeps the player's facing.
pub proof fn lemma_rotator_persistence(level: Level, p: Player, a: Action, index: int)
    requires
        level.wf(),
        inner(p.pos()),
    ensures
        ({
            let q = step_player(level, p, a, index).0;
            let entered = level.tile_at(offset(p.pos(), p.rotation.apply(a))) != Some(Tile::Wall);
            &&& entered && level.tile_at(q.pos()) == Some(Tile::CWRot) ==> q.rotation.apply(
                Action::Forward,
            ) == p.rotation.apply(Action::Forward).turned(1)
            &&& entered && level.tile_at(q.pos()) == Some(Tile::CCWRot) ==> q.rotation.apply(
                Action::Forward,
            ) == p.rotation.apply(Action::Forward).turned(3)
            &&& !(entered && level.tile_at(q.pos()) == Some(Tile::CWRot)) && !(entered
                && level.tile_at(q.pos()) == Some(Tile::CCWRot)) ==> q.rotation == p.rotation
        }),
{
    if level.tile_at(offset(p.pos(), p.rotation.apply(a))) != Some(Tile::Wall) {
        lemma_step_position(level, p, a, index);
    }
}

} // verus!
