use vstd::prelude::*;
use crate::actions::{Action, CWRotation};

verus! {

/// What stands at one grid coordinate.
#[derive(Debug, Clone, Copy, PartialEq, Eq, Structural, Hash)]
pub enum Tile {
    /// A spawn point, with the facing the player starts in.
    Start(CWRotation),
    Basic,
    Ice,
    Wall,
    CWRot,
    CCWRot,
    Finish,
}

impl Tile {
    /// The facing of a start tile; `Zero` for every other tile.
    pub fn rotation(self) -> (r: CWRotation)
        ensures
            r == (match self {
                Tile::Start(rot) => rot,
                _ => CWRotation::Zero,
            }),
    {
        match self {
            Tile::Start(rot) => rot,
            _ => CWRotation::Zero,
        }
    }
}

/// Coordinates that can be stepped away from in every direction without
/// leaving the range of `i32`.
pub open spec fn inner(p: (int, int)) -> bool {
    i32::MIN < p.0 < i32::MAX && i32::MIN < p.1 < i32::MAX
}

pub open spec fn key_of(e: ((i32, i32), Tile)) -> (int, int) {
    (e.0.0 as int, e.0.1 as int)
}

/// No coordinate occurs twice.
pub open spec fn keys_unique(s: Seq<((i32, i32), Tile)>) -> bool {
    forall|i: int, j: int|
        0 <= i < s.len() && 0 <= j < s.len() && key_of(s[i]) == key_of(s[j]) ==> i == j
}

/// The grid that a list of placed tiles describes.
pub open spec fn grid_of(s: Seq<((i32, i32), Tile)>) -> Map<(int, int), Tile> {
    Map::new(
        |p: (int, int)| exists|i: int| 0 <= i < s.len() && key_of(s[i]) == p,
        |p: (int, int)| s[choose|i: int| 0 <= i < s.len() && key_of(s[i]) == p].1,
    )
}

pub proof fn lemma_grid_of_entry(s: Seq<((i32, i32), Tile)>, i: int)
    requires
        keys_unique(s),
        0 <= i < s.len(),
    ensures
        grid_of(s).contains_key(key_of(s[i])),
        grid_of(s)[key_of(s[i])] == s[i].1,
{
    let p = key_of(s[i]);
    assert(exists|k: int| 0 <= k < s.len() && key_of(s[k]) == p);
    let j = choose|k: int| 0 <= k < s.len() && key_of(s[k]) == p;
    assert(j == i);
}

/// A level with at least one start tile.
pub open spec fn has_start(level: Level) -> bool {
    exists|i: int| 0 <= i < level.tiles@.len() && level.tiles@[i].1 is Start
}

/// A puzzle: a sparse grid of tiles, the actions a plan may use, and the
/// length limit of a plan.
#[derive(Debug, Clone)]
pub struct Level {
    pub tiles: Vec<((i32, i32), Tile)>,
    pub name: &'static str,
    pub actions: Vec<Action>,
    pub action_limit: usize,
    pub command_challenge: Option<usize>,
    pub step_challenge: Option<usize>,
    pub waste_challenge: Option<usize>,
}

impl Level {
    /// The grid as a map from coordinates to tiles.
    pub open spec fn grid(self) -> Map<(int, int), Tile> {
        grid_of(self.tiles@)
    }

    /// The tile at `p`, or `None` where there is no tile.
    pub open spec fn tile_at(self, p: (int, int)) -> Option<Tile> {
        if self.grid().contains_key(p) {
            Some(self.grid()[p])
        } else {
            None
        }
    }

    /// Coordinates are unique and lie strictly inside the range of `i32`.
    pub open spec fn wf(self) -> bool {
        &&& keys_unique(self.tiles@)
        &&& forall|i: int| 0 <= i < self.tiles@.len() ==> inner(#[trigger] key_of(self.tiles@[i]))
    }

    /// The tile at `position`; `None` means there is no tile there.
    pub fn get(&self, position: (i32, i32)) -> (r: Option<&Tile>)
        requires
            self.wf(),
        ensures
            match r {
                Some(t) => self.tile_at((position.0 as int, position.1 as int)) == Some(*t),
                None => self.tile_at((position.0 as int, position.1 as int)) == None::<Tile>,
            },
    {
        match index_of(&self.tiles, position) {
            Some(i) => {
                proof {
                    lemma_grid_of_entry(self.tiles@, i as int);
                }
                Some(&self.tiles[i].1)
            },
            None => None,
        }
    }
}


/// Every coordinate of `s` names a tile of `grid_of(s)`, and only those do.
proof fn lemma_grid_of(s: Seq<((i32, i32), Tile)>)
    requires
        keys_unique(s),
    ensures
        forall|i: int|
            0 <= i < s.len() ==> #[trigger] grid_of(s).contains_key(key_of(s[i]))
                && grid_of(s)[key_of(s[i])] == s[i].1,
        forall|p: (int, int)|
            #[trigger] grid_of(s).contains_key(p) ==> exists|i: int|
                0 <= i < s.len() && key_of(s[i]) == p,
{
    assert forall|i: int| 0 <= i < s.len() implies #[trigger] grid_of(s).contains_key(key_of(s[i]))
        && grid_of(s)[key_of(s[i])] == s[i].1 by {
        lemma_grid_of_entry(s, i);
    }
}

/// Index of the entry for `position`, if there is one.
fn index_of(tiles: &Vec<((i32, i32), Tile)>, position: (i32, i32)) -> (r: Option<usize>)
    ensures
        match r {
            Some(i) => i < tiles@.len() && key_of(tiles@[i as int]) == (
                position.0 as int,
                position.1 as int,
            ),
            None => forall|k: int|
                0 <= k < tiles@.len() ==> key_of(#[trigger] tiles@[k]) != (
                    position.0 as int,
                    position.1 as int,
                ),
        },
{
    let mut i: usize = 0;
    while i < tiles.len()
        invariant
            i <= tiles@.len(),
            forall|k: int|
                0 <= k < i ==> key_of(#[trigger] tiles@[k]) != (position.0 as int, position.1 as int),
        decreases tiles@.len() - i,
    {
        let (p, _) = tiles[i];
        if p.0 == position.0 && p.1 == position.1 {
            return Some(i);
        }
        i = i + 1;
    }
    None
}

/// Places `tile` at `position`, replacing what was there.
fn put(tiles: &mut Vec<((i32, i32), Tile)>, position: (i32, i32), tile: Tile)
    requires
        keys_unique(old(tiles)@),
        forall|i: int| 0 <= i < old(tiles)@.len() ==> inner(#[trigger] key_of(old(tiles)@[i])),
        inner((position.0 as int, position.1 as int)),
    ensures
        keys_unique(final(tiles)@),
        forall|i: int|
            0 <= i < final(tiles)@.len() ==> inner(#[trigger] key_of(final(tiles)@[i])),
        grid_of(final(tiles)@) == grid_of(old(tiles)@).insert(
            (position.0 as int, position.1 as int),
            tile,
        ),
{
    let ghost s = tiles@;
    let ghost p = (position.0 as int, position.1 as int);
    proof {
        lemma_grid_of(s);
    }
    let found = index_of(tiles, position);
    let ghost i: int = match found {
        Some(k) => k as int,
        None => s.len() as int,
    };
    match found {
        Some(k) => tiles.set(k, (position, tile)),
        None => tiles.push((position, tile)),
    }
    proof {
        let n = tiles@;
        assert(key_of((position, tile)) == p);
        assert(keys_unique(n));
        lemma_grid_of(n);
        let want = grid_of(s).insert(p, tile);
        assert forall|q: (int, int)| #[trigger] grid_of(n).contains_key(q) == want.contains_key(q)
            by {
            if grid_of(n).contains_key(q) && q != p {
                let k = choose|k: int| 0 <= k < n.len() && key_of(n[k]) == q;
                assert(n[k] == s[k]);
            }
            if want.contains_key(q) && q != p {
                let k = choose|k: int| 0 <= k < s.len() && key_of(s[k]) == q;
                assert(n[k] == s[k]);
            }
            if q == p {
                assert(key_of(n[i as int]) == p);
            }
        }
        assert forall|q: (int, int)| #[trigger] grid_of(n).contains_key(q) implies grid_of(n)[q]
            == want[q] by {
            let k = choose|k: int| 0 <= k < n.len() && key_of(n[k]) == q;
            if q != p {
                assert(n[k] == s[k]);
            }
        }
        assert(grid_of(n) =~= want);
    }
}

/// Removes the tile at `position`, if there is one.
fn take_out(tiles: &mut Vec<((i32, i32), Tile)>, position: (i32, i32))
    requires
        keys_unique(old(tiles)@),
        forall|i: int| 0 <= i < old(tiles)@.len() ==> inner(#[trigger] key_of(old(tiles)@[i])),
    ensures
        keys_unique(final(tiles)@),
        forall|i: int|
            0 <= i < final(tiles)@.len() ==> inner(#[trigger] key_of(final(tiles)@[i])),
        grid_of(final(tiles)@) == grid_of(old(tiles)@).remove(
            (position.0 as int, position.1 as int),
        ),
{
    let ghost s = tiles@;
    let ghost p = (position.0 as int, position.1 as int);
    proof {
        lemma_grid_of(s);
    }
    let found = index_of(tiles, position);
    let ghost i: int = match found {
        Some(k) => k as int,
        None => s.len() as int,
    };
    match found {
        Some(k) => {
            tiles.remove(k);
        },
        None => {},
    }
    proof {
        let n = tiles@;
        let want = grid_of(s).remove(p);
        if found is Some {
            assert forall|k: int| 0 <= k < n.len() implies #[trigger] n[k] == (if k < i {
                s[k]
            } else {
                s[k + 1]
            }) by {}
            assert(keys_unique(n));
            lemma_grid_of(n);
            assert forall|q: (int, int)| #[trigger] grid_of(n).contains_key(q)
                == want.contains_key(q) by {
                if grid_of(n).contains_key(q) {
                    let k = choose|k: int| 0 <= k < n.len() && key_of(n[k]) == q;
                    if k < i {
                        assert(n[k] == s[k]);
                    } else {
                        assert(n[k] == s[k + 1]);
                    }
                }
                if want.contains_key(q) {
                    let k = choose|k: int| 0 <= k < s.len() && key_of(s[k]) == q;
                    if k < i {
                        assert(n[k] == s[k]);
                    } else if k > i {
                        assert(n[k - 1] == s[k]);
                    }
                }
            }
            assert forall|q: (int, int)| #[trigger] grid_of(n).contains_key(q) implies grid_of(
                n,
            )[q] == want[q] by {
                let k = choose|k: int| 0 <= k < n.len() && key_of(n[k]) == q;
                if k < i {
                    assert(n[k] == s[k]);
                } else {
                    assert(n[k] == s[k + 1]);
                }
            }
            assert(grid_of(n) =~= want);
        } else {
            assert forall|q: (int, int)| #[trigger] grid_of(n).contains_key(q)
                == want.contains_key(q) by {
                if q == p && grid_of(n).contains_key(q) {
                    let k = choose|k: int| 0 <= k < n.len() && key_of(n[k]) == q;
                }
            }
            assert(grid_of(n) =~= want);
        }
    }
}


/// `m` with the tiles of `l` placed in order, later entries winning.
pub open spec fn overlay(m: Map<(int, int), Tile>, l: Seq<((i32, i32), Tile)>) -> Map<
    (int, int),
    Tile,
>
    decreases l.len(),
{
    if l.len() == 0 {
        m
    } else {
        overlay(m, l.drop_last()).insert(key_of(l.last()), l.last().1)
    }
}

/// `m` without the coordinates listed in `l`.
pub open spec fn without(m: Map<(int, int), Tile>, l: Seq<(i32, i32)>) -> Map<(int, int), Tile>
    decreases l.len(),
{
    if l.len() == 0 {
        m
    } else {
        without(m, l.drop_last()).remove((l.last().0 as int, l.last().1 as int))
    }
}

/// `m` with every coordinate of the rectangle `[x0, x1) × [y0, y1)` set to
/// `t`.
pub open spec fn fill(m: Map<(int, int), Tile>, x0: int, x1: int, y0: int, y1: int, t: Tile) -> Map<
    (int, int),
    Tile,
> {
    Map::new(
        |p: (int, int)| (x0 <= p.0 < x1 && y0 <= p.1 < y1) || m.contains_key(p),
        |p: (int, int)|
            if x0 <= p.0 < x1 && y0 <= p.1 < y1 {
                t
            } else {
                m[p]
            },
    )
}

impl Level {
    pub fn builder() -> (r: LevelBuilder)
        ensures
            r.0.wf(),
            r.0.grid() == Map::<(int, int), Tile>::empty(),
            r.0.actions@ == seq![Action::Forward, Action::Right, Action::Backward, Action::Left],
            r.0.action_limit == 1,
    {
        LevelBuilder::new()
    }
}

/// Assembles a level step by step.
pub struct LevelBuilder(pub Level);

impl LevelBuilder {
    /// An unnamed level with no tiles, all four actions, a plan limit of one
    /// action and no challenges.
    pub fn new() -> (r: LevelBuilder)
        ensures
            r.0.wf(),
            r.0.grid() == Map::<(int, int), Tile>::empty(),
            r.0.actions@ == seq![Action::Forward, Action::Right, Action::Backward, Action::Left],
            r.0.action_limit == 1,
            r.0.command_challenge is None,
            r.0.step_challenge is None,
            r.0.waste_challenge is None,
    {
        let mut actions: Vec<Action> = Vec::new();
        actions.push(Action::Forward);
        actions.push(Action::Right);
        actions.push(Action::Backward);
        actions.push(Action::Left);
        let r = LevelBuilder(
            Level {
                tiles: Vec::new(),
                name: "Unnamed",
                actions,
                action_limit: 1,
                command_challenge: None,
                step_challenge: None,
                waste_challenge: None,
            },
        );
        assert(r.0.grid() =~= Map::<(int, int), Tile>::empty());
        assert(r.0.actions@ =~= seq![Action::Forward, Action::Right, Action::Backward, Action::Left]);
        r
    }

    /// Sets every coordinate from `lower` to `upper`, both included, to `tile`.
    pub fn block(self, lower: (i32, i32), upper: (i32, i32), tile: Tile) -> (r: LevelBuilder)
        requires
            self.0.wf(),
            inner((lower.0 as int, lower.1 as int)),
            inner((upper.0 as int, upper.1 as int)),
        ensures
            r.0.wf(),
            r.0.grid() == fill(
                self.0.grid(),
                lower.0 as int,
                upper.0 + 1,
                lower.1 as int,
                upper.1 + 1,
                tile,
            ),
            r.0.actions == self.0.actions,
            r.0.action_limit == self.0.action_limit,
            r.0.name == self.0.name,
            r.0.command_challenge == self.0.command_challenge,
            r.0.step_challenge == self.0.step_challenge,
            r.0.waste_challenge == self.0.waste_challenge,
    {
        let mut level = self.0;
        let ghost g0 = level.grid();
        let mut x: i64 = lower.0 as i64;
        while x <= upper.0 as i64
            invariant
                level.wf(),
                lower.0 <= x <= if lower.0 <= upper.0 { upper.0 + 1 } else { lower.0 as int },
                inner((lower.0 as int, lower.1 as int)),
                inner((upper.0 as int, upper.1 as int)),
                level.grid() == fill(g0, lower.0 as int, x as int, lower.1 as int, upper.1 + 1, tile),
                level.actions == self.0.actions,
                level.action_limit == self.0.action_limit,
                level.name == self.0.name,
                level.command_challenge == self.0.command_challenge,
                level.step_challenge == self.0.step_challenge,
                level.waste_challenge == self.0.waste_challenge,
            decreases upper.0 + 1 - x,
        {
            let ghost g1 = level.grid();
            let mut y: i64 = lower.1 as i64;
            while y <= upper.1 as i64
                invariant
                    level.wf(),
                    lower.0 <= x <= upper.0,
                    lower.1 <= y <= if lower.1 <= upper.1 { upper.1 + 1 } else { lower.1 as int },
                    inner((lower.0 as int, lower.1 as int)),
                    inner((upper.0 as int, upper.1 as int)),
                    level.grid() == fill(g1, x as int, x + 1, lower.1 as int, y as int, tile),
                    level.actions == self.0.actions,
                    level.action_limit == self.0.action_limit,
                    level.name == self.0.name,
                    level.command_challenge == self.0.command_challenge,
                    level.step_challenge == self.0.step_challenge,
                    level.waste_challenge == self.0.waste_challenge,
                decreases upper.1 + 1 - y,
            {
                put(&mut level.tiles, (x as i32, y as i32), tile);
                assert(level.grid() =~= fill(g1, x as int, x + 1, lower.1 as int, y + 1, tile));
                y = y + 1;
            }
            assert(level.grid() =~= fill(g0, lower.0 as int, x + 1, lower.1 as int, upper.1 + 1, tile));
            x = x + 1;
        }
        assert(level.grid() =~= fill(g0, lower.0 as int, upper.0 + 1, lower.1 as int, upper.1 + 1, tile));
        LevelBuilder(level)
    }

    /// Places each listed tile in turn; a later entry for a coordinate wins.
    pub fn insert(self, tiles: Vec<((i32, i32), Tile)>) -> (r: LevelBuilder)
        requires
            self.0.wf(),
            forall|i: int| 0 <= i < tiles@.len() ==> inner(#[trigger] key_of(tiles@[i])),
        ensures
            r.0.wf(),
            r.0.grid() == overlay(self.0.grid(), tiles@),
            r.0.actions == self.0.actions,
            r.0.action_limit == self.0.action_limit,
            r.0.name == self.0.name,
            r.0.command_challenge == self.0.command_challenge,
            r.0.step_challenge == self.0.step_challenge,
            r.0.waste_challenge == self.0.waste_challenge,
    {
        let mut level = self.0;
        let mut i: usize = 0;
        while i < tiles.len()
            invariant
                level.wf(),
                i <= tiles@.len(),
                forall|k: int| 0 <= k < tiles@.len() ==> inner(#[trigger] key_of(tiles@[k])),
                level.grid() == overlay(self.0.grid(), tiles@.take(i as int)),
                level.actions == self.0.actions,
                level.action_limit == self.0.action_limit,
                level.name == self.0.name,
                level.command_challenge == self.0.command_challenge,
                level.step_challenge == self.0.step_challenge,
                level.waste_challenge == self.0.waste_challenge,
            decreases tiles@.len() - i,
        {
            let (position, tile) = tiles[i];
            assert(inner(key_of(tiles@[i as int])));
            put(&mut level.tiles, position, tile);
            assert(tiles@.take(i + 1).drop_last() =~= tiles@.take(i as int));
            i = i + 1;
        }
        assert(tiles@.take(i as int) =~= tiles@);
        LevelBuilder(level)
    }

    /// Removes the tiles at the listed coordinates, where there are any.
    pub fn remove(self, positions: Vec<(i32, i32)>) -> (r: LevelBuilder)
        requires
            self.0.wf(),
        ensures
            r.0.wf(),
            r.0.grid() == without(self.0.grid(), positions@),
            r.0.actions == self.0.actions,
            r.0.action_limit == self.0.action_limit,
            r.0.name == self.0.name,
            r.0.command_challenge == self.0.command_challenge,
            r.0.step_challenge == self.0.step_challenge,
            r.0.waste_challenge == self.0.waste_challenge,
    {
        let mut level = self.0;
        let mut i: usize = 0;
        while i < positions.len()
            invariant
                level.wf(),
                i <= positions@.len(),
                level.grid() == without(self.0.grid(), positions@.take(i as int)),
                level.actions == self.0.actions,
                level.action_limit == self.0.action_limit,
                level.name == self.0.name,
                level.command_challenge == self.0.command_challenge,
                level.step_challenge == self.0.step_challenge,
                level.waste_challenge == self.0.waste_challenge,
            decreases positions@.len() - i,
        {
            take_out(&mut level.tiles, positions[i]);
            assert(positions@.take(i + 1).drop_last() =~= positions@.take(i as int));
            i = i + 1;
        }
        assert(positions@.take(i as int) =~= positions@);
        LevelBuilder(level)
    }

    /// The actions that plans for the level may use.
    pub fn actions(self, actions: Vec<Action>) -> (r: LevelBuilder)
        ensures
            r.0 == (Level { actions, ..self.0 }),
    {
        let mut level = self.0;
        level.actions = actions;
        LevelBuilder(level)
    }

    /// The greatest number of actions in a plan.
    pub fn action_limit(self, limit: usize) -> (r: LevelBuilder)
        ensures
            r.0 == (Level { action_limit: limit, ..self.0 }),
    {
        let mut level = self.0;
        level.action_limit = limit;
        LevelBuilder(level)
    }

    pub fn command_challenge(self, challenge: usize) -> (r: LevelBuilder)
        ensures
            r.0 == (Level { command_challenge: Some(challenge), ..self.0 }),
    {
        let mut level = self.0;
        level.command_challenge = Some(challenge);
        LevelBuilder(level)
    }

    pub fn step_challenge(self, challenge: usize) -> (r: LevelBuilder)
        ensures
            r.0 == (Level { step_challenge: Some(challenge), ..self.0 }),
    {
        let mut level = self.0;
        level.step_challenge = Some(challenge);
        LevelBuilder(level)
    }

    pub fn waste_challenge(self, challenge: usize) -> (r: LevelBuilder)
        ensures
            r.0 == (Level { waste_challenge: Some(challenge), ..self.0 }),
    {
        let mut level = self.0;
        level.waste_challenge = Some(challenge);
        LevelBuilder(level)
    }

    pub fn name(self, name: &'static str) -> (r: LevelBuilder)
        ensures
            r.0 == (Level { name, ..self.0 }),
    {
        let mut level = self.0;
        level.name = name;
        LevelBuilder(level)
    }

    /// The level, or `None` when it has no start tile: such a level has
    /// no player and could never be played.
    pub fn build(self) -> (r: Option<Level>)
        ensures
            r is Some <==> has_start(self.0),
            r is Some ==> r.unwrap() == self.0,
    {
        let mut i: usize = 0;
        while i < self.0.tiles.len()
            invariant
                i <= self.0.tiles@.len(),
                forall|k: int| 0 <= k < i ==> !((#[trigger] self.0.tiles@[k]).1 is Start),
            decreases self.0.tiles@.len() - i,
        {
            match self.0.tiles[i].1 {
                Tile::Start(_) => {
                    return Some(self.0);
                },
                _ => {},
            }
            i = i + 1;
        }
        None
    }
}

impl Default for LevelBuilder {
    fn default() -> (r: LevelBuilder)
        ensures
            r.0.wf(),
            r.0.grid() == Map::<(int, int), Tile>::empty(),
            r.0.action_limit == 1,
    {
        LevelBuilder::new()
    }
}

} // verus!
