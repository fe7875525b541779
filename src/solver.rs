use vstd::prelude::*;
use crate::actions::{copy_actions, Action};
use crate::level::{has_start, key_of, Level, Tile};
use crate::player::Player;
use crate::simulation::{lemma_tile_inner, run_simulation_step, step_player, SimulationEvent};

verus! {

/// A plan that finishes a level, with its length and the number of steps
/// it takes until every player stands on a finish tile.
#[derive(Debug, Clone, PartialEq)]
pub struct Solution {
    pub path: Vec<Action>,
    pub solution_size: usize,
    pub steps: usize,
}

impl View for Solution {
    type V = (Seq<Action>, nat, nat);

    open spec fn view(&self) -> (Seq<Action>, nat, nat) {
        (self.path@, self.solution_size as nat, self.steps as nat)
    }
}

/// One player for each start tile, in the order in which the tiles are
/// listed, facing as the tile says.
pub open spec fn starts_of(s: Seq<((i32, i32), Tile)>) -> Seq<Player>
    decreases s.len(),
{
    if s.len() == 0 {
        Seq::empty()
    } else {
        let rest = starts_of(s.drop_last());
        match s.last().1 {
            Tile::Start(r) => rest.push(Player { position: s.last().0, rotation: r }),
            _ => rest,
        }
    }
}

/// The players after every one of them has moved for `a`.
pub open spec fn next_players(level: Level, ps: Seq<Player>, a: Action) -> Seq<Player> {
    Seq::new(ps.len(), |i: int| step_player(level, ps[i], a, i).0)
}

/// What happened to each player moving for `a`.
pub open spec fn step_events(level: Level, ps: Seq<Player>, a: Action) -> Seq<
    Option<SimulationEvent>,
> {
    Seq::new(ps.len(), |i: int| step_player(level, ps[i], a, i).1)
}

/// The action a cyclic run of `plan` performs at step `t` (counted from 0).
pub open spec fn action_at(plan: Seq<Action>, t: int) -> Action {
    plan[t % (plan.len() as int)]
}

/// The players after `t` steps of running `plan` over and over.
pub open spec fn players_at(level: Level, plan: Seq<Action>, start: Seq<Player>, t: nat) -> Seq<
    Player,
>
    decreases t,
{
    if t == 0 {
        start
    } else {
        next_players(
            level,
            players_at(level, plan, start, (t - 1) as nat),
            action_at(plan, t - 1),
        )
    }
}

/// The events of step number `t`, counted from 1.
pub open spec fn events_at(level: Level, plan: Seq<Action>, start: Seq<Player>, t: nat) -> Seq<
    Option<SimulationEvent>,
> {
    step_events(level, players_at(level, plan, start, (t - 1) as nat), action_at(plan, t - 1))
}

pub open spec fn all_finished(evs: Seq<Option<SimulationEvent>>) -> bool {
    forall|i: int| 0 <= i < evs.len() ==> evs[i] == Some(SimulationEvent::Finished)
}

pub open spec fn any_died(evs: Seq<Option<SimulationEvent>>) -> bool {
    exists|i: int| 0 <= i < evs.len() && evs[i] is Some && evs[i].unwrap() is Died
}

/// A step after which the run is over, won or lost.
pub open spec fn terminal(evs: Seq<Option<SimulationEvent>>) -> bool {
    all_finished(evs) || any_died(evs)
}

/// Running `plan` cyclically from `start`, step `t` is the first step after
/// which the run is over, and every player has finished.
pub open spec fn solves_in(level: Level, plan: Seq<Action>, start: Seq<Player>, t: nat) -> bool {
    &&& t >= 1
    &&& all_finished(events_at(level, plan, start, t))
    &&& forall|u: nat| 1 <= u < t ==> !terminal(#[trigger] events_at(level, plan, start, u))
}

/// The number of steps after which a cyclic run of `plan` has finished, if it
/// ever does.
pub open spec fn outcome(level: Level, plan: Seq<Action>, start: Seq<Player>) -> Option<nat> {
    if exists|t: nat| solves_in(level, plan, start, t) {
        Some(choose|t: nat| solves_in(level, plan, start, t))
    } else {
        None
    }
}

/// Every player stands on a tile.
pub open spec fn on_tiles(level: Level, ps: Seq<Player>) -> bool {
    forall|i: int| 0 <= i < ps.len() ==> level.grid().contains_key(#[trigger] ps[i].pos())
}

// ---- counting the states a run can visit ----

spec fn tile_index(level: Level, p: (int, int)) -> int {
    choose|i: int| 0 <= i < level.tiles@.len() && key_of(level.tiles@[i]) == p
}

spec fn player_code(level: Level, p: Player) -> int {
    4 * tile_index(level, p.pos()) + p.rotation.quarters()
}

spec fn radix(level: Level) -> int {
    4 * (level.tiles@.len() as int)
}

spec fn players_code(level: Level, ps: Seq<Player>) -> int
    decreases ps.len(),
{
    if ps.len() == 0 {
        0
    } else {
        player_code(level, ps[0]) + radix(level) * players_code(level, ps.drop_first())
    }
}

spec fn power(c: int, m: nat) -> int
    decreases m,
{
    if m == 0 {
        1
    } else {
        c * power(c, (m - 1) as nat)
    }
}

spec fn state_code(level: Level, n: int, k: int, ps: Seq<Player>) -> int {
    k + n * players_code(level, ps)
}

/// An upper bound on the number of distinct states of a run.
spec fn state_bound(level: Level, n: int, m: nat) -> int {
    n * power(radix(level), m)
}

proof fn lemma_player_code(level: Level, p: Player)
    requires
        level.grid().contains_key(p.pos()),
    ensures
        0 <= player_code(level, p) < radix(level),
        0 <= tile_index(level, p.pos()) < level.tiles@.len(),
        key_of(level.tiles@[tile_index(level, p.pos())]) == p.pos(),
{
}

proof fn lemma_digits(c: int, a1: int, b1: int, a2: int, b2: int)
    requires
        0 <= a1 < c,
        0 <= a2 < c,
        a1 + c * b1 == a2 + c * b2,
    ensures
        a1 == a2,
        b1 == b2,
{
    assert(b1 == b2) by (nonlinear_arith)
        requires
            0 <= a1 < c,
            0 <= a2 < c,
            a1 + c * b1 == a2 + c * b2,
    ;
}

proof fn lemma_players_code_bound(level: Level, ps: Seq<Player>)
    requires
        on_tiles(level, ps),
    ensures
        0 <= players_code(level, ps) < power(radix(level), ps.len()),
    decreases ps.len(),
{
    if ps.len() > 0 {
        let rest = ps.drop_first();
        assert(on_tiles(level, rest)) by {
            assert forall|i: int| 0 <= i < rest.len() implies level.grid().contains_key(
                #[trigger] rest[i].pos(),
            ) by {
                assert(rest[i] == ps[i + 1]);
            }
        }
        lemma_players_code_bound(level, rest);
        lemma_player_code(level, ps[0]);
        let c = radix(level);
        let x = player_code(level, ps[0]);
        let y = players_code(level, rest);
        let p = power(c, rest.len());
        assert(0 <= x + c * y < c * p) by (nonlinear_arith)
            requires
                0 <= x < c,
                0 <= y < p,
        ;
    }
}

proof fn lemma_players_code_injective(level: Level, a: Seq<Player>, b: Seq<Player>)
    requires
        on_tiles(level, a),
        on_tiles(level, b),
        a.len() == b.len(),
        players_code(level, a) == players_code(level, b),
    ensures
        a == b,
    decreases a.len(),
{
    if a.len() > 0 {
        let ra = a.drop_first();
        let rb = b.drop_first();
        assert(on_tiles(level, ra)) by {
            assert forall|i: int| 0 <= i < ra.len() implies level.grid().contains_key(
                #[trigger] ra[i].pos(),
            ) by {
                assert(ra[i] == a[i + 1]);
            }
        }
        assert(on_tiles(level, rb)) by {
            assert forall|i: int| 0 <= i < rb.len() implies level.grid().contains_key(
                #[trigger] rb[i].pos(),
            ) by {
                assert(rb[i] == b[i + 1]);
            }
        }
        lemma_player_code(level, a[0]);
        lemma_player_code(level, b[0]);
        lemma_digits(
            radix(level),
            player_code(level, a[0]),
            players_code(level, ra),
            player_code(level, b[0]),
            players_code(level, rb),
        );
        lemma_players_code_injective(level, ra, rb);
        assert(a[0] == b[0]);
        assert forall|i: int| 0 <= i < a.len() implies a[i] == b[i] by {
            if i > 0 {
                assert(a[i] == ra[i - 1]);
                assert(b[i] == rb[i - 1]);
            }
        }
        assert(a =~= b);
    }
}

/// A run whose states, one per step `0..=t`, are pairwise distinct has taken
/// no more steps than there are states.
proof fn lemma_distinct_states_bounded(
    level: Level,
    plan: Seq<Action>,
    start: Seq<Player>,
    t: nat,
)
    requires
        plan.len() > 0,
        forall|j: nat|
            j <= t ==> on_tiles(level, #[trigger] players_at(level, plan, start, j))
                && players_at(level, plan, start, j).len() == start.len(),
        forall|j1: nat, j2: nat|
            j1 < j2 <= t ==> !(j1 % plan.len() == j2 % plan.len() && #[trigger] players_at(
                level,
                plan,
                start,
                j1,
            ) == #[trigger] players_at(level, plan, start, j2)),
    ensures
        t + 1 <= state_bound(level, plan.len() as int, start.len()),
{
    let n = plan.len() as int;
    let bound = state_bound(level, n, start.len());
    let codes = Seq::new(
        t + 1,
        |j: int| state_code(level, n, j % n, players_at(level, plan, start, j as nat)),
    );
    assert forall|j: int| 0 <= j < codes.len() implies 0 <= #[trigger] codes[j] < bound by {
        let ps = players_at(level, plan, start, j as nat);
        lemma_players_code_bound(level, ps);
        let e = players_code(level, ps);
        let p = power(radix(level), start.len());
        let k = j % n;
        assert(0 <= k + n * e < n * p) by (nonlinear_arith)
            requires
                0 <= k < n,
                0 <= e < p,
        ;
    }
    assert(codes.no_duplicates()) by {
        assert forall|j1: int, j2: int|
            0 <= j1 < codes.len() && 0 <= j2 < codes.len() && j1 != j2 implies codes[j1]
            != codes[j2] by {
            if codes[j1] == codes[j2] {
                let a = players_at(level, plan, start, j1 as nat);
                let b = players_at(level, plan, start, j2 as nat);
                lemma_players_code_bound(level, a);
                lemma_players_code_bound(level, b);
                lemma_digits(n, j1 % n, players_code(level, a), j2 % n, players_code(level, b));
                lemma_players_code_injective(level, a, b);
                if j1 < j2 {
                    assert(players_at(level, plan, start, j1 as nat) == players_at(
                        level,
                        plan,
                        start,
                        j2 as nat,
                    ));
                } else {
                    assert(players_at(level, plan, start, j2 as nat) == players_at(
                        level,
                        plan,
                        start,
                        j1 as nat,
                    ));
                }
            }
        }
    }
    codes.unique_seq_to_set();
    let range = vstd::set_lib::set_int_range(0, bound);
    assert(codes.to_set().subset_of(range));
    assert(0 <= codes[0] < bound);
    vstd::set_lib::lemma_int_range(0, bound);
    vstd::set_lib::lemma_len_subset(codes.to_set(), range);
}


// ---- a run that returns to a state it has been in goes round forever ----

proof fn lemma_periodic(level: Level, plan: Seq<Action>, start: Seq<Player>, j: nat, t: nat, m: nat)
    requires
        plan.len() > 0,
        j % plan.len() == t % plan.len(),
        players_at(level, plan, start, j) == players_at(level, plan, start, t),
    ensures
        players_at(level, plan, start, j + m) == players_at(level, plan, start, t + m),
    decreases m,
{
    if m > 0 {
        let n = plan.len() as int;
        lemma_periodic(level, plan, start, j, t, (m - 1) as nat);
        vstd::arithmetic::div_mod::lemma_add_mod_noop(j as int, m - 1, n);
        vstd::arithmetic::div_mod::lemma_add_mod_noop(t as int, m - 1, n);
        assert(action_at(plan, j + m - 1) == action_at(plan, t + m - 1));
        assert(players_at(level, plan, start, (j + m) as nat) == next_players(
            level,
            players_at(level, plan, start, (j + m - 1) as nat),
            action_at(plan, j + m - 1),
        ));
        assert(players_at(level, plan, start, (t + m) as nat) == next_players(
            level,
            players_at(level, plan, start, (t + m - 1) as nat),
            action_at(plan, t + m - 1),
        ));
    }
}

proof fn lemma_cycle_never_ends(
    level: Level,
    plan: Seq<Action>,
    start: Seq<Player>,
    j: nat,
    t: nat,
    u: nat,
)
    requires
        plan.len() > 0,
        j < t,
        j % plan.len() == t % plan.len(),
        players_at(level, plan, start, j) == players_at(level, plan, start, t),
        forall|w: nat| 1 <= w <= t ==> !terminal(#[trigger] events_at(level, plan, start, w)),
        u >= 1,
    ensures
        !terminal(events_at(level, plan, start, u)),
    decreases u,
{
    if u > t {
        let n = plan.len() as int;
        let m = (u - 1 - t) as nat;
        let v = (j + u - t) as nat;
        lemma_periodic(level, plan, start, j, t, m);
        vstd::arithmetic::div_mod::lemma_add_mod_noop(j as int, m as int, n);
        vstd::arithmetic::div_mod::lemma_add_mod_noop(t as int, m as int, n);
        assert((v - 1) as nat == j + m);
        assert((u - 1) as nat == t + m);
        assert(events_at(level, plan, start, u) == events_at(level, plan, start, v));
        lemma_cycle_never_ends(level, plan, start, j, t, v);
    }
}

/// A player that did not fall stands on a tile.
proof fn lemma_step_on_tile(level: Level, p: Player, a: Action, i: int)
    requires
        level.wf(),
        level.grid().contains_key(p.pos()),
        !(step_player(level, p, a, i).1 is Some && step_player(level, p, a, i).1.unwrap() is Died),
    ensures
        level.grid().contains_key(step_player(level, p, a, i).0.pos()),
{
    let q = step_player(level, p, a, i).0;
    if q != p {
        let d = p.rotation.apply(a);
        let f = crate::simulation::glide(level, crate::simulation::offset(p.pos(), d), d);
        assert(level.tile_at(f) is Some);
        lemma_tile_inner(level, f);
        assert(q.pos() == f);
    }
}

proof fn lemma_next_phase(t: int, n: int)
    requires
        t >= 0,
        n > 0,
    ensures
        (t + 1) % n == if t % n + 1 == n {
            0
        } else {
            t % n + 1
        },
{
    let q = t / n;
    let r = t % n;
    vstd::arithmetic::div_mod::lemma_fundamental_div_mod(t, n);
    vstd::arithmetic::div_mod::lemma_mod_bound(t, n);
    if r + 1 < n {
        vstd::arithmetic::div_mod::lemma_mod_multiples_vanish(q, r + 1, n);
        vstd::arithmetic::div_mod::lemma_small_mod((r + 1) as nat, n as nat);
        assert(t + 1 == n * q + (r + 1));
    } else {
        vstd::arithmetic::div_mod::lemma_mod_multiples_vanish(q + 1, 0, n);
        assert(t + 1 == n * (q + 1) + 0) by (nonlinear_arith)
            requires
                t == n * q + r,
                r + 1 == n,
        ;
    }
}

fn copy_players(ps: &Vec<Player>) -> (r: Vec<Player>)
    ensures
        r@ == ps@,
{
    let mut out: Vec<Player> = Vec::new();
    let mut i: usize = 0;
    while i < ps.len()
        invariant
            i <= ps@.len(),
            out@ =~= ps@.take(i as int),
        decreases ps@.len() - i,
    {
        out.push(ps[i]);
        i = i + 1;
    }
    assert(ps@.take(i as int) =~= ps@);
    out
}

fn same_players(a: &Vec<Player>, b: &Vec<Player>) -> (r: bool)
    ensures
        r == (a@ == b@),
{
    if a.len() != b.len() {
        return false;
    }
    let mut i: usize = 0;
    while i < a.len()
        invariant
            a@.len() == b@.len(),
            i <= a@.len(),
            forall|k: int| 0 <= k < i ==> a@[k] == b@[k],
        decreases a@.len() - i,
    {
        if !a[i].same_as(&b[i]) {
            return false;
        }
        i = i + 1;
    }
    assert(a@ =~= b@);
    true
}

fn seen(visited: &Vec<(usize, Vec<Player>)>, k: usize, ps: &Vec<Player>) -> (r: bool)
    ensures
        r == exists|j: int|
            0 <= j < visited@.len() && (#[trigger] visited@[j]).0 == k && visited@[j].1@ == ps@,
{
    let mut i: usize = 0;
    while i < visited.len()
        invariant
            i <= visited@.len(),
            forall|j: int|
                0 <= j < i ==> !((#[trigger] visited@[j]).0 == k && visited@[j].1@ == ps@),
        decreases visited@.len() - i,
    {
        if visited[i].0 == k && same_players(&visited[i].1, ps) {
            return true;
        }
        i = i + 1;
    }
    false
}

/// Whether every player finished, and whether any player fell.
fn classify(step: &Vec<(Player, Option<SimulationEvent>)>) -> (r: (bool, bool))
    ensures
        r.0 == all_finished(step@.map_values(|e: (Player, Option<SimulationEvent>)| e.1)),
        r.1 == any_died(step@.map_values(|e: (Player, Option<SimulationEvent>)| e.1)),
{
    let ghost evs = step@.map_values(|e: (Player, Option<SimulationEvent>)| e.1);
    let mut finished = true;
    let mut died = false;
    let mut i: usize = 0;
    while i < step.len()
        invariant
            i <= step@.len(),
            evs == step@.map_values(|e: (Player, Option<SimulationEvent>)| e.1),
            finished == forall|k: int| 0 <= k < i ==> evs[k] == Some(SimulationEvent::Finished),
            died == exists|k: int| 0 <= k < i && evs[k] is Some && evs[k].unwrap() is Died,
        decreases step@.len() - i,
    {
        assert(evs[i as int] == step@[i as int].1);
        match step[i].1 {
            Some(SimulationEvent::Finished) => {},
            Some(SimulationEvent::Died(_)) => {
                finished = false;
                died = true;
            },
            None => {
                finished = false;
            },
        }
        i = i + 1;
    }
    (finished, died)
}


/// Runs `plan` over and over from `start` and returns the number of steps
/// after which every player has finished, or `None` when a player falls
/// first or the run returns to a state it has already been in.
pub fn run_plan(level: &Level, plan: &Vec<Action>, start: &Vec<Player>) -> (r: Option<usize>)
    requires
        level.wf(),
        plan@.len() > 0,
        on_tiles(*level, start@),
    ensures
        match r {
            Some(t) => solves_in(*level, plan@, start@, t as nat),
            None => forall|t: nat| !solves_in(*level, plan@, start@, t),
        },
{
    let n = plan.len();
    let ghost lv = *level;
    let ghost pl = plan@;
    let ghost st = start@;
    let mut players = copy_players(start);
    let mut visited: Vec<(usize, Vec<Player>)> = Vec::new();
    let mut k: usize = 0;
    proof {
        vstd::arithmetic::div_mod::lemma_small_mod(0, n as nat);
    }
    loop
        invariant
            lv == *level,
            pl == plan@,
            st == start@,
            level.wf(),
            n == pl.len(),
            n > 0,
            k < n,
            k as int == visited@.len() as int % n as int,
            players@ == players_at(lv, pl, st, visited@.len() as nat),
            forall|j: int|
                0 <= j < visited@.len() ==> (#[trigger] visited@[j]).0 as int == j % n as int
                    && visited@[j].1@ == players_at(lv, pl, st, j as nat),
            forall|j: nat|
                j <= visited@.len() ==> on_tiles(lv, #[trigger] players_at(lv, pl, st, j))
                    && players_at(lv, pl, st, j).len() == st.len(),
            forall|j1: nat, j2: nat|
                j1 < j2 < visited@.len() ==> !(j1 % pl.len() == j2 % pl.len()
                    && #[trigger] players_at(lv, pl, st, j1) == #[trigger] players_at(
                    lv,
                    pl,
                    st,
                    j2,
                )),
            forall|w: nat|
                1 <= w <= visited@.len() ==> !terminal(#[trigger] events_at(lv, pl, st, w)),
        decreases state_bound(lv, n as int, st.len()) - visited@.len(),
    {
        let ghost t = visited@.len() as nat;
        if seen(&visited, k, &players) {
            proof {
                let j = choose|j: int|
                    0 <= j < visited@.len() && (#[trigger] visited@[j]).0 == k && visited@[j].1@
                        == players@;
                assert(j % (n as int) == (t as int) % (n as int));
                assert forall|u: nat| !solves_in(lv, pl, st, u) by {
                    if u >= 1 {
                        lemma_cycle_never_ends(lv, pl, st, j as nat, t, u);
                        if u > t {
                            lemma_cycle_never_ends(lv, pl, st, j as nat, t, t);
                        }
                    }
                }
            }
            return None;
        }
        proof {
            assert forall|j1: nat, j2: nat|
                j1 < j2 <= t implies !(j1 % pl.len() == j2 % pl.len() && #[trigger] players_at(
                lv,
                pl,
                st,
                j1,
            ) == #[trigger] players_at(lv, pl, st, j2)) by {
                if j2 == t && j1 % pl.len() == j2 % pl.len() && players_at(lv, pl, st, j1)
                    == players_at(lv, pl, st, j2) {
                    assert(visited@[j1 as int].0 == k);
                    assert(visited@[j1 as int].1@ == players@);
                }
            }
            lemma_distinct_states_bounded(lv, pl, st, t);
            assert forall|i: int| 0 <= i < players@.len() implies crate::level::inner(
                #[trigger] players@[i].pos(),
            ) by {
                assert(on_tiles(lv, players_at(lv, pl, st, t)));
                lemma_tile_inner(lv, players@[i].pos());
            }
        }
        visited.push((k, copy_players(&players)));
        let step = run_simulation_step(level, players.as_slice(), plan[k]);
        let (finished, died) = classify(&step);
        proof {
            assert(action_at(pl, t as int) == pl[k as int]);
            assert(step@.map_values(|e: (Player, Option<SimulationEvent>)| e.1) =~= events_at(
                lv,
                pl,
                st,
                t + 1,
            ));
        }
        if finished {
            return Some(visited.len());
        }
        if died {
            proof {
                assert forall|u: nat| !solves_in(lv, pl, st, u) by {
                    assert(terminal(events_at(lv, pl, st, (t + 1) as nat)));
                    if u == t + 1 && all_finished(events_at(lv, pl, st, u)) {
                        let evs = events_at(lv, pl, st, u);
                        let i = choose|i: int|
                            0 <= i < evs.len() && evs[i] is Some && evs[i].unwrap() is Died;
                        assert(evs[i] == Some(SimulationEvent::Finished));
                    }
                }
            }
            return None;
        }
        let mut next: Vec<Player> = Vec::new();
        let mut i: usize = 0;
        while i < step.len()
            invariant
                i <= step@.len(),
                next@ =~= step@.take(i as int).map_values(
                    |e: (Player, Option<SimulationEvent>)| e.0,
                ),
            decreases step@.len() - i,
        {
            next.push(step[i].0);
            i = i + 1;
        }
        proof {
            assert(step@.take(i as int) =~= step@);
            assert(next@ =~= players_at(lv, pl, st, t + 1));
            let ps = players_at(lv, pl, st, t);
            assert forall|i: int| 0 <= i < next@.len() implies lv.grid().contains_key(
                #[trigger] next@[i].pos(),
            ) by {
                let evs = events_at(lv, pl, st, t + 1);
                assert(evs[i] == step_player(lv, ps[i], pl[k as int], i).1);
                assert(next@[i] == step_player(lv, ps[i], pl[k as int], i).0);
                lemma_step_on_tile(lv, ps[i], pl[k as int], i);
            }
            lemma_next_phase(t as int, n as int);
        }
        players = next;
        k = if k + 1 == n {
            0
        } else {
            k + 1
        };
    }
}


proof fn lemma_solves_unique(level: Level, plan: Seq<Action>, start: Seq<Player>, t1: nat, t2: nat)
    requires
        solves_in(level, plan, start, t1),
        solves_in(level, plan, start, t2),
    ensures
        t1 == t2,
{
    if t1 < t2 {
        assert(!terminal(events_at(level, plan, start, t1)));
    }
    if t2 < t1 {
        assert(!terminal(events_at(level, plan, start, t2)));
    }
}

// ---- enumerating plans ----

/// For each of the first `i` actions in turn, every plan of `prev` with that
/// action put in front.
pub open spec fn prefixed(actions: Seq<Action>, prev: Seq<Seq<Action>>, i: int) -> Seq<Seq<Action>>
    decreases i,
{
    if i <= 0 {
        Seq::empty()
    } else {
        prefixed(actions, prev, i - 1) + prev.map_values(|p: Seq<Action>| seq![actions[i - 1]] + p)
    }
}

/// Every plan of exactly `d` actions drawn from `actions`, the first action
/// varying slowest.
pub open spec fn product(actions: Seq<Action>, d: nat) -> Seq<Seq<Action>>
    decreases d,
{
    if d == 0 {
        seq![Seq::empty()]
    } else {
        prefixed(actions, product(actions, (d - 1) as nat), actions.len() as int)
    }
}

/// The plans of length `1`, then those of length `2`, and so on up to `d`.
pub open spec fn plans_up_to(actions: Seq<Action>, d: nat) -> Seq<Seq<Action>>
    decreases d,
{
    if d == 0 {
        Seq::empty()
    } else {
        plans_up_to(actions, (d - 1) as nat) + product(actions, d)
    }
}

pub open spec fn plans_view(v: Seq<Vec<Action>>) -> Seq<Seq<Action>> {
    v.map_values(|p: Vec<Action>| p@)
}

fn extend_all(actions: &Vec<Action>, prev: &Vec<Vec<Action>>) -> (r: Vec<Vec<Action>>)
    ensures
        plans_view(r@) == prefixed(actions@, plans_view(prev@), actions@.len() as int),
{
    let ghost pv = plans_view(prev@);
    let mut out: Vec<Vec<Action>> = Vec::new();
    let mut i: usize = 0;
    while i < actions.len()
        invariant
            i <= actions@.len(),
            pv == plans_view(prev@),
            plans_view(out@) == prefixed(actions@, pv, i as int),
        decreases actions@.len() - i,
    {
        let ghost before = plans_view(out@);
        let mut j: usize = 0;
        while j < prev.len()
            invariant
                i < actions@.len(),
                j <= prev@.len(),
                pv == plans_view(prev@),
                plans_view(out@) =~= before + pv.take(j as int).map_values(
                    |p: Seq<Action>| seq![actions@[i as int]] + p,
                ),
            decreases prev@.len() - j,
        {
            let mut plan: Vec<Action> = Vec::new();
            plan.push(actions[i]);
            let mut k: usize = 0;
            while k < prev[j].len()
                invariant
                    j < prev@.len(),
                    k <= prev@[j as int]@.len(),
                    plan@ =~= seq![actions@[i as int]] + prev@[j as int]@.take(k as int),
                decreases prev@[j as int]@.len() - k,
            {
                plan.push(prev[j][k]);
                k = k + 1;
            }
            assert(prev@[j as int]@.take(k as int) =~= prev@[j as int]@);
            let ghost old_out = out@;
            out.push(plan);
            assert(plans_view(out@) =~= plans_view(old_out).push(plan@));
            assert(pv.take(j + 1) =~= pv.take(j as int).push(pv[j as int]));
            j = j + 1;
        }
        assert(pv.take(j as int) =~= pv);
        i = i + 1;
    }
    out
}

/// Every plan of length `1..=action_limit` over the level's actions, shorter
/// plans first and, within one length, in the order of the level's action
/// list with the first action varying slowest.
pub fn solution_iter(level: &Level) -> (r: Vec<Vec<Action>>)
    ensures
        plans_view(r@) == plans_up_to(level.actions@, level.action_limit as nat),
{
    let mut layer: Vec<Vec<Action>> = Vec::new();
    layer.push(Vec::new());
    let mut out: Vec<Vec<Action>> = Vec::new();
    let mut d: usize = 0;
    assert(plans_view(layer@) =~= product(level.actions@, 0));
    while d < level.action_limit
        invariant
            d <= level.action_limit,
            plans_view(layer@) == product(level.actions@, d as nat),
            plans_view(out@) == plans_up_to(level.actions@, d as nat),
        decreases level.action_limit - d,
    {
        layer = extend_all(&level.actions, &layer);
        d = d + 1;
        let ghost before = plans_view(out@);
        let mut j: usize = 0;
        while j < layer.len()
            invariant
                j <= layer@.len(),
                plans_view(out@) =~= before + plans_view(layer@).take(j as int),
            decreases layer@.len() - j,
        {
            let ghost old_out = out@;
            let copy = copy_actions(&layer[j]);
            out.push(copy);
            assert(plans_view(out@) =~= plans_view(old_out).push(copy@));
            assert(plans_view(layer@).take(j + 1) =~= plans_view(layer@).take(j as int).push(
                layer@[j as int]@,
            ));
            j = j + 1;
        }
        assert(plans_view(layer@).take(j as int) =~= plans_view(layer@));
    }
    out
}

// ---- the solver ----

/// The solutions among `plans`, in order: each plan whose cyclic run from
/// `start` finishes, with its length and the number of steps taken.
pub open spec fn solutions_of(level: Level, start: Seq<Player>, plans: Seq<Seq<Action>>) -> Seq<
    (Seq<Action>, nat, nat),
>
    decreases plans.len(),
{
    if plans.len() == 0 {
        Seq::empty()
    } else {
        let rest = solutions_of(level, start, plans.drop_last());
        let p = plans.last();
        if p.len() > 0 && outcome(level, p, start) is Some {
            rest.push((p, p.len(), outcome(level, p, start).unwrap()))
        } else {
            rest
        }
    }
}

pub open spec fn solutions_view(v: Seq<Solution>) -> Seq<(Seq<Action>, nat, nat)> {
    v.map_values(|s: Solution| s@)
}

proof fn lemma_starts_on_tiles(level: Level, n: int)
    requires
        level.wf(),
        0 <= n <= level.tiles@.len(),
    ensures
        forall|i: int|
            0 <= i < starts_of(level.tiles@.take(n)).len() ==> level.grid().contains_key(
                #[trigger] starts_of(level.tiles@.take(n))[i].pos(),
            ),
    decreases n,
{
    if n > 0 {
        let s = level.tiles@.take(n);
        assert(s.drop_last() =~= level.tiles@.take(n - 1));
        lemma_starts_on_tiles(level, n - 1);
        crate::level::lemma_grid_of_entry(level.tiles@, n - 1);
        let rest = starts_of(level.tiles@.take(n - 1));
        let all = starts_of(s);
        assert(s.last() == level.tiles@[n - 1]);
        assert forall|i: int| 0 <= i < all.len() implies level.grid().contains_key(
            #[trigger] all[i].pos(),
        ) by {
            if i < rest.len() {
                assert(all[i] == rest[i]);
                assert(level.grid().contains_key(rest[i].pos()));
            }
        }
    }
}

/// One player for each start tile of the level, facing as the tile says.
pub fn start_players(level: &Level) -> (r: Vec<Player>)
    requires
        level.wf(),
    ensures
        r@ == starts_of(level.tiles@),
        on_tiles(*level, r@),
{
    let mut out: Vec<Player> = Vec::new();
    let mut i: usize = 0;
    while i < level.tiles.len()
        invariant
            i <= level.tiles@.len(),
            out@ == starts_of(level.tiles@.take(i as int)),
        decreases level.tiles@.len() - i,
    {
        let (position, tile) = level.tiles[i];
        assert(level.tiles@.take(i + 1).drop_last() =~= level.tiles@.take(i as int));
        match tile {
            Tile::Start(rotation) => out.push(Player { position, rotation }),
            _ => {},
        }
        i = i + 1;
    }
    assert(level.tiles@.take(i as int) =~= level.tiles@);
    proof {
        lemma_starts_on_tiles(*level, level.tiles@.len() as int);
    }
    out
}

/// Tries every plan of `solution_iter` on the level and returns those that
/// finish, in the same order.
pub fn depth_first_search(level: &Level) -> (r: Vec<Solution>)
    requires
        level.wf(),
        has_start(*level),
    ensures
        solutions_view(r@) == solutions_of(
            *level,
            starts_of(level.tiles@),
            plans_up_to(level.actions@, level.action_limit as nat),
        ),
{
    let start = start_players(level);
    let plans = solution_iter(level);
    let ghost pv = plans_view(plans@);
    let mut out: Vec<Solution> = Vec::new();
    let mut i: usize = 0;
    while i < plans.len()
        invariant
            level.wf(),
            start@ == starts_of(level.tiles@),
            on_tiles(*level, start@),
            pv == plans_view(plans@),
            i <= plans@.len(),
            solutions_view(out@) == solutions_of(*level, start@, pv.take(i as int)),
        decreases plans@.len() - i,
    {
        let plan = &plans[i];
        assert(pv.take(i + 1).drop_last() =~= pv.take(i as int));
        assert(pv[i as int] == plan@);
        if plan.len() > 0 {
            match run_plan(level, plan, &start) {
                Some(steps) => {
                    proof {
                        assert(exists|t: nat| solves_in(*level, plan@, start@, t));
                        let c = choose|t: nat| solves_in(*level, plan@, start@, t);
                        lemma_solves_unique(*level, plan@, start@, c, steps as nat);
                    }
                    let solution = Solution {
                        path: copy_actions(plan),
                        solution_size: plan.len(),
                        steps,
                    };
                    out.push(solution);
                    assert(solutions_view(out@) =~= solutions_view(out@.drop_last()).push(
                        solution@,
                    ));
                },
                None => {},
            }
        }
        i = i + 1;
    }
    assert(pv.take(i as int) =~= pv);
    out
}


// ---- classifying solutions ----

/// The measure that a classification compares: the plan's length, or the
/// number of steps it takes.
pub open spec fn measure(s: (Seq<Action>, nat, nat), by_steps: bool) -> nat {
    if by_steps {
        s.2
    } else {
        s.1
    }
}

/// The least measure in `s`; `0` for no solutions.
pub open spec fn least_measure(s: Seq<(Seq<Action>, nat, nat)>, by_steps: bool) -> nat
    decreases s.len(),
{
    if s.len() == 0 {
        0
    } else if s.len() == 1 {
        measure(s[0], by_steps)
    } else {
        let m = least_measure(s.drop_last(), by_steps);
        if measure(s.last(), by_steps) < m {
            measure(s.last(), by_steps)
        } else {
            m
        }
    }
}

/// The greatest number of steps in `s`; `0` for no solutions.
pub open spec fn most_steps(s: Seq<(Seq<Action>, nat, nat)>) -> nat
    decreases s.len(),
{
    if s.len() == 0 {
        0
    } else {
        let m = most_steps(s.drop_last());
        if s.last().2 > m {
            s.last().2
        } else {
            m
        }
    }
}

/// The solutions of `s` whose measure is `v`, in order.
pub open spec fn with_measure(s: Seq<(Seq<Action>, nat, nat)>, by_steps: bool, v: nat) -> Seq<
    (Seq<Action>, nat, nat),
>
    decreases s.len(),
{
    if s.len() == 0 {
        s
    } else {
        let rest = with_measure(s.drop_last(), by_steps, v);
        if measure(s.last(), by_steps) == v {
            rest.push(s.last())
        } else {
            rest
        }
    }
}

fn measure_of(s: &Solution, by_steps: bool) -> (r: usize)
    ensures
        r as nat == measure(s@, by_steps),
{
    if by_steps {
        s.steps
    } else {
        s.solution_size
    }
}

fn keep_matching(solutions: &[Solution], by_steps: bool, v: usize) -> (r: Vec<Solution>)
    ensures
        solutions_view(r@) == with_measure(solutions_view(solutions@), by_steps, v as nat),
{
    let ghost sv = solutions_view(solutions@);
    let mut out: Vec<Solution> = Vec::new();
    let mut i: usize = 0;
    while i < solutions.len()
        invariant
            i <= solutions@.len(),
            sv == solutions_view(solutions@),
            solutions_view(out@) == with_measure(sv.take(i as int), by_steps, v as nat),
        decreases solutions@.len() - i,
    {
        assert(sv.take(i + 1).drop_last() =~= sv.take(i as int));
        assert(sv[i as int] == solutions@[i as int]@);
        if measure_of(&solutions[i], by_steps) == v {
            let ghost old_out = out@;
            let copy = Solution {
                path: copy_actions(&solutions[i].path),
                solution_size: solutions[i].solution_size,
                steps: solutions[i].steps,
            };
            out.push(copy);
            assert(solutions_view(out@) =~= solutions_view(old_out).push(copy@));
        }
        i = i + 1;
    }
    assert(sv.take(i as int) =~= sv);
    out
}

fn least_of(solutions: &[Solution], by_steps: bool) -> (r: usize)
    ensures
        r as nat == least_measure(solutions_view(solutions@), by_steps),
{
    let ghost sv = solutions_view(solutions@);
    if solutions.len() == 0 {
        return 0;
    }
    let mut best = measure_of(&solutions[0], by_steps);
    let mut i: usize = 1;
    assert(sv.take(1).len() == 1);
    while i < solutions.len()
        invariant
            1 <= i <= solutions@.len(),
            sv == solutions_view(solutions@),
            best as nat == least_measure(sv.take(i as int), by_steps),
        decreases solutions@.len() - i,
    {
        assert(sv.take(i + 1).drop_last() =~= sv.take(i as int));
        assert(sv[i as int] == solutions@[i as int]@);
        let m = measure_of(&solutions[i], by_steps);
        if m < best {
            best = m;
        }
        i = i + 1;
    }
    assert(sv.take(i as int) =~= sv);
    best
}

/// The solutions of the least length.
pub fn smallest_solutions(solutions: &[Solution]) -> (r: Vec<Solution>)
    ensures
        solutions_view(r@) == with_measure(
            solutions_view(solutions@),
            false,
            least_measure(solutions_view(solutions@), false),
        ),
{
    let least = least_of(solutions, false);
    keep_matching(solutions, false, least)
}

/// The solutions that finish in the fewest steps.
pub fn fastest_solutions(solutions: &[Solution]) -> (r: Vec<Solution>)
    ensures
        solutions_view(r@) == with_measure(
            solutions_view(solutions@),
            true,
            least_measure(solutions_view(solutions@), true),
        ),
{
    let least = least_of(solutions, true);
    keep_matching(solutions, true, least)
}

/// The solutions that finish in the most steps.
pub fn slowest_solutions(solutions: &[Solution]) -> (r: Vec<Solution>)
    ensures
        solutions_view(r@) == with_measure(
            solutions_view(solutions@),
            true,
            most_steps(solutions_view(solutions@)),
        ),
{
    let ghost sv = solutions_view(solutions@);
    let mut most: usize = 0;
    let mut i: usize = 0;
    while i < solutions.len()
        invariant
            i <= solutions@.len(),
            sv == solutions_view(solutions@),
            most as nat == most_steps(sv.take(i as int)),
        decreases solutions@.len() - i,
    {
        assert(sv.take(i + 1).drop_last() =~= sv.take(i as int));
        assert(sv[i as int] == solutions@[i as int]@);
        if solutions[i].steps > most {
            most = solutions[i].steps;
        }
        i = i + 1;
    }
    assert(sv.take(i as int) =~= sv);
    keep_matching(solutions, true, most)
}

} // verus!
