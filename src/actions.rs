use vstd::prelude::*;

verus! {

/// A movement intent, read in the player's own frame of reference.
///
/// The variants are listed in quarter turns clockwise from `Forward`, which is
/// also the order used to compare plans.
#[derive(Debug, Clone, Copy, PartialEq, Eq, Structural, Hash, PartialOrd, Ord)]
pub enum Action {
    Forward,
    Right,
    Backward,
    Left,
}

/// A facing, as a number of clockwise quarter turns.
#[derive(Debug, Clone, Copy, PartialEq, Eq, Structural, Hash)]
pub enum CWRotation {
    Zero,
    Ninety,
    OneEighty,
    TwoSeventy,
}

impl Action {
    /// Position of the action in the clockwise cycle starting at `Forward`.
    pub open spec fn index(self) -> int {
        match self {
            Action::Forward => 0,
            Action::Right => 1,
            Action::Backward => 2,
            Action::Left => 3,
        }
    }

    pub open spec fn from_index(i: int) -> Action {
        if i == 0 {
            Action::Forward
        } else if i == 1 {
            Action::Right
        } else if i == 2 {
            Action::Backward
        } else {
            Action::Left
        }
    }

    /// The action turned clockwise by `q` quarter turns.
    pub open spec fn turned(self, q: int) -> Action {
        Action::from_index((self.index() + q) % 4)
    }

    /// The action reflected left to right.
    pub open spec fn mirrored(self) -> Action {
        match self {
            Action::Left => Action::Right,
            Action::Right => Action::Left,
            other => other,
        }
    }

    pub fn rotate_cw(&self) -> (r: Action)
        ensures
            r == self.turned(1),
    {
        match self {
            Action::Forward => Action::Right,
            Action::Right => Action::Backward,
            Action::Backward => Action::Left,
            Action::Left => Action::Forward,
        }
    }

    pub fn rotate_ccw(&self) -> (r: Action)
        ensures
            r == self.turned(3),
    {
        match self {
            Action::Forward => Action::Left,
            Action::Right => Action::Forward,
            Action::Backward => Action::Right,
            Action::Left => Action::Backward,
        }
    }

    pub fn rotate_180(&self) -> (r: Action)
        ensures
            r == self.turned(2),
    {
        match self {
            Action::Forward => Action::Backward,
            Action::Right => Action::Left,
            Action::Backward => Action::Forward,
            Action::Left => Action::Right,
        }
    }

    /// The rotation that carries this action onto `target`.
    pub fn cw_rotation(&self, target: Action) -> (r: CWRotation)
        ensures
            self.turned(r.quarters()) == target,
            r.quarters() == (target.index() - self.index()) % 4,
    {
        match (self, target) {
            (Action::Forward, Action::Forward) => CWRotation::Zero,
            (Action::Forward, Action::Right) => CWRotation::Ninety,
            (Action::Forward, Action::Backward) => CWRotation::OneEighty,
            (Action::Forward, Action::Left) => CWRotation::TwoSeventy,
            (Action::Right, Action::Forward) => CWRotation::TwoSeventy,
            (Action::Right, Action::Right) => CWRotation::Zero,
            (Action::Right, Action::Backward) => CWRotation::Ninety,
            (Action::Right, Action::Left) => CWRotation::OneEighty,
            (Action::Backward, Action::Forward) => CWRotation::OneEighty,
            (Action::Backward, Action::Right) => CWRotation::TwoSeventy,
            (Action::Backward, Action::Backward) => CWRotation::Zero,
            (Action::Backward, Action::Left) => CWRotation::Ninety,
            (Action::Left, Action::Forward) => CWRotation::Ninety,
            (Action::Left, Action::Right) => CWRotation::OneEighty,
            (Action::Left, Action::Backward) => CWRotation::TwoSeventy,
            (Action::Left, Action::Left) => CWRotation::Zero,
        }
    }

    /// The action reflected left to right.
    pub fn mirror(&self) -> (r: Action)
        ensures
            r == self.mirrored(),
    {
        match self {
            Action::Left => Action::Right,
            Action::Right => Action::Left,
            other => *other,
        }
    }

    /// Rank of the action in the order used to compare plans.
    pub fn rank(&self) -> (r: u8)
        ensures
            r as int == self.index(),
    {
        match self {
            Action::Forward => 0,
            Action::Right => 1,
            Action::Backward => 2,
            Action::Left => 3,
        }
    }
}

impl CWRotation {
    /// Number of clockwise quarter turns.
    pub open spec fn quarters(self) -> int {
        match self {
            CWRotation::Zero => 0,
            CWRotation::Ninety => 1,
            CWRotation::OneEighty => 2,
            CWRotation::TwoSeventy => 3,
        }
    }

    pub open spec fn from_quarters(q: int) -> CWRotation {
        if q == 0 {
            CWRotation::Zero
        } else if q == 1 {
            CWRotation::Ninety
        } else if q == 2 {
            CWRotation::OneEighty
        } else {
            CWRotation::TwoSeventy
        }
    }

    /// Re-expresses `action` in the frame of a player with this facing.
    pub open spec fn apply(self, action: Action) -> Action {
        action.turned(self.quarters())
    }

    pub fn rotate_cw(self) -> (r: CWRotation)
        ensures
            r == CWRotation::from_quarters((self.quarters() + 1) % 4),
    {
        match self {
            CWRotation::Zero => CWRotation::Ninety,
            CWRotation::Ninety => CWRotation::OneEighty,
            CWRotation::OneEighty => CWRotation::TwoSeventy,
            CWRotation::TwoSeventy => CWRotation::Zero,
        }
    }

    pub fn rotate_ccw(self) -> (r: CWRotation)
        ensures
            r == CWRotation::from_quarters((self.quarters() + 3) % 4),
    {
        match self {
            CWRotation::Zero => CWRotation::TwoSeventy,
            CWRotation::Ninety => CWRotation::Zero,
            CWRotation::OneEighty => CWRotation::Ninety,
            CWRotation::TwoSeventy => CWRotation::OneEighty,
        }
    }

    /// Applies this rotation to one action.
    pub fn turn(self, action: &Action) -> (r: Action)
        ensures
            r == self.apply(*action),
    {
        match self {
            CWRotation::Zero => *action,
            CWRotation::Ninety => action.rotate_cw(),
            CWRotation::OneEighty => action.rotate_180(),
            CWRotation::TwoSeventy => action.rotate_ccw(),
        }
    }

    /// The map from an action to the same action seen with this facing.
    pub fn to_combinator(self) -> (f: impl Fn(&Action) -> Action)
        ensures
            forall|a: &Action| #[trigger] f.requires((a,)),
            forall|a: &Action, r: Action| f.ensures((a,), r) ==> r == self.apply(*a),
    {
        move |a: &Action| -> (r: Action)
            ensures
                r == self.apply(*a),
            { self.turn(a) }
    }
}

impl Default for CWRotation {
    fn default() -> (r: CWRotation)
        ensures
            r == CWRotation::Zero,
    {
        CWRotation::Zero
    }
}

/// An ordered list of actions, run as a repeating cycle.
#[derive(Debug, Clone, PartialEq, Eq, Hash, PartialOrd, Ord)]
pub struct ActionPlan(pub Vec<Action>);

impl View for ActionPlan {
    type V = Seq<Action>;

    open spec fn view(&self) -> Seq<Action> {
        self.0@
    }
}

impl Default for ActionPlan {
    fn default() -> (r: ActionPlan)
        ensures
            r@ == Seq::<Action>::empty(),
    {
        ActionPlan(Vec::new())
    }
}

/// Every action of `s` turned clockwise by `q` quarter turns.
pub open spec fn turn_all(s: Seq<Action>, q: int) -> Seq<Action> {
    s.map_values(|a: Action| a.turned(q))
}

/// `s` with left and right exchanged.
pub open spec fn mirror_all(s: Seq<Action>) -> Seq<Action> {
    s.map_values(|a: Action| a.mirrored())
}

/// Strict lexicographic order on plans, actions compared by their index; a
/// proper prefix comes first.
pub open spec fn lex_lt(a: Seq<Action>, b: Seq<Action>) -> bool
    decreases a.len(),
{
    if a.len() == 0 {
        b.len() > 0
    } else if b.len() == 0 {
        false
    } else if a[0].index() < b[0].index() {
        true
    } else if a[0] == b[0] {
        lex_lt(a.drop_first(), b.drop_first())
    } else {
        false
    }
}

/// `s` turned so that its first action is `Forward`.
pub open spec fn rotation_canonical(s: Seq<Action>) -> Seq<Action> {
    if s.len() == 0 {
        s
    } else {
        turn_all(s, (4 - s[0].index()) % 4)
    }
}

/// The smaller of `s` and its mirror image.
pub open spec fn mirror_canonical(s: Seq<Action>) -> Seq<Action> {
    if lex_lt(s, mirror_all(s)) {
        s
    } else {
        mirror_all(s)
    }
}

/// `s` rotated right by `i` places, cyclically.
pub open spec fn phase(s: Seq<Action>, i: int) -> Seq<Action> {
    Seq::new(s.len(), |j: int| s[(j - i) % (s.len() as int)])
}

/// The phase of `s` shifted by `i`, with its facing and mirror image reduced.
pub open spec fn phase_form(s: Seq<Action>, i: int) -> Seq<Action> {
    mirror_canonical(rotation_canonical(phase(s, i)))
}

/// The least of the phase forms of `s` for shifts `1..=i`.
pub open spec fn least_phase_form(s: Seq<Action>, i: int) -> Seq<Action>
    decreases i,
{
    if i <= 1 {
        phase_form(s, 1)
    } else {
        let c = phase_form(s, i);
        let b = least_phase_form(s, i - 1);
        if lex_lt(c, b) {
            c
        } else {
            b
        }
    }
}

/// The least phase form of `s`; the empty plan stays empty.
pub open spec fn phase_canonical(s: Seq<Action>) -> Seq<Action> {
    if s.len() == 0 {
        s
    } else {
        least_phase_form(s, s.len() as int)
    }
}

/// The representative of the class of `s` under change of facing, mirroring
/// and cyclic shift.
pub open spec fn canonical(s: Seq<Action>) -> Seq<Action> {
    phase_canonical(mirror_canonical(rotation_canonical(s)))
}

proof fn lemma_lex_lt_step(a: Seq<Action>, b: Seq<Action>, i: int)
    requires
        0 <= i < a.len(),
        i < b.len(),
        a[i] == b[i],
    ensures
        lex_lt(a.skip(i), b.skip(i)) == lex_lt(a.skip(i + 1), b.skip(i + 1)),
{
    assert(a.skip(i).drop_first() =~= a.skip(i + 1));
    assert(b.skip(i).drop_first() =~= b.skip(i + 1));
}

/// Compares two action lists in the order that plans are ranked by.
fn lex_less(a: &Vec<Action>, b: &Vec<Action>) -> (r: bool)
    ensures
        r == lex_lt(a@, b@),
{
    let mut i: usize = 0;
    assert(a@.skip(0) =~= a@);
    assert(b@.skip(0) =~= b@);
    while i < a.len() && i < b.len()
        invariant
            i <= a@.len(),
            i <= b@.len(),
            lex_lt(a@, b@) == lex_lt(a@.skip(i as int), b@.skip(i as int)),
        decreases a@.len() - i,
    {
        let x = a[i].rank();
        let y = b[i].rank();
        if x < y {
            return true;
        }
        if x > y {
            return false;
        }
        proof {
            lemma_lex_lt_step(a@, b@, i as int);
        }
        i = i + 1;
    }
    i < b.len()
}

/// An element-by-element copy of `s`.
pub(crate) fn copy_actions(s: &Vec<Action>) -> (r: Vec<Action>)
    ensures
        r@ == s@,
{
    let mut out: Vec<Action> = Vec::new();
    let mut i: usize = 0;
    while i < s.len()
        invariant
            i <= s@.len(),
            out@ =~= s@.take(i as int),
        decreases s@.len() - i,
    {
        out.push(s[i]);
        i = i + 1;
    }
    assert(s@.take(i as int) =~= s@);
    out
}

/// `s` with every action turned by `rot`.
fn turn_each(s: &Vec<Action>, rot: CWRotation) -> (r: Vec<Action>)
    ensures
        r@ == turn_all(s@, rot.quarters()),
{
    let f = rot.to_combinator();
    let mut out: Vec<Action> = Vec::new();
    let mut i: usize = 0;
    while i < s.len()
        invariant
            i <= s@.len(),
            out@ =~= turn_all(s@.take(i as int), rot.quarters()),
            forall|a: &Action| #[trigger] f.requires((a,)),
            forall|a: &Action, r: Action| f.ensures((a,), r) ==> r == rot.apply(*a),
        decreases s@.len() - i,
    {
        out.push(f(&s[i]));
        i = i + 1;
        assert(s@.take(i as int).drop_last() =~= s@.take(i - 1));
    }
    assert(s@.take(i as int) =~= s@);
    out
}

impl ActionPlan {
    /// Every cyclic shift of the plan: rotated right by `1`, `2`, ... up to
    /// its length, which gives the plan itself last.
    pub fn phase_iter(&self) -> (r: Vec<ActionPlan>)
        ensures
            r@.len() == self@.len(),
            forall|i: int| 0 <= i < r@.len() ==> (#[trigger] r@[i])@ == phase(self@, i + 1),
    {
        let n = self.0.len();
        let mut out: Vec<ActionPlan> = Vec::new();
        let mut i: usize = 0;
        while i < n
            invariant
                i <= n,
                n == self@.len(),
                out@.len() == i,
                forall|k: int| 0 <= k < out@.len() ==> (#[trigger] out@[k])@ == phase(self@, k + 1),
            decreases n - i,
        {
            let shift = i + 1;
            let mut shifted: Vec<Action> = Vec::new();
            let mut j: usize = 0;
            while j < n
                invariant
                    1 <= shift <= n,
                    j <= n,
                    n == self@.len(),
                    shifted@.len() == j,
                    forall|k: int| 0 <= k < j ==> #[trigger] shifted@[k] == phase(self@, shift as int)[k],
                decreases n - j,
            {
                let src = if j >= shift { j - shift } else { j + (n - shift) };
                proof {
                    let m = n as int;
                    if j >= shift {
                        vstd::arithmetic::div_mod::lemma_small_mod((j - shift) as nat, m as nat);
                    } else {
                        vstd::arithmetic::div_mod::lemma_mod_add_multiples_vanish(j - shift, m);
                        vstd::arithmetic::div_mod::lemma_small_mod((j + m - shift) as nat, m as nat);
                    }
                }
                shifted.push(self.0[src]);
                j = j + 1;
            }
            assert(shifted@ =~= phase(self@, shift as int));
            out.push(ActionPlan(shifted));
            i = i + 1;
        }
        out
    }

    /// The least phase form over all cyclic shifts of the plan.
    pub fn canonicalize_phase(&self) -> (r: ActionPlan)
        ensures
            r@ == phase_canonical(self@),
    {
        let phases = self.phase_iter();
        if phases.len() == 0 {
            return ActionPlan::default();
        }
        let mut best = phases[0].canonicalize_rotation().canonicalize_mirror();
        let mut i: usize = 1;
        while i < phases.len()
            invariant
                1 <= i <= phases@.len(),
                phases@.len() == self@.len(),
                forall|k: int| 0 <= k < phases@.len() ==> (#[trigger] phases@[k])@ == phase(self@, k + 1),
                best@ == least_phase_form(self@, i as int),
            decreases phases@.len() - i,
        {
            let candidate = phases[i].canonicalize_rotation().canonicalize_mirror();
            if lex_less(&candidate.0, &best.0) {
                best = candidate;
            }
            i = i + 1;
        }
        best
    }

    /// The plan with left and right exchanged.
    pub fn mirror(&self) -> (r: ActionPlan)
        ensures
            r@ == mirror_all(self@),
    {
        let mut out: Vec<Action> = Vec::new();
        let mut i: usize = 0;
        while i < self.0.len()
            invariant
                i <= self@.len(),
                out@ =~= mirror_all(self@.take(i as int)),
            decreases self@.len() - i,
        {
            out.push(self.0[i].mirror());
            i = i + 1;
            assert(self@.take(i as int).drop_last() =~= self@.take(i - 1));
        }
        assert(self@.take(i as int) =~= self@);
        ActionPlan(out)
    }

    /// The smaller of the plan and its mirror image.
    pub fn canonicalize_mirror(&self) -> (r: ActionPlan)
        ensures
            r@ == mirror_canonical(self@),
    {
        let mirror = self.mirror();
        if lex_less(&self.0, &mirror.0) {
            ActionPlan(copy_actions(&self.0))
        } else {
            mirror
        }
    }

    /// The plan turned so that it starts with `Forward`.
    pub fn canonicalize_rotation(&self) -> (r: ActionPlan)
        ensures
            r@ == rotation_canonical(self@),
    {
        if self.0.len() == 0 {
            return ActionPlan::default();
        }
        let rot = self.0[0].cw_rotation(Action::Forward);
        let out = turn_each(&self.0, rot);
        assert(rot.quarters() == (4 - self@[0].index()) % 4);
        ActionPlan(out)
    }

    /// The representative of the plan's class under change of facing,
    /// mirroring and cyclic shift.
    pub fn canonicalize(&self) -> (r: ActionPlan)
        ensures
            r@ == canonical(self@),
    {
        self.canonicalize_rotation().canonicalize_mirror().canonicalize_phase()
    }

    /// Appends `action` to the plan.
    pub fn add_action(&mut self, action: Action)
        ensures
            final(self)@ == old(self)@.push(action),
    {
        self.0.push(action);
    }

    /// Removes the action at `index` and reports `true`; an index past the
    /// end leaves the plan as it is and reports `false`.
    pub fn remove_action(&mut self, index: usize) -> (r: bool)
        ensures
            r == (index < old(self)@.len()),
            r ==> final(self)@ == old(self)@.remove(index as int),
            !r ==> final(self)@ == old(self)@,
    {
        if index < self.0.len() {
            self.0.remove(index);
            true
        } else {
            false
        }
    }

    /// Empties the plan.
    pub fn reset_action_plan(&mut self)
        ensures
            final(self)@ == Seq::<Action>::empty(),
    {
        self.0.clear();
    }

    /// Whether the plan has reached `limit` actions.
    pub fn is_full(&self, limit: usize) -> (r: bool)
        ensures
            r == (self@.len() >= limit),
    {
        self.0.len() >= limit
    }

    /// Whether the plan comes strictly before `other` in lexicographic order.
    pub fn less_than(&self, other: &ActionPlan) -> (r: bool)
        ensures
            r == lex_lt(self@, other@),
    {
        lex_less(&self.0, &other.0)
    }
}

} // verus!
