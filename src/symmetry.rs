//! Laws of the action algebra and of plan canonicalization.
use vstd::prelude::*;
use crate::actions::{
    canonical, least_phase_form, lex_lt, mirror_all, mirror_canonical, phase, phase_canonical,
    phase_form, rotation_canonical, turn_all, Action, CWRotation,
};

verus! {

/// Every rotation maps actions to actions, and applying any rotation four
/// times (in particular a quarter turn four times) gives the action back.
pub proof fn lemma_rotation_closure(r: CWRotation, a: Action)
    ensures
        0 <= r.apply(a).index() < 4,
        r.apply(r.apply(r.apply(r.apply(a)))) == a,
        a.turned(1).turned(1).turned(1).turned(1) == a,
        r.apply(a).turned(4 - r.quarters()) == a,
{
}

/// Mirroring a plan twice gives the plan back.
pub proof fn lemma_mirror_involution(p: Seq<Action>)
    ensures
        mirror_all(mirror_all(p)) == p,
{
    assert(mirror_all(mirror_all(p)) =~= p);
}

proof fn lemma_lex_total(a: Seq<Action>, b: Seq<Action>)
    requires
        a.len() == b.len(),
    ensures
        lex_lt(a, b) || a == b || lex_lt(b, a),
        !(lex_lt(a, b) && lex_lt(b, a)),
        !lex_lt(a, a),
    decreases a.len(),
{
    if a.len() > 0 {
        lemma_lex_total(a.drop_first(), b.drop_first());
        lemma_lex_total(a.drop_first(), a.drop_first());
        if a[0] == b[0] && a.drop_first() == b.drop_first() {
            assert forall|i: int| 0 <= i < a.len() implies a[i] == b[i] by {
                if i > 0 {
                    assert(a[i] == a.drop_first()[i - 1]);
                    assert(b[i] == b.drop_first()[i - 1]);
                }
            }
            assert(a =~= b);
        }
    }
}

proof fn lemma_lex_trans(a: Seq<Action>, b: Seq<Action>, c: Seq<Action>)
    requires
        lex_lt(a, b),
        lex_lt(b, c),
    ensures
        lex_lt(a, c),
    decreases a.len(),
{
    if a.len() > 0 && b.len() > 0 && c.len() > 0 && a[0] == b[0] && b[0] == c[0] {
        lemma_lex_trans(a.drop_first(), b.drop_first(), c.drop_first());
    }
}

proof fn lemma_form_len(s: Seq<Action>, i: int)
    ensures
        phase_form(s, i).len() == s.len(),
{
}

/// `m` is a phase form of `s` and no phase form of `s` comes before it.
pub open spec fn is_least_form(s: Seq<Action>, m: Seq<Action>) -> bool {
    &&& s.len() > 0
    &&& exists|i: int| m == #[trigger] phase_form(s, i)
    &&& forall|i: int| !lex_lt(#[trigger] phase_form(s, i), m)
}

proof fn lemma_least_phase_form(s: Seq<Action>, i: int)
    requires
        s.len() > 0,
        1 <= i,
    ensures
        exists|j: int| 1 <= j <= i && least_phase_form(s, i) == #[trigger] phase_form(s, j),
        forall|j: int| 1 <= j <= i ==> !lex_lt(#[trigger] phase_form(s, j), least_phase_form(s, i)),
        least_phase_form(s, i).len() == s.len(),
    decreases i,
{
    lemma_form_len(s, i);
    if i <= 1 {
        lemma_lex_total(phase_form(s, 1), phase_form(s, 1));
        assert(least_phase_form(s, i) == phase_form(s, 1));
    } else {
        lemma_least_phase_form(s, i - 1);
        let c = phase_form(s, i);
        let b = least_phase_form(s, i - 1);
        lemma_lex_total(c, b);
        lemma_lex_total(c, c);
        if lex_lt(c, b) {
            assert forall|j: int| 1 <= j <= i implies !lex_lt(#[trigger] phase_form(s, j), c) by {
                if j < i && lex_lt(phase_form(s, j), c) {
                    lemma_lex_trans(phase_form(s, j), c, b);
                }
            }
        } else {
            let j0 = choose|j: int| 1 <= j <= i - 1 && b == #[trigger] phase_form(s, j);
            assert(1 <= j0 <= i && least_phase_form(s, i) == phase_form(s, j0));
        }
    }
}

proof fn lemma_phase_periodic(s: Seq<Action>, i: int)
    requires
        s.len() > 0,
    ensures
        phase(s, i) == phase(s, i % (s.len() as int)),
        phase(s, 0) == phase(s, s.len() as int),
{
    let n = s.len() as int;
    assert forall|j: int| 0 <= j < n implies #[trigger] phase(s, i)[j] == phase(s, i % n)[j] by {
        vstd::arithmetic::div_mod::lemma_sub_mod_noop_right(j, i, n);
    }
    assert forall|j: int| 0 <= j < n implies #[trigger] phase(s, 0)[j] == phase(s, n)[j] by {
        vstd::arithmetic::div_mod::lemma_mod_add_multiples_vanish(j - n, n);
    }
    assert(phase(s, i) =~= phase(s, i % n));
    assert(phase(s, 0) =~= phase(s, n));
}

/// The least phase form over the shifts `1..=len` is least over every shift.
proof fn lemma_phase_canonical_least(s: Seq<Action>)
    requires
        s.len() > 0,
    ensures
        is_least_form(s, phase_canonical(s)),
        phase_canonical(s).len() == s.len(),
{
    let n = s.len() as int;
    lemma_least_phase_form(s, n);
    let m = phase_canonical(s);
    assert forall|i: int| !lex_lt(#[trigger] phase_form(s, i), m) by {
        lemma_phase_periodic(s, i);
        let r = i % n;
        if r == 0 {
            assert(phase_form(s, i) == phase_form(s, n));
        } else {
            assert(phase_form(s, i) == phase_form(s, r));
        }
    }
}

proof fn lemma_least_unique(s: Seq<Action>, m1: Seq<Action>, m2: Seq<Action>)
    requires
        is_least_form(s, m1),
        is_least_form(s, m2),
    ensures
        m1 == m2,
{
    let i1 = choose|i: int| m1 == #[trigger] phase_form(s, i);
    let i2 = choose|i: int| m2 == #[trigger] phase_form(s, i);
    lemma_form_len(s, i1);
    lemma_form_len(s, i2);
    assert(!lex_lt(phase_form(s, i1), m2));
    assert(!lex_lt(phase_form(s, i2), m1));
    lemma_lex_total(m1, m2);
}

proof fn lemma_turn_element(a: Action, z0: Action, q: int)
    requires
        0 <= q < 4,
    ensures
        a.turned(q).turned((4 - z0.turned(q).index()) % 4) == a.turned((4 - z0.index()) % 4),
{
}

proof fn lemma_mirror_element(a: Action, z0: Action)
    ensures
        a.mirrored().turned((4 - z0.mirrored().index()) % 4) == a.turned(
            (4 - z0.index()) % 4,
        ).mirrored(),
{
}

/// Turning a plan does not change any of its phase forms.
proof fn lemma_forms_turn(x: Seq<Action>, q: int, i: int)
    requires
        0 <= q < 4,
    ensures
        phase_form(turn_all(x, q), i) == phase_form(x, i),
{
    let p = phase(x, i);
    assert(phase(turn_all(x, q), i) =~= turn_all(p, q));
    if p.len() > 0 {
        assert forall|j: int| 0 <= j < p.len() implies #[trigger] rotation_canonical(
            turn_all(p, q),
        )[j] == rotation_canonical(p)[j] by {
            lemma_turn_element(p[j], p[0], q);
        }
        assert(rotation_canonical(turn_all(p, q)) =~= rotation_canonical(p));
    } else {
        assert(turn_all(p, q) =~= p);
    }
}

proof fn lemma_mirror_canonical_of_mirror(w: Seq<Action>)
    ensures
        mirror_canonical(mirror_all(w)) == mirror_canonical(w),
{
    lemma_mirror_involution(w);
    lemma_lex_total(w, mirror_all(w));
}

/// Mirroring a plan does not change any of its phase forms.
proof fn lemma_forms_mirror(x: Seq<Action>, i: int)
    ensures
        phase_form(mirror_all(x), i) == phase_form(x, i),
{
    let p = phase(x, i);
    assert(phase(mirror_all(x), i) =~= mirror_all(p));
    if p.len() > 0 {
        assert forall|j: int| 0 <= j < p.len() implies #[trigger] rotation_canonical(
            mirror_all(p),
        )[j] == mirror_all(rotation_canonical(p))[j] by {
            lemma_mirror_element(p[j], p[0]);
        }
        assert(rotation_canonical(mirror_all(p)) =~= mirror_all(rotation_canonical(p)));
    } else {
        assert(mirror_all(p) =~= p);
    }
    lemma_mirror_canonical_of_mirror(rotation_canonical(p));
}

/// Shifting a plan shifts the index of its phase forms.
proof fn lemma_forms_shift(x: Seq<Action>, k: int, i: int)
    ensures
        phase_form(phase(x, k), i) == phase_form(x, i + k),
{
    let n = x.len() as int;
    if n > 0 {
        assert forall|j: int| 0 <= j < n implies #[trigger] phase(phase(x, k), i)[j] == phase(
            x,
            i + k,
        )[j] by {
            vstd::arithmetic::div_mod::lemma_sub_mod_noop_right((j - i) % n, k, n);
            vstd::arithmetic::div_mod::lemma_sub_mod_noop(j - i, k, n);
            vstd::arithmetic::div_mod::lemma_mod_twice(k, n);
            vstd::arithmetic::div_mod::lemma_mod_bound(j - i, n);
        }
    }
    assert(phase(phase(x, k), i) =~= phase(x, i + k));
}

proof fn lemma_least_transfer(x: Seq<Action>, y: Seq<Action>, m: Seq<Action>)
    requires
        is_least_form(x, m),
        y.len() > 0,
        forall|i: int| #[trigger] phase_form(y, i) == phase_form(x, i),
    ensures
        is_least_form(y, m),
{
    let i0 = choose|i: int| m == #[trigger] phase_form(x, i);
    assert(m == phase_form(y, i0));
    assert forall|i: int| !lex_lt(#[trigger] phase_form(y, i), m) by {
        assert(!lex_lt(phase_form(x, i), m));
    }
}

/// The canonical form of a nonempty plan is its least phase form.
proof fn lemma_canonical_least(x: Seq<Action>)
    requires
        x.len() > 0,
    ensures
        is_least_form(x, canonical(x)),
        canonical(x).len() == x.len(),
{
    let r = rotation_canonical(x);
    let t = mirror_canonical(r);
    let q = (4 - x[0].index()) % 4;
    assert forall|i: int| #[trigger] phase_form(t, i) == phase_form(x, i) by {
        lemma_forms_turn(x, q, i);
        lemma_forms_mirror(r, i);
    }
    lemma_phase_canonical_least(t);
    assert forall|i: int| #[trigger] phase_form(x, i) == phase_form(t, i) by {
        assert(phase_form(t, i) == phase_form(x, i));
    }
    lemma_least_transfer(t, x, canonical(x));
}

/// Shifting a plan keeps its least phase form.
proof fn lemma_least_shift(x: Seq<Action>, k: int, m: Seq<Action>)
    requires
        is_least_form(x, m),
    ensures
        is_least_form(phase(x, k), m),
{
    let i0 = choose|i: int| m == #[trigger] phase_form(x, i);
    lemma_forms_shift(x, k, i0 - k);
    assert(m == phase_form(phase(x, k), i0 - k));
    assert forall|i: int| !lex_lt(#[trigger] phase_form(phase(x, k), i), m) by {
        lemma_forms_shift(x, k, i);
        assert(!lex_lt(phase_form(x, i + k), m));
    }
}

/// Canonicalizing a canonical plan changes nothing.
pub proof fn lemma_canonical_idempotent(p: Seq<Action>)
    ensures
        canonical(canonical(p)) == canonical(p),
{
    if p.len() == 0 {
        assert(turn_all(p, 0) =~= p);
        assert(mirror_all(p) =~= p);
    } else {
        let c = canonical(p);
        lemma_canonical_least(p);
        lemma_canonical_least(c);
        let i0 = choose|i: int| c == #[trigger] phase_form(p, i);
        let y = phase(p, i0);
        let ry = rotation_canonical(y);
        let q = (4 - y[0].index()) % 4;
        lemma_least_shift(p, i0, c);
        assert forall|i: int| #[trigger] phase_form(c, i) == phase_form(y, i) by {
            lemma_forms_mirror(ry, i);
            lemma_forms_turn(y, q, i);
        }
        assert forall|i: int| #[trigger] phase_form(y, i) == phase_form(c, i) by {
            assert(phase_form(c, i) == phase_form(y, i));
        }
        lemma_least_transfer(c, y, canonical(c));
        lemma_least_unique(y, c, canonical(c));
    }
}

/// Changing the facing of every action leaves the canonical form unchanged.
pub proof fn lemma_canonical_rotation_invariant(p: Seq<Action>, r: CWRotation)
    ensures
        canonical(turn_all(p, r.quarters())) == canonical(p),
{
    let y = turn_all(p, r.quarters());
    if p.len() == 0 {
        assert(y =~= p);
    } else {
        lemma_canonical_least(p);
        lemma_canonical_least(y);
        assert forall|i: int| #[trigger] phase_form(y, i) == phase_form(p, i) by {
            lemma_forms_turn(p, r.quarters(), i);
        }
        lemma_least_transfer(y, p, canonical(y));
        lemma_least_unique(p, canonical(p), canonical(y));
    }
}

/// Mirroring a plan leaves its canonical form unchanged.
pub proof fn lemma_canonical_mirror_invariant(p: Seq<Action>)
    ensures
        canonical(mirror_all(p)) == canonical(p),
{
    let y = mirror_all(p);
    if p.len() == 0 {
        assert(y =~= p);
    } else {
        lemma_canonical_least(p);
        lemma_canonical_least(y);
        assert forall|i: int| #[trigger] phase_form(y, i) == phase_form(p, i) by {
            lemma_forms_mirror(p, i);
        }
        lemma_least_transfer(y, p, canonical(y));
        lemma_least_unique(p, canonical(p), canonical(y));
    }
}

/// Any cyclic shift of a plan has the same canonical form.
pub proof fn lemma_canonical_phase_invariant(p: Seq<Action>, k: int)
    ensures
        canonical(phase(p, k)) == canonical(p),
{
    let y = phase(p, k);
    if p.len() == 0 {
        assert(y =~= p);
    } else {
        lemma_canonical_least(p);
        lemma_canonical_least(y);
        lemma_least_shift(p, k, canonical(p));
        lemma_least_unique(y, canonical(p), canonical(y));
    }
}

} // verus!
