use vstd::prelude::*;
use crate::cell::Cell;
use crate::grid::{
    cleared, lemma_cleared_narrow, lemma_peers_cleared_earlier, lemma_peers_cleared_narrow,
    lemma_unit_cleared_earlier, lemma_unit_cleared_narrow, lemma_units_clear_peers, peers_cleared,
    simplified, unit_cleared,
    conflict_at, has_conflict, same_unit,
    consistent, keeps_solutions, lemma_pigeonhole, lemma_refines_consistent, lemma_sound_step_refl, lemma_sound_step_trans, refines,
    sound_step, unit_holds, valid_solution,
};
use crate::math::{shares_unit, col_of, is_kind, lemma_cell_units, lemma_unit_cell, row_of, unit_cell, unit_cells};
use crate::val::Val;

verus! {

/// No valid solution that agrees with `g` puts `v` in cell `i`.
pub open spec fn ruled_out(g: Seq<Cell>, i: int, v: Val) -> bool {
    forall|s: Seq<Val>| valid_solution(s) && #[trigger] consistent(g, s) ==> s[i] != v
}

/// Every valid solution that agrees with `g` puts `v` in cell `i`.
pub open spec fn forced(g: Seq<Cell>, i: int, v: Val) -> bool {
    forall|s: Seq<Val>| valid_solution(s) && #[trigger] consistent(g, s) ==> s[i] == v
}

/// The cells of unit `n` of the given kind, in order.
pub open spec fn is_unit(u: Seq<usize>, kind: int, n: int) -> bool {
    &&& is_kind(kind)
    &&& 0 <= n < 9
    &&& u.len() == 9
    &&& forall|k: int| 0 <= k < 9 ==> #[trigger] u[k] == unit_cell(kind, n, k)
}

/// Eliminates `v` from cell `i` (see `Cell::eliminate`); the step is sound
/// when `v` is ruled out there.
pub fn narrow(g: &mut Vec<Cell>, i: usize, v: Val)
    requires
        old(g)@.len() == 81,
        i < 81,
    ensures
        final(g)@.len() == 81,
        forall|j: int| 0 <= j < 81 && j != i ==> final(g)@[j] == old(g)@[j],
        old(g)@[i as int].solved() ==> final(g)@[i as int] == old(g)@[i as int],
        !old(g)@[i as int].solved() ==> forall|w: Val|
            #[trigger] final(g)@[i as int].has(w) == (old(g)@[i as int].has(w) && w != v),
        !old(g)@[i as int].solved() ==> (final(g)@[i as int].solved()
            <==> final(g)@[i as int].single()),
        refines(final(g)@, old(g)@),
        ruled_out(old(g)@, i as int, v) ==> keeps_solutions(old(g)@, final(g)@),
{
    let mut c = g[i];
    c.eliminate(v);
    g.set(i, c);
    proof {
        let o = old(g)@;
        let f = g@;
        assert forall|j: int, w: Val| 0 <= j < 81 && #[trigger] f[j].has(w) implies o[j].has(w) by {
            if j == i as int && !o[j].solved() {
                assert(f[j].has(w) == (o[j].has(w) && w != v));
            }
        }
        if ruled_out(o, i as int, v) {
            assert forall|s: Seq<Val>| valid_solution(s) && #[trigger] consistent(o, s) implies consistent(
                f,
                s,
            ) by {
                assert forall|j: int| 0 <= j < 81 implies #[trigger] f[j].has(s[j]) by {
                    assert(o[j].has(s[j]));
                }
            }
        }
    }
}

/// Solves cell `i` to `v`; the step is sound when the cell was unsolved with
/// `v` possible and `v` is forced there.
fn settle(g: &mut Vec<Cell>, i: usize, v: Val)
    requires
        old(g)@.len() == 81,
        i < 81,
        !old(g)@[i as int].solved(),
        old(g)@[i as int].has(v),
        forced(old(g)@, i as int, v),
    ensures
        final(g)@ == old(g)@.update(i as int, final(g)@[i as int]),
        final(g)@[i as int].val == Some(v),
        final(g)@[i as int].cands == old(g)@[i as int].cands,
        sound_step(old(g)@, final(g)@),
{
    let mut c = g[i];
    c.assign(v);
    g.set(i, c);
    proof {
        let o = old(g)@;
        let f = g@;
        assert forall|s: Seq<Val>| valid_solution(s) && #[trigger] consistent(o, s) implies consistent(
            f,
            s,
        ) by {
            assert forall|j: int| 0 <= j < 81 implies #[trigger] f[j].has(s[j]) by {
                assert(o[j].has(s[j]));
            }
        }
    }
}

/// Whether a cell of the unit other than its `j`-th one allows `v`.
fn others_have(g: &Vec<Cell>, unit: &Vec<usize>, j: usize, v: Val) -> (r: bool)
    requires
        g@.len() == 81,
        unit@.len() == 9,
        forall|k: int| 0 <= k < 9 ==> #[trigger] unit@[k] < 81,
    ensures
        r == exists|k: int| 0 <= k < 9 && k != j && #[trigger] g@[unit@[k] as int].has(v),
{
    for k in 0..9usize
        invariant
            g@.len() == 81,
            unit@.len() == 9,
            forall|k: int| 0 <= k < 9 ==> #[trigger] unit@[k] < 81,
            forall|m: int| 0 <= m < k && m != j ==> !#[trigger] g@[unit@[m] as int].has(v),
    {
        if k != j && g[unit[k]].contains(v) {
            return true;
        }
    }
    false
}

/// `v` is possible in the `j`-th cell of the unit and in no other cell of it.
pub open spec fn owns(g: Seq<Cell>, kind: int, n: int, j: int, v: Val) -> bool {
    &&& g[unit_cell(kind, n, j)].has(v)
    &&& forall|k: int| 0 <= k < 9 && k != j ==> !#[trigger] g[unit_cell(kind, n, k)].has(v)
}

/// The `j`-th cell of the unit is unsolved and owns exactly one value.
pub open spec fn owns_one(g: Seq<Cell>, kind: int, n: int, j: int) -> bool {
    &&& !g[unit_cell(kind, n, j)].solved()
    &&& exists|v: Val| #[trigger] owns(g, kind, n, j, v) && forall|u: Val| #[trigger] owns(g, kind, n, j, u) ==> u == v
}

/// What the hidden-single rule makes of the `j`-th cell of the unit: solved
/// to the one value it owns, if it is unsolved and owns exactly one.
pub open spec fn hidden_cell(g: Seq<Cell>, kind: int, n: int, j: int) -> Cell {
    let c = g[unit_cell(kind, n, j)];
    if owns_one(g, kind, n, j) {
        Cell {
            val: Some(
                choose|v: Val| #[trigger] owns(g, kind, n, j, v) && forall|u: Val| #[trigger] owns(g, kind, n, j, u) ==> u == v,
            ),
            cands: c.cands,
        }
    } else {
        c
    }
}

/// The value that the hidden-single rule places in the `j`-th cell of the
/// unit, if any.
fn hidden_single_at(g: &Vec<Cell>, unit: &Vec<usize>, kind: usize, n: usize, j: usize) -> (r: Option<Val>)
    requires
        g@.len() == 81,
        is_unit(unit@, kind as int, n as int),
        forall|k: int| 0 <= k < 9 ==> #[trigger] unit@[k] < 81,
        j < 9,
    ensures
        r is Some <==> owns_one(g@, kind as int, n as int, j as int),
        r matches Some(v) ==> hidden_cell(g@, kind as int, n as int, j as int).val == Some(v),
        r matches Some(v) ==> owns(g@, kind as int, n as int, j as int, v),
{
    let ghost kk = kind as int;
    let ghost nn = n as int;
    let ghost jj = j as int;
    let c = unit[j];
    if g[c].is_solved() {
        return None;
    }
    let mut count: usize = 0;
    let mut owned = Val::One;
    for vi in 0..9usize
        invariant
            g@.len() == 81,
            is_unit(unit@, kind as int, n as int),
            forall|k: int| 0 <= k < 9 ==> #[trigger] unit@[k] < 81,
            j < 9,
            c == unit@[j as int],
            kk == kind as int && nn == n as int && jj == j as int,
            count <= vi,
            count == 0 ==> forall|u: Val| u.index() < vi ==> !#[trigger] owns(g@, kk, nn, jj, u),
            count >= 1 ==> owns(g@, kk, nn, jj, owned) && owned.index() < vi,
            count == 1 ==> forall|u: Val| u.index() < vi && #[trigger] owns(g@, kk, nn, jj, u) ==> u == owned,
            count >= 2 ==> exists|u: Val| #[trigger] owns(g@, kk, nn, jj, u) && u != owned,
    {
        let v = Val::from_idx(vi);
        let mine = g[c].contains(v);
        let elsewhere = others_have(&g, unit, j, v);
        proof {
            assert(owns(g@, kk, nn, jj, v) == (mine && !elsewhere)) by {
                if !elsewhere {
                    assert forall|k: int| 0 <= k < 9 && k != jj implies !#[trigger] g@[unit_cell(kk, nn, k)].has(v) by {
                        assert(unit@[k] as int == unit_cell(kk, nn, k));
                    }
                } else {
                    let k = choose|k: int| 0 <= k < 9 && k != j && #[trigger] g@[unit@[k] as int].has(v);
                    assert(unit@[k] as int == unit_cell(kk, nn, k));
                }
            }
            assert forall|u: Val| u.index() == vi implies u == v by {}
        }
        if mine && !elsewhere {
            if count >= 1 {
                proof {
                    assert(owns(g@, kk, nn, jj, owned) && owned != v);
                }
            }
            if count < 2 {
                count = count + 1;
            }
            if count == 1 {
                owned = v;
            } else {
                proof {
                    assert(owns(g@, kk, nn, jj, v));
                }
            }
        }
    }
    proof {
        assert forall|u: Val| #[trigger] owns(g@, kk, nn, jj, u) implies u.index() < 9 by {
            crate::grid::lemma_val_at_index(u);
        }
    }
    if count == 1 {
        proof {
            assert(owns(g@, kk, nn, jj, owned) && forall|u: Val| #[trigger] owns(g@, kk, nn, jj, u) ==> u == owned);
            let w = choose|w: Val| #[trigger] owns(g@, kk, nn, jj, w) && forall|u: Val| #[trigger] owns(g@, kk, nn, jj, u) ==> u == w;
            assert(w == owned);
        }
        Some(owned)
    } else {
        proof {
            if owns_one(g@, kk, nn, jj) {
                let w = choose|w: Val| #[trigger] owns(g@, kk, nn, jj, w) && forall|u: Val| #[trigger] owns(g@, kk, nn, jj, u) ==> u == w;
                if count >= 2 {
                    let u = choose|u: Val| #[trigger] owns(g@, kk, nn, jj, u) && u != owned;
                    assert(u == w);
                    assert(owned == w);
                } else {
                    assert(!owns(g@, kk, nn, jj, w));
                }
            }
        }
        None
    }
}

/// Hidden singles: every unsolved cell of the unit that is the only place in
/// the unit for exactly one of its candidates is solved to that value. The
/// owned values are read from the unit as it stands when the pass begins.
fn hidden_singles(g: &mut Vec<Cell>, kind: usize, n: usize)
    requires
        old(g)@.len() == 81,
        kind < 3,
        n < 9,
    ensures
        final(g)@.len() == 81,
        sound_step(old(g)@, final(g)@),
        forall|j: int| 0 <= j < 9 ==> #[trigger] final(g)@[unit_cell(kind as int, n as int, j)] == hidden_cell(
            old(g)@,
            kind as int,
            n as int,
            j,
        ),
        forall|i: int|
            0 <= i < 81 && (forall|k: int| 0 <= k < 9 ==> i != #[trigger] unit_cell(kind as int, n as int, k))
                ==> final(g)@[i] == old(g)@[i],
{
    let unit = unit_cells(kind, n);
    let ghost start = g@;
    let ghost kk = kind as int;
    let ghost nn = n as int;
    proof {
        lemma_sound_step_refl(start);
        assert forall|k: int| 0 <= k < 9 implies #[trigger] unit@[k] < 81 by {
            lemma_unit_cell(kind as int, n as int, k);
        }
    }
    let mut decisions: Vec<Option<Val>> = Vec::new();
    for j in 0..9usize
        invariant
            g@ == start,
            g@.len() == 81,
            is_unit(unit@, kind as int, n as int),
            forall|k: int| 0 <= k < 9 ==> #[trigger] unit@[k] < 81,
            decisions@.len() == j,
            forall|k: int|
                0 <= k < j ==> (#[trigger] decisions@[k] is Some <==> owns_one(start, kk, nn, k)),
            forall|k: int|
                0 <= k < j ==> (#[trigger] decisions@[k] matches Some(v) ==> hidden_cell(start, kk, nn, k).val
                    == Some(v) && owns(start, kk, nn, k, v)),
            kk == kind as int && nn == n as int,
    {
        let d = hidden_single_at(&g, &unit, kind, n, j);
        decisions.push(d);
    }
    for j in 0..9usize
        invariant
            g@.len() == 81,
            is_unit(unit@, kind as int, n as int),
            forall|k: int| 0 <= k < 9 ==> #[trigger] unit@[k] < 81,
            kk == kind as int && nn == n as int,
            decisions@.len() == 9,
            forall|k: int|
                0 <= k < 9 ==> (#[trigger] decisions@[k] is Some <==> owns_one(start, kk, nn, k)),
            forall|k: int|
                0 <= k < 9 ==> (#[trigger] decisions@[k] matches Some(v) ==> hidden_cell(start, kk, nn, k).val
                    == Some(v) && owns(start, kk, nn, k, v)),
            sound_step(start, g@),
            forall|k: int| 0 <= k < j ==> #[trigger] g@[unit_cell(kk, nn, k)] == hidden_cell(start, kk, nn, k),
            forall|k: int| j <= k < 9 ==> #[trigger] g@[unit_cell(kk, nn, k)] == start[unit_cell(kk, nn, k)],
            forall|i: int|
                0 <= i < 81 && (forall|k: int| 0 <= k < 9 ==> i != #[trigger] unit_cell(kk, nn, k))
                    ==> g@[i] == start[i],
    {
        proof {
            lemma_unit_cell(kk, nn, j as int);
        }
        if let Some(v) = decisions[j] {
            let c = unit[j];
            proof {
                let cur = g@;
                assert(owns(start, kk, nn, j as int, v));
                assert forall|s: Seq<Val>| valid_solution(s) && #[trigger] consistent(cur, s) implies s[c as int]
                    == v by {
                    lemma_refines_consistent(cur, start, s);
                    assert(unit_holds(s, kk, nn, v));
                    let k = choose|k: int| 0 <= k < 9 && #[trigger] s[unit_cell(kk, nn, k)] == v;
                    assert(start[unit_cell(kk, nn, k)].has(s[unit_cell(kk, nn, k)]));
                }
                assert(owns_one(start, kk, nn, j as int));
            }
            let ghost before = g@;
            settle(g, c, v);
            proof {
                lemma_sound_step_trans(start, before, g@);
                assert forall|k: int| 0 <= k < j + 1 implies #[trigger] g@[unit_cell(kk, nn, k)] == hidden_cell(
                    start,
                    kk,
                    nn,
                    k,
                ) by {
                    lemma_unit_cell(kk, nn, k);
                }
                assert forall|k: int| j + 1 <= k < 9 implies #[trigger] g@[unit_cell(kk, nn, k)]
                    == start[unit_cell(kk, nn, k)] by {
                    lemma_unit_cell(kk, nn, k);
                }
            }
        } else {
            proof {
                assert(!owns_one(start, kk, nn, j as int));
                assert forall|k: int| 0 <= k < j + 1 implies #[trigger] g@[unit_cell(kk, nn, k)] == hidden_cell(
                    start,
                    kk,
                    nn,
                    k,
                ) by {}
            }
        }
    }
}

/// Naked singles: the value of each solved cell is eliminated from the other
/// cells of the unit.
#[verifier::rlimit(100)]
fn naked_singles(g: &mut Vec<Cell>, kind: usize, n: usize)
    requires
        old(g)@.len() == 81,
        kind < 3,
        n < 9,
    ensures
        final(g)@.len() == 81,
        sound_step(old(g)@, final(g)@),
        unit_cleared(old(g)@, final(g)@, kind as int, n as int),
{
    let unit = unit_cells(kind, n);
    let ghost start = g@;
    proof {
        lemma_sound_step_refl(start);
        assert forall|k: int| 0 <= k < 9 implies #[trigger] unit@[k] < 81 by {
            lemma_unit_cell(kind as int, n as int, k);
        }
    }
    for j in 0..9usize
        invariant
            g@.len() == 81,
            is_unit(unit@, kind as int, n as int),
            forall|k: int| 0 <= k < 9 ==> #[trigger] unit@[k] < 81,
            sound_step(start, g@),
            forall|j2: int, k2: int|
                0 <= j2 < j && 0 <= k2 < 9 && j2 != k2 ==> #[trigger] cleared(
                    start,
                    g@,
                    unit_cell(kind as int, n as int, j2),
                    unit_cell(kind as int, n as int, k2),
                ),
    {
        for k in 0..9usize
            invariant
                g@.len() == 81,
                is_unit(unit@, kind as int, n as int),
                forall|k: int| 0 <= k < 9 ==> #[trigger] unit@[k] < 81,
                sound_step(start, g@),
                j < 9,
                forall|j2: int, k2: int|
                    0 <= j2 < j && 0 <= k2 < 9 && j2 != k2 ==> #[trigger] cleared(
                        start,
                        g@,
                        unit_cell(kind as int, n as int, j2),
                        unit_cell(kind as int, n as int, k2),
                    ),
                forall|k2: int|
                    0 <= k2 < k && k2 != j ==> #[trigger] cleared(
                        start,
                        g@,
                        unit_cell(kind as int, n as int, j as int),
                        unit_cell(kind as int, n as int, k2),
                    ),
        {
            if k != j {
                if let Some(w) = g[unit[k]].val {
                    proof {
                        let cur = g@;
                        assert forall|s: Seq<Val>| valid_solution(s) && #[trigger] consistent(cur, s) implies s[unit@[j as int] as int]
                            != w by {
                            assert(cur[unit@[k as int] as int].has(s[unit@[k as int] as int]));
                            assert(s[unit_cell(kind as int, n as int, k as int)] != s[unit_cell(
                                kind as int,
                                n as int,
                                j as int,
                            )]);
                        }
                    }
                    let ghost before = g@;
                    narrow(g, unit[j], w);
                    proof {
                        lemma_sound_step_trans(start, before, g@);
                        let cur = g@;
                        assert forall|j2: int, k2: int|
                            0 <= j2 < j && 0 <= k2 < 9 && j2 != k2 implies #[trigger] cleared(
                            start,
                            cur,
                            unit_cell(kind as int, n as int, j2),
                            unit_cell(kind as int, n as int, k2),
                        ) by {
                            lemma_unit_cell(kind as int, n as int, j2);
                            lemma_cleared_narrow(
                                start,
                                before,
                                cur,
                                unit_cell(kind as int, n as int, j2),
                                unit_cell(kind as int, n as int, k2),
                            );
                        }
                        assert forall|k2: int| 0 <= k2 < k + 1 && k2 != j implies #[trigger] cleared(
                            start,
                            cur,
                            unit_cell(kind as int, n as int, j as int),
                            unit_cell(kind as int, n as int, k2),
                        ) by {
                            lemma_unit_cell(kind as int, n as int, j as int);
                            if k2 < k {
                                lemma_cleared_narrow(
                                    start,
                                    before,
                                    cur,
                                    unit_cell(kind as int, n as int, j as int),
                                    unit_cell(kind as int, n as int, k2),
                                );
                            } else {
                                let p = unit_cell(kind as int, n as int, k as int);
                                let i = unit_cell(kind as int, n as int, j as int);
                                if start[p].solved() {
                                    assert(before[p] == start[p]);
                                }
                                if !cur[i].solved() {
                                    assert(!before[i].solved());
                                }
                            }
                        }
                    }
                } else {
                    proof {
                        let p = unit_cell(kind as int, n as int, k as int);
                        if start[p].solved() {
                            assert(g@[p] == start[p]);
                        }
                    }
                }
            }
        }
    }
}

/// Some member cell of the unit allows `v`.
pub open spec fn members_allow(g: Seq<Cell>, unit: Seq<usize>, members: Seq<usize>, v: Val) -> bool {
    exists|t: int| 0 <= t < members.len() && #[trigger] g[unit[members[t] as int] as int].has(v)
}

/// Positions of a unit, each at most once.
pub open spec fn positions(members: Seq<usize>) -> bool {
    members.no_duplicates() && forall|t: int| 0 <= t < members.len() ==> #[trigger] members[t] < 9
}

/// If the member cells of a unit allow only as many values as there are
/// members, no other cell of the unit can take one of those values.
proof fn lemma_naked_subset(
    g: Seq<Cell>,
    unit: Seq<usize>,
    kind: int,
    n: int,
    members: Seq<usize>,
    union: Seq<Val>,
    o: int,
    x: Val,
)
    requires
        g.len() == 81,
        is_unit(unit, kind, n),
        positions(members),
        union.len() == members.len(),
        forall|v: Val| members_allow(g, unit, members, v) ==> #[trigger] union.contains(v),
        0 <= o < 9,
        !members.contains(o as usize),
        union.contains(x),
    ensures
        ruled_out(g, unit[o] as int, x),
{
    assert forall|s: Seq<Val>| valid_solution(s) && #[trigger] consistent(g, s) implies s[unit[o] as int]
        != x by {
        if s[unit[o] as int] == x {
            let m = members.len();
            let a = Seq::new(m + 1, |t: int| if t < m { s[unit[members[t] as int] as int] } else { x });
            assert forall|t: int| 0 <= t < a.len() implies union.contains(#[trigger] a[t]) by {
                if t < m {
                    assert(g[unit[members[t] as int] as int].has(s[unit[members[t] as int] as int]));
                    assert(members_allow(g, unit, members, a[t]));
                }
            }
            assert forall|t1: int, t2: int| 0 <= t1 < a.len() && 0 <= t2 < a.len() && t1 != t2 implies a[t1]
                != a[t2] by {
                if t1 < m && t2 < m {
                    assert(members[t1] != members[t2]);
                    assert(s[unit_cell(kind, n, members[t1] as int)] != s[unit_cell(
                        kind,
                        n,
                        members[t2] as int,
                    )]);
                } else if t1 < m {
                    assert(members[t1] != o);
                    assert(s[unit_cell(kind, n, members[t1] as int)] != s[unit_cell(kind, n, o)]);
                } else {
                    assert(members[t2] != o);
                    assert(s[unit_cell(kind, n, members[t2] as int)] != s[unit_cell(kind, n, o)]);
                }
            }
            assert(a.no_duplicates());
            lemma_pigeonhole(a, union);
        }
    }
}

/// Whether some member cell of the unit allows `v`.
fn any_member_has(g: &Vec<Cell>, unit: &Vec<usize>, members: &Vec<usize>, v: Val) -> (r: bool)
    requires
        g@.len() == 81,
        unit@.len() == 9,
        forall|k: int| 0 <= k < 9 ==> #[trigger] unit@[k] < 81,
        positions(members@),
    ensures
        r == members_allow(g@, unit@, members@, v),
{
    for t in 0..members.len()
        invariant
            g@.len() == 81,
            unit@.len() == 9,
            forall|k: int| 0 <= k < 9 ==> #[trigger] unit@[k] < 81,
            positions(members@),
            forall|u: int| 0 <= u < t ==> !#[trigger] g@[unit@[members@[u] as int] as int].has(v),
    {
        if g[unit[members[t]]].contains(v) {
            return true;
        }
    }
    false
}

/// Whether position `o` is a member.
fn is_member(members: &Vec<usize>, o: usize) -> (r: bool)
    ensures
        r == members@.contains(o),
{
    for t in 0..members.len()
        invariant
            forall|u: int| 0 <= u < t ==> #[trigger] members@[u] != o,
    {
        if members[t] == o {
            return true;
        }
    }
    false
}

/// The number of values at positions below `k` that some member cell allows.
pub open spec fn allowed_count(g: Seq<Cell>, unit: Seq<usize>, members: Seq<usize>, k: int) -> nat
    decreases k,
{
    if k <= 0 {
        0
    } else {
        allowed_count(g, unit, members, k - 1) + if members_allow(g, unit, members, Val::at(k - 1)) {
            1nat
        } else {
            0nat
        }
    }
}

/// Cell `i`, if unsolved, no longer allows `v`.
pub open spec fn excludes(g: Seq<Cell>, i: int, v: Val) -> bool {
    !g[i].solved() ==> !g[i].has(v)
}

proof fn lemma_excludes_narrow(a: Seq<Cell>, b: Seq<Cell>, i: int, v: Val)
    requires
        a.len() == 81,
        0 <= i < 81,
        excludes(a, i, v),
        refines(b, a),
    ensures
        excludes(b, i, v),
{
    if !b[i].solved() {
        if a[i].solved() {
            assert(b[i] == a[i]);
        }
        if b[i].has(v) {
            assert(a[i].has(v));
        }
    }
}

/// Naked subset: when the member cells together allow exactly as many values
/// as there are members, those values are eliminated from the unit's other
/// cells.
fn naked_subset(g: &mut Vec<Cell>, unit: &Vec<usize>, kind: usize, n: usize, members: &Vec<usize>)
    requires
        old(g)@.len() == 81,
        is_unit(unit@, kind as int, n as int),
        forall|k: int| 0 <= k < 9 ==> #[trigger] unit@[k] < 81,
        positions(members@),
    ensures
        final(g)@.len() == 81,
        sound_step(old(g)@, final(g)@),
        allowed_count(old(g)@, unit@, members@, 9) != members@.len() ==> final(g)@ == old(g)@,
        allowed_count(old(g)@, unit@, members@, 9) == members@.len() ==> forall|o: int, v: Val|
            0 <= o < 9 && !members@.contains(o as usize) && members_allow(old(g)@, unit@, members@, v)
                ==> #[trigger] excludes(final(g)@, unit@[o] as int, v),
{
    let ghost start = g@;
    proof {
        lemma_sound_step_refl(start);
    }
    let mut union: Vec<Val> = Vec::new();
    for vi in 0..9usize
        invariant
            g@ == start,
            g@.len() == 81,
            unit@.len() == 9,
            forall|k: int| 0 <= k < 9 ==> #[trigger] unit@[k] < 81,
            positions(members@),
            union@.len() <= vi,
            union@.len() == allowed_count(g@, unit@, members@, vi as int),
            forall|v: Val|
                #[trigger] union@.contains(v) <==> (v.index() < vi && members_allow(g@, unit@, members@, v)),
    {
        proof {
            assert(Val::at(vi as int).index() == vi);
        }
        let v = Val::from_idx(vi);
        if any_member_has(&g, unit, members, v) {
            let ghost prev = union@;
            union.push(v);
            proof {
                assert forall|w: Val|
                    #[trigger] union@.contains(w) <==> (w.index() < vi + 1 && members_allow(
                        g@,
                        unit@,
                        members@,
                        w,
                    )) by {
                    if w.index() == vi {
                        assert(w == v);
                        assert(union@[union@.len() - 1] == v);
                    }
                    if union@.contains(w) && w != v {
                        let k = choose|k: int| 0 <= k < union@.len() && union@[k] == w;
                        assert(prev[k] == w);
                    }
                    if prev.contains(w) {
                        let k = choose|k: int| 0 <= k < prev.len() && prev[k] == w;
                        assert(union@[k] == w);
                    }
                }
            }
        } else {
            proof {
                assert forall|w: Val|
                    #[trigger] union@.contains(w) <==> (w.index() < vi + 1 && members_allow(
                        g@,
                        unit@,
                        members@,
                        w,
                    )) by {
                    if w.index() == vi {
                        assert(w == v);
                    }
                }
            }
        }
    }
    proof {
        assert forall|v: Val| #[trigger] union@.contains(v) <==> members_allow(start, unit@, members@, v) by {
            crate::grid::lemma_val_at_index(v);
        }
    }
    if union.len() != members.len() {
        return;
    }
    for o in 0..9usize
        invariant
            g@.len() == 81,
            is_unit(unit@, kind as int, n as int),
            forall|k: int| 0 <= k < 9 ==> #[trigger] unit@[k] < 81,
            positions(members@),
            union@.len() == members@.len(),
            forall|v: Val| #[trigger] union@.contains(v) <==> members_allow(start, unit@, members@, v),
            sound_step(start, g@),
            forall|o2: int, v: Val|
                0 <= o2 < o && !members@.contains(o2 as usize) && members_allow(start, unit@, members@, v)
                    ==> #[trigger] excludes(g@, unit@[o2] as int, v),
    {
        if !is_member(members, o) {
            for t in 0..union.len()
                invariant
                    g@.len() == 81,
                    is_unit(unit@, kind as int, n as int),
                    forall|k: int| 0 <= k < 9 ==> #[trigger] unit@[k] < 81,
                    positions(members@),
                    union@.len() == members@.len(),
                    forall|v: Val| members_allow(start, unit@, members@, v) ==> #[trigger] union@.contains(v),
                    sound_step(start, g@),
                    o < 9,
                    !members@.contains(o),
                    forall|o2: int, v: Val|
                        0 <= o2 < o && !members@.contains(o2 as usize) && members_allow(start, unit@, members@, v)
                            ==> #[trigger] excludes(g@, unit@[o2] as int, v),
                    forall|t2: int| 0 <= t2 < t ==> #[trigger] excludes(g@, unit@[o as int] as int, union@[t2]),
            {
                let x = union[t];
                proof {
                    let cur = g@;
                    assert(union@.contains(x));
                    lemma_naked_subset(start, unit@, kind as int, n as int, members@, union@, o as int, x);
                    assert forall|s: Seq<Val>| valid_solution(s) && #[trigger] consistent(cur, s) implies s[unit@[o as int] as int]
                        != x by {
                        lemma_refines_consistent(cur, start, s);
                    }
                }
                let ghost before = g@;
                narrow(g, unit[o], x);
                proof {
                    lemma_sound_step_trans(start, before, g@);
                    assert forall|o2: int, v: Val|
                        0 <= o2 < o && !members@.contains(o2 as usize) && members_allow(start, unit@, members@, v) implies #[trigger] excludes(
                        g@,
                        unit@[o2] as int,
                        v,
                    ) by {
                        lemma_excludes_narrow(before, g@, unit@[o2] as int, v);
                    }
                    assert forall|t2: int| 0 <= t2 < t + 1 implies #[trigger] excludes(
                        g@,
                        unit@[o as int] as int,
                        union@[t2],
                    ) by {
                        if t2 < t {
                            lemma_excludes_narrow(before, g@, unit@[o as int] as int, union@[t2]);
                        }
                    }
                }
            }
            proof {
                assert forall|o2: int, v: Val|
                    0 <= o2 < o + 1 && !members@.contains(o2 as usize) && members_allow(start, unit@, members@, v) implies #[trigger] excludes(
                    g@,
                    unit@[o2] as int,
                    v,
                ) by {
                    if o2 == o {
                        assert(union@.contains(v));
                        let t2 = choose|t2: int| 0 <= t2 < union@.len() && union@[t2] == v;
                        assert(excludes(g@, unit@[o as int] as int, union@[t2]));
                    }
                }
            }
        }
    }
}

/// Naked subsets of `size` unsolved cells of the unit (see `naked_subset`),
/// tried in order of the subsets' bit masks.
fn naked_subsets(g: &mut Vec<Cell>, kind: usize, n: usize, size: usize)
    requires
        old(g)@.len() == 81,
        kind < 3,
        n < 9,
    ensures
        final(g)@.len() == 81,
        sound_step(old(g)@, final(g)@),
{
    let unit = unit_cells(kind, n);
    let ghost start = g@;
    proof {
        lemma_sound_step_refl(start);
        assert forall|k: int| 0 <= k < 9 implies #[trigger] unit@[k] < 81 by {
            lemma_unit_cell(kind as int, n as int, k);
        }
    }
    for mask in 1..512usize
        invariant
            g@.len() == 81,
            is_unit(unit@, kind as int, n as int),
            forall|k: int| 0 <= k < 9 ==> #[trigger] unit@[k] < 81,
            sound_step(start, g@),
    {
        let mut members: Vec<usize> = Vec::new();
        let mut all_open = true;
        for b in 0..9usize
            invariant
                g@.len() == 81,
                unit@.len() == 9,
                forall|k: int| 0 <= k < 9 ==> #[trigger] unit@[k] < 81,
                positions(members@),
                forall|t: int| 0 <= t < members@.len() ==> #[trigger] members@[t] < b,
        {
            if (mask >> b) & 1 == 1 {
                if g[unit[b]].is_solved() {
                    all_open = false;
                }
                let ghost prev = members@;
                members.push(b);
                proof {
                    assert forall|t1: int, t2: int|
                        0 <= t1 < members@.len() && 0 <= t2 < members@.len() && t1 != t2 implies members@[t1]
                        != members@[t2] by {
                        if t1 < prev.len() && t2 < prev.len() {
                            assert(prev[t1] != prev[t2]);
                        } else if t1 < prev.len() {
                            assert(prev[t1] < b);
                        } else {
                            assert(prev[t2] < b);
                        }
                    }
                }
            }
        }
        if all_open && members.len() == size {
            let ghost before = g@;
            naked_subset(g, &unit, kind, n, &members);
            proof {
                lemma_sound_step_trans(start, before, g@);
            }
        }
    }
}

/// Pointing: if every cell of box `b` that allows `v` lies in the box's row
/// band `f / 3`, no cell of that row outside the box can hold `v`.
proof fn lemma_pointing_row(g: Seq<Cell>, unit: Seq<usize>, b: int, v: Val, f: int, c: int)
    requires
        g.len() == 81,
        is_unit(unit, 2, b),
        0 <= f < 9,
        forall|k: int| 0 <= k < 9 && #[trigger] g[unit[k] as int].has(v) ==> k / 3 == f / 3,
        0 <= c < 9,
        c / 3 != b % 3,
    ensures
        ruled_out(g, ((b / 3) * 3 + f / 3) * 9 + c, v),
{
    let r = (b / 3) * 3 + f / 3;
    assert forall|s: Seq<Val>| valid_solution(s) && #[trigger] consistent(g, s) implies s[r * 9 + c] != v by {
        assert(unit_holds(s, 2, b, v));
        let k = choose|k: int| 0 <= k < 9 && #[trigger] s[unit_cell(2, b, k)] == v;
        lemma_unit_cell(2, b, k);
        let p = unit_cell(2, b, k);
        assert(g[p].has(s[p]));
        assert(g[unit[k] as int].has(v));
        lemma_cell_units(p);
        lemma_unit_cell(0, r, c);
        assert(unit_cell(0, r, col_of(p)) == p);
        assert(s[unit_cell(0, r, col_of(p))] != s[unit_cell(0, r, c)]);
    }
}

/// Pointing along a column: the counterpart of `lemma_pointing_row`.
proof fn lemma_pointing_col(g: Seq<Cell>, unit: Seq<usize>, b: int, v: Val, f: int, r: int)
    requires
        g.len() == 81,
        is_unit(unit, 2, b),
        0 <= f < 9,
        forall|k: int| 0 <= k < 9 && #[trigger] g[unit[k] as int].has(v) ==> k % 3 == f % 3,
        0 <= r < 9,
        r / 3 != b / 3,
    ensures
        ruled_out(g, r * 9 + ((b % 3) * 3 + f % 3), v),
{
    let c = (b % 3) * 3 + f % 3;
    assert forall|s: Seq<Val>| valid_solution(s) && #[trigger] consistent(g, s) implies s[r * 9 + c] != v by {
        assert(unit_holds(s, 2, b, v));
        let k = choose|k: int| 0 <= k < 9 && #[trigger] s[unit_cell(2, b, k)] == v;
        lemma_unit_cell(2, b, k);
        let p = unit_cell(2, b, k);
        assert(g[p].has(s[p]));
        assert(g[unit[k] as int].has(v));
        lemma_cell_units(p);
        lemma_unit_cell(1, c, r);
        assert(unit_cell(1, c, row_of(p)) == p);
        assert(s[unit_cell(1, c, row_of(p))] != s[unit_cell(1, c, r)]);
    }
}

/// Some cell of box `b` is solved to `v`.
pub open spec fn placed_in(g: Seq<Cell>, b: int, v: Val) -> bool {
    exists|m: int| 0 <= m < 9 && #[trigger] g[unit_cell(2, b, m)].val == Some(v)
}

/// The cells of box `b` that allow `v` all lie in one row of the box.
pub open spec fn one_box_row(g: Seq<Cell>, b: int, v: Val) -> bool {
    forall|m1: int, m2: int|
        0 <= m1 < 9 && 0 <= m2 < 9 && #[trigger] g[unit_cell(2, b, m1)].has(v) && #[trigger] g[unit_cell(
            2,
            b,
            m2,
        )].has(v) ==> m1 / 3 == m2 / 3
}

/// The cells of box `b` that allow `v` all lie in one column of the box.
pub open spec fn one_box_col(g: Seq<Cell>, b: int, v: Val) -> bool {
    forall|m1: int, m2: int|
        0 <= m1 < 9 && 0 <= m2 < 9 && #[trigger] g[unit_cell(2, b, m1)].has(v) && #[trigger] g[unit_cell(
            2,
            b,
            m2,
        )].has(v) ==> m1 % 3 == m2 % 3
}

/// Pointing for value `v` in box `b`: when no cell of the box is solved to
/// `v` and the box's candidates for `v` all lie in one row (or one column),
/// `v` is eliminated from the rest of that row (or column) outside the box.
fn pointing(g: &mut Vec<Cell>, unit: &Vec<usize>, b: usize, v: Val)
    requires
        old(g)@.len() == 81,
        is_unit(unit@, 2, b as int),
        forall|k: int| 0 <= k < 9 ==> #[trigger] unit@[k] < 81,
        b < 9,
    ensures
        final(g)@.len() == 81,
        sound_step(old(g)@, final(g)@),
        forall|k: int, c: int|
            0 <= k < 9 && 0 <= c < 9 && c / 3 != b % 3 && !placed_in(old(g)@, b as int, v) && one_box_row(
                old(g)@,
                b as int,
                v,
            ) && #[trigger] old(g)@[unit_cell(2, b as int, k)].has(v) ==> #[trigger] excludes(
                final(g)@,
                ((b / 3) * 3 + k / 3) * 9 + c,
                v,
            ),
        forall|k: int, r: int|
            0 <= k < 9 && 0 <= r < 9 && r / 3 != b / 3 && !placed_in(old(g)@, b as int, v) && one_box_col(
                old(g)@,
                b as int,
                v,
            ) && #[trigger] old(g)@[unit_cell(2, b as int, k)].has(v) ==> #[trigger] excludes(
                final(g)@,
                r * 9 + ((b % 3) * 3 + k % 3),
                v,
            ),
{
    let ghost start = g@;
    let ghost bb = b as int;
    proof {
        lemma_sound_step_refl(start);
    }
    let mut placed = false;
    let mut first: Option<usize> = None;
    let mut one_row = true;
    let mut one_col = true;
    for k in 0..9usize
        invariant
            g@ == start,
            g@.len() == 81,
            is_unit(unit@, 2, bb),
            bb == b as int,
            forall|k: int| 0 <= k < 9 ==> #[trigger] unit@[k] < 81,
            placed <==> exists|m: int| 0 <= m < k && #[trigger] start[unit_cell(2, bb, m)].val == Some(v),
            first matches Some(f) ==> f < k && start[unit_cell(2, bb, f as int)].has(v),
            first is None ==> forall|m: int| 0 <= m < k ==> !#[trigger] start[unit_cell(2, bb, m)].has(v),
            one_row ==> (first matches Some(f) ==> forall|m: int|
                0 <= m < k && #[trigger] start[unit_cell(2, bb, m)].has(v) ==> m / 3 == f / 3),
            one_col ==> (first matches Some(f) ==> forall|m: int|
                0 <= m < k && #[trigger] start[unit_cell(2, bb, m)].has(v) ==> m % 3 == f % 3),
            !one_row ==> exists|m1: int, m2: int|
                0 <= m1 < k && 0 <= m2 < k && #[trigger] start[unit_cell(2, bb, m1)].has(v)
                    && #[trigger] start[unit_cell(2, bb, m2)].has(v) && m1 / 3 != m2 / 3,
            !one_col ==> exists|m1: int, m2: int|
                0 <= m1 < k && 0 <= m2 < k && #[trigger] start[unit_cell(2, bb, m1)].has(v)
                    && #[trigger] start[unit_cell(2, bb, m2)].has(v) && m1 % 3 != m2 % 3,
    {
        let cell = g[unit[k]];
        if let Some(w) = cell.val {
            if w == v {
                placed = true;
                proof {
                    assert(start[unit_cell(2, bb, k as int)].val == Some(v));
                }
            }
        }
        if cell.contains(v) {
            match first {
                None => {
                    first = Some(k);
                },
                Some(f) => {
                    if k / 3 != f / 3 {
                        one_row = false;
                        proof {
                            assert(start[unit_cell(2, bb, f as int)].has(v));
                            assert(start[unit_cell(2, bb, k as int)].has(v));
                        }
                    }
                    if k % 3 != f % 3 {
                        one_col = false;
                        proof {
                            assert(start[unit_cell(2, bb, f as int)].has(v));
                            assert(start[unit_cell(2, bb, k as int)].has(v));
                        }
                    }
                },
            }
        }
    }
    if placed {
        return;
    }
    let f = match first {
        Some(f) => f,
        None => {
            return;
        },
    };
    let ghost row_done = one_row;
    let r = b / 3 * 3 + f / 3;
    if one_row {
        for c in 0..9usize
            invariant
                g@.len() == 81,
                is_unit(unit@, 2, bb),
                bb == b as int,
                forall|k: int| 0 <= k < 9 ==> #[trigger] unit@[k] < 81,
                sound_step(start, g@),
                b < 9,
                f < 9,
                r == (b / 3) * 3 + f / 3,
                forall|m: int| 0 <= m < 9 && #[trigger] start[unit@[m] as int].has(v) ==> m / 3 == f / 3,
                forall|c2: int| 0 <= c2 < c && c2 / 3 != b % 3 ==> #[trigger] excludes(g@, r * 9 + c2, v),
        {
            if c / 3 != b % 3 {
                proof {
                    let cur = g@;
                    lemma_pointing_row(start, unit@, b as int, v, f as int, c as int);
                    assert forall|s: Seq<Val>| valid_solution(s) && #[trigger] consistent(cur, s) implies s[(r * 9 + c) as int]
                        != v by {
                        lemma_refines_consistent(cur, start, s);
                    }
                }
                let ghost before = g@;
                narrow(g, r * 9 + c, v);
                proof {
                    lemma_sound_step_trans(start, before, g@);
                    assert forall|c2: int| 0 <= c2 < c + 1 && c2 / 3 != b % 3 implies #[trigger] excludes(
                        g@,
                        r * 9 + c2,
                        v,
                    ) by {
                        if c2 < c {
                            lemma_excludes_narrow(before, g@, r * 9 + c2, v);
                        }
                    }
                }
            }
        }
    }
    let ghost mid = g@;
    let col = b % 3 * 3 + f % 3;
    if one_col {
        for r2 in 0..9usize
            invariant
                g@.len() == 81,
                is_unit(unit@, 2, bb),
                bb == b as int,
                forall|k: int| 0 <= k < 9 ==> #[trigger] unit@[k] < 81,
                sound_step(start, g@),
                sound_step(mid, g@),
                b < 9,
                f < 9,
                r == (b / 3) * 3 + f / 3,
                col == (b % 3) * 3 + f % 3,
                forall|m: int| 0 <= m < 9 && #[trigger] start[unit@[m] as int].has(v) ==> m % 3 == f % 3,
                row_done ==> forall|c2: int| 0 <= c2 < 9 && c2 / 3 != b % 3 ==> #[trigger] excludes(g@, r * 9 + c2, v),
                forall|r3: int| 0 <= r3 < r2 && r3 / 3 != b / 3 ==> #[trigger] excludes(g@, r3 * 9 + col, v),
        {
            if r2 / 3 != b / 3 {
                proof {
                    let cur = g@;
                    lemma_pointing_col(start, unit@, b as int, v, f as int, r2 as int);
                    assert forall|s: Seq<Val>| valid_solution(s) && #[trigger] consistent(cur, s) implies s[(r2 * 9 + col) as int]
                        != v by {
                        lemma_refines_consistent(cur, start, s);
                    }
                }
                let ghost before = g@;
                narrow(g, r2 * 9 + col, v);
                proof {
                    lemma_sound_step_trans(start, before, g@);
                    lemma_sound_step_trans(mid, before, g@);
                    assert forall|r3: int| 0 <= r3 < r2 + 1 && r3 / 3 != b / 3 implies #[trigger] excludes(
                        g@,
                        r3 * 9 + col,
                        v,
                    ) by {
                        if r3 < r2 {
                            lemma_excludes_narrow(before, g@, r3 * 9 + col, v);
                        }
                    }
                    if row_done {
                        assert forall|c2: int| 0 <= c2 < 9 && c2 / 3 != b % 3 implies #[trigger] excludes(
                            g@,
                            r * 9 + c2,
                            v,
                        ) by {
                            lemma_excludes_narrow(before, g@, r * 9 + c2, v);
                        }
                    }
                }
            }
        }
    }
    proof {
        let fin = g@;
        assert forall|k: int, c: int|
            0 <= k < 9 && 0 <= c < 9 && c / 3 != b % 3 && !placed_in(start, bb, v) && one_box_row(start, bb, v)
                && #[trigger] start[unit_cell(2, bb, k)].has(v) implies #[trigger] excludes(
            fin,
            ((b / 3) * 3 + k / 3) * 9 + c,
            v,
        ) by {
            assert(start[unit_cell(2, bb, f as int)].has(v));
            assert(k / 3 == f / 3);
            assert(one_row);
        }
        assert forall|k: int, r3: int|
            0 <= k < 9 && 0 <= r3 < 9 && r3 / 3 != b / 3 && !placed_in(start, bb, v) && one_box_col(start, bb, v)
                && #[trigger] start[unit_cell(2, bb, k)].has(v) implies #[trigger] excludes(
            fin,
            r3 * 9 + ((b % 3) * 3 + k % 3),
            v,
        ) by {
            assert(start[unit_cell(2, bb, f as int)].has(v));
            assert(k % 3 == f % 3);
            assert(one_col);
        }
    }
}

/// Box-line reduction for box `b`: `pointing` for each value in turn.
fn box_line(g: &mut Vec<Cell>, b: usize)
    requires
        old(g)@.len() == 81,
        b < 9,
    ensures
        final(g)@.len() == 81,
        sound_step(old(g)@, final(g)@),
{
    let unit = unit_cells(2, b);
    let ghost start = g@;
    proof {
        lemma_sound_step_refl(start);
        assert forall|k: int| 0 <= k < 9 implies #[trigger] unit@[k] < 81 by {
            lemma_unit_cell(2, b as int, k);
        }
    }
    for vi in 0..9usize
        invariant
            g@.len() == 81,
            is_unit(unit@, 2, b as int),
            forall|k: int| 0 <= k < 9 ==> #[trigger] unit@[k] < 81,
            sound_step(start, g@),
            b < 9,
    {
        let ghost before = g@;
        pointing(g, &unit, b, Val::from_idx(vi));
        proof {
            lemma_sound_step_trans(start, before, g@);
        }
    }
}

/// The technique level of a sweep: naked pairs join from the third sweep,
/// triples from the fifth and quads from the seventh.
pub open spec fn level_of(sweep: int) -> int {
    if sweep < 2 {
        0
    } else if sweep < 4 {
        1
    } else if sweep < 6 {
        2
    } else {
        3
    }
}

/// The technique level of sweep number `sweep` (counted from 0).
pub fn technique_level(sweep: usize) -> (r: usize)
    ensures
        r == level_of(sweep as int),
{
    if sweep < 2 {
        0
    } else if sweep < 4 {
        1
    } else if sweep < 6 {
        2
    } else {
        3
    }
}

/// Reduces one unit: hidden singles, then naked singles, then naked pairs
/// (level 1 and up), triples (level 2 and up) and quads (level 3).
fn reduce_unit(g: &mut Vec<Cell>, kind: usize, n: usize, level: usize)
    requires
        old(g)@.len() == 81,
        kind < 3,
        n < 9,
    ensures
        final(g)@.len() == 81,
        sound_step(old(g)@, final(g)@),
        unit_cleared(old(g)@, final(g)@, kind as int, n as int),
        forall|j: int|
            0 <= j < 9 && owns_one(old(g)@, kind as int, n as int, j) ==> #[trigger] final(g)@[unit_cell(
                kind as int,
                n as int,
                j,
            )] == hidden_cell(old(g)@, kind as int, n as int, j),
{
    let ghost start = g@;
    hidden_singles(g, kind, n);
    let ghost a = g@;
    naked_singles(g, kind, n);
    proof {
        lemma_sound_step_trans(start, a, g@);
    }
    let mut size: usize = 2;
    while size <= 4 && size - 1 <= level
        invariant
            g@.len() == 81,
            size >= 2,
            kind < 3,
            n < 9,
            sound_step(start, g@),
            sound_step(a, g@),
            unit_cleared(a, g@, kind as int, n as int),
        decreases 5 - size,
    {
        let ghost b = g@;
        naked_subsets(g, kind, n, size);
        proof {
            lemma_sound_step_trans(start, b, g@);
            lemma_sound_step_trans(a, b, g@);
            lemma_unit_cleared_narrow(a, b, g@, kind as int, n as int);
        }
        size = size + 1;
    }
    proof {
        lemma_unit_cleared_earlier(start, a, g@, kind as int, n as int);
        assert forall|j: int|
            0 <= j < 9 && owns_one(start, kind as int, n as int, j) implies #[trigger] g@[unit_cell(
            kind as int,
            n as int,
            j,
        )] == hidden_cell(start, kind as int, n as int, j) by {
            lemma_unit_cell(kind as int, n as int, j);
            assert(a[unit_cell(kind as int, n as int, j)] == hidden_cell(start, kind as int, n as int, j));
            assert(a[unit_cell(kind as int, n as int, j)].solved());
        }
    }
}

/// Promotes every unsolved cell that has exactly one candidate.
pub fn simplify_all(g: &mut Vec<Cell>)
    requires
        old(g)@.len() == 81,
    ensures
        final(g)@.len() == 81,
        sound_step(old(g)@, final(g)@),
        forall|i: int, v: Val| 0 <= i < 81 ==> #[trigger] final(g)@[i].has(v) == old(g)@[i].has(v),
        forall|i: int|
            0 <= i < 81 ==> (#[trigger] final(g)@[i].solved() <==> (old(g)@[i].solved()
                || old(g)@[i].single())),
{
    let ghost start = g@;
    for i in 0..81usize
        invariant
            g@.len() == 81,
            forall|j: int| i <= j < 81 ==> #[trigger] g@[j] == start[j],
            forall|j: int| 0 <= j < i && #[trigger] start[j].solved() ==> g@[j] == start[j],
            forall|j: int, v: Val| 0 <= j < i ==> #[trigger] g@[j].has(v) == start[j].has(v),
            forall|j: int|
                0 <= j < i ==> (#[trigger] g@[j].solved() <==> (start[j].solved() || start[j].single())),
    {
        let mut c = g[i];
        c.simplify();
        g.set(i, c);
    }
    proof {
        assert forall|s: Seq<Val>| valid_solution(s) && #[trigger] consistent(start, s) implies consistent(
            g@,
            s,
        ) by {
            assert forall|j: int| 0 <= j < 81 implies #[trigger] g@[j].has(s[j]) by {
                assert(start[j].has(s[j]));
            }
        }
    }
}

/// One sweep: simplify every cell, reduce every row, column and box at the
/// given technique level, apply box-line reduction to every box, and simplify
/// again.
pub fn sweep(g: &mut Vec<Cell>, level: usize)
    requires
        old(g)@.len() == 81,
    ensures
        final(g)@.len() == 81,
        sound_step(old(g)@, final(g)@),
        peers_cleared(old(g)@, final(g)@),
        simplified(final(g)@),
{
    let ghost start = g@;
    simplify_all(g);
    let ghost s1 = g@;
    proof {
        lemma_sound_step_refl(s1);
    }
    for unit in 0..9usize
        invariant
            g@.len() == 81,
            s1.len() == 81,
            sound_step(start, g@),
            sound_step(s1, g@),
            forall|kind: int, n: int|
                is_kind(kind) && 0 <= n < unit ==> #[trigger] unit_cleared(s1, g@, kind, n),
    {
        let ghost a = g@;
        reduce_unit(g, 0, unit, level);
        let ghost b = g@;
        reduce_unit(g, 1, unit, level);
        let ghost c = g@;
        reduce_unit(g, 2, unit, level);
        proof {
            lemma_sound_step_trans(a, b, c);
            lemma_sound_step_trans(a, c, g@);
            lemma_sound_step_trans(start, a, g@);
            lemma_sound_step_trans(s1, a, g@);
            lemma_sound_step_trans(s1, a, b);
            lemma_sound_step_trans(s1, a, c);
            assert forall|kind: int, n: int| is_kind(kind) && 0 <= n < unit + 1 implies #[trigger] unit_cleared(
                s1,
                g@,
                kind,
                n,
            ) by {
                if n < unit {
                    assert(unit_cleared(s1, a, kind, n));
                    lemma_unit_cleared_narrow(s1, a, g@, kind, n);
                } else if kind == 0 {
                    lemma_unit_cleared_narrow(a, b, g@, kind, n);
                    lemma_unit_cleared_earlier(s1, a, g@, kind, n);
                } else if kind == 1 {
                    lemma_unit_cleared_narrow(b, c, g@, kind, n);
                    lemma_unit_cleared_earlier(s1, b, g@, kind, n);
                } else {
                    lemma_unit_cleared_earlier(s1, c, g@, kind, n);
                }
            }
        }
    }
    proof {
        lemma_units_clear_peers(s1, g@);
    }
    for b in 0..9usize
        invariant
            g@.len() == 81,
            sound_step(start, g@),
            sound_step(s1, g@),
            peers_cleared(s1, g@),
    {
        let ghost a = g@;
        box_line(g, b);
        proof {
            lemma_sound_step_trans(start, a, g@);
            lemma_sound_step_trans(s1, a, g@);
            lemma_peers_cleared_narrow(s1, a, g@);
        }
    }
    let ghost a = g@;
    simplify_all(g);
    proof {
        lemma_sound_step_trans(start, a, g@);
        lemma_peers_cleared_narrow(s1, a, g@);
        lemma_peers_cleared_earlier(start, s1, g@);
        assert forall|i: int| 0 <= i < g@.len() && !(#[trigger] g@[i]).solved() implies !g@[i].single() by {
            if g@[i].single() {
                let w = choose|w: Val| #[trigger] g@[i].has(w) && forall|u: Val| #[trigger] g@[i].has(u) ==> u == w;
                assert(a[i].has(w));
                assert forall|u: Val| #[trigger] a[i].has(u) implies u == w by {
                    assert(g@[i].has(u));
                }
            }
        }
    }
}

/// The first cell that shows the grid cannot be completed, if any.
pub fn find_conflict(g: &Vec<Cell>) -> (r: Option<usize>)
    requires
        g@.len() == 81,
    ensures
        r is None <==> !has_conflict(g@),
        r matches Some(i) ==> i < 81 && conflict_at(g@, i as int) && forall|m: int|
            0 <= m < i ==> !#[trigger] conflict_at(g@, m),
{
    for i in 0..81usize
        invariant
            g@.len() == 81,
            forall|m: int| 0 <= m < i ==> !#[trigger] conflict_at(g@, m),
    {
        if g[i].is_empty() {
            proof {
                assert(conflict_at(g@, i as int));
            }
            return Some(i);
        }
        for j in 0..81usize
            invariant
                g@.len() == 81,
                i < 81,
                !g@[i as int].empty(),
                forall|m: int| 0 <= m < i ==> !#[trigger] conflict_at(g@, m),
                forall|m: int|
                    0 <= m < j && m != i && same_unit(i as int, m) && #[trigger] g@[m].solved()
                        ==> !(g@[i as int].solved() && g@[m].val == g@[i as int].val),
        {
            if j != i && shares_unit(i, j) {
                if let Some(a) = g[i].val {
                    if let Some(b) = g[j].val {
                        if a == b {
                            proof {
                                assert(g@[j as int].solved());
                                assert(conflict_at(g@, i as int));
                            }
                            return Some(i);
                        }
                    }
                }
            }
        }
    }
    None
}

} // verus!
