use vstd::prelude::*;
use crate::cell::Cell;
use crate::math::{
    box_of, col_of, is_kind, lemma_cell_units, lemma_unit_cell, pos_in_box, row_of, skip, unit_cell,
};
use crate::val::Val;

verus! {

/// A filled grid (81 values, row-major) in which every row, column and box
/// holds each of the nine values exactly once.
pub open spec fn valid_solution(s: Seq<Val>) -> bool {
    &&& s.len() == 81
    &&& forall|kind: int, n: int, k1: int, k2: int|
        is_kind(kind) && 0 <= n < 9 && 0 <= k1 < 9 && 0 <= k2 < 9 && k1 != k2 ==> #[trigger] s[unit_cell(
            kind,
            n,
            k1,
        )] != #[trigger] s[unit_cell(kind, n, k2)]
    &&& forall|kind: int, n: int, v: Val|
        is_kind(kind) && 0 <= n < 9 ==> #[trigger] unit_holds(s, kind, n, v)
}

/// Unit `n` of the given kind holds `v` somewhere in `s`.
pub open spec fn unit_holds(s: Seq<Val>, kind: int, n: int, v: Val) -> bool {
    exists|k: int| 0 <= k < 9 && #[trigger] s[unit_cell(kind, n, k)] == v
}

/// The solution `s` agrees with every cell of the grid: each cell still allows
/// the value that `s` puts there.
pub open spec fn consistent(g: Seq<Cell>, s: Seq<Val>) -> bool {
    &&& g.len() == 81
    &&& s.len() == 81
    &&& forall|i: int| 0 <= i < 81 ==> #[trigger] g[i].has(s[i])
}

/// `new` is `old` narrowed: solved cells are untouched, and every other cell
/// keeps a subset of its possible values.
pub open spec fn refines(new: Seq<Cell>, old: Seq<Cell>) -> bool {
    &&& new.len() == old.len()
    &&& forall|i: int| 0 <= i < old.len() && #[trigger] old[i].solved() ==> new[i] == old[i]
    &&& forall|i: int, v: Val| 0 <= i < old.len() && #[trigger] new[i].has(v) ==> old[i].has(v)
}

/// Every valid solution that agrees with `old` still agrees with `new`: the
/// step from `old` to `new` rules out no true value.
pub open spec fn keeps_solutions(old: Seq<Cell>, new: Seq<Cell>) -> bool {
    forall|s: Seq<Val>| valid_solution(s) && #[trigger] consistent(old, s) ==> consistent(new, s)
}

/// A sound narrowing step.
pub open spec fn sound_step(old: Seq<Cell>, new: Seq<Cell>) -> bool {
    refines(new, old) && keeps_solutions(old, new)
}

/// Cells `i` and `j` share a row, a column or a box.
pub open spec fn same_unit(i: int, j: int) -> bool {
    row_of(i) == row_of(j) || col_of(i) == col_of(j) || box_of(i) == box_of(j)
}

/// Cell `i` shows that the grid cannot be completed: it has no possible value
/// left, or it is solved to the same value as another cell of one of its units.
pub open spec fn conflict_at(g: Seq<Cell>, i: int) -> bool {
    ||| g[i].empty()
    ||| exists|j: int|
        0 <= j < 81 && j != i && same_unit(i, j) && #[trigger] g[j].solved() && g[i].solved() && g[j].val
            == g[i].val
}

pub open spec fn has_conflict(g: Seq<Cell>) -> bool {
    exists|i: int| 0 <= i < 81 && #[trigger] conflict_at(g, i)
}

/// Number of solved cells.
pub open spec fn count_solved(g: Seq<Cell>) -> nat
    decreases g.len(),
{
    if g.len() == 0 {
        0
    } else {
        count_solved(g.drop_last()) + if g.last().solved() {
            1nat
        } else {
            0nat
        }
    }
}

pub open spec fn all_solved(g: Seq<Cell>) -> bool {
    forall|i: int| 0 <= i < g.len() ==> #[trigger] g[i].solved()
}

/// The values of a fully solved grid.
pub open spec fn values(g: Seq<Cell>) -> Seq<Val> {
    Seq::new(g.len(), |i: int| g[i].val.unwrap())
}

pub proof fn lemma_sound_step_refl(g: Seq<Cell>)
    ensures
        sound_step(g, g),
{
}

pub proof fn lemma_sound_step_trans(a: Seq<Cell>, b: Seq<Cell>, c: Seq<Cell>)
    requires
        sound_step(a, b),
        sound_step(b, c),
    ensures
        sound_step(a, c),
{
    assert forall|i: int, v: Val| 0 <= i < a.len() && #[trigger] c[i].has(v) implies a[i].has(v) by {
        assert(b[i].has(v));
    }
    assert forall|i: int| 0 <= i < a.len() && #[trigger] a[i].solved() implies c[i] == a[i] by {
        assert(b[i] == a[i]);
    }
    assert forall|s: Seq<Val>| valid_solution(s) && #[trigger] consistent(a, s) implies consistent(c, s) by {
        assert(consistent(b, s));
    }
}

/// A solution that agrees with a narrowed grid agrees with the grid it narrows.
pub proof fn lemma_refines_consistent(new: Seq<Cell>, old: Seq<Cell>, s: Seq<Val>)
    requires
        refines(new, old),
        consistent(new, s),
    ensures
        consistent(old, s),
{
    assert forall|i: int| 0 <= i < 81 implies #[trigger] old[i].has(s[i]) by {
        assert(new[i].has(s[i]));
    }
}

/// `count_solved` is at most the number of cells, and reaches it exactly when
/// every cell is solved.
pub proof fn lemma_count_solved(g: Seq<Cell>)
    ensures
        count_solved(g) <= g.len(),
        count_solved(g) == g.len() <==> all_solved(g),
    decreases g.len(),
{
    if g.len() > 0 {
        lemma_count_solved(g.drop_last());
        if all_solved(g) {
            assert(all_solved(g.drop_last()));
        }
        if count_solved(g) == g.len() {
            assert forall|i: int| 0 <= i < g.len() implies #[trigger] g[i].solved() by {
                if i < g.len() - 1 {
                    assert(g.drop_last()[i] == g[i]);
                }
            }
        }
    }
}

/// Narrowing never lowers the number of solved cells.
pub proof fn lemma_count_monotone(new: Seq<Cell>, old: Seq<Cell>)
    requires
        refines(new, old),
    ensures
        count_solved(old) <= count_solved(new),
    decreases old.len(),
{
    if old.len() > 0 {
        let n2 = new.drop_last();
        let o2 = old.drop_last();
        assert forall|i: int| 0 <= i < o2.len() && #[trigger] o2[i].solved() implies n2[i] == o2[i] by {
            assert(old[i].solved());
        }
        assert forall|i: int, v: Val| 0 <= i < o2.len() && #[trigger] n2[i].has(v) implies o2[i].has(
            v,
        ) by {
            assert(new[i].has(v));
        }
        lemma_count_monotone(n2, o2);
        if old.last().solved() {
            assert(new[old.len() - 1] == old[old.len() - 1]);
        }
    }
}

/// A grid that some valid solution agrees with has no conflict.
pub proof fn lemma_consistent_no_conflict(g: Seq<Cell>, s: Seq<Val>)
    requires
        valid_solution(s),
        consistent(g, s),
    ensures
        !has_conflict(g),
{
    assert forall|i: int| 0 <= i < 81 implies !#[trigger] conflict_at(g, i) by {
        assert(g[i].has(s[i]));
        if exists|j: int|
            0 <= j < 81 && j != i && same_unit(i, j) && #[trigger] g[j].solved() && g[i].solved()
                && g[j].val == g[i].val {
            let j = choose|j: int|
                0 <= j < 81 && j != i && same_unit(i, j) && #[trigger] g[j].solved() && g[i].solved()
                    && g[j].val == g[i].val;
            assert(g[j].has(s[j]));
            lemma_cell_units(i);
            lemma_cell_units(j);
            lemma_distinct_in_unit(s, i, j);
        }
    }
}

/// Two distinct cells that share a unit hold different values in a valid solution.
pub proof fn lemma_distinct_in_unit(s: Seq<Val>, i: int, j: int)
    requires
        valid_solution(s),
        0 <= i < 81,
        0 <= j < 81,
        i != j,
        same_unit(i, j),
    ensures
        s[i] != s[j],
{
    lemma_cell_units(i);
    lemma_cell_units(j);
    if row_of(i) == row_of(j) {
        assert(s[unit_cell(0, row_of(i), col_of(i))] != s[unit_cell(0, row_of(i), col_of(j))]);
    } else if col_of(i) == col_of(j) {
        assert(s[unit_cell(1, col_of(i), row_of(i))] != s[unit_cell(1, col_of(i), row_of(j))]);
    } else {
        assert(s[unit_cell(2, box_of(i), pos_in_box(i))] != s[unit_cell(2, box_of(i), pos_in_box(j))]);
    }
}

/// Pigeonhole: distinct values that all occur in `b` are no more than `b`'s length.
pub proof fn lemma_pigeonhole(a: Seq<Val>, b: Seq<Val>)
    requires
        a.no_duplicates(),
        forall|i: int| 0 <= i < a.len() ==> b.contains(#[trigger] a[i]),
    ensures
        a.len() <= b.len(),
{
    a.unique_seq_to_set();
    b.lemma_cardinality_of_set();
    assert(a.to_set().subset_of(b.to_set())) by {
        assert forall|x: Val| a.to_set().contains(x) implies b.to_set().contains(x) by {
            let i = choose|i: int| 0 <= i < a.len() && a[i] == x;
            assert(b.contains(a[i]));
        }
    }
    vstd::set_lib::lemma_len_subset(a.to_set(), b.to_set());
}

/// A fully solved grid without conflicts is a valid solution: no unit holds a
/// value twice, so each of its nine cells holds a different one of the nine
/// values.
pub proof fn lemma_solved_grid_valid(g: Seq<Cell>)
    requires
        g.len() == 81,
        all_solved(g),
        !has_conflict(g),
    ensures
        valid_solution(values(g)),
{
    let s = values(g);
    assert forall|kind: int, n: int, k1: int, k2: int|
        is_kind(kind) && 0 <= n < 9 && 0 <= k1 < 9 && 0 <= k2 < 9 && k1 != k2 implies #[trigger] s[unit_cell(
        kind,
        n,
        k1,
    )] != #[trigger] s[unit_cell(kind, n, k2)] by {
        lemma_unit_distinct(g, kind, n, k1, k2);
    }
    assert forall|kind: int, n: int, v: Val| is_kind(kind) && 0 <= n < 9 implies #[trigger] unit_holds(
        s,
        kind,
        n,
        v,
    ) by {
        if !unit_holds(s, kind, n, v) {
            let a = Seq::new(9, |k: int| s[unit_cell(kind, n, k)]);
            let b = Seq::new(8, |t: int| Val::at(skip(t, v.index())));
            assert forall|t1: int, t2: int| 0 <= t1 < 9 && 0 <= t2 < 9 && t1 != t2 implies a[t1] != a[t2] by {
                lemma_unit_distinct(g, kind, n, t1, t2);
            }
            assert(a.no_duplicates());
            assert forall|k: int| 0 <= k < 9 implies b.contains(#[trigger] a[k]) by {
                let x = a[k];
                assert(x != v);
                lemma_val_at_index(x);
                lemma_val_at_index(v);
                let t = if x.index() < v.index() {
                    x.index()
                } else {
                    x.index() - 1
                };
                assert(b[t] == x);
            }
            lemma_pigeonhole(a, b);
        }
    }
}

/// Two positions of a unit of a solved, conflict-free grid hold different values.
proof fn lemma_unit_distinct(g: Seq<Cell>, kind: int, n: int, k1: int, k2: int)
    requires
        g.len() == 81,
        all_solved(g),
        !has_conflict(g),
        is_kind(kind),
        0 <= n < 9,
        0 <= k1 < 9,
        0 <= k2 < 9,
        k1 != k2,
    ensures
        values(g)[unit_cell(kind, n, k1)] != values(g)[unit_cell(kind, n, k2)],
{
    lemma_unit_cell(kind, n, k1);
    lemma_unit_cell(kind, n, k2);
    let c1 = unit_cell(kind, n, k1);
    let c2 = unit_cell(kind, n, k2);
    assert(!conflict_at(g, c1));
    assert(same_unit(c1, c2));
    assert(g[c1].solved() && g[c2].solved());
}

/// `Val::at` inverts `Val::index`.
pub proof fn lemma_val_at_index(v: Val)
    ensures
        Val::at(v.index()) == v,
        0 <= v.index() < 9,
{
}

/// A grid obtained from a valid solution by blanking some cells (each cell is
/// either solved to the solution's value or unsolved with every value
/// possible) agrees with that solution.
pub proof fn lemma_blanked_solution_consistent(g: Seq<Cell>, s: Seq<Val>)
    requires
        valid_solution(s),
        g.len() == 81,
        forall|i: int| 0 <= i < 81 && #[trigger] g[i].solved() ==> g[i].val == Some(s[i]),
        forall|i: int, v: Val| 0 <= i < 81 && !g[i].solved() ==> #[trigger] g[i].has(v),
    ensures
        consistent(g, s),
{
    assert forall|i: int| 0 <= i < 81 implies #[trigger] g[i].has(s[i]) by {
        if g[i].solved() {
            assert(g[i].val == Some(s[i]));
        }
    }
}

/// If cell `p` was solved in `start`, the unsolved cell `i` of `g` no longer
/// allows its value.
pub open spec fn cleared(start: Seq<Cell>, g: Seq<Cell>, i: int, p: int) -> bool {
    start[p].solved() && !g[i].solved() ==> !g[i].has(start[p].val.unwrap())
}

/// Within unit `n` of the given kind, every cell of `g` that is unsolved no
/// longer allows the value of any other cell that was solved in `start`.
pub open spec fn unit_cleared(start: Seq<Cell>, g: Seq<Cell>, kind: int, n: int) -> bool {
    forall|j: int, k: int|
        0 <= j < 9 && 0 <= k < 9 && j != k ==> #[trigger] cleared(
            start,
            g,
            unit_cell(kind, n, j),
            unit_cell(kind, n, k),
        )
}

/// Every unsolved cell of `g` no longer allows the value of any of its peers
/// that was solved in `start`.
pub open spec fn peers_cleared(start: Seq<Cell>, g: Seq<Cell>) -> bool {
    forall|i: int, p: int|
        0 <= i < 81 && 0 <= p < 81 && i != p && same_unit(i, p) ==> #[trigger] cleared(start, g, i, p)
}

/// No unsolved cell of `g` is left with a single candidate.
pub open spec fn simplified(g: Seq<Cell>) -> bool {
    forall|i: int| 0 <= i < g.len() && !(#[trigger] g[i]).solved() ==> !g[i].single()
}

/// Narrowing `g` further keeps what was cleared.
pub proof fn lemma_cleared_narrow(start: Seq<Cell>, a: Seq<Cell>, b: Seq<Cell>, i: int, p: int)
    requires
        a.len() == 81,
        0 <= i < 81,
        cleared(start, a, i, p),
        refines(b, a),
    ensures
        cleared(start, b, i, p),
{
    if start[p].solved() && !b[i].solved() {
        if a[i].solved() {
            assert(b[i] == a[i]);
        }
        if b[i].has(start[p].val.unwrap()) {
            assert(a[i].has(start[p].val.unwrap()));
        }
    }
}

/// What is cleared against the cells solved in `a` is cleared against those
/// of any grid that `a` narrows.
pub proof fn lemma_cleared_earlier(s: Seq<Cell>, a: Seq<Cell>, g: Seq<Cell>, i: int, p: int)
    requires
        s.len() == 81,
        0 <= p < 81,
        refines(a, s),
        cleared(a, g, i, p),
    ensures
        cleared(s, g, i, p),
{
    if s[p].solved() {
        assert(a[p] == s[p]);
    }
}

pub proof fn lemma_unit_cleared_narrow(start: Seq<Cell>, a: Seq<Cell>, b: Seq<Cell>, kind: int, n: int)
    requires
        a.len() == 81,
        is_kind(kind),
        0 <= n < 9,
        unit_cleared(start, a, kind, n),
        refines(b, a),
    ensures
        unit_cleared(start, b, kind, n),
{
    assert forall|j: int, k: int| 0 <= j < 9 && 0 <= k < 9 && j != k implies #[trigger] cleared(
        start,
        b,
        unit_cell(kind, n, j),
        unit_cell(kind, n, k),
    ) by {
        lemma_unit_cell(kind, n, j);
        lemma_cleared_narrow(start, a, b, unit_cell(kind, n, j), unit_cell(kind, n, k));
    }
}

pub proof fn lemma_unit_cleared_earlier(s: Seq<Cell>, a: Seq<Cell>, g: Seq<Cell>, kind: int, n: int)
    requires
        s.len() == 81,
        is_kind(kind),
        0 <= n < 9,
        refines(a, s),
        unit_cleared(a, g, kind, n),
    ensures
        unit_cleared(s, g, kind, n),
{
    assert forall|j: int, k: int| 0 <= j < 9 && 0 <= k < 9 && j != k implies #[trigger] cleared(
        s,
        g,
        unit_cell(kind, n, j),
        unit_cell(kind, n, k),
    ) by {
        lemma_unit_cell(kind, n, k);
        lemma_cleared_earlier(s, a, g, unit_cell(kind, n, j), unit_cell(kind, n, k));
    }
}

pub proof fn lemma_peers_cleared_narrow(start: Seq<Cell>, a: Seq<Cell>, b: Seq<Cell>)
    requires
        a.len() == 81,
        peers_cleared(start, a),
        refines(b, a),
    ensures
        peers_cleared(start, b),
{
    assert forall|i: int, p: int|
        0 <= i < 81 && 0 <= p < 81 && i != p && same_unit(i, p) implies #[trigger] cleared(start, b, i, p) by {
        lemma_cleared_narrow(start, a, b, i, p);
    }
}

pub proof fn lemma_peers_cleared_earlier(s: Seq<Cell>, a: Seq<Cell>, g: Seq<Cell>)
    requires
        s.len() == 81,
        refines(a, s),
        peers_cleared(a, g),
    ensures
        peers_cleared(s, g),
{
    assert forall|i: int, p: int|
        0 <= i < 81 && 0 <= p < 81 && i != p && same_unit(i, p) implies #[trigger] cleared(s, g, i, p) by {
        lemma_cleared_earlier(s, a, g, i, p);
    }
}

/// Clearing every row, column and box clears every pair of peers.
pub proof fn lemma_units_clear_peers(start: Seq<Cell>, g: Seq<Cell>)
    requires
        forall|kind: int, n: int| is_kind(kind) && 0 <= n < 9 ==> #[trigger] unit_cleared(start, g, kind, n),
    ensures
        peers_cleared(start, g),
{
    assert forall|i: int, p: int|
        0 <= i < 81 && 0 <= p < 81 && i != p && same_unit(i, p) implies #[trigger] cleared(start, g, i, p) by {
        lemma_cell_units(i);
        lemma_cell_units(p);
        if row_of(i) == row_of(p) {
            assert(unit_cleared(start, g, 0, row_of(i)));
            assert(cleared(start, g, unit_cell(0, row_of(i), col_of(i)), unit_cell(0, row_of(i), col_of(p))));
        } else if col_of(i) == col_of(p) {
            assert(unit_cleared(start, g, 1, col_of(i)));
            assert(cleared(start, g, unit_cell(1, col_of(i), row_of(i)), unit_cell(1, col_of(i), row_of(p))));
        } else {
            assert(unit_cleared(start, g, 2, box_of(i)));
            assert(cleared(
                start,
                g,
                unit_cell(2, box_of(i), pos_in_box(i)),
                unit_cell(2, box_of(i), pos_in_box(p)),
            ));
        }
    }
}

} // verus!
