use vstd::prelude::*;
use crate::val::Val;

verus! {

/// The state of one grid cell: solved to a value, or unsolved with a set of
/// remaining candidates. The candidate flags of a solved cell are not read.
#[derive(Clone, Copy, Debug)]
pub struct Cell {
    pub val: Option<Val>,
    /// `cands[i]` holds whether the value at position `i` is still possible.
    pub cands: [bool; 9],
}

/// How a cell is written in the text grid of a puzzle: its digit, or `.` when unsolved.
pub open spec fn cell_text(c: Cell) -> Seq<char> {
    match c.val {
        Some(Val::One) => "1"@,
        Some(Val::Two) => "2"@,
        Some(Val::Three) => "3"@,
        Some(Val::Four) => "4"@,
        Some(Val::Five) => "5"@,
        Some(Val::Six) => "6"@,
        Some(Val::Seven) => "7"@,
        Some(Val::Eight) => "8"@,
        Some(Val::Nine) => "9"@,
        None => "."@,
    }
}

impl Cell {
    /// `v` is possible here: the value of a solved cell, or a remaining
    /// candidate of an unsolved one.
    pub open spec fn has(self, v: Val) -> bool {
        match self.val {
            Some(w) => w == v,
            None => self.cands@[v.index()],
        }
    }

    /// Exactly one value is possible.
    pub open spec fn single(self) -> bool {
        exists|w: Val| #[trigger] self.has(w) && forall|u: Val| #[trigger] self.has(u) ==> u == w
    }

    /// No value is possible: the puzzle has no solution from here.
    pub open spec fn empty(self) -> bool {
        forall|v: Val| !#[trigger] self.has(v)
    }

    pub open spec fn solved(self) -> bool {
        self.val is Some
    }

    /// An unsolved cell with every value still possible.
    pub fn blank() -> (r: Cell)
        ensures
            !r.solved(),
            forall|v: Val| #[trigger] r.has(v),
    {
        Cell { val: None, cands: [true, true, true, true, true, true, true, true, true] }
    }

    /// A cell solved to `v`.
    pub fn solved_to(v: Val) -> (r: Cell)
        ensures
            r.val == Some(v),
    {
        Cell { val: Some(v), cands: [true, true, true, true, true, true, true, true, true] }
    }

    pub fn is_solved(&self) -> (r: bool)
        ensures
            r == self.solved(),
    {
        self.val.is_some()
    }

    /// How the cell is written: its digit when solved, `.` otherwise.
    pub fn text(&self) -> (r: &'static str)
        ensures
            r@ == cell_text(*self),
    {
        match self.val {
            Some(Val::One) => "1",
            Some(Val::Two) => "2",
            Some(Val::Three) => "3",
            Some(Val::Four) => "4",
            Some(Val::Five) => "5",
            Some(Val::Six) => "6",
            Some(Val::Seven) => "7",
            Some(Val::Eight) => "8",
            Some(Val::Nine) => "9",
            None => ".",
        }
    }

    /// Whether no value is possible any more.
    pub fn is_empty(&self) -> (r: bool)
        ensures
            r == self.empty(),
    {
        if self.val.is_some() {
            proof {
                assert(self.has(self.val.unwrap()));
            }
            return false;
        }
        for i in 0..9usize
            invariant
                self.val is None,
                forall|j: int| 0 <= j < i ==> !#[trigger] self.cands@[j],
        {
            if self.cands[i] {
                proof {
                    assert(self.has(Val::at(i as int)));
                }
                return false;
            }
        }
        true
    }

    /// Whether `v` is possible in this cell.
    pub fn contains(&self, v: Val) -> (r: bool)
        ensures
            r == self.has(v),
    {
        match self.val {
            Some(w) => w == v,
            None => self.cands[v.idx()],
        }
    }

    /// The possible values, in ascending order.
    pub fn possible_values(&self) -> (r: Vec<Val>)
        ensures
            forall|v: Val| r@.contains(v) <==> self.has(v),
            forall|i: int, j: int| 0 <= i < j < r@.len() ==> r@[i].index() < r@[j].index(),
    {
        let mut r: Vec<Val> = Vec::new();
        for i in 0..9usize
            invariant
                forall|v: Val| r@.contains(v) <==> (self.has(v) && v.index() < i),
                forall|a: int, b: int| 0 <= a < b < r@.len() ==> r@[a].index() < r@[b].index(),
                forall|a: int| 0 <= a < r@.len() ==> #[trigger] r@[a].index() < i,
        {
            let v = Val::from_idx(i);
            if self.contains(v) {
                let ghost prev = r@;
                r.push(v);
                proof {
                    assert forall|u: Val| r@.contains(u) <==> (self.has(u) && u.index() < i + 1) by {
                        if u.index() == i {
                            assert(u == v);
                            assert(r@[r@.len() - 1] == v);
                        }
                        if r@.contains(u) && u != v {
                            let k = choose|k: int| 0 <= k < r@.len() && r@[k] == u;
                            assert(r@.drop_last().contains(u)) by {
                                assert(r@.drop_last()[k] == u);
                            }
                        }
                        if self.has(u) && u.index() < i {
                            assert(prev.contains(u));
                            let k = choose|k: int| 0 <= k < prev.len() && prev[k] == u;
                            assert(r@[k] == u);
                        }
                    }
                }
            } else {
                proof {
                    assert forall|u: Val| r@.contains(u) <==> (self.has(u) && u.index() < i + 1) by {
                        if u.index() == i {
                            assert(u == v);
                        }
                    }
                }
            }
        }
        r
    }

    /// The only possible value, if there is exactly one.
    pub fn sole(&self) -> (r: Option<Val>)
        ensures
            r matches Some(w) ==> self.has(w) && forall|u: Val| #[trigger] self.has(u) ==> u == w,
            r is None ==> !self.single(),
    {
        if let Some(w) = self.val {
            return Some(w);
        }
        let mut found: Option<Val> = None;
        for i in 0..9usize
            invariant
                self.val is None,
                found matches Some(w) ==> self.has(w) && w.index() < i && forall|u: Val|
                    #[trigger] self.has(u) && u.index() < i ==> u == w,
                found is None ==> forall|u: Val| #[trigger] self.has(u) ==> u.index() >= i,
        {
            let v = Val::from_idx(i);
            if self.cands[i] {
                match found {
                    Some(_) => {
                        proof {
                            assert(self.has(v));
                        }
                        return None;
                    },
                    None => {
                        found = Some(v);
                    },
                }
            }
            proof {
                assert forall|u: Val| #[trigger] self.has(u) && u.index() == i implies u == v by {
                    if u.index() == i {
                        assert(u == v);
                    }
                }
            }
        }
        found
    }

    /// Forces the cell to be solved to `v`.
    pub fn assign(&mut self, v: Val)
        ensures
            final(self).val == Some(v),
            final(self).cands == old(self).cands,
    {
        self.val = Some(v);
    }

    /// Promotes an unsolved cell with exactly one candidate to solved; the set
    /// of possible values does not change.
    pub fn simplify(&mut self)
        ensures
            old(self).solved() ==> *final(self) == *old(self),
            forall|v: Val| final(self).has(v) == old(self).has(v),
            final(self).solved() <==> (old(self).solved() || old(self).single()),
    {
        if self.val.is_none() {
            if let Some(w) = self.sole() {
                self.val = Some(w);
                proof {
                    assert forall|v: Val| final(self).has(v) == old(self).has(v) by {
                        if old(self).has(v) {
                            assert(v == w);
                        }
                    }
                }
            }
        }
    }

    /// Removes `v` from the candidates of an unsolved cell, then promotes the
    /// cell if one candidate is left. A solved cell is left as it is.
    pub fn eliminate(&mut self, v: Val)
        ensures
            old(self).solved() ==> *final(self) == *old(self),
            !old(self).solved() ==> forall|w: Val|
                #[trigger] final(self).has(w) == (old(self).has(w) && w != v),
            !old(self).solved() ==> (final(self).solved() <==> final(self).single()),
    {
        if self.val.is_none() {
            self.cands[v.idx()] = false;
            proof {
                assert forall|w: Val| #[trigger] self.has(w) == (old(self).has(w) && w != v) by {
                    if w.index() == v.index() {
                        assert(w == v);
                    }
                }
            }
            let ghost mid = *self;
            self.simplify();
            proof {
                assert(self.single() == mid.single());
            }
        }
    }
}

/// The 81 cells of an empty grid: all unsolved, with every value possible.
pub fn new_cell_list() -> (r: Vec<Cell>)
    ensures
        r@.len() == 81,
        forall|i: int| 0 <= i < 81 ==> !(#[trigger] r@[i]).solved(),
        forall|i: int, v: Val| 0 <= i < 81 ==> #[trigger] r@[i].has(v),
{
    let mut cells: Vec<Cell> = Vec::new();
    for i in 0..81usize
        invariant
            cells@.len() == i,
            forall|j: int| 0 <= j < i ==> !(#[trigger] cells@[j]).solved(),
            forall|j: int, v: Val| 0 <= j < i ==> #[trigger] cells@[j].has(v),
    {
        cells.push(Cell::blank());
    }
    cells
}

} // verus!
