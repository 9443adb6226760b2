use vstd::prelude::*;
use crate::cell::{cell_text, new_cell_list, Cell};
use crate::grid::{
    all_solved, conflict_at, consistent, count_solved, has_conflict, lemma_consistent_no_conflict,
    lemma_count_monotone, lemma_count_solved, lemma_peers_cleared_narrow, lemma_solved_grid_valid,
    peers_cleared, simplified, sound_step,
    valid_solution, values,
};
use crate::solve::{find_conflict, narrow, simplify_all, sweep, technique_level};
use crate::val::{token_value, Val};

verus! {

/// The number of sweeps `try_solve` runs at most.
pub const MAX_ITER: usize = 25;

/// Why a solve attempt ended without a fully solved grid.
#[derive(Clone, Copy, Debug, PartialEq, Eq, Structural)]
pub enum SolveError {
    /// The budget of `sweeps` sweeps ran out: `solved` cells are solved in
    /// all, `newly_solved` of them during this attempt.
    Stalled { sweeps: usize, solved: usize, newly_solved: usize },
    /// Cell `cell` has no possible value left, or repeats the value of a
    /// solved cell in one of its units: the puzzle has no solution.
    Contradiction { cell: usize },
}

/// Why a puzzle could not be read.
#[derive(Clone, Copy, Debug, PartialEq, Eq, Structural)]
pub enum ParseError {
    /// The input holds more than 81 tokens.
    TooManyTokens,
}

/// A 9x9 Sudoku grid: 81 cells in row-major order.
#[derive(Clone, Debug)]
pub struct Puzzle {
    cells: Vec<Cell>,
}

impl View for Puzzle {
    type V = Seq<Cell>;

    closed spec fn view(&self) -> Seq<Cell> {
        self.cells@
    }
}

/// The value given for cell `i` by the tokens of a puzzle, if any.
pub open spec fn given(tokens: Seq<Seq<char>>, i: int) -> Option<Val> {
    if i < tokens.len() {
        token_value(tokens[i])
    } else {
        None
    }
}

/// `g` is the grid that the tokens describe: the `i`-th token fills cell `i`;
/// a missing or unreadable token leaves the cell blank.
pub open spec fn parsed_from(g: Seq<Cell>, tokens: Seq<Seq<char>>) -> bool {
    &&& g.len() == 81
    &&& forall|i: int| 0 <= i < 81 ==> (#[trigger] g[i]).val == given(tokens, i)
    &&& forall|i: int, v: Val| 0 <= i < 81 && !g[i].solved() ==> #[trigger] g[i].has(v)
}

/// The text of each token.
pub open spec fn token_texts(tokens: Seq<String>) -> Seq<Seq<char>> {
    tokens.map_values(|t: String| t@)
}

/// Cell `i` is unsolved and still allows `val`.
pub open spec fn open_for(g: Seq<Cell>, val: Val) -> spec_fn(usize) -> bool {
    |i: usize| !g[i as int].solved() && g[i as int].has(val)
}

/// The whitespace-separated tokens of a text.
pub uninterp spec fn whitespace_tokens(s: Seq<char>) -> Seq<Seq<char>>;

/// Relies on `str::split_whitespace`: the tokens depend on the text alone.
#[verifier::external_body]
fn split_tokens(s: &str) -> (r: Vec<String>)
    ensures
        token_texts(r@) == whitespace_tokens(s@),
{
    s.split_whitespace().map(|t| t.to_string()).collect()
}

/// The three cells of row `r` in box column `b`, as `| x y z `.
pub open spec fn group_text(g: Seq<Cell>, r: int, b: int) -> Seq<char> {
    "| "@ + cell_text(g[r * 9 + b * 3]) + " "@ + cell_text(g[r * 9 + b * 3 + 1]) + " "@ + cell_text(
        g[r * 9 + b * 3 + 2],
    ) + " "@
}

/// Row `r` of the text grid, with its line break.
pub open spec fn row_text(g: Seq<Cell>, r: int) -> Seq<char> {
    group_text(g, r, 0) + group_text(g, r, 1) + group_text(g, r, 2) + "|\n"@
}

/// The first `n` rows of the text grid, with a separator line above rows 0, 3 and 6.
pub open spec fn rows_text(g: Seq<Cell>, n: nat) -> Seq<char>
    decreases n,
{
    if n == 0 {
        Seq::empty()
    } else {
        rows_text(g, (n - 1) as nat) + (if (n - 1) % 3 == 0 {
            "+-------+-------+-------+\n"@
        } else {
            Seq::empty()
        }) + row_text(g, n - 1)
    }
}

/// The whole text grid, closed by a last separator line without a line break.
pub open spec fn grid_text(g: Seq<Cell>) -> Seq<char> {
    rows_text(g, 9) + "+-------+-------+-------+"@
}

impl Puzzle {
    /// Every puzzle has 81 cells.
    pub closed spec fn wf(&self) -> bool {
        self.cells@.len() == 81
    }

    pub proof fn lemma_wf(&self)
        requires
            self.wf(),
        ensures
            self@.len() == 81,
    {
    }

    /// An empty puzzle: every cell unsolved, with all nine candidates.
    pub fn new() -> (r: Puzzle)
        ensures
            r.wf(),
            r@.len() == 81,
            forall|i: int| 0 <= i < 81 ==> !(#[trigger] r@[i]).solved(),
            forall|i: int, v: Val| 0 <= i < 81 ==> #[trigger] r@[i].has(v),
    {
        let cells = new_cell_list();
        Puzzle { cells }
    }

    /// Builds a puzzle from its tokens, row-major: a token that names no
    /// value leaves its cell blank; more than 81 tokens are refused.
    pub fn from_tokens(tokens: &Vec<String>) -> (r: Result<Puzzle, ParseError>)
        ensures
            r is Err <==> tokens@.len() > 81,
            r matches Ok(p) ==> p.wf() && parsed_from(p@, token_texts(tokens@)),
    {
        if tokens.len() > 81 {
            return Err(ParseError::TooManyTokens);
        }
        let mut p = Puzzle::new();
        let ghost texts = token_texts(tokens@);
        for i in 0..tokens.len()
            invariant
                tokens@.len() <= 81,
                texts == token_texts(tokens@),
                p.cells@.len() == 81,
                forall|j: int| 0 <= j < 81 ==> (#[trigger] p.cells@[j]).val == if j < i {
                    given(texts, j)
                } else {
                    None
                },
                forall|j: int, v: Val| 0 <= j < 81 && !p.cells@[j].solved() ==> #[trigger] p.cells@[j].has(v),
        {
            if let Some(v) = Val::parse(tokens[i].as_str()) {
                p.cells.set(i, Cell::solved_to(v));
            }
        }
        Ok(p)
    }

    /// Reads a puzzle from text: whitespace-separated tokens, row-major (see
    /// `from_tokens`).
    pub fn parse(s: &str) -> (r: Result<Puzzle, ParseError>)
        ensures
            r is Err <==> whitespace_tokens(s@).len() > 81,
            r matches Ok(p) ==> p.wf() && parsed_from(p@, whitespace_tokens(s@)),
    {
        let tokens = split_tokens(s);
        Puzzle::from_tokens(&tokens)
    }

    /// The cell at linear index `idx`.
    pub fn cell(&self, idx: usize) -> (r: Cell)
        requires
            self.wf(),
            idx < 81,
        ensures
            r == self@[idx as int],
    {
        self.cells[idx]
    }

    /// The value of the cell at `idx`, if it is solved.
    pub fn value(&self, idx: usize) -> (r: Option<Val>)
        requires
            self.wf(),
            idx < 81,
        ensures
            r == self@[idx as int].val,
    {
        self.cells[idx].val
    }

    /// Solves the cell at `idx` to `v`.
    pub fn set_value(&mut self, idx: usize, v: Val)
        requires
            old(self).wf(),
            idx < 81,
        ensures
            final(self).wf(),
            final(self)@ == old(self)@.update(idx as int, final(self)@[idx as int]),
            final(self)@[idx as int].val == Some(v),
    {
        let mut c = self.cells[idx];
        c.assign(v);
        self.cells.set(idx, c);
    }

    /// Solves the cell at (`row`, `col`) to `v`.
    pub fn set_at(&mut self, row: usize, col: usize, v: Val)
        requires
            old(self).wf(),
            row < 9,
            col < 9,
        ensures
            final(self).wf(),
            final(self)@ == old(self)@.update(row * 9 + col, final(self)@[row * 9 + col]),
            final(self)@[row * 9 + col].val == Some(v),
    {
        self.set_value(row * 9 + col, v);
    }

    /// Marks `v` as impossible in the cell at `idx` (see `Cell::eliminate`).
    pub fn exclude(&mut self, idx: usize, v: Val)
        requires
            old(self).wf(),
            idx < 81,
        ensures
            final(self).wf(),
            forall|j: int| 0 <= j < 81 && j != idx ==> final(self)@[j] == old(self)@[j],
            old(self)@[idx as int].solved() ==> final(self)@[idx as int] == old(self)@[idx as int],
            !old(self)@[idx as int].solved() ==> forall|w: Val|
                #[trigger] final(self)@[idx as int].has(w) == (old(self)@[idx as int].has(w) && w
                    != v),
            !old(self)@[idx as int].solved() ==> (final(self)@[idx as int].solved()
                <==> final(self)@[idx as int].single()),
    {
        narrow(&mut self.cells, idx, v);
    }

    /// Marks `v` as impossible in the cell at (`row`, `col`).
    pub fn exclude_at(&mut self, row: usize, col: usize, v: Val)
        requires
            old(self).wf(),
            row < 9,
            col < 9,
        ensures
            final(self).wf(),
            forall|j: int| 0 <= j < 81 && j != row * 9 + col ==> final(self)@[j] == old(self)@[j],
            old(self)@[row * 9 + col].solved() ==> final(self)@[row * 9 + col] == old(
                self,
            )@[row * 9 + col],
            !old(self)@[row * 9 + col].solved() ==> forall|w: Val|
                #[trigger] final(self)@[row * 9 + col].has(w) == (old(self)@[row * 9 + col].has(w)
                    && w != v),
            !old(self)@[row * 9 + col].solved() ==> (final(self)@[row * 9 + col].solved()
                <==> final(self)@[row * 9 + col].single()),
    {
        self.exclude(row * 9 + col, v);
    }

    /// Appends the three cells of row `r` in box column `b`.
    fn push_group(&self, out: &mut String, r: usize, b: usize)
        requires
            self.wf(),
            r < 9,
            b < 3,
        ensures
            final(out)@ == old(out)@ + group_text(self@, r as int, b as int),
    {
        let i = r * 9 + b * 3;
        out.append("| ");
        out.append(self.cells[i].text());
        out.append(" ");
        out.append(self.cells[i + 1].text());
        out.append(" ");
        out.append(self.cells[i + 2].text());
        out.append(" ");
        proof {
            assert(final(out)@ =~= old(out)@ + group_text(self@, r as int, b as int));
        }
    }

    /// Appends row `r` with its line break.
    fn push_row(&self, out: &mut String, r: usize)
        requires
            self.wf(),
            r < 9,
        ensures
            final(out)@ == old(out)@ + row_text(self@, r as int),
    {
        self.push_group(out, r, 0);
        self.push_group(out, r, 1);
        self.push_group(out, r, 2);
        out.append("|\n");
        proof {
            assert(final(out)@ =~= old(out)@ + row_text(self@, r as int));
        }
    }

    /// The puzzle as a text grid: rows of `| x x x | x x x | x x x |`, with a
    /// separator line `+-------+-------+-------+` above every third row and at
    /// the end; `.` marks an unsolved cell.
    pub fn render(&self) -> (r: String)
        requires
            self.wf(),
        ensures
            r@ == grid_text(self@),
    {
        let mut out = String::new();
        for row in 0..9usize
            invariant
                self.wf(),
                out@ == rows_text(self@, row as nat),
        {
            let ghost prev = out@;
            let ghost sep_part = if row % 3 == 0 {
                "+-------+-------+-------+\n"@
            } else {
                Seq::<char>::empty()
            };
            if row % 3 == 0 {
                out.append("+-------+-------+-------+\n");
            }
            proof {
                assert(out@ =~= prev + sep_part);
            }
            self.push_row(&mut out, row);
            proof {
                assert(rows_text(self@, (row + 1) as nat) == rows_text(self@, row as nat) + sep_part
                    + row_text(self@, row as int));
            }
        }
        out.append("+-------+-------+-------+");
        out
    }

    /// Promotes every unsolved cell that has exactly one candidate left.
    pub fn promote(&mut self)
        requires
            old(self).wf(),
        ensures
            final(self).wf(),
            sound_step(old(self)@, final(self)@),
            forall|i: int, v: Val|
                0 <= i < 81 ==> #[trigger] final(self)@[i].has(v) == old(self)@[i].has(v),
            forall|i: int|
                0 <= i < 81 ==> (#[trigger] final(self)@[i].solved() <==> (old(self)@[i].solved()
                    || old(self)@[i].single())),
    {
        simplify_all(&mut self.cells);
    }

    /// The unsolved cells among `indices` that still allow `val`, in the
    /// order given.
    pub fn candidates(&self, indices: &Vec<usize>, val: Val) -> (r: Vec<usize>)
        requires
            self.wf(),
            forall|k: int| 0 <= k < indices@.len() ==> #[trigger] indices@[k] < 81,
        ensures
            r@ == indices@.filter(open_for(self@, val)),
    {
        let mut r: Vec<usize> = Vec::new();
        for k in 0..indices.len()
            invariant
                self.wf(),
                forall|k: int| 0 <= k < indices@.len() ==> #[trigger] indices@[k] < 81,
                r@ == indices@.subrange(0, k as int).filter(open_for(self@, val)),
        {
            let i = indices[k];
            proof {
                assert(indices@.subrange(0, k + 1).drop_last() =~= indices@.subrange(0, k as int));
                reveal(Seq::filter);
            }
            if !self.cells[i].is_solved() && self.cells[i].contains(val) {
                r.push(i);
            }
        }
        proof {
            assert(indices@.subrange(0, indices@.len() as int) =~= indices@);
        }
        r
    }

    /// The number of solved cells.
    pub fn solved_count(&self) -> (r: usize)
        requires
            self.wf(),
        ensures
            r == count_solved(self@),
            r <= 81,
    {
        let mut r: usize = 0;
        for i in 0..81usize
            invariant
                self.cells@.len() == 81,
                r == count_solved(self.cells@.subrange(0, i as int)),
                r <= i,
        {
            proof {
                assert(self.cells@.subrange(0, i + 1).drop_last() =~= self.cells@.subrange(0, i as int));
            }
            if self.cells[i].is_solved() {
                r = r + 1;
            }
        }
        proof {
            assert(self.cells@.subrange(0, 81) =~= self.cells@);
        }
        r
    }

    /// The first cell that shows the puzzle has no solution, if any (see
    /// `SolveError::Contradiction`).
    pub fn find_conflict(&self) -> (r: Option<usize>)
        requires
            self.wf(),
        ensures
            r is None <==> !has_conflict(self@),
            r matches Some(i) ==> i < 81 && conflict_at(self@, i as int) && forall|m: int|
                0 <= m < i ==> !#[trigger] conflict_at(self@, m),
    {
        find_conflict(&self.cells)
    }

    /// Runs the solve loop with the default budget of `MAX_ITER` sweeps (see
    /// `try_solve_with`).
    pub fn try_solve(&mut self) -> (r: Result<usize, SolveError>)
        requires
            old(self).wf(),
        ensures
            final(self).wf(),
            sound_step(old(self)@, final(self)@),
            r matches Ok(n) ==> 1 <= n <= MAX_ITER && all_solved(final(self)@) && valid_solution(
                values(final(self)@),
            ),
            r matches Err(SolveError::Contradiction { cell }) ==> cell < 81 && conflict_at(
                final(self)@,
                cell as int,
            ) && forall|s: Seq<Val>| valid_solution(s) ==> !#[trigger] consistent(old(self)@, s),
            r matches Err(SolveError::Stalled { sweeps, solved, newly_solved }) ==> sweeps == MAX_ITER && solved == count_solved(
                final(self)@,
            ) && solved < 81 && newly_solved == solved - count_solved(old(self)@) && !has_conflict(
                final(self)@,
            ),
            all_solved(old(self)@) && !has_conflict(old(self)@) ==> r == Ok::<usize, SolveError>(1)
                && final(self)@ == old(self)@,
            peers_cleared(old(self)@, final(self)@),
            simplified(final(self)@),
    {
        self.try_solve_with(MAX_ITER)
    }

    /// Runs up to `budget` sweeps, stopping early once every cell is solved
    /// (`Ok` with the number of sweeps run) or a contradiction shows. Sweep
    /// `k` (from 0) runs at `technique_level(k)`.
    pub fn try_solve_with(&mut self, budget: usize) -> (r: Result<usize, SolveError>)
        requires
            old(self).wf(),
            budget > 0,
        ensures
            final(self).wf(),
            sound_step(old(self)@, final(self)@),
            r matches Ok(n) ==> 1 <= n <= budget && all_solved(final(self)@) && valid_solution(
                values(final(self)@),
            ),
            r matches Err(SolveError::Contradiction { cell }) ==> cell < 81 && conflict_at(
                final(self)@,
                cell as int,
            ) && forall|s: Seq<Val>| valid_solution(s) ==> !#[trigger] consistent(old(self)@, s),
            r matches Err(SolveError::Stalled { sweeps, solved, newly_solved }) ==> sweeps == budget && solved == count_solved(
                final(self)@,
            ) && solved < 81 && newly_solved == solved - count_solved(old(self)@) && !has_conflict(
                final(self)@,
            ),
            all_solved(old(self)@) && !has_conflict(old(self)@) ==> r == Ok::<usize, SolveError>(1)
                && final(self)@ == old(self)@,
            peers_cleared(old(self)@, final(self)@),
            simplified(final(self)@),
    {
        let ghost start = self.cells@;
        let start_count = self.solved_count();
        let mut sweep_no: usize = 0;
        while sweep_no < budget
            invariant
                self.cells@.len() == 81,
                start == old(self)@,
                start_count == count_solved(start),
                sweep_no <= budget,
                sound_step(start, self.cells@),
                sweep_no > 0 ==> !has_conflict(self.cells@) && !all_solved(self.cells@),
                sweep_no > 0 ==> !(all_solved(start) && !has_conflict(start)),
                sweep_no > 0 ==> peers_cleared(start, self.cells@) && simplified(self.cells@),
                sweep_no == 0 ==> self.cells@ == start,
            decreases budget - sweep_no,
        {
            let ghost before = self.cells@;
            sweep(&mut self.cells, technique_level(sweep_no));
            proof {
                crate::grid::lemma_sound_step_trans(start, before, self.cells@);
                if sweep_no > 0 {
                    lemma_peers_cleared_narrow(start, before, self.cells@);
                }
                if all_solved(start) {
                    assert forall|i: int| 0 <= i < 81 implies self.cells@[i] == start[i] by {
                        assert(start[i].solved());
                    }
                    assert(self.cells@ =~= start);
                }
            }
            if let Some(i) = find_conflict(&self.cells) {
                proof {
                    assert forall|s: Seq<Val>| valid_solution(s) implies !#[trigger] consistent(start, s) by {
                        if consistent(start, s) {
                            assert(consistent(self.cells@, s));
                            lemma_consistent_no_conflict(self.cells@, s);
                        }
                    }
                }
                return Err(SolveError::Contradiction { cell: i });
            }
            let n = self.solved_count();
            proof {
                lemma_count_solved(self.cells@);
            }
            if n == 81 {
                proof {
                    lemma_solved_grid_valid(self.cells@);
                }
                return Ok(sweep_no + 1);
            }
            sweep_no = sweep_no + 1;
        }
        let n = self.solved_count();
        proof {
            lemma_count_solved(self.cells@);
            lemma_count_monotone(self.cells@, start);
        }
        Err(SolveError::Stalled { sweeps: budget, solved: n, newly_solved: n - start_count })
    }
}

impl Default for Puzzle {
    fn default() -> (r: Puzzle)
        ensures
            r.wf(),
            forall|i: int| 0 <= i < 81 ==> !(#[trigger] r@[i]).solved(),
            forall|i: int, v: Val| 0 <= i < 81 ==> #[trigger] r@[i].has(v),
    {
        Puzzle::new()
    }
}

impl std::str::FromStr for Puzzle {
    type Err = ParseError;

    fn from_str(s: &str) -> (r: Result<Puzzle, ParseError>)
        ensures
            r is Err <==> whitespace_tokens(s@).len() > 81,
            r matches Ok(p) ==> p.wf() && parsed_from(p@, whitespace_tokens(s@)),
    {
        Puzzle::parse(s)
    }
}

} // verus!
