//! The solver: grid construction, candidate recomputation, the four
//! elimination rules, and the step/solve driver.

use vstd::prelude::*;

use crate::error::SudokuError;
use crate::model::Model;
use crate::model::all_determined;
use crate::model::box_cell;
use crate::model::box_cells;
use crate::model::box_pool;
use crate::model::box_rule;
use crate::model::box_rule_upto;
use crate::model::box_step;
use crate::model::box_vals;
use crate::model::cand_list_upto;
use crate::model::cell_options_of;
use crate::model::clean;
use crate::model::col_cells;
use crate::model::col_pool;
use crate::model::col_rule;
use crate::model::col_rule_upto;
use crate::model::col_vals;
use crate::model::count_of;
use crate::model::count_upto;
use crate::model::extends;
use crate::model::first_forced;
use crate::model::idx;
use crate::model::in_grid;
use crate::model::lemma_box_vals_contains;
use crate::model::lemma_cand_list_range;
use crate::model::lemma_col_vals_contains;
use crate::model::lemma_extends_trans;
use crate::model::lemma_extends_undet;
use crate::model::lemma_first_forced_in;
use crate::model::lemma_pass_props;
use crate::model::lemma_recomputed_props;
use crate::model::lemma_row_vals_contains;
use crate::model::lemma_undet_bound;
use crate::model::lemma_undet_zero;
use crate::model::pass;
use crate::model::pool_upto;
use crate::model::recomputed;
use crate::model::reduce_cell;
use crate::model::reduce_cells_upto;
use crate::model::row_cells;
use crate::model::row_pool;
use crate::model::row_rule;
use crate::model::row_rule_upto;
use crate::model::row_vals;
use crate::model::sole_cell;
use crate::model::sole_rule;
use crate::model::sole_upto;
use crate::model::solve_rec;
use crate::model::undet_count;
use crate::model::undet_upto;
use crate::model::vals_upto;

verus! {

/// A 9x9 Sudoku grid under candidate-elimination solving. `field` holds the
/// determined values (row-major, 81 cells); `options` holds, per cell, the
/// candidate values not yet excluded by a determined peer.
pub struct Sudoku {
    field: Vec<Option<u8>>,
    options: Vec<Vec<u8>>,
}

/// The value of the input grid at (y, x).
pub open spec fn grid_val(grid: &[[u8; 9]; 9], y: int, x: int) -> u8 {
    grid@[y]@[x]
}

/// Every value of the input grid is in `0..=9`.
pub open spec fn grid_ok(grid: &[[u8; 9]; 9]) -> bool {
    forall|y: int, x: int| in_grid(y, x) ==> #[trigger] grid_val(grid, y, x) <= 9
}

impl View for Sudoku {
    type V = Model;

    closed spec fn view(&self) -> Model {
        Model { field: self.field@, options: self.options@.map_values(|v: Vec<u8>| v@) }
    }
}

impl Sudoku {
    /// Build a grid from a 9x9 array of integers: `0` is blank, `1..=9` is a
    /// given value, anything larger is rejected with the first offending
    /// cell in row-major order. All candidate lists start empty.
    pub fn new(initial_field: &[[u8; 9]; 9]) -> (r: Result<Sudoku, SudokuError>)
        ensures
            r is Ok <==> grid_ok(initial_field),
            r matches Ok(s) ==> {
                &&& s@.wf()
                &&& forall|y: int, x: int|
                    in_grid(y, x) ==> #[trigger] s@.field[idx(y, x)] == (if grid_val(
                        initial_field,
                        y,
                        x,
                    ) == 0 {
                        None::<u8>
                    } else {
                        Some(grid_val(initial_field, y, x))
                    })
                &&& forall|i: int| 0 <= i < 81 ==> (#[trigger] s@.options[i]).len() == 0
            },
            r matches Err(e) ==> {
                &&& e matches SudokuError::InvalidInputValue { y, x, value }
                &&& e matches SudokuError::InvalidInputValue { y, x, value } ==> {
                    &&& in_grid(y as int, x as int)
                    &&& value == grid_val(initial_field, y as int, x as int)
                    &&& value > 9
                    &&& forall|y2: int, x2: int|
                        in_grid(y2, x2) && (y2 < y || (y2 == y && x2 < x))
                            ==> #[trigger] grid_val(initial_field, y2, x2) <= 9
                }
            },
    {
        let mut field: Vec<Option<u8>> = Vec::new();
        let mut y: usize = 0;
        while y < 9
            invariant
                y <= 9,
                field@.len() == 9 * y,
                forall|y2: int, x2: int|
                    in_grid(y2, x2) && y2 < y ==> #[trigger] grid_val(initial_field, y2, x2) <= 9,
                forall|y2: int, x2: int|
                    in_grid(y2, x2) && y2 < y ==> #[trigger] field@[idx(y2, x2)] == (if grid_val(
                        initial_field,
                        y2,
                        x2,
                    ) == 0 {
                        None::<u8>
                    } else {
                        Some(grid_val(initial_field, y2, x2))
                    }),
            decreases 9 - y,
        {
            let mut x: usize = 0;
            while x < 9
                invariant
                    y < 9,
                    x <= 9,
                    field@.len() == 9 * y + x,
                    forall|y2: int, x2: int|
                        in_grid(y2, x2) && (y2 < y || (y2 == y && x2 < x))
                            ==> #[trigger] grid_val(initial_field, y2, x2) <= 9,
                    forall|y2: int, x2: int|
                        in_grid(y2, x2) && (y2 < y || (y2 == y && x2 < x))
                            ==> #[trigger] field@[idx(y2, x2)] == (if grid_val(
                            initial_field,
                            y2,
                            x2,
                        ) == 0 {
                            None::<u8>
                        } else {
                            Some(grid_val(initial_field, y2, x2))
                        }),
                decreases 9 - x,
            {
                let v = initial_field[y][x];
                if v == 0 {
                    field.push(None);
                } else if v <= 9 {
                    field.push(Some(v));
                } else {
                    proof {
                        assert(v == grid_val(initial_field, y as int, x as int));
                        assert(!grid_ok(initial_field));
                    }
                    return Err(SudokuError::InvalidInputValue { y, x, value: v });
                }
                x += 1;
            }
            y += 1;
        }
        let mut options: Vec<Vec<u8>> = Vec::new();
        let mut i: usize = 0;
        while i < 81
            invariant
                i <= 81,
                options@.len() == i,
                forall|j: int| 0 <= j < i ==> (#[trigger] options@[j])@.len() == 0,
            decreases 81 - i,
        {
            options.push(Vec::new());
            i += 1;
        }
        let s = Sudoku { field, options };
        proof {
            assert(forall|y2: int, x2: int| in_grid(y2, x2) ==> idx(y2, x2) < 81 && 0 <= idx(y2, x2));
            assert forall|i2: int|
                0 <= i2 < 81 && (#[trigger] s@.field[i2]) is Some implies 1
                <= s@.field[i2]->Some_0 <= 9 by {
                let y2 = i2 / 9;
                let x2 = i2 % 9;
                assert(in_grid(y2, x2));
                assert(idx(y2, x2) == i2);
            }
        }
        Ok(s)
    }

    /// Commit `value` at (y, x): the cell becomes determined and its own
    /// candidate list is cleared; no other cell or list changes.
    #[verifier::loop_isolation(false)]
    pub fn determine(&mut self, y: usize, x: usize, value: u8)
        requires
            old(self)@.wf(),
            y < 9,
            x < 9,
            1 <= value <= 9,
        ensures
            final(self)@ == old(self)@.commit(idx(y as int, x as int), value),
            final(self)@.wf(),
    {
        let i = y * 9 + x;
        self.field[i] = Some(value);
        self.options[i] = Vec::new();
        proof {
            assert(self@.options =~= old(self)@.options.update(
                idx(y as int, x as int),
                Seq::<u8>::empty(),
            ));
            assert(self@ =~= old(self)@.commit(idx(y as int, x as int), value));
        }
    }

    /// The determined value at (y, x), if any. This is the queryable state:
    /// callers may inspect it between solving steps.
    pub fn value(&self, y: usize, x: usize) -> (r: Option<u8>)
        requires
            self@.wf(),
            y < 9,
            x < 9,
        ensures
            r == self@.field[idx(y as int, x as int)],
    {
        self.field[y * 9 + x]
    }

    /// The current candidate list at (y, x).
    #[verifier::loop_isolation(false)]
    pub fn cell_options(&self, y: usize, x: usize) -> (r: Vec<u8>)
        requires
            self@.wf(),
            y < 9,
            x < 9,
        ensures
            r@ == self@.options[idx(y as int, x as int)],
    {
        let i = y * 9 + x;
        let mut r: Vec<u8> = Vec::new();
        let mut k: usize = 0;
        while k < self.options[i].len()
            invariant
                k <= self@.options[i as int].len(),
                r@ == self@.options[i as int].take(k as int),
            decreases self@.options[i as int].len() - k,
        {
            let w = self.options[i][k];
            r.push(w);
            proof {
                assert(r@ =~= self@.options[i as int].take(k as int + 1));
            }
            k += 1;
        }
        proof {
            assert(r@ =~= self@.options[i as int]);
        }
        r
    }

    /// True when every cell is determined.
    #[verifier::loop_isolation(false)]
    pub fn is_solved(&self) -> (r: bool)
        requires
            self@.wf(),
        ensures
            r == all_determined(self@.field),
    {
        let mut i: usize = 0;
        while i < 81
            invariant
                i <= 81,
                forall|j: int| 0 <= j < i ==> self@.field[j] is Some,
            decreases 81 - i,
        {
            if self.field[i].is_none() {
                return false;
            }
            i += 1;
        }
        true
    }

    /// Number of cells not yet determined.
    #[verifier::loop_isolation(false)]
    fn count_undetermined(&self) -> (c: usize)
        requires
            self@.wf(),
        ensures
            c == undet_count(self@.field),
    {
        let mut c: usize = 0;
        let mut i: usize = 0;
        while i < 81
            invariant
                i <= 81,
                c <= i,
                c == undet_upto(self@.field, i as int),
            decreases 81 - i,
        {
            if self.field[i].is_none() {
                c += 1;
            }
            i += 1;
        }
        c
    }

    /// The determined values of row `y`, in column order.
    #[verifier::loop_isolation(false)]
    pub fn get_row_values(&self, y: usize) -> (r: Vec<u8>)
        requires
            self@.wf(),
            y < 9,
        ensures
            r@ == row_vals(self@.field, y as int),
    {
        let mut r: Vec<u8> = Vec::new();
        let mut x: usize = 0;
        while x < 9
            invariant
                x <= 9,
                r@ == vals_upto(self@.field, row_cells(y as int), x as int),
            decreases 9 - x,
        {
            let i = y * 9 + x;
            if let Some(v) = self.field[i] {
                r.push(v);
            }
            x += 1;
        }
        r
    }

    /// The determined values of column `x`, in row order.
    #[verifier::loop_isolation(false)]
    pub fn get_column_values(&self, x: usize) -> (r: Vec<u8>)
        requires
            self@.wf(),
            x < 9,
        ensures
            r@ == col_vals(self@.field, x as int),
    {
        let mut r: Vec<u8> = Vec::new();
        let mut y: usize = 0;
        while y < 9
            invariant
                y <= 9,
                r@ == vals_upto(self@.field, col_cells(x as int), y as int),
            decreases 9 - y,
        {
            let i = y * 9 + x;
            if let Some(v) = self.field[i] {
                r.push(v);
            }
            y += 1;
        }
        r
    }

    /// The determined values of the box containing (y, x), in row-major
    /// order within the box.
    #[verifier::loop_isolation(false)]
    pub fn get_box_values(&self, y: usize, x: usize) -> (r: Vec<u8>)
        requires
            self@.wf(),
            y < 9,
            x < 9,
        ensures
            r@ == box_vals(self@.field, y as int, x as int),
    {
        let y_start = y / 3 * 3;
        let x_start = x / 3 * 3;
        let mut r: Vec<u8> = Vec::new();
        let mut k: usize = 0;
        while k < 9
            invariant
                k <= 9,
                r@ == vals_upto(self@.field, box_cells(y as int, x as int), k as int),
            decreases 9 - k,
        {
            let i = (y_start + k / 3) * 9 + (x_start + k % 3);
            proof {
                assert(i == box_cell(y as int, x as int, k as int));
            }
            if let Some(v) = self.field[i] {
                r.push(v);
            }
            k += 1;
        }
        r
    }

    /// The open-candidate pool of row `y`: the candidate lists of its
    /// undetermined cells, concatenated in column order.
    #[verifier::loop_isolation(false)]
    pub fn get_row_options(&self, y: usize) -> (r: Vec<u8>)
        requires
            self@.wf(),
            y < 9,
        ensures
            r@ == row_pool(self@, y as int),
    {
        let mut r: Vec<u8> = Vec::new();
        let mut x: usize = 0;
        while x < 9
            invariant
                x <= 9,
                r@ == pool_upto(self@, row_cells(y as int), x as int),
            decreases 9 - x,
        {
            let i = y * 9 + x;
            if self.field[i].is_none() {
                let mut k: usize = 0;
                while k < self.options[i].len()
                    invariant
                        k <= self@.options[i as int].len(),
                        r@ == pool_upto(self@, row_cells(y as int), x as int)
                            + self@.options[i as int].take(k as int),
                    decreases self@.options[i as int].len() - k,
                {
                    let w = self.options[i][k];
                    r.push(w);
                    proof {
                        assert(r@ =~= pool_upto(self@, row_cells(y as int), x as int)
                            + self@.options[i as int].take(k as int + 1));
                    }
                    k += 1;
                }
            }
            proof {
                assert(r@ =~= pool_upto(self@, row_cells(y as int), x as int + 1));
            }
            x += 1;
        }
        r
    }

    /// The open-candidate pool of column `x`: the candidate lists of its
    /// undetermined cells, concatenated in row order.
    #[verifier::loop_isolation(false)]
    pub fn get_column_options(&self, x: usize) -> (r: Vec<u8>)
        requires
            self@.wf(),
            x < 9,
        ensures
            r@ == col_pool(self@, x as int),
    {
        let mut r: Vec<u8> = Vec::new();
        let mut y: usize = 0;
        while y < 9
            invariant
                y <= 9,
                r@ == pool_upto(self@, col_cells(x as int), y as int),
            decreases 9 - y,
        {
            let i = y * 9 + x;
            if self.field[i].is_none() {
                let mut k: usize = 0;
                while k < self.options[i].len()
                    invariant
                        k <= self@.options[i as int].len(),
                        r@ == pool_upto(self@, col_cells(x as int), y as int)
                            + self@.options[i as int].take(k as int),
                    decreases self@.options[i as int].len() - k,
                {
                    let w = self.options[i][k];
                    r.push(w);
                    proof {
                        assert(r@ =~= pool_upto(self@, col_cells(x as int), y as int)
                            + self@.options[i as int].take(k as int + 1));
                    }
                    k += 1;
                }
            }
            proof {
                assert(r@ =~= pool_upto(self@, col_cells(x as int), y as int + 1));
            }
            y += 1;
        }
        r
    }

    /// The open-candidate pool of the box containing (y, x): the candidate
    /// lists of its undetermined cells, concatenated in row-major order
    /// within the box.
    #[verifier::loop_isolation(false)]
    pub fn get_box_options(&self, y: usize, x: usize) -> (r: Vec<u8>)
        requires
            self@.wf(),
            y < 9,
            x < 9,
        ensures
            r@ == box_pool(self@, y as int, x as int),
    {
        let y_start = y / 3 * 3;
        let x_start = x / 3 * 3;
        let mut r: Vec<u8> = Vec::new();
        let mut b: usize = 0;
        while b < 9
            invariant
                b <= 9,
                r@ == pool_upto(self@, box_cells(y as int, x as int), b as int),
            decreases 9 - b,
        {
            let i = (y_start + b / 3) * 9 + (x_start + b % 3);
            proof {
                assert(i == box_cell(y as int, x as int, b as int));
            }
            if self.field[i].is_none() {
                let mut k: usize = 0;
                while k < self.options[i].len()
                    invariant
                        k <= self@.options[i as int].len(),
                        r@ == pool_upto(self@, box_cells(y as int, x as int), b as int)
                            + self@.options[i as int].take(k as int),
                    decreases self@.options[i as int].len() - k,
                {
                    let w = self.options[i][k];
                    r.push(w);
                    proof {
                        assert(r@ =~= pool_upto(
                            self@,
                            box_cells(y as int, x as int),
                            b as int,
                        ) + self@.options[i as int].take(k as int + 1));
                    }
                    k += 1;
                }
            }
            proof {
                assert(r@ =~= pool_upto(self@, box_cells(y as int, x as int), b as int + 1));
            }
            b += 1;
        }
        r
    }

    /// True when `vals` holds `v`.
    #[verifier::loop_isolation(false)]
    fn contains_value(vals: &Vec<u8>, v: u8) -> (r: bool)
        ensures
            r == vals@.contains(v),
    {
        let mut k: usize = 0;
        while k < vals.len()
            invariant
                k <= vals.len(),
                forall|j: int| 0 <= j < k ==> vals@[j] != v,
            decreases vals.len() - k,
        {
            if vals[k] == v {
                return true;
            }
            k += 1;
        }
        proof {
            if vals@.contains(v) {
                let j = choose|j: int| 0 <= j < vals@.len() && vals@[j] == v;
                assert(false);
            }
        }
        false
    }

    /// Recompute every candidate list from the current field: a determined
    /// cell's list becomes empty; an undetermined cell's becomes the
    /// ascending list of values not determined anywhere in its row, column
    /// or box. The field itself is untouched, so the result is a pure
    /// function of the field and recomputation is idempotent.
    #[verifier::loop_isolation(false)]
    pub fn update_options(&mut self)
        requires
            old(self)@.wf(),
        ensures
            final(self)@ == recomputed(old(self)@),
            final(self)@.wf(),
            clean(final(self)@),
    {
        let mut y: usize = 0;
        while y < 9
            invariant
                y <= 9,
                self@.wf(),
                self@.field == old(self)@.field,
                forall|j: int|
                    0 <= j < 9 * y ==> #[trigger] self@.options[j] == cell_options_of(
                        old(self)@.field,
                        j,
                    ),
            decreases 9 - y,
        {
            let mut x: usize = 0;
            while x < 9
                invariant
                    x <= 9,
                    y < 9,
                    self@.wf(),
                    self@.field == old(self)@.field,
                    forall|j: int|
                        0 <= j < 9 * y + x ==> #[trigger] self@.options[j] == cell_options_of(
                            old(self)@.field,
                            j,
                        ),
                decreases 9 - x,
            {
                let i = y * 9 + x;
                let ghost pre = self@;
                if self.field[i].is_some() {
                    self.options[i] = Vec::new();
                    proof {
                        assert(self@.options =~= pre.options.update(i as int, Seq::<u8>::empty()));
                        assert(self@.options[i as int] == cell_options_of(old(self)@.field, i as int));
                    }
                } else {
                    let row_values = self.get_row_values(y);
                    let column_values = self.get_column_values(x);
                    let box_values = self.get_box_values(y, x);
                    let mut cands: Vec<u8> = Vec::new();
                    let mut v: u8 = 1;
                    while v <= 9
                        invariant
                            1 <= v <= 10,
                            cands@ == cand_list_upto(self@.field, y as int, x as int, v as int - 1),
                        decreases 10 - v,
                    {
                        let in_row = Self::contains_value(&row_values, v);
                        let in_col = Self::contains_value(&column_values, v);
                        let in_box = Self::contains_value(&box_values, v);
                        if !in_row && !in_col && !in_box {
                            cands.push(v);
                        }
                        proof {
                            lemma_row_vals_contains(self@.field, y as int);
                            lemma_col_vals_contains(self@.field, x as int);
                            lemma_box_vals_contains(self@.field, y as int, x as int);
                            assert(cands@ == cand_list_upto(self@.field, y as int, x as int, v as int));
                        }
                        v += 1;
                    }
                    proof {
                        assert(cands@ == cand_list_upto(old(self)@.field, y as int, x as int, 9));
                        assert(i as int / 9 == y as int && i as int % 9 == x as int);
                        assert(cands@ == cell_options_of(old(self)@.field, i as int));
                        lemma_cand_list_range(old(self)@.field, y as int, x as int, 9);
                    }
                    self.options[i] = cands;
                    proof {
                        assert(self@.options =~= pre.options.update(i as int, cell_options_of(old(self)@.field, i as int)));
                    }
                }
                x += 1;
            }
            y += 1;
        }
        proof {
            assert(self@.options =~= recomputed(old(self)@).options);
            assert(self@ =~= recomputed(old(self)@));
            lemma_recomputed_props(old(self)@);
        }
    }

    /// Sole-candidate rule: scan the cells in row-major order and determine
    /// every cell whose candidate list holds exactly one value.
    #[verifier::loop_isolation(false)]
    pub fn apply_sole_candidate(&mut self)
        requires
            old(self)@.wf(),
        ensures
            final(self)@ == sole_rule(old(self)@),
            final(self)@.wf(),
    {
        let mut y: usize = 0;
        while y < 9
            invariant
                y <= 9,
                self@.wf(),
                self@ == sole_upto(old(self)@, 9 * y as int),
            decreases 9 - y,
        {
            let mut x: usize = 0;
            while x < 9
                invariant
                    x <= 9,
                    y < 9,
                    self@.wf(),
                    self@ == sole_upto(old(self)@, 9 * y as int + x as int),
                decreases 9 - x,
            {
                let i = y * 9 + x;
                let ghost pre = self@;
                if self.options[i].len() == 1 {
                    let v = self.options[i][0];
                    proof {
                        assert(v == pre.options[i as int][0]);
                        assert(1 <= v <= 9);
                    }
                    self.determine(y, x, v);
                }
                proof {
                    assert(self@ == sole_cell(pre, i as int));
                    assert(self@ == sole_upto(old(self)@, 9 * y as int + x as int + 1));
                }
                x += 1;
            }
            y += 1;
        }
    }

    /// Number of occurrences of `v` in `pool`.
    #[verifier::loop_isolation(false)]
    fn count_value(pool: &Vec<u8>, v: u8) -> (c: usize)
        ensures
            c == count_of(pool@, v),
    {
        let mut c: usize = 0;
        let mut k: usize = 0;
        while k < pool.len()
            invariant
                k <= pool.len(),
                c <= k,
                c == count_upto(pool@, v, k as int),
            decreases pool.len() - k,
        {
            if pool[k] == v {
                c += 1;
            }
            k += 1;
        }
        c
    }

    /// The first value of `opts` (in list order) that occurs exactly once in
    /// `pool`, if any: the hidden single the reduction rules commit.
    #[verifier::loop_isolation(false)]
    fn find_forced(opts: &Vec<u8>, pool: &Vec<u8>) -> (r: Option<u8>)
        ensures
            r == first_forced(opts@, pool@),
    {
        let mut j: usize = 0;
        proof {
            assert(opts@.skip(0) =~= opts@);
        }
        while j < opts.len()
            invariant
                j <= opts.len(),
                first_forced(opts@, pool@) == first_forced(opts@.skip(j as int), pool@),
            decreases opts.len() - j,
        {
            let c = Self::count_value(pool, opts[j]);
            if c == 1 {
                proof {
                    assert(opts@.skip(j as int)[0] == opts@[j as int]);
                    assert(first_forced(opts@.skip(j as int), pool@) == Some(opts@[j as int]));
                }
                return Some(opts[j]);
            }
            proof {
                assert(opts@.skip(j as int)[0] == opts@[j as int]);
                assert(opts@.skip(j as int).skip(1) =~= opts@.skip(j as int + 1));
            }
            j += 1;
        }
        proof {
            assert(opts@.skip(j as int).len() == 0);
        }
        None
    }

    /// Row-reduction rule (hidden singles per row): for each row, against
    /// the row's open-candidate pool as it stood when the row's scan began,
    /// determine each undetermined cell to its first candidate that occurs
    /// exactly once in that pool, if it has one.
    #[verifier::loop_isolation(false)]
    pub fn apply_row_reduction(&mut self)
        requires
            old(self)@.wf(),
        ensures
            final(self)@ == row_rule(old(self)@),
            final(self)@.wf(),
    {
        let mut y: usize = 0;
        while y < 9
            invariant
                y <= 9,
                self@.wf(),
                self@ == row_rule_upto(old(self)@, y as int),
            decreases 9 - y,
        {
            let row_options = self.get_row_options(y);
            let ghost mrow = self@;
            let ghost pool = row_options@;
            let mut x: usize = 0;
            while x < 9
                invariant
                    x <= 9,
                    y < 9,
                    self@.wf(),
                    row_options@ == pool,
                    pool == row_pool(mrow, y as int),
                    mrow == row_rule_upto(old(self)@, y as int),
                    self@ == reduce_cells_upto(mrow, row_cells(y as int), pool, x as int),
                decreases 9 - x,
            {
                let i = y * 9 + x;
                let ghost pre = self@;
                if self.field[i].is_none() {
                    let forced = Self::find_forced(&self.options[i], &row_options);
                    match forced {
                        Some(v) => {
                            proof {
                                lemma_first_forced_in(pre.options[i as int], pool);
                                let j = choose|j: int|
                                    0 <= j < pre.options[i as int].len()
                                        && pre.options[i as int][j] == v;
                                assert(1 <= pre.options[i as int][j] <= 9);
                            }
                            self.determine(y, x, v);
                        },
                        None => {},
                    }
                }
                proof {
                    assert(row_cells(y as int)(x as int) == i as int);
                    assert(self@ == reduce_cell(pre, i as int, pool));
                    assert(self@ == reduce_cells_upto(
                        mrow,
                        row_cells(y as int),
                        pool,
                        x as int + 1,
                    ));
                }
                x += 1;
            }
            proof {
                assert(self@ == row_rule_upto(old(self)@, y as int + 1));
            }
            y += 1;
        }
    }

    /// Column-reduction rule: identical to row reduction with rows and
    /// columns transposed; each column's pool is read once, when that
    /// column's scan begins, and held fixed while its cells are visited.
    #[verifier::loop_isolation(false)]
    pub fn apply_column_reduction(&mut self)
        requires
            old(self)@.wf(),
        ensures
            final(self)@ == col_rule(old(self)@),
            final(self)@.wf(),
    {
        let mut x: usize = 0;
        while x < 9
            invariant
                x <= 9,
                self@.wf(),
                self@ == col_rule_upto(old(self)@, x as int),
            decreases 9 - x,
        {
            let column_options = self.get_column_options(x);
            let ghost mcol = self@;
            let ghost pool = column_options@;
            let mut y: usize = 0;
            while y < 9
                invariant
                    y <= 9,
                    x < 9,
                    self@.wf(),
                    column_options@ == pool,
                    pool == col_pool(mcol, x as int),
                    mcol == col_rule_upto(old(self)@, x as int),
                    self@ == reduce_cells_upto(mcol, col_cells(x as int), pool, y as int),
                decreases 9 - y,
            {
                let i = y * 9 + x;
                let ghost pre = self@;
                if self.field[i].is_none() {
                    let forced = Self::find_forced(&self.options[i], &column_options);
                    match forced {
                        Some(v) => {
                            proof {
                                lemma_first_forced_in(pre.options[i as int], pool);
                                let j = choose|j: int|
                                    0 <= j < pre.options[i as int].len()
                                        && pre.options[i as int][j] == v;
                                assert(1 <= pre.options[i as int][j] <= 9);
                            }
                            self.determine(y, x, v);
                        },
                        None => {},
                    }
                }
                proof {
                    assert(col_cells(x as int)(y as int) == i as int);
                    assert(self@ == reduce_cell(pre, i as int, pool));
                    assert(self@ == reduce_cells_upto(
                        mcol,
                        col_cells(x as int),
                        pool,
                        y as int + 1,
                    ));
                }
                y += 1;
            }
            proof {
                assert(self@ == col_rule_upto(old(self)@, x as int + 1));
            }
            x += 1;
        }
    }

    /// Box-reduction rule: scan the cells in row-major order; for each
    /// undetermined cell, against the open-candidate pool of its 3x3 box as
    /// it stands at that moment, determine the cell to its first candidate
    /// occurring exactly once in that pool, if it has one.
    #[verifier::loop_isolation(false)]
    pub fn apply_box_reduction(&mut self)
        requires
            old(self)@.wf(),
        ensures
            final(self)@ == box_rule(old(self)@),
            final(self)@.wf(),
    {
        let mut y: usize = 0;
        while y < 9
            invariant
                y <= 9,
                self@.wf(),
                self@ == box_rule_upto(old(self)@, 9 * y as int),
            decreases 9 - y,
        {
            let mut x: usize = 0;
            while x < 9
                invariant
                    x <= 9,
                    y < 9,
                    self@.wf(),
                    self@ == box_rule_upto(old(self)@, 9 * y as int + x as int),
                decreases 9 - x,
            {
                let i = y * 9 + x;
                let ghost pre = self@;
                if self.field[i].is_none() {
                    let box_options = self.get_box_options(y, x);
                    let ghost pool = box_options@;
                    let forced = Self::find_forced(&self.options[i], &box_options);
                    match forced {
                        Some(v) => {
                            proof {
                                lemma_first_forced_in(pre.options[i as int], pool);
                                let j = choose|j: int|
                                    0 <= j < pre.options[i as int].len()
                                        && pre.options[i as int][j] == v;
                                assert(1 <= pre.options[i as int][j] <= 9);
                            }
                            self.determine(y, x, v);
                        },
                        None => {},
                    }
                    proof {
                        assert(i as int / 9 == y as int && i as int % 9 == x as int);
                        assert(self@ == reduce_cell(pre, i as int, pool));
                    }
                }
                proof {
                    assert(self@ == box_step(pre, i as int));
                    assert(self@ == box_rule_upto(old(self)@, 9 * y as int + x as int + 1));
                }
                x += 1;
            }
            y += 1;
        }
    }

    /// One solving pass. An already solved grid returns `Ok(0)` untouched.
    /// Otherwise the candidates are recomputed and the four rules applied
    /// in their fixed order; the result is the number of cells newly
    /// determined, or `UnsolvableSudoku` if the pass determined none (the
    /// grid is left in its last consistent, partially determined state).
    /// A determined cell is never changed: the set of determined positions
    /// is non-decreasing over any sequence of steps.
    pub fn step(&mut self) -> (r: Result<usize, SudokuError>)
        requires
            old(self)@.wf(),
        ensures
            final(self)@.wf(),
            extends(old(self)@, final(self)@),
            all_determined(old(self)@.field) ==> final(self)@ == old(self)@ && r == Ok::<
                usize,
                SudokuError,
            >(0),
            !all_determined(old(self)@.field) ==> {
                &&& final(self)@ == pass(old(self)@)
                &&& undet_count(final(self)@.field) <= undet_count(old(self)@.field)
                &&& (undet_count(final(self)@.field) == undet_count(old(self)@.field) ==> r
                    == Err::<usize, SudokuError>(SudokuError::UnsolvableSudoku))
                &&& (undet_count(final(self)@.field) < undet_count(old(self)@.field) ==> r
                    == Ok::<usize, SudokuError>(
                    (undet_count(old(self)@.field) - undet_count(final(self)@.field)) as usize,
                ))
            },
    {
        if self.is_solved() {
            return Ok(0);
        }
        let start = self.count_undetermined();
        self.update_options();
        self.apply_sole_candidate();
        self.apply_row_reduction();
        self.apply_column_reduction();
        self.apply_box_reduction();
        proof {
            assert(self@ == pass(old(self)@));
            lemma_pass_props(old(self)@);
            lemma_extends_undet(old(self)@, self@, 81);
        }
        let end = self.count_undetermined();
        if start == end {
            return Err(SudokuError::UnsolvableSudoku);
        }
        Ok(start - end)
    }

    /// Drive passes to a fixed point: repeat Step until it reports no
    /// remaining work, or propagate its failure. Every successful step
    /// determines at least one of at most 81 cells, so the loop makes at
    /// most 81 step invocations before it terminates. On `Ok` the grid is
    /// fully determined; on `UnsolvableSudoku` it is left in the last
    /// partially determined state the rules could reach.
    pub fn solve(&mut self) -> (r: Result<(), SudokuError>)
        requires
            old(self)@.wf(),
        ensures
            final(self)@.wf(),
            final(self)@ == solve_rec(old(self)@),
            extends(old(self)@, final(self)@),
            r is Ok <==> all_determined(final(self)@.field),
            r is Err ==> r == Err::<(), SudokuError>(SudokuError::UnsolvableSudoku),
    {
        loop
            invariant
                self@.wf(),
                extends(old(self)@, self@),
                solve_rec(self@) == solve_rec(old(self)@),
            decreases undet_count(self@.field),
        {
            let ghost prev = self@;
            match self.step() {
                Ok(progress) => {
                    if progress == 0 {
                        proof {
                            if !all_determined(prev.field) {
                                lemma_undet_bound(prev.field, 81);
                                assert(undet_count(prev.field) <= 81);
                                assert(undet_count(prev.field) - undet_count(self@.field) >= 1);
                                assert(false);
                            }
                            assert(all_determined(prev.field));
                            assert(solve_rec(prev) == prev);
                        }
                        return Ok(());
                    }
                    proof {
                        if all_determined(prev.field) {
                            assert(false);
                        }
                        assert(!all_determined(prev.field));
                        assert(self@ == pass(prev));
                        assert(undet_count(self@.field) < undet_count(prev.field));
                        assert(solve_rec(prev) == solve_rec(self@));
                        lemma_extends_trans(old(self)@, prev, self@);
                    }
                },
                Err(e) => {
                    proof {
                        assert(!all_determined(prev.field));
                        assert(self@ == pass(prev));
                        assert(undet_count(self@.field) == undet_count(prev.field));
                        assert(solve_rec(prev) == pass(prev));
                        lemma_undet_zero(prev.field, 81);
                        lemma_undet_zero(self@.field, 81);
                        assert(undet_count(prev.field) != 0);
                        assert(!all_determined(self@.field));
                        lemma_extends_trans(old(self)@, prev, self@);
                    }
                    return Err(e);
                },
            }
        }
    }
}

} // verus!
