//! Mathematical model of the solver state and of the four elimination rules.
//!
//! The 9x9 grid is modelled as 81 cells in row-major order. Each rule is a
//! fold of a per-cell transformer over the cells it visits, in the exact
//! order the executable code visits them, so the executable methods can be
//! proved equal to these functions.

use vstd::prelude::*;

verus! {

/// Solver state: `field[i]` is the determined value of cell `i` (if any);
/// `options[i]` is its current candidate list.
#[verifier::ext_equal]
pub struct Model {
    pub field: Seq<Option<u8>>,
    pub options: Seq<Seq<u8>>,
}

/// Row-major index of the cell at row `y`, column `x`.
pub open spec fn idx(y: int, x: int) -> int {
    y * 9 + x
}

pub open spec fn in_grid(y: int, x: int) -> bool {
    0 <= y < 9 && 0 <= x < 9
}

/// First row (or column) of the 3x3 box containing row (or column) `c`.
pub open spec fn box_base(c: int) -> int {
    3 * (c / 3)
}

/// Cell index of the `k`-th cell (row-major) of the box containing (y, x).
pub open spec fn box_cell(y: int, x: int, k: int) -> int {
    idx(box_base(y) + k / 3, box_base(x) + k % 3)
}

/// Some cell of row `y` is determined to `v`.
pub open spec fn row_has(field: Seq<Option<u8>>, y: int, v: u8) -> bool {
    exists|x: int| 0 <= x < 9 && field[idx(y, x)] == Some(v)
}

/// Some cell of column `x` is determined to `v`.
pub open spec fn col_has(field: Seq<Option<u8>>, x: int, v: u8) -> bool {
    exists|y: int| 0 <= y < 9 && field[idx(y, x)] == Some(v)
}

/// Some cell of the box containing (y, x) is determined to `v`.
pub open spec fn box_has(field: Seq<Option<u8>>, y: int, x: int, v: u8) -> bool {
    exists|k: int| 0 <= k < 9 && field[box_cell(y, x, k)] == Some(v)
}

/// `v` is possible at the undetermined cell (y, x): it is in `1..=9` and no
/// determined peer in the cell's row, column or box already holds it.
pub open spec fn is_candidate(field: Seq<Option<u8>>, y: int, x: int, v: u8) -> bool {
    &&& 1 <= v <= 9
    &&& !row_has(field, y, v)
    &&& !col_has(field, x, v)
    &&& !box_has(field, y, x, v)
}

/// Ascending list of the candidates for (y, x) among the values `1..=n`.
pub open spec fn cand_list_upto(field: Seq<Option<u8>>, y: int, x: int, n: int) -> Seq<u8>
    decreases n,
{
    if n <= 0 {
        Seq::empty()
    } else if is_candidate(field, y, x, n as u8) {
        cand_list_upto(field, y, x, n - 1).push(n as u8)
    } else {
        cand_list_upto(field, y, x, n - 1)
    }
}

/// What one full candidate recomputation stores at cell `i`: nothing for a
/// determined cell, else the ascending list of its candidates.
pub open spec fn cell_options_of(field: Seq<Option<u8>>, i: int) -> Seq<u8> {
    if field[i] is Some {
        Seq::empty()
    } else {
        cand_list_upto(field, i / 9, i % 9, 9)
    }
}

/// The state after recomputing every candidate list from the current field.
/// It is a pure function of the field, which it leaves unchanged.
pub open spec fn recomputed(m: Model) -> Model {
    Model { field: m.field, options: Seq::new(81, |i: int| cell_options_of(m.field, i)) }
}

/// Number of occurrences of `v` among the first `n` elements of `s`.
pub open spec fn count_upto(s: Seq<u8>, v: u8, n: int) -> nat
    decreases n,
{
    if n <= 0 {
        0
    } else {
        count_upto(s, v, n - 1) + (if s[n - 1] == v { 1nat } else { 0nat })
    }
}

/// Number of occurrences of `v` in `s`.
pub open spec fn count_of(s: Seq<u8>, v: u8) -> nat {
    count_upto(s, v, s.len() as int)
}

/// Number of undetermined cells among the first `n`.
pub open spec fn undet_upto(field: Seq<Option<u8>>, n: int) -> nat
    decreases n,
{
    if n <= 0 {
        0
    } else {
        undet_upto(field, n - 1) + (if field[n - 1] is None { 1nat } else { 0nat })
    }
}

/// Number of undetermined cells of the grid.
pub open spec fn undet_count(field: Seq<Option<u8>>) -> nat {
    undet_upto(field, 81)
}

/// Every cell of the grid is determined.
pub open spec fn all_determined(field: Seq<Option<u8>>) -> bool {
    forall|i: int| 0 <= i < 81 ==> field[i] is Some
}

impl Model {
    /// Shape and range invariant: 81 cells, 81 candidate lists, every
    /// determined value and every candidate in `1..=9`.
    pub open spec fn wf(self) -> bool {
        &&& self.field.len() == 81
        &&& self.options.len() == 81
        &&& forall|i: int|
            0 <= i < 81 ==> ((#[trigger] self.field[i]) is Some ==> 1 <= self.field[i]->Some_0
                <= 9)
        &&& forall|i: int, j: int|
            0 <= i < 81 && 0 <= j < self.options[i].len() ==> 1 <= #[trigger] self.options[i][j]
                <= 9
    }

    /// The state after committing value `v` at cell `i`: the value is set
    /// and the cell's own candidate list is cleared. No other cell changes.
    pub open spec fn commit(self, i: int, v: u8) -> Model {
        Model {
            field: self.field.update(i, Some(v)),
            options: self.options.update(i, Seq::empty()),
        }
    }
}

/// Every determined cell has an empty candidate list. Holds after each
/// candidate recomputation and is preserved by every rule.
pub open spec fn clean(m: Model) -> bool {
    forall|i: int| 0 <= i < 81 ==> ((#[trigger] m.field[i]) is Some ==> m.options[i].len() == 0)
}

/// `m2` keeps every value determined in `m1`: solving only adds values.
pub open spec fn extends(m1: Model, m2: Model) -> bool {
    forall|i: int| 0 <= i < 81 ==> ((#[trigger] m1.field[i]) is Some ==> m2.field[i] == m1.field[i])
}

/// The candidate list cell `i` contributes to its row's, column's or box's
/// open-candidate pool: its own list if it is undetermined, else nothing.
pub open spec fn cell_open(m: Model, i: int) -> Seq<u8> {
    if m.field[i] is None {
        m.options[i]
    } else {
        Seq::empty()
    }
}

/// Concatenation, in visiting order, of the contributions of the first `n`
/// cells of the house described by `cells` (a map from position to index).
pub open spec fn pool_upto(m: Model, cells: spec_fn(int) -> int, n: int) -> Seq<u8>
    decreases n,
{
    if n <= 0 {
        Seq::empty()
    } else {
        pool_upto(m, cells, n - 1) + cell_open(m, cells(n - 1))
    }
}

/// The cell indices of row `y`, as a map from position to index.
pub open spec fn row_cells(y: int) -> spec_fn(int) -> int {
    |k: int| idx(y, k)
}

/// The cell indices of column `x`, as a map from position to index.
pub open spec fn col_cells(x: int) -> spec_fn(int) -> int {
    |k: int| idx(k, x)
}

/// The cell indices of the box containing (y, x), in row-major order.
pub open spec fn box_cells(y: int, x: int) -> spec_fn(int) -> int {
    |k: int| box_cell(y, x, k)
}

/// Open-candidate multiset (as a list) of row `y`.
pub open spec fn row_pool(m: Model, y: int) -> Seq<u8> {
    pool_upto(m, row_cells(y), 9)
}

/// Open-candidate multiset (as a list) of column `x`.
pub open spec fn col_pool(m: Model, x: int) -> Seq<u8> {
    pool_upto(m, col_cells(x), 9)
}

/// Open-candidate multiset (as a list) of the box containing (y, x).
pub open spec fn box_pool(m: Model, y: int, x: int) -> Seq<u8> {
    pool_upto(m, box_cells(y, x), 9)
}

/// Concatenation, in visiting order, of the determined values of the first
/// `n` cells of the house described by `cells`.
pub open spec fn vals_upto(field: Seq<Option<u8>>, cells: spec_fn(int) -> int, n: int) -> Seq<u8>
    decreases n,
{
    if n <= 0 {
        Seq::empty()
    } else if field[cells(n - 1)] is Some {
        vals_upto(field, cells, n - 1).push(field[cells(n - 1)]->Some_0)
    } else {
        vals_upto(field, cells, n - 1)
    }
}

/// Determined values of row `y`, in column order.
pub open spec fn row_vals(field: Seq<Option<u8>>, y: int) -> Seq<u8> {
    vals_upto(field, row_cells(y), 9)
}

/// Determined values of column `x`, in row order.
pub open spec fn col_vals(field: Seq<Option<u8>>, x: int) -> Seq<u8> {
    vals_upto(field, col_cells(x), 9)
}

/// Determined values of the box containing (y, x), in row-major order.
pub open spec fn box_vals(field: Seq<Option<u8>>, y: int, x: int) -> Seq<u8> {
    vals_upto(field, box_cells(y, x), 9)
}

/// The first candidate in `opts` (in list order) that occurs exactly once in
/// `pool`, if any: the hidden single the reduction rules commit.
pub open spec fn first_forced(opts: Seq<u8>, pool: Seq<u8>) -> Option<u8>
    decreases opts.len(),
{
    if opts.len() == 0 {
        None
    } else if count_of(pool, opts[0]) == 1 {
        Some(opts[0])
    } else {
        first_forced(opts.skip(1), pool)
    }
}

/// One visit of the sole-candidate rule at cell `i`: a cell whose candidate
/// list has exactly one member is committed to that member.
pub open spec fn sole_cell(m: Model, i: int) -> Model {
    if m.options[i].len() == 1 {
        m.commit(i, m.options[i][0])
    } else {
        m
    }
}

/// The sole-candidate rule applied to the first `n` cells in row-major order.
pub open spec fn sole_upto(m: Model, n: int) -> Model
    decreases n,
{
    if n <= 0 {
        m
    } else {
        sole_cell(sole_upto(m, n - 1), n - 1)
    }
}

/// The sole-candidate rule: one row-major scan of all 81 cells.
pub open spec fn sole_rule(m: Model) -> Model {
    sole_upto(m, 81)
}

/// One visit of a reduction rule at cell `i` against the fixed pool of its
/// house: an undetermined cell is committed to its first candidate that no
/// other open cell of the house shares.
pub open spec fn reduce_cell(m: Model, i: int, pool: Seq<u8>) -> Model {
    if m.field[i] is Some {
        m
    } else {
        match first_forced(m.options[i], pool) {
            Some(v) => m.commit(i, v),
            None => m,
        }
    }
}

/// A reduction rule applied to the first `n` cells of one house, against
/// the pool computed once when the house's scan began.
pub open spec fn reduce_cells_upto(m: Model, cells: spec_fn(int) -> int, pool: Seq<u8>, n: int) -> Model
    decreases n,
{
    if n <= 0 {
        m
    } else {
        reduce_cell(reduce_cells_upto(m, cells, pool, n - 1), cells(n - 1), pool)
    }
}

/// Row reduction applied to the first `n` rows: each row's pool is read
/// once, when that row's scan begins, and held fixed while the row's nine
/// cells are visited.
pub open spec fn row_rule_upto(m: Model, n: int) -> Model
    decreases n,
{
    if n <= 0 {
        m
    } else {
        let prev = row_rule_upto(m, n - 1);
        reduce_cells_upto(prev, row_cells(n - 1), row_pool(prev, n - 1), 9)
    }
}

/// The row-reduction rule over all nine rows.
pub open spec fn row_rule(m: Model) -> Model {
    row_rule_upto(m, 9)
}

/// Column reduction applied to the first `n` columns: identical to row
/// reduction with rows and columns transposed, so each column's pool is
/// read once, when that column's scan begins, and held fixed while the
/// column's nine cells are visited.
pub open spec fn col_rule_upto(m: Model, n: int) -> Model
    decreases n,
{
    if n <= 0 {
        m
    } else {
        let prev = col_rule_upto(m, n - 1);
        reduce_cells_upto(prev, col_cells(n - 1), col_pool(prev, n - 1), 9)
    }
}

/// The column-reduction rule over all nine columns.
pub open spec fn col_rule(m: Model) -> Model {
    col_rule_upto(m, 9)
}

/// One visit of the box-reduction rule at cell `i`. Unlike the row and
/// column rules, the box pool is recomputed at every cell visit.
pub open spec fn box_step(m: Model, i: int) -> Model {
    reduce_cell(m, i, box_pool(m, i / 9, i % 9))
}

/// Box reduction applied to the first `n` cells in row-major order.
pub open spec fn box_rule_upto(m: Model, n: int) -> Model
    decreases n,
{
    if n <= 0 {
        m
    } else {
        box_step(box_rule_upto(m, n - 1), n - 1)
    }
}

/// The box-reduction rule: one row-major scan of all 81 cells.
pub open spec fn box_rule(m: Model) -> Model {
    box_rule_upto(m, 81)
}

/// One full pass: recompute every candidate list, then apply the four rules
/// in their fixed order.
pub open spec fn pass(m: Model) -> Model {
    box_rule(col_rule(row_rule(sole_rule(recomputed(m)))))
}

/// Pushing `w` adds exactly `w` to the members of a list.
pub proof fn lemma_push_contains(s: Seq<u8>, w: u8)
    ensures
        forall|v: u8| #[trigger] s.push(w).contains(v) <==> (s.contains(v) || v == w),
{
    assert forall|v: u8| #[trigger] s.push(w).contains(v) implies (s.contains(v) || v == w) by {
        let j = choose|j: int| 0 <= j < s.push(w).len() && s.push(w)[j] == v;
        if j < s.len() {
            assert(s[j] == v);
        }
    }
    assert forall|v: u8| (s.contains(v) || v == w) implies #[trigger] s.push(w).contains(v) by {
        if s.contains(v) {
            let j = choose|j: int| 0 <= j < s.len() && s[j] == v;
            assert(s.push(w)[j] == v);
        } else {
            assert(s.push(w)[s.len() as int] == v);
        }
    }
}

/// The members of a house's determined-value list are exactly the values
/// determined somewhere in the house.
pub proof fn lemma_vals_upto_contains(field: Seq<Option<u8>>, cells: spec_fn(int) -> int, n: int)
    ensures
        forall|v: u8|
            #[trigger] vals_upto(field, cells, n).contains(v) <==> (exists|k: int|
                0 <= k < n && field[#[trigger] cells(k)] == Some(v)),
    decreases n,
{
    if n <= 0 {
        assert(vals_upto(field, cells, n).len() == 0);
    } else {
        lemma_vals_upto_contains(field, cells, n - 1);
        let prev = vals_upto(field, cells, n - 1);
        if field[cells(n - 1)] is Some {
            lemma_push_contains(prev, field[cells(n - 1)]->Some_0);
        }
        assert forall|v: u8| #[trigger] vals_upto(field, cells, n).contains(v) implies (exists|k: int|
            0 <= k < n && field[#[trigger] cells(k)] == Some(v)) by {
            if prev.contains(v) {
                let k = choose|k: int| 0 <= k < n - 1 && field[#[trigger] cells(k)] == Some(v);
                assert(0 <= k < n && field[cells(k)] == Some(v));
            } else {
                assert(field[cells(n - 1)] == Some(v));
            }
        }
        assert forall|v: u8| (exists|k: int|
            0 <= k < n && field[#[trigger] cells(k)] == Some(v)) implies
            #[trigger] vals_upto(field, cells, n).contains(v) by {
            let k = choose|k: int| 0 <= k < n && field[#[trigger] cells(k)] == Some(v);
            if k < n - 1 {
                assert(exists|k2: int| 0 <= k2 < n - 1 && field[#[trigger] cells(k2)] == Some(v));
            }
        }
    }
}

/// A forced value comes from the cell's own candidate list.
pub proof fn lemma_first_forced_in(opts: Seq<u8>, pool: Seq<u8>)
    ensures
        first_forced(opts, pool) matches Some(v) ==> opts.contains(v),
    decreases opts.len(),
{
    if opts.len() > 0 {
        if count_of(pool, opts[0]) == 1 {
            assert(opts.contains(opts[0]));
        } else {
            lemma_first_forced_in(opts.skip(1), pool);
            if first_forced(opts.skip(1), pool) is Some {
                let v = first_forced(opts.skip(1), pool)->Some_0;
                let j = choose|j: int|
                    0 <= j < opts.skip(1).len() && opts.skip(1)[j] == v;
                assert(opts[j + 1] == v);
                assert(opts.contains(v));
            }
        }
    }
}

/// Committing a value in range at an undetermined cell preserves the
/// invariants and keeps every already determined cell unchanged.
pub proof fn lemma_commit_props(m: Model, i: int, v: u8)
    requires
        m.wf(),
        0 <= i < 81,
        1 <= v <= 9,
        m.field[i] is None,
    ensures
        m.commit(i, v).wf(),
        clean(m) ==> clean(m.commit(i, v)),
        extends(m, m.commit(i, v)),
{
    let r = m.commit(i, v);
    assert forall|a: int, b: int|
        0 <= a < 81 && 0 <= b < r.options[a].len() implies 1 <= #[trigger] r.options[a][b] <= 9 by {
        if a != i {
            assert(r.options[a] == m.options[a]);
        }
    }
}

/// One visit of the sole-candidate rule preserves the invariants and keeps
/// every already determined cell unchanged.
pub proof fn lemma_sole_cell_props(m: Model, i: int)
    requires
        m.wf(),
        clean(m),
        0 <= i < 81,
    ensures
        sole_cell(m, i).wf(),
        clean(sole_cell(m, i)),
        extends(m, sole_cell(m, i)),
{
    if m.options[i].len() == 1 {
        assert(1 <= m.options[i][0] <= 9);
        assert(m.field[i] is None);
        lemma_commit_props(m, i, m.options[i][0]);
    }
}

/// The sole-candidate scan preserves the invariants and keeps every already
/// determined cell unchanged.
pub proof fn lemma_sole_upto_props(m: Model, n: int)
    requires
        m.wf(),
        clean(m),
        0 <= n <= 81,
    ensures
        sole_upto(m, n).wf(),
        clean(sole_upto(m, n)),
        extends(m, sole_upto(m, n)),
    decreases n,
{
    if n > 0 {
        lemma_sole_upto_props(m, n - 1);
        let p = sole_upto(m, n - 1);
        lemma_sole_cell_props(p, n - 1);
        let r = sole_upto(m, n);
        assert forall|j: int|
            0 <= j < 81 implies ((#[trigger] m.field[j]) is Some ==> r.field[j] == m.field[j]) by {
            if m.field[j] is Some {
                assert(p.field[j] == m.field[j]);
            }
        }
    }
}

/// One visit of a reduction rule preserves the invariants and keeps every
/// already determined cell unchanged.
pub proof fn lemma_reduce_cell_props(m: Model, i: int, pool: Seq<u8>)
    requires
        m.wf(),
        clean(m),
        0 <= i < 81,
    ensures
        reduce_cell(m, i, pool).wf(),
        clean(reduce_cell(m, i, pool)),
        extends(m, reduce_cell(m, i, pool)),
{
    if m.field[i] is None {
        match first_forced(m.options[i], pool) {
            Some(v) => {
                lemma_first_forced_in(m.options[i], pool);
                let j = choose|j: int| 0 <= j < m.options[i].len() && m.options[i][j] == v;
                assert(1 <= m.options[i][j] <= 9);
                lemma_commit_props(m, i, v);
            },
            None => {},
        }
    }
}

/// A reduction scan over one row preserves the invariants and keeps every
/// already determined cell unchanged.
pub proof fn lemma_reduce_cells_upto_props(m: Model, cells: spec_fn(int) -> int, pool: Seq<u8>, n: int)
    requires
        m.wf(),
        clean(m),
        0 <= n,
        forall|k: int| 0 <= k < n ==> 0 <= #[trigger] cells(k) < 81,
    ensures
        reduce_cells_upto(m, cells, pool, n).wf(),
        clean(reduce_cells_upto(m, cells, pool, n)),
        extends(m, reduce_cells_upto(m, cells, pool, n)),
    decreases n,
{
    if n > 0 {
        lemma_reduce_cells_upto_props(m, cells, pool, n - 1);
        let p = reduce_cells_upto(m, cells, pool, n - 1);
        lemma_reduce_cell_props(p, cells(n - 1), pool);
        let r = reduce_cells_upto(m, cells, pool, n);
        assert forall|j: int|
            0 <= j < 81 implies ((#[trigger] m.field[j]) is Some ==> r.field[j] == m.field[j]) by {
            if m.field[j] is Some {
                assert(p.field[j] == m.field[j]);
            }
        }
    }
}

/// The row-reduction rule preserves the invariants and keeps every already
/// determined cell unchanged.
pub proof fn lemma_row_rule_upto_props(m: Model, n: int)
    requires
        m.wf(),
        clean(m),
        0 <= n <= 9,
    ensures
        row_rule_upto(m, n).wf(),
        clean(row_rule_upto(m, n)),
        extends(m, row_rule_upto(m, n)),
    decreases n,
{
    if n > 0 {
        lemma_row_rule_upto_props(m, n - 1);
        let p = row_rule_upto(m, n - 1);
        let cells = row_cells(n - 1);
        assert forall|k: int| 0 <= k < 9 implies 0 <= #[trigger] cells(k) < 81 by {
            assert(cells(k) == idx(n - 1, k));
        }
        lemma_reduce_cells_upto_props(p, cells, row_pool(p, n - 1), 9);
        let r = row_rule_upto(m, n);
        assert forall|j: int|
            0 <= j < 81 implies ((#[trigger] m.field[j]) is Some ==> r.field[j] == m.field[j]) by {
            if m.field[j] is Some {
                assert(p.field[j] == m.field[j]);
            }
        }
    }
}

/// The column-reduction rule preserves the invariants and keeps every
/// already determined cell unchanged.
pub proof fn lemma_col_rule_upto_props(m: Model, n: int)
    requires
        m.wf(),
        clean(m),
        0 <= n <= 9,
    ensures
        col_rule_upto(m, n).wf(),
        clean(col_rule_upto(m, n)),
        extends(m, col_rule_upto(m, n)),
    decreases n,
{
    if n > 0 {
        lemma_col_rule_upto_props(m, n - 1);
        let p = col_rule_upto(m, n - 1);
        let cells = col_cells(n - 1);
        assert forall|k: int| 0 <= k < 9 implies 0 <= #[trigger] cells(k) < 81 by {
            assert(cells(k) == idx(k, n - 1));
        }
        lemma_reduce_cells_upto_props(p, cells, col_pool(p, n - 1), 9);
        let r = col_rule_upto(m, n);
        assert forall|j: int|
            0 <= j < 81 implies ((#[trigger] m.field[j]) is Some ==> r.field[j] == m.field[j]) by {
            if m.field[j] is Some {
                assert(p.field[j] == m.field[j]);
            }
        }
    }
}

/// The box-reduction rule preserves the invariants and keeps every already
/// determined cell unchanged.
pub proof fn lemma_box_rule_upto_props(m: Model, n: int)
    requires
        m.wf(),
        clean(m),
        0 <= n <= 81,
    ensures
        box_rule_upto(m, n).wf(),
        clean(box_rule_upto(m, n)),
        extends(m, box_rule_upto(m, n)),
    decreases n,
{
    if n > 0 {
        lemma_box_rule_upto_props(m, n - 1);
        let p = box_rule_upto(m, n - 1);
        lemma_reduce_cell_props(p, n - 1, box_pool(p, (n - 1) / 9, (n - 1) % 9));
        let r = box_rule_upto(m, n);
        assert forall|j: int|
            0 <= j < 81 implies ((#[trigger] m.field[j]) is Some ==> r.field[j] == m.field[j]) by {
            if m.field[j] is Some {
                assert(p.field[j] == m.field[j]);
            }
        }
    }
}

/// Every value in a freshly computed candidate list lies in `1..=9`.
pub proof fn lemma_cand_list_range(field: Seq<Option<u8>>, y: int, x: int, n: int)
    requires
        0 <= n <= 9,
    ensures
        forall|j: int|
            0 <= j < cand_list_upto(field, y, x, n).len() ==> 1 <= #[trigger] cand_list_upto(
                field,
                y,
                x,
                n,
            )[j] <= 9,
    decreases n,
{
    if n > 0 {
        lemma_cand_list_range(field, y, x, n - 1);
        let prev = cand_list_upto(field, y, x, n - 1);
        let cur = cand_list_upto(field, y, x, n);
        assert forall|j: int| 0 <= j < cur.len() implies 1 <= #[trigger] cur[j] <= 9 by {
            if is_candidate(field, y, x, n as u8) {
                if j < prev.len() {
                    assert(cur[j] == prev[j]);
                } else {
                    assert(cur[j] == n as u8);
                }
            } else {
                assert(cur[j] == prev[j]);
            }
        }
    }
}

/// Candidate recomputation yields a well-formed, clean state and leaves the
/// field unchanged.
pub proof fn lemma_recomputed_props(m: Model)
    requires
        m.wf(),
    ensures
        recomputed(m).wf(),
        clean(recomputed(m)),
        recomputed(m).field == m.field,
{
    let r = recomputed(m);
    assert forall|a: int, b: int|
        0 <= a < 81 && 0 <= b < r.options[a].len() implies 1 <= #[trigger] r.options[a][b] <= 9 by {
        assert(r.options[a] == cell_options_of(m.field, a));
        if m.field[a] is None {
            lemma_cand_list_range(m.field, a / 9, a % 9, 9);
        }
    }
}

/// One full pass preserves the invariants and keeps every already
/// determined cell unchanged: a determined cell is never revised, so the
/// set of determined positions only grows over any sequence of steps.
pub proof fn lemma_pass_props(m: Model)
    requires
        m.wf(),
    ensures
        pass(m).wf(),
        clean(pass(m)),
        extends(m, pass(m)),
{
    lemma_recomputed_props(m);
    let m1 = recomputed(m);
    lemma_sole_upto_props(m1, 81);
    let m2 = sole_rule(m1);
    lemma_row_rule_upto_props(m2, 9);
    let m3 = row_rule(m2);
    lemma_col_rule_upto_props(m3, 9);
    let m4 = col_rule(m3);
    lemma_box_rule_upto_props(m4, 81);
    let m5 = box_rule(m4);
    assert forall|j: int|
        0 <= j < 81 implies ((#[trigger] m.field[j]) is Some ==> m5.field[j] == m.field[j]) by {
        if m.field[j] is Some {
            assert(m1.field[j] == m.field[j]);
            assert(m2.field[j] == m.field[j]);
            assert(m3.field[j] == m.field[j]);
            assert(m4.field[j] == m.field[j]);
        }
    }
}

/// Keeping every determined cell can only shrink the count of undetermined
/// cells.
pub proof fn lemma_extends_undet(m1: Model, m2: Model, n: int)
    requires
        extends(m1, m2),
        0 <= n <= 81,
    ensures
        undet_upto(m2.field, n) <= undet_upto(m1.field, n),
    decreases n,
{
    if n > 0 {
        lemma_extends_undet(m1, m2, n - 1);
        if m1.field[n - 1] is Some {
            assert(m2.field[n - 1] == m1.field[n - 1]);
        }
    }
}

/// A prefix is fully determined exactly when it has no undetermined cell.
pub proof fn lemma_undet_zero(field: Seq<Option<u8>>, n: int)
    requires
        0 <= n,
    ensures
        (undet_upto(field, n) == 0) <==> (forall|i: int| 0 <= i < n ==> field[i] is Some),
    decreases n,
{
    if n > 0 {
        lemma_undet_zero(field, n - 1);
    }
}

/// At most `n` of the first `n` cells are undetermined; in particular at
/// most 81 cells are ever undetermined, which bounds the number of
/// successful solving steps.
pub proof fn lemma_undet_bound(field: Seq<Option<u8>>, n: int)
    requires
        0 <= n,
    ensures
        undet_upto(field, n) <= n,
    decreases n,
{
    if n > 0 {
        lemma_undet_bound(field, n - 1);
    }
}

/// Monotonicity composes: over any sequence of solving states each of
/// which keeps the determined cells of the one before, the first state's
/// determined cells persist, unchanged, to the last.
pub proof fn lemma_extends_trans(m1: Model, m2: Model, m3: Model)
    requires
        extends(m1, m2),
        extends(m2, m3),
    ensures
        extends(m1, m3),
{
    assert forall|j: int|
        0 <= j < 81 implies ((#[trigger] m1.field[j]) is Some ==> m3.field[j] == m1.field[j]) by {
        if m1.field[j] is Some {
            assert(m2.field[j] == m1.field[j]);
        }
    }
}

/// Candidate recomputation is idempotent: recomputing twice in a row with
/// no determination in between yields identical candidate sets.
pub proof fn lemma_recompute_idempotent(m: Model)
    ensures
        recomputed(recomputed(m)) == recomputed(m),
{
    assert(recomputed(m).field == m.field);
    assert(recomputed(recomputed(m)) =~= recomputed(m));
}

/// The result of driving passes to a fixed point: the state Solve leaves
/// behind. Each recursive call strictly shrinks the count of undetermined
/// cells, which is at most 81, so Solve makes at most 81 passes.
pub open spec fn solve_rec(m: Model) -> Model
    decreases undet_count(m.field),
    when m.wf()
    via solve_rec_decreases
{
    if all_determined(m.field) {
        m
    } else if undet_count(pass(m).field) == undet_count(m.field) {
        pass(m)
    } else {
        solve_rec(pass(m))
    }
}

#[via_fn]
proof fn solve_rec_decreases(m: Model) {
    if m.wf() && !all_determined(m.field) && undet_count(pass(m).field) != undet_count(m.field) {
        lemma_pass_props(m);
        lemma_extends_undet(m, pass(m), 81);
    }
}

/// Membership in a row's determined-value list is `row_has`.
pub proof fn lemma_row_vals_contains(field: Seq<Option<u8>>, y: int)
    ensures
        forall|v: u8| #[trigger] row_vals(field, y).contains(v) <==> row_has(field, y, v),
{
    let cells = row_cells(y);
    lemma_vals_upto_contains(field, cells, 9);
    assert forall|v: u8| #[trigger] row_vals(field, y).contains(v) <==> row_has(field, y, v) by {
        if row_vals(field, y).contains(v) {
            let k = choose|k: int| 0 <= k < 9 && field[#[trigger] cells(k)] == Some(v);
            assert(field[idx(y, k)] == Some(v));
        }
        if row_has(field, y, v) {
            let x = choose|x: int| 0 <= x < 9 && field[idx(y, x)] == Some(v);
            assert(field[cells(x)] == Some(v));
            assert(vals_upto(field, cells, 9).contains(v));
        }
    }
}

/// Membership in a column's determined-value list is `col_has`.
pub proof fn lemma_col_vals_contains(field: Seq<Option<u8>>, x: int)
    ensures
        forall|v: u8| #[trigger] col_vals(field, x).contains(v) <==> col_has(field, x, v),
{
    let cells = col_cells(x);
    lemma_vals_upto_contains(field, cells, 9);
    assert forall|v: u8| #[trigger] col_vals(field, x).contains(v) <==> col_has(field, x, v) by {
        if col_vals(field, x).contains(v) {
            let k = choose|k: int| 0 <= k < 9 && field[#[trigger] cells(k)] == Some(v);
            assert(field[idx(k, x)] == Some(v));
        }
        if col_has(field, x, v) {
            let y = choose|y: int| 0 <= y < 9 && field[idx(y, x)] == Some(v);
            assert(field[cells(y)] == Some(v));
            assert(vals_upto(field, cells, 9).contains(v));
        }
    }
}

/// Membership in a box's determined-value list is `box_has`.
pub proof fn lemma_box_vals_contains(field: Seq<Option<u8>>, y: int, x: int)
    ensures
        forall|v: u8| #[trigger] box_vals(field, y, x).contains(v) <==> box_has(field, y, x, v),
{
    let cells = box_cells(y, x);
    lemma_vals_upto_contains(field, cells, 9);
    assert forall|v: u8| #[trigger] box_vals(field, y, x).contains(v) <==> box_has(field, y, x, v)
        by {
        if box_vals(field, y, x).contains(v) {
            let k = choose|k: int| 0 <= k < 9 && field[#[trigger] cells(k)] == Some(v);
            assert(field[box_cell(y, x, k)] == Some(v));
        }
        if box_has(field, y, x, v) {
            let k = choose|k: int| 0 <= k < 9 && field[box_cell(y, x, k)] == Some(v);
            assert(field[cells(k)] == Some(v));
            assert(vals_upto(field, cells, 9).contains(v));
        }
    }
}

} // verus!
