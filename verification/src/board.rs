use vstd::prelude::*;

verus! {

/// Whether `(i, j)` names a cell of the grid `g`.
pub open spec fn in_range(g: Seq<Seq<bool>>, i: int, j: int) -> bool {
    0 <= i < g.len() && 0 <= j < g[i].len()
}

/// The state of cell `(i, j)`; positions outside the grid count as dead.
pub open spec fn cell_at(g: Seq<Seq<bool>>, i: int, j: int) -> bool {
    in_range(g, i, j) && g[i][j]
}

/// A live cell contributes 1 to a neighbour count, a dead one 0.
pub open spec fn live_as_int(alive: bool) -> int {
    if alive {
        1
    } else {
        0
    }
}

/// Number of live cells among the (up to) 8 neighbours of `(i, j)`.
/// Neighbours outside the grid are dead, so edges truncate the count
/// rather than wrapping around.
pub open spec fn live_neighbours(g: Seq<Seq<bool>>, i: int, j: int) -> int {
    live_as_int(cell_at(g, i - 1, j - 1)) + live_as_int(cell_at(g, i - 1, j)) + live_as_int(
        cell_at(g, i - 1, j + 1),
    ) + live_as_int(cell_at(g, i, j - 1)) + live_as_int(cell_at(g, i, j + 1)) + live_as_int(
        cell_at(g, i + 1, j - 1),
    ) + live_as_int(cell_at(g, i + 1, j)) + live_as_int(cell_at(g, i + 1, j + 1))
}

/// The state of cell `(i, j)` after one generation: a live cell survives
/// with 2 or 3 live neighbours, a dead cell is born with exactly 3.
pub open spec fn next_state(g: Seq<Seq<bool>>, i: int, j: int) -> bool {
    if cell_at(g, i, j) {
        live_neighbours(g, i, j) == 2 || live_neighbours(g, i, j) == 3
    } else {
        live_neighbours(g, i, j) == 3
    }
}

/// Whether `h` has the same shape as `g` and holds, cell for cell, the
/// state `g`'s cells take after one generation — the relation `tick`
/// establishes between the new grid and the old one.
pub open spec fn is_step_of(h: Seq<Seq<bool>>, g: Seq<Seq<bool>>) -> bool {
    &&& h.len() == g.len()
    &&& forall|i: int| 0 <= i < g.len() ==> #[trigger] h[i].len() == g[i].len()
    &&& forall|i: int, j: int|
        in_range(g, i, j) ==> #[trigger] h[i][j] == next_state(g, i, j)
}

/// All rows have the same length.
pub open spec fn rectangular(g: Seq<Seq<bool>>) -> bool {
    forall|i: int| 0 <= i < g.len() ==> #[trigger] g[i].len() == g[0].len()
}

/// The board of the game: a matrix of cell states, row-major, together
/// with a counter of completed generations.
#[derive(Debug, Clone)]
pub struct Board {
    pub positions: Vec<Vec<bool>>,
    pub iter: u32,
}

impl Board {
    /// The cell states as a mathematical grid of rows.
    pub open spec fn grid(self) -> Seq<Seq<bool>> {
        Seq::new(self.positions@.len(), |i: int| self.positions@[i]@)
    }

    /// 1 if cell `(i, j)` is alive, 0 if it is dead or out of range.
    pub fn get_value(&self, i: usize, j: usize) -> (r: u8)
        ensures
            r == live_as_int(cell_at(self.grid(), i as int, j as int)),
    {
        if i < self.positions.len() {
            let row = &self.positions[i];
            if j < row.len() {
                if row[j] {
                    1
                } else {
                    0
                }
            } else {
                0
            }
        } else {
            0
        }
    }

    /// Count the live neighbours of cell `(i, j)`.
    pub fn sum_neighbours(&self, i: usize, j: usize) -> (sum: u8)
        requires
            i < self.grid().len(),
            j < self.grid()[i as int].len(),
        ensures
            sum as int == live_neighbours(self.grid(), i as int, j as int),
    {
        let _rows = self.positions.len();
        let _cols = self.positions[i].len();
        let mut sum: u8 = 0;
        if i > 0 {
            if j > 0 {
                sum = sum + self.get_value(i - 1, j - 1);
            }
            sum = sum + self.get_value(i - 1, j);
            sum = sum + self.get_value(i - 1, j + 1);
        }
        if j > 0 {
            sum = sum + self.get_value(i, j - 1);
        }
        sum = sum + self.get_value(i, j + 1);
        if j > 0 {
            sum = sum + self.get_value(i + 1, j - 1);
        }
        sum = sum + self.get_value(i + 1, j);
        sum = sum + self.get_value(i + 1, j + 1);
        sum
    }

    /// Whether cell `(i, j)` changes state in the next generation: a live
    /// cell flips unless it has 2 or 3 live neighbours, a dead cell flips
    /// exactly when it has 3.
    pub fn flips_state(&self, i: usize, j: usize) -> (r: bool)
        requires
            i < self.grid().len(),
            j < self.grid()[i as int].len(),
        ensures
            r == (self.grid()[i as int][j as int] != next_state(self.grid(), i as int, j as int)),
    {
        let sum = self.sum_neighbours(i, j);
        let square = self.positions[i][j];
        (square && !(2 <= sum && sum <= 3)) || (!square && sum == 3)
    }

    /// Advance the whole grid by one generation. Every cell's new state is
    /// computed from a snapshot of the old grid, so no cell's transition
    /// sees another cell's already-updated value.
    pub fn tick(&mut self)
        requires
            old(self).iter < u32::MAX,
        ensures
            is_step_of(final(self).grid(), old(self).grid()),
            final(self).iter == old(self).iter + 1,
    {
        let ghost g0 = self.grid();
        let mut next: Vec<Vec<bool>> = Vec::new();
        let n = self.positions.len();
        let mut i: usize = 0;
        while i < n
            invariant
                i <= n,
                n == g0.len(),
                self.grid() == g0,
                self.iter == old(self).iter,
                old(self).iter < u32::MAX,
                next@.len() == i,
                forall|k: int| 0 <= k < i ==> (#[trigger] next@[k])@.len() == g0[k].len(),
                forall|k: int, l: int|
                    0 <= k < i && 0 <= l < g0[k].len() ==> (#[trigger] next@[k]@[l]) == next_state(
                        g0,
                        k,
                        l,
                    ),
            decreases n - i,
        {
            let m = self.positions[i].len();
            let mut row: Vec<bool> = Vec::new();
            let mut j: usize = 0;
            while j < m
                invariant
                    j <= m,
                    i < n,
                    n == g0.len(),
                    m == g0[i as int].len(),
                    self.grid() == g0,
                    row@.len() == j,
                    forall|l: int| 0 <= l < j ==> (#[trigger] row@[l]) == next_state(g0, i as int, l),
                decreases m - j,
            {
                let square = self.positions[i][j];
                let new_value = if self.flips_state(i, j) {
                    !square
                } else {
                    square
                };
                row.push(new_value);
                j = j + 1;
            }
            next.push(row);
            i = i + 1;
        }
        self.positions = next;
        self.iter = self.iter + 1;
    }
}

/// No cell appears spontaneously: one step of an all-dead grid yields an
/// all-dead grid, since a dead cell needs exactly 3 live neighbours to be
/// born and there are none.
pub proof fn lemma_dead_grid_stays_dead(g: Seq<Seq<bool>>)
    requires
        forall|i: int, j: int| !(#[trigger] cell_at(g, i, j)),
    ensures
        forall|i: int, j: int| !(#[trigger] next_state(g, i, j)),
{
    assert forall|i: int, j: int| !(#[trigger] next_state(g, i, j)) by {
        assert(live_neighbours(g, i, j) == 0);
    }
}

/// An isolated live cell — all 8 of its neighbours dead — dies after one
/// step: 0 live neighbours is neither 2 nor 3.
pub proof fn lemma_isolated_cell_dies(g: Seq<Seq<bool>>, i: int, j: int)
    requires
        cell_at(g, i, j),
        live_neighbours(g, i, j) == 0,
    ensures
        !next_state(g, i, j),
{
}

/// A cell never counts more neighbours than the truncated grid physically
/// has: at most 8 anywhere, at most 5 on a boundary row or column, and at
/// most 3 in a corner — the grid does not wrap around.
pub proof fn lemma_boundary_neighbour_bounds(g: Seq<Seq<bool>>, i: int, j: int)
    requires
        rectangular(g),
        in_range(g, i, j),
    ensures
        0 <= live_neighbours(g, i, j) <= 8,
        i == 0 || i == g.len() - 1 || j == 0 || j == g[0].len() - 1 ==> live_neighbours(g, i, j)
            <= 5,
        (i == 0 || i == g.len() - 1) && (j == 0 || j == g[0].len() - 1) ==> live_neighbours(
            g,
            i,
            j,
        ) <= 3,
{
    if i == g.len() - 1 {
        assert(!cell_at(g, i + 1, j - 1));
        assert(!cell_at(g, i + 1, j));
        assert(!cell_at(g, i + 1, j + 1));
    }
    if j == g[0].len() - 1 {
        assert(!cell_at(g, i - 1, j + 1)) by {
            if in_range(g, i - 1, j + 1) {
                assert(g[i - 1].len() == g[0].len());
            }
        }
        assert(!cell_at(g, i, j + 1)) by {
            assert(g[i].len() == g[0].len());
        }
        assert(!cell_at(g, i + 1, j + 1)) by {
            if in_range(g, i + 1, j + 1) {
                assert(g[i + 1].len() == g[0].len());
            }
        }
    }
}

/// In a one-row grid every neighbour above or below is outside the grid,
/// so a dead cell can never be born (at most 2 live neighbours), and a
/// live cell survives only as the middle of a run of three live cells.
/// Where no such run exists, one step leaves the whole grid dead.
pub proof fn lemma_single_row_dies(g: Seq<Seq<bool>>)
    requires
        g.len() == 1,
        forall|j: int|
            !(cell_at(g, 0, j - 1) && #[trigger] cell_at(g, 0, j) && cell_at(g, 0, j + 1)),
    ensures
        forall|i: int, j: int| in_range(g, i, j) ==> !(#[trigger] next_state(g, i, j)),
{
    assert forall|i: int, j: int| in_range(g, i, j) implies !(#[trigger] next_state(g, i, j)) by {
        assert(i == 0);
        assert(live_neighbours(g, 0, j) == live_as_int(cell_at(g, 0, j - 1)) + live_as_int(
            cell_at(g, 0, j + 1),
        ));
        if cell_at(g, 0, j) {
            assert(!(cell_at(g, 0, j - 1) && cell_at(g, 0, j + 1)));
        }
    }
}

/// The one-column counterpart: a dead cell can never be born, and a live
/// cell survives only as the middle of a vertical run of three live cells.
/// Where no such run exists, one step leaves the whole grid dead.
pub proof fn lemma_single_column_dies(g: Seq<Seq<bool>>)
    requires
        forall|i: int| 0 <= i < g.len() ==> #[trigger] g[i].len() <= 1,
        forall|i: int|
            !(cell_at(g, i - 1, 0) && #[trigger] cell_at(g, i, 0) && cell_at(g, i + 1, 0)),
    ensures
        forall|i: int, j: int| in_range(g, i, j) ==> !(#[trigger] next_state(g, i, j)),
{
    assert forall|i: int, j: int| in_range(g, i, j) implies !(#[trigger] next_state(g, i, j)) by {
        assert(g[i].len() <= 1);
        assert(j == 0);
        assert(!cell_at(g, i - 1, 1)) by {
            if in_range(g, i - 1, 1) {
                assert(g[i - 1].len() <= 1);
            }
        }
        assert(!cell_at(g, i, 1));
        assert(!cell_at(g, i + 1, 1)) by {
            if in_range(g, i + 1, 1) {
                assert(g[i + 1].len() <= 1);
            }
        }
        assert(live_neighbours(g, i, 0) == live_as_int(cell_at(g, i - 1, 0)) + live_as_int(
            cell_at(g, i + 1, 0),
        ));
        if cell_at(g, i, 0) {
            assert(!(cell_at(g, i - 1, 0) && cell_at(g, i + 1, 0)));
        }
    }
}

/// A 2-by-2 block of live cells, alone on the grid, is a still life: each
/// block cell has exactly 3 live neighbours and survives, and every other
/// cell has at most 2 and stays dead, so one step changes nothing — and
/// hence neither does any number of steps.
pub proof fn lemma_block_still_life(g: Seq<Seq<bool>>, r: int, c: int)
    requires
        rectangular(g),
        0 <= r,
        r + 1 < g.len(),
        0 <= c,
        c + 1 < g[0].len(),
        forall|i: int, j: int|
            #[trigger] cell_at(g, i, j) <==> (r <= i <= r + 1 && c <= j <= c + 1),
    ensures
        forall|i: int, j: int|
            in_range(g, i, j) ==> #[trigger] next_state(g, i, j) == cell_at(g, i, j),
{
    assert forall|i: int, j: int|
        in_range(g, i, j) implies #[trigger] next_state(g, i, j) == cell_at(g, i, j) by {
        assert(live_neighbours(g, i, j) == live_as_int(cell_at(g, i - 1, j - 1)) + live_as_int(
            cell_at(g, i - 1, j),
        ) + live_as_int(cell_at(g, i - 1, j + 1)) + live_as_int(cell_at(g, i, j - 1))
            + live_as_int(cell_at(g, i, j + 1)) + live_as_int(cell_at(g, i + 1, j - 1))
            + live_as_int(cell_at(g, i + 1, j)) + live_as_int(cell_at(g, i + 1, j + 1)));
    }
}

/// In the stepped grid a cell is live exactly where the transition rule
/// makes it live: this turns the pointwise description of one step into
/// statements about `cell_at`, so that pattern lemmas can be chained.
pub proof fn lemma_step_image_cells(h: Seq<Seq<bool>>, g: Seq<Seq<bool>>)
    requires
        is_step_of(h, g),
    ensures
        forall|i: int, j: int|
            #[trigger] cell_at(h, i, j) <==> (in_range(g, i, j) && next_state(g, i, j)),
{
    assert forall|i: int, j: int|
        #[trigger] cell_at(h, i, j) <==> (in_range(g, i, j) && next_state(g, i, j)) by {
        if in_range(g, i, j) {
            assert(h[i].len() == g[i].len());
        } else if 0 <= i < g.len() {
            assert(h[i].len() == g[i].len());
        }
    }
}

/// The still life holds over any number of steps: one step of a grid whose
/// only live cells are a 2-by-2 block leaves exactly that block live, on a
/// grid of the same shape — so the conclusion feeds the next application.
pub proof fn lemma_block_still_life_preserved(
    h: Seq<Seq<bool>>,
    g: Seq<Seq<bool>>,
    r: int,
    c: int,
)
    requires
        rectangular(g),
        0 <= r,
        r + 1 < g.len(),
        0 <= c,
        c + 1 < g[0].len(),
        forall|i: int, j: int|
            #[trigger] cell_at(g, i, j) <==> (r <= i <= r + 1 && c <= j <= c + 1),
        is_step_of(h, g),
    ensures
        rectangular(h),
        h.len() == g.len(),
        h[0].len() == g[0].len(),
        forall|i: int, j: int|
            #[trigger] cell_at(h, i, j) <==> (r <= i <= r + 1 && c <= j <= c + 1),
{
    lemma_block_still_life(g, r, c);
    lemma_step_image_cells(h, g);
    assert(h[0].len() == g[0].len());
    assert forall|i: int| 0 <= i < h.len() implies #[trigger] h[i].len() == h[0].len() by {
        assert(h[i].len() == g[i].len());
        assert(g[i].len() == g[0].len());
    }
    assert forall|i: int, j: int|
        #[trigger] cell_at(h, i, j) <==> (r <= i <= r + 1 && c <= j <= c + 1) by {
        assert(cell_at(h, i, j) <==> (in_range(g, i, j) && next_state(g, i, j)));
        if r <= i <= r + 1 && c <= j <= c + 1 {
            assert(cell_at(g, i, j));
            assert(in_range(g, i, j));
        }
        if in_range(g, i, j) {
            assert(next_state(g, i, j) == cell_at(g, i, j));
        }
    }
}

/// A blinker laid out horizontally — exactly the cells `(1,0)`, `(1,1)`,
/// `(1,2)` live, on a grid of at least 3 rows and 3 columns — becomes the
/// vertical blinker `(0,1)`, `(1,1)`, `(2,1)` after one step.
pub proof fn lemma_blinker_horizontal_step(g: Seq<Seq<bool>>)
    requires
        rectangular(g),
        g.len() >= 3,
        g[0].len() >= 3,
        forall|i: int, j: int| #[trigger] cell_at(g, i, j) <==> (i == 1 && 0 <= j <= 2),
    ensures
        forall|i: int, j: int|
            in_range(g, i, j) ==> (#[trigger] next_state(g, i, j) <==> (j == 1 && 0 <= i <= 2)),
{
    assert forall|i: int, j: int|
        in_range(g, i, j) implies (#[trigger] next_state(g, i, j) <==> (j == 1 && 0 <= i
        <= 2)) by {
        assert(live_neighbours(g, i, j) == live_as_int(cell_at(g, i - 1, j - 1)) + live_as_int(
            cell_at(g, i - 1, j),
        ) + live_as_int(cell_at(g, i - 1, j + 1)) + live_as_int(cell_at(g, i, j - 1))
            + live_as_int(cell_at(g, i, j + 1)) + live_as_int(cell_at(g, i + 1, j - 1))
            + live_as_int(cell_at(g, i + 1, j)) + live_as_int(cell_at(g, i + 1, j + 1)));
        if j == 1 && 0 <= i <= 2 {
            assert(in_range(g, 1, 0) && in_range(g, 1, 1) && in_range(g, 1, 2)) by {
                assert(g[1].len() == g[0].len());
            }
        }
    }
}

/// The vertical blinker — exactly the cells `(0,1)`, `(1,1)`, `(2,1)`
/// live, on a grid of at least 3 rows and 3 columns — returns to the
/// horizontal blinker `(1,0)`, `(1,1)`, `(1,2)` after one step: together
/// with the previous lemma, the blinker oscillates with period 2.
pub proof fn lemma_blinker_vertical_step(g: Seq<Seq<bool>>)
    requires
        rectangular(g),
        g.len() >= 3,
        g[0].len() >= 3,
        forall|i: int, j: int| #[trigger] cell_at(g, i, j) <==> (j == 1 && 0 <= i <= 2),
    ensures
        forall|i: int, j: int|
            in_range(g, i, j) ==> (#[trigger] next_state(g, i, j) <==> (i == 1 && 0 <= j <= 2)),
{
    assert forall|i: int, j: int|
        in_range(g, i, j) implies (#[trigger] next_state(g, i, j) <==> (i == 1 && 0 <= j
        <= 2)) by {
        assert(live_neighbours(g, i, j) == live_as_int(cell_at(g, i - 1, j - 1)) + live_as_int(
            cell_at(g, i - 1, j),
        ) + live_as_int(cell_at(g, i - 1, j + 1)) + live_as_int(cell_at(g, i, j - 1))
            + live_as_int(cell_at(g, i, j + 1)) + live_as_int(cell_at(g, i + 1, j - 1))
            + live_as_int(cell_at(g, i + 1, j)) + live_as_int(cell_at(g, i + 1, j + 1)));
        if i == 1 && 0 <= j <= 2 {
            assert(in_range(g, 0, 1) && in_range(g, 1, 1) && in_range(g, 2, 1)) by {
                assert(g[1].len() == g[0].len());
                assert(g[2].len() == g[0].len());
            }
        }
    }
}

/// The 3-character glyph a cell is drawn as.
pub open spec fn glyph(alive: bool) -> Seq<char> {
    if alive {
        " X "@
    } else {
        " - "@
    }
}

/// One row of the plain rendering: the glyphs of its cells, left to right.
pub open spec fn render_row(row: Seq<bool>) -> Seq<char>
    decreases row.len(),
{
    if row.len() == 0 {
        Seq::empty()
    } else {
        render_row(row.drop_last()) + glyph(row.last())
    }
}

/// The plain rendering of a grid: one line per row, separated by newlines.
pub open spec fn render_grid(g: Seq<Seq<bool>>) -> Seq<char>
    decreases g.len(),
{
    if g.len() == 0 {
        Seq::empty()
    } else if g.len() == 1 {
        render_row(g[0])
    } else {
        render_grid(g.drop_last()) + "\n"@ + render_row(g.last())
    }
}

impl Board {
    /// The glyphs of one row, as a string.
    fn render_row_string(row: &Vec<bool>) -> (s: String)
        ensures
            s@ == render_row(row@),
    {
        let mut s = String::new();
        let mut j: usize = 0;
        let m = row.len();
        while j < m
            invariant
                j <= m,
                m == row@.len(),
                s@ == render_row(row@.take(j as int)),
            decreases m - j,
        {
            if row[j] {
                s.append(" X ");
            } else {
                s.append(" - ");
            }
            proof {
                assert(row@.take(j + 1).drop_last() =~= row@.take(j as int));
                assert(row@.take(j + 1).last() == row@[j as int]);
                assert(s@ =~= render_row(row@.take(j + 1)));
            }
            j = j + 1;
        }
        proof {
            assert(row@.take(m as int) =~= row@);
        }
        s
    }

    /// The textual form of the grid: one line per row, rows separated by
    /// newlines, each cell drawn as a 3-character glyph.
    pub fn render(&self) -> (s: String)
        ensures
            s@ == render_grid(self.grid()),
    {
        let ghost g = self.grid();
        let mut s = String::new();
        let n = self.positions.len();
        let mut i: usize = 0;
        while i < n
            invariant
                i <= n,
                n == g.len(),
                g == self.grid(),
                s@ == render_grid(g.take(i as int)),
            decreases n - i,
        {
            if i != 0 {
                s.append("\n");
            }
            let row = Self::render_row_string(&self.positions[i]);
            s.append(row.as_str());
            proof {
                assert(g.take(i + 1).last() == g[i as int]);
                if i == 0 {
                    assert(s@ =~= render_row(g[0]));
                    assert(s@ =~= render_grid(g.take(1)));
                } else {
                    assert(g.take(i + 1).drop_last() =~= g.take(i as int));
                    assert(s@ =~= render_grid(g.take(i as int)) + "\n"@ + render_row(g[i as int]));
                    assert(s@ =~= render_grid(g.take(i + 1)));
                }
            }
            i = i + 1;
        }
        proof {
            assert(g.take(n as int) =~= g);
        }
        s
    }
}

/// The blinker oscillates with period 2: on a rectangular grid of at
/// least 3 rows and 3 columns whose only live cells are the horizontal run
/// `(1,0)`, `(1,1)`, `(1,2)`, one step leaves exactly the vertical run
/// `(0,1)`, `(1,1)`, `(2,1)` live, and a second step restores exactly the
/// original horizontal run.
pub proof fn lemma_blinker_period_two(
    g: Seq<Seq<bool>>,
    h: Seq<Seq<bool>>,
    k: Seq<Seq<bool>>,
)
    requires
        rectangular(g),
        g.len() >= 3,
        g[0].len() >= 3,
        forall|i: int, j: int| #[trigger] cell_at(g, i, j) <==> (i == 1 && 0 <= j <= 2),
        is_step_of(h, g),
        is_step_of(k, h),
    ensures
        forall|i: int, j: int| #[trigger] cell_at(h, i, j) <==> (j == 1 && 0 <= i <= 2),
        forall|i: int, j: int| #[trigger] cell_at(k, i, j) <==> (i == 1 && 0 <= j <= 2),
{
    lemma_blinker_horizontal_step(g);
    lemma_step_image_cells(h, g);
    assert(h[0].len() == g[0].len());
    assert forall|i: int| 0 <= i < h.len() implies #[trigger] h[i].len() == h[0].len() by {
        assert(h[i].len() == g[i].len());
        assert(g[i].len() == g[0].len());
    }
    assert forall|i: int, j: int|
        #[trigger] cell_at(h, i, j) <==> (j == 1 && 0 <= i <= 2) by {
        if j == 1 && 0 <= i <= 2 {
            assert(g[i].len() == g[0].len());
            assert(in_range(g, i, j));
        }
    }
    lemma_blinker_vertical_step(h);
    lemma_step_image_cells(k, h);
    assert forall|i: int, j: int|
        #[trigger] cell_at(k, i, j) <==> (i == 1 && 0 <= j <= 2) by {
        if i == 1 && 0 <= j <= 2 {
            assert(h[1].len() == h[0].len());
            assert(in_range(h, i, j));
        }
    }
}

/// A rendered row is exactly 3 characters per cell.
pub proof fn lemma_render_row_len(row: Seq<bool>)
    ensures
        render_row(row).len() == 3 * row.len(),
    decreases row.len(),
{
    reveal_strlit(" X ");
    reveal_strlit(" - ");
    if row.len() > 0 {
        lemma_render_row_len(row.drop_last());
    }
}

/// In a rendering whose rows are `cols` cells wide, a newline separator
/// stands right before line `k`.
pub open spec fn newline_before_line(s: Seq<char>, k: int, cols: int) -> bool {
    s.subrange(k * (3 * cols + 1) - 1, k * (3 * cols + 1)) == "\n"@
}

/// The shape of the plain rendering of a rectangular grid: with `rows`
/// rows of `cols` cells each, the text has `rows` lines of exactly
/// `3 * cols` characters, separated by single newlines — so its length is
/// `rows * (3 * cols + 1) - 1`, line `k` is the rendering of row `k`, and
/// a newline stands right before each line but the first.
pub proof fn lemma_render_shape(g: Seq<Seq<bool>>)
    requires
        rectangular(g),
        g.len() >= 1,
    ensures
        render_grid(g).len() == g.len() * (3 * g[0].len() + 1) - 1,
        forall|k: int|
            0 <= k < g.len() ==> render_grid(g).subrange(
                k * (3 * g[0].len() + 1),
                k * (3 * g[0].len() + 1) + 3 * g[0].len(),
            ) == render_row(g[k]),
        forall|k: int|
            1 <= k < g.len() ==> #[trigger] newline_before_line(
                render_grid(g),
                k,
                g[0].len() as int,
            ),
    decreases g.len(),
{
    reveal_strlit("\n");
    let n = g.len() as int;
    let c = g[0].len() as int;
    let w = 3 * c + 1;
    lemma_render_row_len(g.last());
    assert(g.last().len() == c);
    if n == 1 {
        assert(render_grid(g) == render_row(g[0]));
        assert forall|k: int|
            0 <= k < n implies render_grid(g).subrange(k * w, k * w + 3 * c) == render_row(
            g[k],
        ) by {
            assert(k == 0);
            assert(render_grid(g).subrange(0, 3 * c) =~= render_row(g[0]));
        }
    } else {
        let d = g.drop_last();
        assert(d[0] == g[0]);
        assert(rectangular(d)) by {
            assert(forall|i: int| 0 <= i < d.len() ==> #[trigger] d[i].len() == d[0].len()) by {
                assert(forall|i: int| 0 <= i < d.len() ==> d[i] == g[i]);
            }
        }
        lemma_render_shape(d);
        let a = render_grid(d);
        assert(render_grid(g) == a + "\n"@ + render_row(g.last()));
        assert(a.len() == (n - 1) * w - 1);
        assert((n - 1) * w + w == n * w) by (nonlinear_arith);
        assert(render_grid(g).len() == (n - 1) * w - 1 + 1 + 3 * c);
        assert(render_grid(g).len() == n * w - 1);
        assert forall|k: int|
            0 <= k < n implies render_grid(g).subrange(k * w, k * w + 3 * c) == render_row(
            g[k],
        ) by {
            if k < n - 1 {
                assert(a.subrange(k * w, k * w + 3 * c) == render_row(d[k]));
                assert(d[k] == g[k]);
                assert(k * w <= (n - 2) * w) by (nonlinear_arith)
                    requires
                        k <= n - 2,
                        w >= 0,
                ;
                assert((n - 2) * w + w == (n - 1) * w) by (nonlinear_arith);
                assert(k * w + 3 * c <= a.len());
                assert(render_grid(g).subrange(k * w, k * w + 3 * c) =~= a.subrange(
                    k * w,
                    k * w + 3 * c,
                ));
            } else {
                assert(k == n - 1);
                assert(k * w == (n - 1) * w);
                assert(render_grid(g).subrange(k * w, k * w + 3 * c) =~= render_row(g.last()));
                assert(g.last() == g[k]);
            }
        }
        assert forall|k: int|
            1 <= k < n implies #[trigger] newline_before_line(render_grid(g), k, c) by {
            if k < n - 1 {
                assert(k * w <= (n - 2) * w) by (nonlinear_arith)
                    requires
                        k <= n - 2,
                        w >= 0,
                ;
                assert((n - 2) * w + w == (n - 1) * w) by (nonlinear_arith);
                assert(k * w <= a.len());
                assert(w >= 1) by (nonlinear_arith)
                    requires
                        c >= 0,
                        w == 3 * c + 1,
                ;
                assert(k * w >= k) by (nonlinear_arith)
                    requires
                        k >= 1,
                        w >= 1,
                ;
                assert(newline_before_line(a, k, c));
                assert(a.subrange(k * w - 1, k * w) == "\n"@);
                assert(render_grid(g).subrange(k * w - 1, k * w) =~= a.subrange(k * w - 1, k * w));
            } else {
                assert(k == n - 1);
                assert(k * w - 1 == a.len());
                assert(render_grid(g)[k * w - 1] == "\n"@[0]);
                assert(render_grid(g).subrange(k * w - 1, k * w) =~= "\n"@);
            }
        }
    }
}

/// The decimal digit character for `d` with `0 <= d <= 9`.
pub open spec fn dec_digit(d: int) -> char {
    if d == 0 {
        '0'
    } else if d == 1 {
        '1'
    } else if d == 2 {
        '2'
    } else if d == 3 {
        '3'
    } else if d == 4 {
        '4'
    } else if d == 5 {
        '5'
    } else if d == 6 {
        '6'
    } else if d == 7 {
        '7'
    } else if d == 8 {
        '8'
    } else {
        '9'
    }
}

/// The decimal text of `n >= 0`, most significant digit first, no sign
/// and no leading zeros (a single `'0'` for 0).
pub open spec fn dec_rep(n: int) -> Seq<char>
    decreases n,
{
    if n < 10 {
        seq![dec_digit(n)]
    } else {
        dec_rep(n / 10).push(dec_digit(n % 10))
    }
}

/// The one-character string for a single decimal digit.
fn digit_str(d: usize) -> (s: &'static str)
    requires
        d < 10,
    ensures
        s@ == seq![dec_digit(d as int)],
{
    let s: &'static str = if d == 0 {
        "0"
    } else if d == 1 {
        "1"
    } else if d == 2 {
        "2"
    } else if d == 3 {
        "3"
    } else if d == 4 {
        "4"
    } else if d == 5 {
        "5"
    } else if d == 6 {
        "6"
    } else if d == 7 {
        "7"
    } else if d == 8 {
        "8"
    } else {
        "9"
    };
    proof {
        reveal_strlit("0");
        reveal_strlit("1");
        reveal_strlit("2");
        reveal_strlit("3");
        reveal_strlit("4");
        reveal_strlit("5");
        reveal_strlit("6");
        reveal_strlit("7");
        reveal_strlit("8");
        reveal_strlit("9");
        assert(s@ =~= seq![dec_digit(d as int)]);
    }
    s
}

/// The decimal text of `n`, as the indexed rendering prints coordinates.
pub fn fmt_usize(n: usize) -> (s: String)
    ensures
        s@ == dec_rep(n as int),
    decreases n,
{
    if n < 10 {
        let mut s = String::new();
        s.append(digit_str(n));
        proof {
            assert(s@ =~= dec_rep(n as int));
        }
        s
    } else {
        let mut s = fmt_usize(n / 10);
        s.append(digit_str(n % 10));
        proof {
            assert(s@ =~= dec_rep(n as int));
        }
        s
    }
}

/// The column-header cells: each column index between single spaces.
pub open spec fn header_cells(cols: int) -> Seq<char>
    decreases cols,
{
    if cols <= 0 {
        Seq::empty()
    } else {
        header_cells(cols - 1) + " "@ + dec_rep(cols - 1) + " "@
    }
}

/// One row of the indexed rendering: the row index between single spaces,
/// then the glyphs of the row's cells.
pub open spec fn idx_row(i: int, row: Seq<bool>) -> Seq<char> {
    " "@ + dec_rep(i) + " "@ + render_row(row)
}

/// The rows of the indexed rendering, separated by newlines.
pub open spec fn idx_rows(g: Seq<Seq<bool>>) -> Seq<char>
    decreases g.len(),
{
    if g.len() == 0 {
        Seq::empty()
    } else if g.len() == 1 {
        idx_row(0, g[0])
    } else {
        idx_rows(g.drop_last()) + "\n"@ + idx_row(g.len() - 1, g.last())
    }
}

/// The indexed rendering: a header line of column indices, then each row
/// prefixed with its own index, for targeting cells during setup.
pub open spec fn render_grid_idx(g: Seq<Seq<bool>>) -> Seq<char> {
    "   "@ + header_cells(g[0].len() as int) + "\n"@ + idx_rows(g)
}

impl Board {
    /// The indexed textual form of the grid, used while seeding it: a
    /// header of zero-based column indices, then each row prefixed with
    /// its zero-based row index.
    pub fn render_with_idx(&self) -> (s: String)
        requires
            self.grid().len() >= 1,
        ensures
            s@ == render_grid_idx(self.grid()),
    {
        let ghost g = self.grid();
        let mut s = String::new();
        s.append("   ");
        let cols = self.positions[0].len();
        proof {
            assert(s@ =~= "   "@ + header_cells(0));
        }
        let mut c: usize = 0;
        while c < cols
            invariant
                c <= cols,
                g == self.grid(),
                g.len() >= 1,
                cols == g[0].len(),
                s@ == "   "@ + header_cells(c as int),
            decreases cols - c,
        {
            s.append(" ");
            let d = fmt_usize(c);
            s.append(d.as_str());
            s.append(" ");
            proof {
                assert(s@ =~= "   "@ + header_cells(c + 1));
            }
            c = c + 1;
        }
        s.append("\n");
        let ghost pre = "   "@ + header_cells(g[0].len() as int) + "\n"@;
        proof {
            assert(s@ =~= pre);
            assert(s@ =~= pre + idx_rows(g.take(0)));
        }
        let n = self.positions.len();
        let mut i: usize = 0;
        while i < n
            invariant
                i <= n,
                n == g.len(),
                g == self.grid(),
                g.len() >= 1,
                pre == "   "@ + header_cells(g[0].len() as int) + "\n"@,
                s@ == pre + idx_rows(g.take(i as int)),
            decreases n - i,
        {
            if i != 0 {
                s.append("\n");
            }
            s.append(" ");
            let d = fmt_usize(i);
            s.append(d.as_str());
            s.append(" ");
            let row = Self::render_row_string(&self.positions[i]);
            s.append(row.as_str());
            proof {
                assert(g.take(i + 1).last() == g[i as int]);
                if i == 0 {
                    assert(s@ =~= pre + idx_row(0, g[0]));
                    assert(s@ =~= pre + idx_rows(g.take(1)));
                } else {
                    assert(g.take(i + 1).drop_last() =~= g.take(i as int));
                    assert(s@ =~= pre + (idx_rows(g.take(i as int)) + "\n"@ + idx_row(
                        i as int,
                        g[i as int],
                    )));
                    assert(s@ =~= pre + idx_rows(g.take(i + 1)));
                }
            }
            i = i + 1;
        }
        proof {
            assert(g.take(n as int) =~= g);
        }
        s
    }
}

impl From<Vec<Vec<bool>>> for Board {
    /// A board whose cells are the given matrix, with the tick counter at 0.
    fn from(v: Vec<Vec<bool>>) -> (b: Board) {
        Board { positions: v, iter: 0 }
    }
}

impl vstd::std_specs::convert::FromSpecImpl<Vec<Vec<bool>>> for Board {
    open spec fn obeys_from_spec() -> bool {
        true
    }

    open spec fn from_spec(v: Vec<Vec<bool>>) -> Board {
        Board { positions: v, iter: 0 }
    }
}

} // verus!
