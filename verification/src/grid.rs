//! Dense tables of scores and labels, kept in `ndarray` arrays.
//!
//! Verus sees nothing inside an array. What a table holds is given a name here, and the
//! functions that reach into the array say what they read and write in terms of it.
use vstd::prelude::*;

verus! {

/// The length of an axis as it counts towards the size of a shape: an empty axis counts one.
pub open spec fn extent(n: nat) -> nat {
    if n == 0 {
        1
    } else {
        n
    }
}

/// Whether an array of four-byte cells with this shape can exist on this machine.
pub open spec fn shape_fits(rows: nat, columns: nat) -> bool {
    &&& extent(rows) * extent(columns) <= isize::MAX
    &&& 4 * (rows * columns) <= isize::MAX
}

/// Whether a three-axis array of four-byte cells with this shape can exist on this machine.
pub open spec fn cube_fits(layers: nat, rows: nat, columns: nat) -> bool {
    &&& extent(layers) * extent(rows) * extent(columns) <= isize::MAX
    &&& 4 * (layers * rows * columns) <= isize::MAX
}

/// Whether an array of four-byte cells with this shape can exist on this machine.
pub fn can_hold(rows: usize, columns: usize) -> (r: bool)
    ensures
        r == shape_fits(rows as nat, columns as nat),
{
    let most: u128 = isize::MAX as u128;
    let tall: u128 = if rows == 0 {
        1
    } else {
        rows as u128
    };
    let wide: u128 = if columns == 0 {
        1
    } else {
        columns as u128
    };
    proof {
        assert(tall * wide <= 0xffff_ffff_ffff_ffff * 0xffff_ffff_ffff_ffff) by (nonlinear_arith)
            requires
                tall <= 0xffff_ffff_ffff_ffff,
                wide <= 0xffff_ffff_ffff_ffff,
        ;
        assert(rows * columns <= tall * wide) by (nonlinear_arith)
            requires
                rows <= tall,
                columns <= wide,
        ;
    }
    if tall * wide > most {
        return false;
    }
    4 * (rows as u128 * columns as u128) <= most
}

/// Whether every row has the same number of cells.
pub open spec fn rectangular<T>(rows: Seq<Seq<T>>, columns: nat) -> bool {
    forall|i: int| 0 <= i < rows.len() ==> (#[trigger] rows[i]).len() == columns
}

/// A table with one value in every cell.
pub open spec fn filled<T>(rows: nat, columns: nat, cell: T) -> Seq<Seq<T>> {
    Seq::new(rows, |i: int| Seq::new(columns, |j: int| cell))
}

/// `rows` with one cell replaced.
pub open spec fn with_cell<T>(rows: Seq<Seq<T>>, i: int, j: int, cell: T) -> Seq<Seq<T>> {
    rows.update(i, rows[i].update(j, cell))
}

/// A table of scores.
#[derive(Debug, PartialEq, Eq)]
#[verifier::external_body]
pub struct ScoreGrid {
    cells: ndarray::Array2<u32>,
}

/// The rows of a table of scores.
pub uninterp spec fn score_rows(grid: ScoreGrid) -> Seq<Seq<u32>>;

/// How many columns a table of scores has, which its rows do not tell when there are none.
pub uninterp spec fn score_columns(grid: ScoreGrid) -> nat;

impl View for ScoreGrid {
    type V = Seq<Seq<u32>>;

    open spec fn view(&self) -> Seq<Seq<u32>> {
        score_rows(*self)
    }
}

/// `ndarray::Array2::from_elem`: an array of the given shape with `cell` everywhere. It
/// panics on a shape whose non-empty axes multiply beyond `isize`, and so does the vector
/// underneath when its bytes do; `shape_fits` leaves both out.
#[verifier::external_body]
fn score_grid_from_elem(rows: usize, columns: usize, cell: u32) -> (r: ScoreGrid)
    requires
        shape_fits(rows as nat, columns as nat),
    ensures
        score_rows(r) == filled(rows as nat, columns as nat, cell),
        score_columns(r) == columns,
{
    ScoreGrid { cells: ndarray::Array2::from_elem((rows, columns), cell) }
}

/// `ndarray::ArrayBase::dim`: the lengths of the two axes. Every row is as long as the
/// second, and the shape is one that an array could be made with.
#[verifier::external_body]
fn score_grid_dim(grid: &ScoreGrid) -> (r: (usize, usize))
    ensures
        r.0 == score_rows(*grid).len(),
        r.1 == score_columns(*grid),
        rectangular(score_rows(*grid), r.1 as nat),
        shape_fits(r.0 as nat, r.1 as nat),
{
    grid.cells.dim()
}

/// Indexing an `ndarray` array by row and column; out of bounds it panics.
#[verifier::external_body]
fn score_grid_index(grid: &ScoreGrid, row: usize, column: usize) -> (r: u32)
    requires
        row < score_rows(*grid).len(),
        column < score_columns(*grid),
    ensures
        r == score_rows(*grid)[row as int][column as int],
{
    grid.cells[[row, column]]
}

/// Assigning through a mutable index of an `ndarray` array: one cell changes and nothing
/// else; out of bounds it panics.
#[verifier::external_body]
fn score_grid_index_mut(grid: &mut ScoreGrid, row: usize, column: usize, cell: u32)
    requires
        row < score_rows(*old(grid)).len(),
        column < score_columns(*old(grid)),
    ensures
        score_rows(*final(grid)) == with_cell(
            score_rows(*old(grid)),
            row as int,
            column as int,
            cell,
        ),
        score_columns(*final(grid)) == score_columns(*old(grid)),
{
    grid.cells[[row, column]] = cell;
}

impl ScoreGrid {
    /// How many columns the table has.
    pub open spec fn columns(&self) -> nat {
        score_columns(*self)
    }

    /// A table with one score everywhere.
    pub fn filled(rows: usize, columns: usize, cell: u32) -> (r: Self)
        requires
            shape_fits(rows as nat, columns as nat),
        ensures
            r@ == filled(rows as nat, columns as nat, cell),
            r.columns() == columns,
    {
        score_grid_from_elem(rows, columns, cell)
    }

    /// The number of rows and of columns.
    pub fn dim(&self) -> (r: (usize, usize))
        ensures
            r.0 == self@.len(),
            r.1 == self.columns(),
            rectangular(self@, self.columns()),
            shape_fits(self@.len(), self.columns()),
    {
        score_grid_dim(self)
    }

    /// The score in one cell.
    pub fn at(&self, row: usize, column: usize) -> (r: u32)
        requires
            row < self@.len(),
            column < self.columns(),
        ensures
            r == self@[row as int][column as int],
    {
        score_grid_index(self, row, column)
    }

    /// Replaces the score in one cell.
    pub fn set(&mut self, row: usize, column: usize, cell: u32)
        requires
            row < old(self)@.len(),
            column < old(self).columns(),
        ensures
            final(self)@ == with_cell(old(self)@, row as int, column as int, cell),
            final(self).columns() == old(self).columns(),
    {
        score_grid_index_mut(self, row, column, cell)
    }

    /// One row of the table.
    pub fn row(&self, row: usize) -> (r: Vec<u32>)
        requires
            row < self@.len(),
        ensures
            r@ == self@[row as int],
            r@.len() == self.columns(),
    {
        let (_rows, columns): (usize, usize) = self.dim();
        let mut cells: Vec<u32> = Vec::new();
        let mut column: usize = 0;
        while column < columns
            invariant
                row < self@.len(),
                columns == self.columns(),
                column <= columns,
                self@[row as int].len() == columns,
                cells@ == self@[row as int].take(column as int),
            decreases columns - column,
        {
            cells.push(self.at(row, column));
            column = column + 1;
            proof {
                assert(cells@ =~= self@[row as int].take(column as int));
            }
        }
        proof {
            assert(cells@ =~= self@[row as int]);
        }
        cells
    }

    /// Replaces one row of the table.
    pub fn set_row(&mut self, row: usize, cells: &Vec<u32>)
        requires
            row < old(self)@.len(),
            cells@.len() == old(self).columns(),
        ensures
            final(self)@ == old(self)@.update(row as int, cells@),
            final(self).columns() == old(self).columns(),
    {
        let (_rows, columns): (usize, usize) = self.dim();
        let ghost earlier = self@;
        let mut column: usize = 0;
        while column < columns
            invariant
                row < self@.len(),
                self@.len() == earlier.len(),
                columns == self.columns(),
                cells@.len() == columns,
                column <= columns,
                self@[row as int].len() == columns,
                forall|i: int|
                    0 <= i < earlier.len() && i != row ==> #[trigger] self@[i] == earlier[i],
                forall|j: int| 0 <= j < column ==> #[trigger] self@[row as int][j] == cells@[j],
            decreases columns - column,
        {
            self.set(row, column, cells[column]);
            column = column + 1;
        }
        proof {
            assert(self@[row as int] =~= cells@);
            assert(self@ =~= earlier.update(row as int, cells@));
        }
    }

    /// A table with the given rows, each of `columns` scores.
    pub fn from_rows(rows: &Vec<Vec<u32>>, columns: usize) -> (r: Self)
        requires
            shape_fits(rows@.len(), columns as nat),
            forall|i: int| 0 <= i < rows@.len() ==> (#[trigger] rows@[i])@.len() == columns,
        ensures
            r@ == Seq::new(rows@.len(), |i: int| rows@[i]@),
            r.columns() == columns,
    {
        let mut grid: ScoreGrid = ScoreGrid::filled(rows.len(), columns, 0);
        let mut i: usize = 0;
        while i < rows.len()
            invariant
                i <= rows@.len(),
                grid@.len() == rows@.len(),
                grid.columns() == columns,
                forall|k: int| 0 <= k < rows@.len() ==> (#[trigger] rows@[k])@.len() == columns,
                forall|k: int| 0 <= k < i ==> #[trigger] grid@[k] == rows@[k]@,
                forall|k: int| i <= k < rows@.len() ==> (#[trigger] grid@[k]).len() == columns,
            decreases rows@.len() - i,
        {
            let mut j: usize = 0;
            while j < columns
                invariant
                    i < rows@.len(),
                    j <= columns,
                    rows@[i as int]@.len() == columns,
                    grid@.len() == rows@.len(),
                    grid.columns() == columns,
                    grid@[i as int].len() == columns,
                    forall|k: int| 0 <= k < i ==> #[trigger] grid@[k] == rows@[k]@,
                    forall|k: int| i < k < rows@.len() ==> (#[trigger] grid@[k]).len() == columns,
                    forall|k: int|
                        0 <= k < j ==> #[trigger] grid@[i as int][k] == rows@[i as int]@[k],
                decreases columns - j,
            {
                grid.set(i, j, rows[i][j]);
                j = j + 1;
            }
            proof {
                assert(grid@[i as int] =~= rows@[i as int]@);
            }
            i = i + 1;
        }
        proof {
            assert(grid@ =~= Seq::new(rows@.len(), |i: int| rows@[i]@));
        }
        grid
    }
}

impl Clone for ScoreGrid {
    fn clone(&self) -> (r: Self)
        ensures
            r@ == self@,
            r.columns() == self.columns(),
    {
        let (rows, columns): (usize, usize) = self.dim();
        let mut copy: ScoreGrid = ScoreGrid::filled(rows, columns, 0);
        let mut row: usize = 0;
        while row < rows
            invariant
                rows == self@.len(),
                columns == self.columns(),
                row <= rows,
                copy@.len() == rows,
                copy.columns() == columns,
                forall|i: int| 0 <= i < row ==> #[trigger] copy@[i] == self@[i],
            decreases rows - row,
        {
            let cells: Vec<u32> = self.row(row);
            copy.set_row(row, &cells);
            row = row + 1;
        }
        proof {
            assert(copy@ =~= self@);
        }
        copy
    }
}

/// A table of cluster labels.
#[derive(Debug, PartialEq, Eq)]
#[verifier::external_body]
pub struct LabelGrid {
    cells: ndarray::Array2<i32>,
}

/// The rows of a table of labels.
pub uninterp spec fn label_rows(grid: LabelGrid) -> Seq<Seq<i32>>;

/// How many columns a table of labels has.
pub uninterp spec fn label_columns(grid: LabelGrid) -> nat;

impl View for LabelGrid {
    type V = Seq<Seq<i32>>;

    open spec fn view(&self) -> Seq<Seq<i32>> {
        label_rows(*self)
    }
}

/// `ndarray::Array2::from_elem`, as for scores: an array of the given shape with `cell`
/// everywhere.
#[verifier::external_body]
fn label_grid_from_elem(rows: usize, columns: usize, cell: i32) -> (r: LabelGrid)
    requires
        shape_fits(rows as nat, columns as nat),
    ensures
        label_rows(r) == filled(rows as nat, columns as nat, cell),
        label_columns(r) == columns,
{
    LabelGrid { cells: ndarray::Array2::from_elem((rows, columns), cell) }
}

/// `ndarray::ArrayBase::dim`, as for scores.
#[verifier::external_body]
fn label_grid_dim(grid: &LabelGrid) -> (r: (usize, usize))
    ensures
        r.0 == label_rows(*grid).len(),
        r.1 == label_columns(*grid),
        rectangular(label_rows(*grid), r.1 as nat),
        shape_fits(r.0 as nat, r.1 as nat),
{
    grid.cells.dim()
}

/// Indexing an `ndarray` array by row and column; out of bounds it panics.
#[verifier::external_body]
fn label_grid_index(grid: &LabelGrid, row: usize, column: usize) -> (r: i32)
    requires
        row < label_rows(*grid).len(),
        column < label_columns(*grid),
    ensures
        r == label_rows(*grid)[row as int][column as int],
{
    grid.cells[[row, column]]
}

/// Assigning through a mutable index of an `ndarray` array: one cell changes and nothing
/// else; out of bounds it panics.
#[verifier::external_body]
fn label_grid_index_mut(grid: &mut LabelGrid, row: usize, column: usize, cell: i32)
    requires
        row < label_rows(*old(grid)).len(),
        column < label_columns(*old(grid)),
    ensures
        label_rows(*final(grid)) == with_cell(
            label_rows(*old(grid)),
            row as int,
            column as int,
            cell,
        ),
        label_columns(*final(grid)) == label_columns(*old(grid)),
{
    grid.cells[[row, column]] = cell;
}

impl LabelGrid {
    /// How many columns the table has.
    pub open spec fn columns(&self) -> nat {
        label_columns(*self)
    }

    /// A table with one label everywhere.
    pub fn filled(rows: usize, columns: usize, cell: i32) -> (r: Self)
        requires
            shape_fits(rows as nat, columns as nat),
        ensures
            r@ == filled(rows as nat, columns as nat, cell),
            r.columns() == columns,
    {
        label_grid_from_elem(rows, columns, cell)
    }

    /// The number of rows and of columns.
    pub fn dim(&self) -> (r: (usize, usize))
        ensures
            r.0 == self@.len(),
            r.1 == self.columns(),
            rectangular(self@, self.columns()),
            shape_fits(self@.len(), self.columns()),
    {
        label_grid_dim(self)
    }

    /// The label in one cell.
    pub fn at(&self, row: usize, column: usize) -> (r: i32)
        requires
            row < self@.len(),
            column < self.columns(),
        ensures
            r == self@[row as int][column as int],
    {
        label_grid_index(self, row, column)
    }

    /// Replaces the label in one cell.
    pub fn set(&mut self, row: usize, column: usize, cell: i32)
        requires
            row < old(self)@.len(),
            column < old(self).columns(),
        ensures
            final(self)@ == with_cell(old(self)@, row as int, column as int, cell),
            final(self).columns() == old(self).columns(),
    {
        label_grid_index_mut(self, row, column, cell)
    }
}

/// A table of scores with three axes.
#[derive(Debug, PartialEq, Eq)]
#[verifier::external_body]
pub struct ScoreCube {
    cells: ndarray::Array3<u32>,
}

/// The layers of a three-axis table, each a sequence of rows.
pub uninterp spec fn cube_layers(cube: ScoreCube) -> Seq<Seq<Seq<u32>>>;

/// How many rows and columns every layer of a three-axis table has.
pub uninterp spec fn cube_face(cube: ScoreCube) -> (nat, nat);

impl View for ScoreCube {
    type V = Seq<Seq<Seq<u32>>>;

    open spec fn view(&self) -> Seq<Seq<Seq<u32>>> {
        cube_layers(*self)
    }
}

/// `ndarray::Array3::from_elem`: an array of the given shape with `cell` everywhere, under
/// the same limits as with two axes.
#[verifier::external_body]
fn score_cube_from_elem(layers: usize, rows: usize, columns: usize, cell: u32) -> (r: ScoreCube)
    requires
        cube_fits(layers as nat, rows as nat, columns as nat),
    ensures
        cube_layers(r) == Seq::new(
            layers as nat,
            |i: int| filled(rows as nat, columns as nat, cell),
        ),
        cube_face(r) == (rows as nat, columns as nat),
{
    ScoreCube { cells: ndarray::Array3::from_elem((layers, rows, columns), cell) }
}

/// `ndarray::ArrayBase::dim`: the lengths of the three axes.
#[verifier::external_body]
fn score_cube_dim(cube: &ScoreCube) -> (r: (usize, usize, usize))
    ensures
        r.0 == cube_layers(*cube).len(),
        (r.1 as nat, r.2 as nat) == cube_face(*cube),
        forall|i: int|
            0 <= i < cube_layers(*cube).len() ==> (#[trigger] cube_layers(*cube)[i]).len() == r.1
                && rectangular(cube_layers(*cube)[i], r.2 as nat),
        cube_fits(r.0 as nat, r.1 as nat, r.2 as nat),
{
    cube.cells.dim()
}

/// Indexing an `ndarray` array by its three axes; out of bounds it panics.
#[verifier::external_body]
fn score_cube_index(cube: &ScoreCube, layer: usize, row: usize, column: usize) -> (r: u32)
    requires
        layer < cube_layers(*cube).len(),
        row < cube_face(*cube).0,
        column < cube_face(*cube).1,
    ensures
        r == cube_layers(*cube)[layer as int][row as int][column as int],
{
    cube.cells[[layer, row, column]]
}

/// Assigning through a mutable index of an `ndarray` array: one cell changes and nothing
/// else; out of bounds it panics.
#[verifier::external_body]
fn score_cube_index_mut(cube: &mut ScoreCube, layer: usize, row: usize, column: usize, cell: u32)
    requires
        layer < cube_layers(*old(cube)).len(),
        row < cube_face(*old(cube)).0,
        column < cube_face(*old(cube)).1,
    ensures
        cube_layers(*final(cube)) == cube_layers(*old(cube)).update(
            layer as int,
            with_cell(cube_layers(*old(cube))[layer as int], row as int, column as int, cell),
        ),
        cube_face(*final(cube)) == cube_face(*old(cube)),
{
    cube.cells[[layer, row, column]] = cell;
}

impl ScoreCube {
    /// How many rows every layer has.
    pub open spec fn rows(&self) -> nat {
        cube_face(*self).0
    }

    /// How many columns every layer has.
    pub open spec fn columns(&self) -> nat {
        cube_face(*self).1
    }

    /// A table with one score everywhere.
    pub fn filled(layers: usize, rows: usize, columns: usize, cell: u32) -> (r: Self)
        requires
            cube_fits(layers as nat, rows as nat, columns as nat),
        ensures
            r@ == Seq::new(layers as nat, |i: int| filled(rows as nat, columns as nat, cell)),
            r.rows() == rows,
            r.columns() == columns,
    {
        score_cube_from_elem(layers, rows, columns, cell)
    }

    /// The lengths of the three axes.
    pub fn dim(&self) -> (r: (usize, usize, usize))
        ensures
            r.0 == self@.len(),
            r.1 == self.rows(),
            r.2 == self.columns(),
            forall|i: int|
                0 <= i < self@.len() ==> (#[trigger] self@[i]).len() == self.rows() && rectangular(
                    self@[i],
                    self.columns(),
                ),
            cube_fits(self@.len(), self.rows(), self.columns()),
    {
        score_cube_dim(self)
    }

    /// The score in one cell.
    pub fn at(&self, layer: usize, row: usize, column: usize) -> (r: u32)
        requires
            layer < self@.len(),
            row < self.rows(),
            column < self.columns(),
        ensures
            r == self@[layer as int][row as int][column as int],
    {
        score_cube_index(self, layer, row, column)
    }

    /// Replaces the score in one cell.
    pub fn set(&mut self, layer: usize, row: usize, column: usize, cell: u32)
        requires
            layer < old(self)@.len(),
            row < old(self).rows(),
            column < old(self).columns(),
        ensures
            final(self)@ == old(self)@.update(
                layer as int,
                with_cell(old(self)@[layer as int], row as int, column as int, cell),
            ),
            final(self).rows() == old(self).rows(),
            final(self).columns() == old(self).columns(),
    {
        score_cube_index_mut(self, layer, row, column, cell)
    }
}

/// A table with cells fits exactly where their bytes do, and one without cells where its only
/// other axis can be counted.
pub proof fn law_tables_fit_where_their_bytes_do(rows: nat, columns: nat)
    ensures
        rows > 0 && columns > 0 ==> (shape_fits(rows, columns) <==> 4 * (rows * columns)
            <= isize::MAX),
        shape_fits(rows, 0) <==> rows <= isize::MAX,
        shape_fits(0, columns) <==> columns <= isize::MAX,
        shape_fits(rows, columns) <==> shape_fits(columns, rows),
{
    assert(rows * columns == columns * rows) by (nonlinear_arith);
    assert(extent(rows) * extent(columns) == extent(columns) * extent(rows)) by (nonlinear_arith);
    assert(rows * columns >= 0) by (nonlinear_arith);
}

} // verus!
