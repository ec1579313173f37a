//! Dense row-major tables of two and three dimensions over one reusable buffer.

use vstd::prelude::*;
use crate::fixed::Fixed;

verus! {

/// Width of the blocks in which the fused kernel walks the innermost axis.
pub const CHUNK_SIZE: usize = 4;

/// A cell of a table with `columns` columns lies inside the first `rows * columns`
/// places of the buffer.
pub proof fn lemma_offset_in_range(row: int, column: int, rows: int, columns: int)
    requires
        0 <= row < rows,
        0 <= column < columns,
    ensures
        0 <= row * columns,
        0 <= row * columns + column < rows * columns,
{
    assert(0 <= row * columns && row * columns + columns <= rows * columns) by (nonlinear_arith)
        requires
            0 <= row,
            row + 1 <= rows,
            0 < columns,
    ;
}

/// Two cells of a table share a place in the buffer only if they are the same cell.
pub proof fn lemma_offset_injective(r1: int, c1: int, r2: int, c2: int, columns: int)
    requires
        0 <= c1 < columns,
        0 <= c2 < columns,
        0 <= r1,
        0 <= r2,
        r1 * columns + c1 == r2 * columns + c2,
    ensures
        r1 == r2,
        c1 == c2,
{
    if r1 < r2 {
        assert(r1 * columns + columns <= r2 * columns) by (nonlinear_arith)
            requires
                r1 + 1 <= r2,
                0 < columns,
        ;
    } else if r2 < r1 {
        assert(r2 * columns + columns <= r1 * columns) by (nonlinear_arith)
            requires
                r2 + 1 <= r1,
                0 < columns,
        ;
    }
}

/// Every place among the first `rows * columns` of a buffer is that of one cell.
pub proof fn lemma_place_is_cell(place: int, rows: int, columns: int)
    requires
        0 <= place < rows * columns,
        0 <= rows,
        0 <= columns,
    ensures
        0 < columns,
        0 <= place / columns < rows,
        0 <= place % columns < columns,
        place == (place / columns) * columns + place % columns,
{
    assert(0 < columns) by (nonlinear_arith)
        requires
            0 <= place < rows * columns,
            0 <= rows,
            0 <= columns,
    ;
    assert(place == columns * (place / columns) + place % columns && 0 <= place % columns
        < columns) by (nonlinear_arith)
        requires
            0 < columns,
    ;
    assert(0 <= place / columns < rows) by (nonlinear_arith)
        requires
            0 <= place < rows * columns,
            0 < columns,
            place == columns * (place / columns) + place % columns,
            0 <= place % columns < columns,
    ;
}

/// A vector of `len` copies of `value`.
pub fn filled(len: usize, value: Fixed) -> (buffer: Vec<Fixed>)
    ensures
        buffer@.len() == len,
        forall|i: int| 0 <= i < len ==> buffer@[i] == value,
{
    let mut buffer: Vec<Fixed> = Vec::with_capacity(len);
    let mut i: usize = 0;
    while i < len
        invariant
            i <= len,
            buffer@.len() == i,
            forall|j: int| 0 <= j < i ==> buffer@[j] == value,
        decreases len - i,
    {
        buffer.push(value);
        i += 1;
    }
    buffer
}

/// A matrix of `num_rows` by `num_columns` cells, stored row after row at the
/// start of a buffer that may be longer than the matrix.
#[derive(Clone)]
pub struct DenseMatrix {
    pub num_rows: usize,
    pub num_columns: usize,
    pub buffer: Vec<Fixed>,
}

impl DenseMatrix {
    /// The matrix fits in its buffer.
    pub open spec fn wf(&self) -> bool {
        self.num_rows * self.num_columns <= self.buffer@.len()
    }

    /// The cell in row `row` and column `column`.
    pub open spec fn at(&self, row: int, column: int) -> Fixed {
        self.buffer@[row * self.num_columns + column]
    }

    /// Whether `(row, column)` names a cell of the matrix.
    pub open spec fn holds(&self, row: int, column: int) -> bool {
        0 <= row < self.num_rows && 0 <= column < self.num_columns
    }

    /// The matrix of the given shape over the same buffer.
    pub open spec fn reshaped(self, num_rows: usize, num_columns: usize) -> DenseMatrix {
        DenseMatrix { num_rows, num_columns, buffer: self.buffer }
    }

    /// The two matrices have one shape, and their buffers one length and the same
    /// content behind the last cell of that shape.
    pub open spec fn same_frame(&self, other: &DenseMatrix) -> bool {
        &&& self.num_rows == other.num_rows
        &&& self.num_columns == other.num_columns
        &&& self.buffer@.len() == other.buffer@.len()
        &&& forall|i: int|
            self.num_rows * self.num_columns <= i < self.buffer@.len() ==> self.buffer@[i]
                == other.buffer@[i]
    }

    /// Two matrices of one shape that agree in every cell and behind the last cell
    /// have the same buffer.
    pub proof fn lemma_same_cells_same_buffer(&self, other: &DenseMatrix)
        requires
            self.wf(),
            self.same_frame(other),
            forall|r: int, c: int| self.holds(r, c) ==> #[trigger] self.at(r, c) == other.at(r, c),
        ensures
            self.buffer@ == other.buffer@,
    {
        assert forall|i: int| 0 <= i < self.buffer@.len() implies self.buffer@[i]
            == other.buffer@[i] by {
            if i < self.num_rows * self.num_columns {
                lemma_place_is_cell(i, self.num_rows as int, self.num_columns as int);
                let r = i / (self.num_columns as int);
                let c = i % (self.num_columns as int);
                assert(self.at(r, c) == other.at(r, c));
            }
        }
    }

    /// A matrix of zeros whose buffer is just as long as the matrix.
    pub fn new(num_rows: usize, num_columns: usize) -> (m: DenseMatrix)
        requires
            num_rows * num_columns <= usize::MAX,
        ensures
            m.wf(),
            m.num_rows == num_rows,
            m.num_columns == num_columns,
            m.buffer@.len() == num_rows * num_columns,
            forall|i: int| 0 <= i < m.buffer@.len() ==> m.buffer@[i] == Fixed::zero_spec(),
    {
        DenseMatrix::allocate_with_capacity(num_rows, num_columns, num_rows * num_columns)
    }

    /// A matrix of zeros over a buffer of `capacity` zeros.
    pub fn allocate_with_capacity(num_rows: usize, num_columns: usize, capacity: usize) -> (m:
        DenseMatrix)
        requires
            capacity >= num_rows * num_columns,
        ensures
            m.wf(),
            m.num_rows == num_rows,
            m.num_columns == num_columns,
            m.buffer@.len() == capacity,
            forall|i: int| 0 <= i < capacity ==> m.buffer@[i] == Fixed::zero_spec(),
    {
        let buffer = filled(capacity, Fixed::zero());
        DenseMatrix { num_rows, num_columns, buffer }
    }

    /// Gives the matrix a new shape over the same buffer, whose cells keep what they held.
    pub fn reuse_as(&mut self, num_rows: usize, num_columns: usize)
        requires
            old(self).buffer@.len() >= num_rows * num_columns,
        ensures
            final(self).wf(),
            *final(self) == old(self).reshaped(num_rows, num_columns),
    {
        self.num_rows = num_rows;
        self.num_columns = num_columns;
    }

    /// The whole buffer, behind the last cell too.
    pub fn view_buffer(&self) -> (buffer: &[Fixed])
        ensures
            buffer@ == self.buffer@,
    {
        self.buffer.as_slice()
    }

    /// The cell in row `row` and column `column`.
    pub fn get(&self, row: usize, column: usize) -> (value: Fixed)
        requires
            self.wf(),
            self.holds(row as int, column as int),
        ensures
            value == self.at(row as int, column as int),
    {
        proof {
            lemma_offset_in_range(
                row as int,
                column as int,
                self.num_rows as int,
                self.num_columns as int,
            );
        }
        let capacity: usize = self.buffer.len();
        self.buffer[row * self.num_columns + column]
    }

    /// Writes `value` into the cell in row `row` and column `column`.
    pub fn set(&mut self, row: usize, column: usize, value: Fixed)
        requires
            old(self).wf(),
            old(self).holds(row as int, column as int),
        ensures
            final(self).wf(),
            final(self).same_frame(old(self)),
            final(self).buffer@ == old(self).buffer@.update(
                row * old(self).num_columns + column,
                value,
            ),
            final(self).at(row as int, column as int) == value,
            forall|r: int, c: int|
                old(self).holds(r, c) && (r != row || c != column) ==> #[trigger] final(self).at(
                    r,
                    c,
                ) == old(self).at(r, c),
    {
        proof {
            lemma_offset_in_range(
                row as int,
                column as int,
                self.num_rows as int,
                self.num_columns as int,
            );
        }
        let capacity: usize = self.buffer.len();
        let position: usize = row * self.num_columns + column;
        self.buffer[position] = value;
        proof {
            assert forall|r: int, c: int|
                old(self).holds(r, c) && (r != row || c != column) implies #[trigger] self.at(r, c)
                == old(self).at(r, c) by {
                lemma_offset_in_range(r, c, self.num_rows as int, self.num_columns as int);
                if r * self.num_columns + c == row * self.num_columns + column {
                    lemma_offset_injective(r, c, row as int, column as int, self.num_columns as int);
                }
            }
        }
    }
}

/// A row of `width` cells that starts at `first` either is the row that starts at
/// `second` or shares no cell with it.
pub open spec fn rows_apart(first: int, second: int, width: int) -> bool {
    first == second || first + width <= second || second + width <= first
}

/// What the fused kernel has done once the first `count` cells of the target row are
/// written: each holds the weighted sum of the cells that stood at its place in the two
/// source rows, and every other place of the buffer holds what it held.
pub open spec fn fused_done(
    before: Seq<Fixed>,
    now: Seq<Fixed>,
    y_start: int,
    x1_start: int,
    a1: Fixed,
    x2_start: int,
    a2: Fixed,
    count: int,
) -> bool {
    &&& now.len() == before.len()
    &&& forall|e: int|
        0 <= e < count ==> #[trigger] now[y_start + e] == before[x1_start + e].times_spec(
            a1,
        ).plus_spec(before[x2_start + e].times_spec(a2))
    &&& forall|i: int|
        0 <= i < before.len() && !(y_start <= i < y_start + count) ==> #[trigger] now[i]
            == before[i]
}

/// A tensor of `dim_1` by `dim_2` by `dim_3` cells, stored with the last index
/// running fastest at the start of a buffer that may be longer than the tensor.
pub struct DenseTensor {
    pub dim_1: usize,
    pub dim_2: usize,
    pub dim_3: usize,
    pub buffer: Vec<Fixed>,
}

impl DenseTensor {
    /// The tensor fits in its buffer.
    pub open spec fn wf(&self) -> bool {
        self.dim_1 * self.dim_2 * self.dim_3 <= self.buffer@.len()
    }

    /// Place in the buffer of the first cell of row `(index_1, index_2)`.
    pub open spec fn row_start(&self, index_1: int, index_2: int) -> int {
        (index_1 * self.dim_2 + index_2) * self.dim_3
    }

    /// The cell at `(index_1, index_2, index_3)`.
    pub open spec fn at(&self, index_1: int, index_2: int, index_3: int) -> Fixed {
        self.buffer@[self.row_start(index_1, index_2) + index_3]
    }

    /// Whether `(index_1, index_2)` names a row of the tensor.
    pub open spec fn holds_row(&self, index_1: int, index_2: int) -> bool {
        0 <= index_1 < self.dim_1 && 0 <= index_2 < self.dim_2
    }

    /// The tensor of the given shape over the same buffer.
    pub open spec fn reshaped(self, dim_1: usize, dim_2: usize, dim_3: usize) -> DenseTensor {
        DenseTensor { dim_1, dim_2, dim_3, buffer: self.buffer }
    }

    /// The two tensors have one shape, and their buffers one length and the same
    /// content behind the last cell of that shape.
    pub open spec fn same_frame(&self, other: &DenseTensor) -> bool {
        &&& self.dim_1 == other.dim_1
        &&& self.dim_2 == other.dim_2
        &&& self.dim_3 == other.dim_3
        &&& self.buffer@.len() == other.buffer@.len()
        &&& forall|i: int|
            self.dim_1 * self.dim_2 * self.dim_3 <= i < self.buffer@.len() ==> self.buffer@[i]
                == other.buffer@[i]
    }

    /// Whether `(index_1, index_2, index_3)` names a cell of the tensor.
    pub open spec fn holds(&self, index_1: int, index_2: int, index_3: int) -> bool {
        self.holds_row(index_1, index_2) && 0 <= index_3 < self.dim_3
    }

    /// The rows of a tensor lie one after the other inside the tensor's part of the buffer.
    pub proof fn lemma_row_in_range(&self, index_1: int, index_2: int)
        requires
            self.holds_row(index_1, index_2),
        ensures
            0 <= index_1 * self.dim_2,
            0 <= index_1 * self.dim_2 + index_2 < self.dim_1 * self.dim_2,
            0 <= self.row_start(index_1, index_2),
            self.row_start(index_1, index_2) + self.dim_3 <= self.dim_1 * self.dim_2 * self.dim_3,
    {
        lemma_offset_in_range(index_1, index_2, self.dim_1 as int, self.dim_2 as int);
        let row = index_1 * self.dim_2 + index_2;
        let rows = self.dim_1 * self.dim_2;
        let width = self.dim_3 as int;
        assert(0 <= row * width && row * width + width <= rows * width) by (nonlinear_arith)
            requires
                0 <= row,
                row + 1 <= rows,
                0 <= width,
        ;
    }

    /// Two rows of a tensor with cells in them are the same row or share no cell.
    pub proof fn lemma_rows_apart(&self, a1: int, a2: int, b1: int, b2: int)
        requires
            self.holds_row(a1, a2),
            self.holds_row(b1, b2),
        ensures
            rows_apart(self.row_start(a1, a2), self.row_start(b1, b2), self.dim_3 as int),
            self.dim_3 > 0 && self.row_start(a1, a2) == self.row_start(b1, b2) ==> a1 == b1 && a2
                == b2,
    {
        lemma_offset_in_range(a1, a2, self.dim_1 as int, self.dim_2 as int);
        lemma_offset_in_range(b1, b2, self.dim_1 as int, self.dim_2 as int);
        let row_a = a1 * self.dim_2 + a2;
        let row_b = b1 * self.dim_2 + b2;
        let width = self.dim_3 as int;
        if row_a < row_b {
            assert(row_a * width + width <= row_b * width) by (nonlinear_arith)
                requires
                    row_a + 1 <= row_b,
                    0 <= width,
            ;
        } else if row_b < row_a {
            assert(row_b * width + width <= row_a * width) by (nonlinear_arith)
                requires
                    row_b + 1 <= row_a,
                    0 <= width,
            ;
        } else {
            lemma_offset_injective(a1, a2, b1, b2, self.dim_2 as int);
        }
    }

    /// Two tensors of one shape that agree in every cell and behind the last cell
    /// have the same buffer.
    pub proof fn lemma_same_cells_same_buffer(&self, other: &DenseTensor)
        requires
            self.wf(),
            self.same_frame(other),
            forall|a: int, b: int, c: int|
                self.holds(a, b, c) ==> #[trigger] self.at(a, b, c) == other.at(a, b, c),
        ensures
            self.buffer@ == other.buffer@,
    {
        assert forall|i: int| 0 <= i < self.buffer@.len() implies self.buffer@[i]
            == other.buffer@[i] by {
            if i < self.dim_1 * self.dim_2 * self.dim_3 {
                let rows = self.dim_1 * self.dim_2;
                assert(0 <= rows) by (nonlinear_arith)
                    requires
                        rows == self.dim_1 * self.dim_2,
                        0 <= self.dim_1,
                        0 <= self.dim_2,
                ;
                lemma_place_is_cell(i, rows, self.dim_3 as int);
                let row = i / (self.dim_3 as int);
                let c = i % (self.dim_3 as int);
                lemma_place_is_cell(row, self.dim_1 as int, self.dim_2 as int);
                let a = row / (self.dim_2 as int);
                let b = row % (self.dim_2 as int);
                assert(self.at(a, b, c) == other.at(a, b, c));
            }
        }
    }

    /// A tensor of zeros whose buffer is just as long as the tensor.
    pub fn new(dim_1: usize, dim_2: usize, dim_3: usize) -> (t: DenseTensor)
        requires
            dim_1 * dim_2 * dim_3 <= usize::MAX,
        ensures
            t.wf(),
            t.dim_1 == dim_1,
            t.dim_2 == dim_2,
            t.dim_3 == dim_3,
            t.buffer@.len() == dim_1 * dim_2 * dim_3,
            forall|i: int| 0 <= i < t.buffer@.len() ==> t.buffer@[i] == Fixed::zero_spec(),
    {
        let len: usize = cells(dim_1, dim_2, dim_3);
        let buffer = filled(len, Fixed::zero());
        DenseTensor { dim_1, dim_2, dim_3, buffer }
    }

    /// Gives the tensor a new shape over the same buffer, whose cells keep what they held.
    pub fn reuse_as(&mut self, dim_1: usize, dim_2: usize, dim_3: usize)
        requires
            old(self).buffer@.len() >= dim_1 * dim_2 * dim_3,
        ensures
            final(self).wf(),
            *final(self) == old(self).reshaped(dim_1, dim_2, dim_3),
    {
        self.dim_1 = dim_1;
        self.dim_2 = dim_2;
        self.dim_3 = dim_3;
    }

    /// The whole buffer, behind the last cell too.
    pub fn view_buffer(&self) -> (buffer: &[Fixed])
        ensures
            buffer@ == self.buffer@,
    {
        self.buffer.as_slice()
    }

    /// Place in the buffer of the first cell of a row.
    fn row_offset(&self, index_1: usize, index_2: usize) -> (start: usize)
        requires
            self.wf(),
            self.holds_row(index_1 as int, index_2 as int),
            self.dim_3 > 0,
        ensures
            start == self.row_start(index_1 as int, index_2 as int),
            start + self.dim_3 <= self.buffer@.len(),
    {
        let capacity: usize = self.buffer.len();
        proof {
            self.lemma_row_in_range(index_1 as int, index_2 as int);
            let rows = self.dim_1 * self.dim_2;
            let width = self.dim_3 as int;
            assert(rows <= rows * width) by (nonlinear_arith)
                requires
                    0 <= rows,
                    1 <= width,
            ;
        }
        (index_1 * self.dim_2 + index_2) * self.dim_3
    }

    /// The cell at `(index_1, index_2, index_3)`.
    pub fn get(&self, index_1: usize, index_2: usize, index_3: usize) -> (value: Fixed)
        requires
            self.wf(),
            self.holds(index_1 as int, index_2 as int, index_3 as int),
        ensures
            value == self.at(index_1 as int, index_2 as int, index_3 as int),
    {
        let capacity: usize = self.buffer.len();
        let start: usize = self.row_offset(index_1, index_2);
        self.buffer[start + index_3]
    }

    /// Writes `value` into the cell at `(index_1, index_2, index_3)`.
    pub fn set(&mut self, index_1: usize, index_2: usize, index_3: usize, value: Fixed)
        requires
            old(self).wf(),
            old(self).holds(index_1 as int, index_2 as int, index_3 as int),
        ensures
            final(self).wf(),
            final(self).same_frame(old(self)),
            final(self).buffer@ == old(self).buffer@.update(
                old(self).row_start(index_1 as int, index_2 as int) + index_3,
                value,
            ),
            final(self).at(index_1 as int, index_2 as int, index_3 as int) == value,
            forall|a: int, b: int, c: int|
                old(self).holds(a, b, c) && (a != index_1 || b != index_2 || c != index_3)
                    ==> #[trigger] final(self).at(a, b, c) == old(self).at(a, b, c),
    {
        let capacity: usize = self.buffer.len();
        let start: usize = self.row_offset(index_1, index_2);
        self.buffer[start + index_3] = value;
        proof {
            old(self).lemma_row_in_range(index_1 as int, index_2 as int);
            assert forall|a: int, b: int, c: int|
                old(self).holds(a, b, c) && (a != index_1 || b != index_2 || c
                    != index_3) implies #[trigger] self.at(a, b, c) == old(self).at(a, b, c) by {
                old(self).lemma_row_in_range(a, b);
                old(self).lemma_rows_apart(a, b, index_1 as int, index_2 as int);
            }
        }
    }

    /// Writes into row `y_indices` the sum of row `x1_indices` times `a1` and row
    /// `x2_indices` times `a2`, cell by cell along the last axis.
    pub fn set_y_to_x1_a1_plus_x2_a2(
        &mut self,
        y_indices: [usize; 2],
        x1_indices: [usize; 2],
        a1: Fixed,
        x2_indices: [usize; 2],
        a2: Fixed,
    )
        requires
            old(self).wf(),
            old(self).holds_row(y_indices[0] as int, y_indices[1] as int),
            old(self).holds_row(x1_indices[0] as int, x1_indices[1] as int),
            old(self).holds_row(x2_indices[0] as int, x2_indices[1] as int),
        ensures
            final(self).wf(),
            final(self).same_frame(old(self)),
            forall|e: int|
                0 <= e < old(self).dim_3 ==> #[trigger] final(self).at(
                    y_indices[0] as int,
                    y_indices[1] as int,
                    e,
                ) == old(self).at(x1_indices[0] as int, x1_indices[1] as int, e).times_spec(
                    a1,
                ).plus_spec(
                    old(self).at(x2_indices[0] as int, x2_indices[1] as int, e).times_spec(a2),
                ),
            forall|a: int, b: int, c: int|
                old(self).holds(a, b, c) && (a != y_indices[0] || b != y_indices[1])
                    ==> #[trigger] final(self).at(a, b, c) == old(self).at(a, b, c),
    {
        let width: usize = self.dim_3;
        if width == 0 {
            return ;
        }
        let y_start: usize = self.row_offset(y_indices[0], y_indices[1]);
        let x1_start: usize = self.row_offset(x1_indices[0], x1_indices[1]);
        let x2_start: usize = self.row_offset(x2_indices[0], x2_indices[1]);
        let ghost before = self.buffer@;
        let capacity: usize = self.buffer.len();
        proof {
            self.lemma_row_in_range(y_indices[0] as int, y_indices[1] as int);
            self.lemma_rows_apart(
                x1_indices[0] as int,
                x1_indices[1] as int,
                y_indices[0] as int,
                y_indices[1] as int,
            );
            self.lemma_rows_apart(
                x2_indices[0] as int,
                x2_indices[1] as int,
                y_indices[0] as int,
                y_indices[1] as int,
            );
        }
        let mut done: usize = 0;
        while width - done >= CHUNK_SIZE
            invariant
                done <= width,
                width == self.dim_3,
                before.len() <= usize::MAX,
                self.dim_1 == old(self).dim_1,
                self.dim_2 == old(self).dim_2,
                self.dim_3 == old(self).dim_3,
                y_start + width <= before.len(),
                x1_start + width <= before.len(),
                x2_start + width <= before.len(),
                rows_apart(x1_start as int, y_start as int, width as int),
                rows_apart(x2_start as int, y_start as int, width as int),
                fused_done(
                    before,
                    self.buffer@,
                    y_start as int,
                    x1_start as int,
                    a1,
                    x2_start as int,
                    a2,
                    done as int,
                ),
            decreases width - done,
        {
            self.fuse_cells(Ghost(before), y_start, x1_start, a1, x2_start, a2, done, done + CHUNK_SIZE);
            done += CHUNK_SIZE;
        }
        self.fuse_cells(Ghost(before), y_start, x1_start, a1, x2_start, a2, done, width);
        proof {
            assert forall|a: int, b: int, c: int|
                old(self).holds(a, b, c) && (a != y_indices[0] || b
                    != y_indices[1]) implies #[trigger] self.at(a, b, c) == old(self).at(a, b, c) by {
                old(self).lemma_row_in_range(a, b);
                old(self).lemma_rows_apart(a, b, y_indices[0] as int, y_indices[1] as int);
            }
            assert forall|e: int| 0 <= e < old(self).dim_3 implies #[trigger] self.at(
                y_indices[0] as int,
                y_indices[1] as int,
                e,
            ) == old(self).at(x1_indices[0] as int, x1_indices[1] as int, e).times_spec(
                a1,
            ).plus_spec(
                old(self).at(x2_indices[0] as int, x2_indices[1] as int, e).times_spec(a2),
            ) by {
                assert(self.buffer@[y_start + e] == before[x1_start + e].times_spec(a1).plus_spec(
                    before[x2_start + e].times_spec(a2),
                ));
            }
        }
    }

    /// Carries the fused kernel on from cell `from` of the rows up to cell `to`.
    fn fuse_cells(
        &mut self,
        Ghost(before): Ghost<Seq<Fixed>>,
        y_start: usize,
        x1_start: usize,
        a1: Fixed,
        x2_start: usize,
        a2: Fixed,
        from: usize,
        to: usize,
    )
        requires
            from <= to <= old(self).dim_3,
            before.len() <= usize::MAX,
            y_start + old(self).dim_3 <= before.len(),
            x1_start + old(self).dim_3 <= before.len(),
            x2_start + old(self).dim_3 <= before.len(),
            rows_apart(x1_start as int, y_start as int, old(self).dim_3 as int),
            rows_apart(x2_start as int, y_start as int, old(self).dim_3 as int),
            fused_done(
                before,
                old(self).buffer@,
                y_start as int,
                x1_start as int,
                a1,
                x2_start as int,
                a2,
                from as int,
            ),
        ensures
            final(self).dim_1 == old(self).dim_1,
            final(self).dim_2 == old(self).dim_2,
            final(self).dim_3 == old(self).dim_3,
            fused_done(
                before,
                final(self).buffer@,
                y_start as int,
                x1_start as int,
                a1,
                x2_start as int,
                a2,
                to as int,
            ),
    {
        let mut e: usize = from;
        while e < to
            invariant
                from <= e <= to,
                to <= self.dim_3,
                before.len() <= usize::MAX,
                self.dim_1 == old(self).dim_1,
                self.dim_2 == old(self).dim_2,
                self.dim_3 == old(self).dim_3,
                y_start + self.dim_3 <= before.len(),
                x1_start + self.dim_3 <= before.len(),
                x2_start + self.dim_3 <= before.len(),
                rows_apart(x1_start as int, y_start as int, self.dim_3 as int),
                rows_apart(x2_start as int, y_start as int, self.dim_3 as int),
                fused_done(
                    before,
                    self.buffer@,
                    y_start as int,
                    x1_start as int,
                    a1,
                    x2_start as int,
                    a2,
                    e as int,
                ),
            decreases to - e,
        {
            let x1: Fixed = self.buffer[x1_start + e];
            let x2: Fixed = self.buffer[x2_start + e];
            self.buffer[y_start + e] = x1.times(a1).plus(x2.times(a2));
            e += 1;
        }
    }
}

/// The number of cells of a tensor with the given extents.
pub fn cells(dim_1: usize, dim_2: usize, dim_3: usize) -> (count: usize)
    requires
        dim_1 * dim_2 * dim_3 <= usize::MAX,
    ensures
        count == dim_1 * dim_2 * dim_3,
{
    if dim_3 == 0 || dim_2 == 0 || dim_1 == 0 {
        proof {
            assert(dim_1 * dim_2 * dim_3 == 0) by (nonlinear_arith)
                requires
                    dim_3 == 0 || dim_2 == 0 || dim_1 == 0,
            ;
        }
        0
    } else {
        proof {
            let rows = dim_1 * dim_2;
            assert(rows <= rows * dim_3) by (nonlinear_arith)
                requires
                    0 <= rows,
                    1 <= dim_3,
            ;
        }
        dim_1 * dim_2 * dim_3
    }
}

} // verus!
