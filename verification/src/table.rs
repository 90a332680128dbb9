//! Rectangular tables held as rows of cells.

use vstd::prelude::*;

verus! {

/// A table of `height` rows of `width` copies of `value`.
pub(crate) fn filled_table<T: Copy>(width: usize, height: usize, value: T) -> (table: Vec<Vec<T>>)
    ensures
        table.len() == height,
        forall|y: int| 0 <= y < height ==> (#[trigger] table[y]).len() == width,
        forall|y: int, x: int| 0 <= y < height && 0 <= x < width ==> table[y][x] == value,
{
    let mut table: Vec<Vec<T>> = Vec::new();
    let mut y: usize = 0;
    while y < height
        invariant
            y <= height,
            table.len() == y,
            forall|j: int| 0 <= j < y ==> (#[trigger] table[j]).len() == width,
            forall|j: int, i: int| 0 <= j < y && 0 <= i < width ==> table[j][i] == value,
        decreases height - y,
    {
        let mut row: Vec<T> = Vec::new();
        let mut x: usize = 0;
        while x < width
            invariant
                x <= width,
                row.len() == x,
                forall|i: int| 0 <= i < x ==> row[i] == value,
            decreases width - x,
        {
            row.push(value);
            x += 1;
        }
        table.push(row);
        y += 1;
    }
    table
}

/// Replaces the cell in column `x` of row `y`.
pub(crate) fn set_cell<T: Copy>(table: &mut Vec<Vec<T>>, x: usize, y: usize, value: T)
    requires
        y < old(table).len(),
        x < old(table)[y as int].len(),
    ensures
        final(table).len() == old(table).len(),
        final(table)[y as int]@ == old(table)[y as int]@.update(x as int, value),
        forall|j: int|
            0 <= j < old(table).len() && j != y ==> #[trigger] final(table)[j] == old(table)[j],
    no_unwind
{
    table[y][x] = value;
}

} // verus!
