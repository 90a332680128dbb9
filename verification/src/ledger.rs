//! The table in which a search records the cells it has reached: a dense
//! array over the grid, with the start held apart so that it may lie
//! anywhere.

use crate::search::Record;
use crate::table::{filled_table, set_cell};
use crate::terrain::Point;
use vstd::prelude::*;

verus! {

/// What a slot weighs in the measure of the search's progress: the
/// recorded cost, or more than any cost while the slot is empty.
pub open spec fn slot_weight(slot: Option<Record>) -> nat {
    match slot {
        Some(record) => record.g_cost as nat,
        None => (u128::MAX + 1) as nat,
    }
}

/// The sum of the weights of the slots of a row.
pub open spec fn row_weight(row: Seq<Option<Record>>) -> nat
    decreases row.len(),
{
    if row.len() == 0 {
        0
    } else {
        row_weight(row.drop_last()) + slot_weight(row.last())
    }
}

/// The sum of the weights of the slots of a table.
pub open spec fn rows_weight(rows: Seq<Seq<Option<Record>>>) -> nat
    decreases rows.len(),
{
    if rows.len() == 0 {
        0
    } else {
        rows_weight(rows.drop_last()) + row_weight(rows.last())
    }
}

/// Replacing one slot changes the weight of its row by the difference of
/// the two slots.
pub proof fn lemma_row_weight_update(row: Seq<Option<Record>>, x: int, slot: Option<Record>)
    requires
        0 <= x < row.len(),
    ensures
        row_weight(row.update(x, slot)) + slot_weight(row[x]) == row_weight(row) + slot_weight(
            slot,
        ),
    decreases row.len(),
{
    let after = row.update(x, slot);
    if x == row.len() - 1 {
        assert(after.drop_last() =~= row.drop_last());
    } else {
        lemma_row_weight_update(row.drop_last(), x, slot);
        assert(after.drop_last() =~= row.drop_last().update(x, slot));
    }
}

/// Replacing one row changes the weight of the table by the difference
/// of the two rows.
pub proof fn lemma_rows_weight_update(
    rows: Seq<Seq<Option<Record>>>,
    y: int,
    row: Seq<Option<Record>>,
)
    requires
        0 <= y < rows.len(),
    ensures
        rows_weight(rows.update(y, row)) + row_weight(rows[y]) == rows_weight(rows) + row_weight(
            row,
        ),
    decreases rows.len(),
{
    let after = rows.update(y, row);
    if y == rows.len() - 1 {
        assert(after.drop_last() =~= rows.drop_last());
    } else {
        lemma_rows_weight_update(rows.drop_last(), y, row);
        assert(after.drop_last() =~= rows.drop_last().update(y, row));
    }
}

/// The records of one search.
pub struct Ledger {
    table: Vec<Vec<Option<Record>>>,
    start: Point,
    width: usize,
    height: usize,
}

impl View for Ledger {
    type V = Map<Point, Record>;

    /// The start at cost zero without a parent, and every other cell
    /// whose slot is filled.
    closed spec fn view(&self) -> Map<Point, Record> {
        Map::new(
            |p: Point| p == self.start || self.slot(p) is Some,
            |p: Point|
                if p == self.start {
                    Record { g_cost: 0, parent: None }
                } else {
                    self.slot(p)->0
                },
        )
    }
}

impl Ledger {
    /// The table has `height` rows of `width` slots.
    #[verifier::type_invariant]
    closed spec fn well_formed(&self) -> bool {
        &&& self.table.len() == self.height
        &&& forall|y: int| 0 <= y < self.height ==> (#[trigger] self.table[y]).len() == self.width
    }

    /// The table as rows of slots.
    closed spec fn rows(&self) -> Seq<Seq<Option<Record>>> {
        Seq::new(self.table.len() as nat, |y: int| self.table[y]@)
    }

    /// The slot of `p`; empty for a cell outside the table.
    closed spec fn slot(&self, p: Point) -> Option<Record> {
        if 0 <= p.y < self.table.len() && 0 <= p.x < self.table[p.y as int].len() {
            self.table[p.y as int][p.x as int]
        } else {
            None
        }
    }

    /// The number of columns of the table.
    pub closed spec fn width(&self) -> nat {
        self.width as nat
    }

    /// The number of rows of the table.
    pub closed spec fn height(&self) -> nat {
        self.height as nat
    }

    /// The start of the search, which is always recorded.
    pub closed spec fn origin(&self) -> Point {
        self.start
    }

    /// Whether the table has a slot for `p`.
    pub open spec fn covers(&self, p: Point) -> bool {
        0 <= p.x < self.width() && 0 <= p.y < self.height()
    }

    /// The measure of progress: the sum of the weights of all slots.
    pub closed spec fn potential(&self) -> nat {
        rows_weight(self.rows())
    }

    /// What a cell weighs in the potential.
    pub open spec fn weight_of(&self, p: Point) -> nat {
        if self@.dom().contains(p) {
            self@[p].g_cost as nat
        } else {
            (u128::MAX + 1) as nat
        }
    }

    /// A ledger for a grid of the given dimensions that holds `start`
    /// alone.
    pub fn new(width: usize, height: usize, start: Point) -> (ledger: Ledger)
        ensures
            ledger@ == map![start => Record { g_cost: 0, parent: None }],
            ledger.width() == width,
            ledger.height() == height,
            ledger.origin() == start,
    {
        let ledger = Ledger { table: filled_table(width, height, None), start, width, height };
        assert(ledger@ =~= map![start => Record { g_cost: 0, parent: None }]);
        ledger
    }

    /// The record of `p`, if it has one.
    pub fn get(&self, p: &Point) -> (found: Option<Record>)
        ensures
            found is Some <==> self@.dom().contains(*p),
            found is Some ==> found->0 == self@[*p],
            *p == self.origin() ==> found == Some(Record { g_cost: 0, parent: None }),
    {
        proof {
            use_type_invariant(self);
        }
        if p.x == self.start.x && p.y == self.start.y {
            Some(Record { g_cost: 0, parent: None })
        } else if p.x >= 0 && p.y >= 0 && (p.x as usize) < self.width && (p.y as usize)
            < self.height {
            assert(self.table[p.y as int].len() == self.width);
            self.table[p.y as usize][p.x as usize]
        } else {
            None
        }
    }

    /// Writes the record of `p`. The potential changes by the difference
    /// between the new cost and what the cell weighed before.
    pub fn put(&mut self, p: Point, record: Record)
        requires
            old(self).covers(p),
            p != old(self).origin(),
        ensures
            final(self)@ == old(self)@.insert(p, record),
            final(self).width() == old(self).width(),
            final(self).height() == old(self).height(),
            final(self).origin() == old(self).origin(),
            final(self).potential() + old(self).weight_of(p) == old(self).potential()
                + record.g_cost,
    {
        proof {
            use_type_invariant(&*self);
            assert(self.table[p.y as int].len() == self.width);
        }
        let ghost before = self.rows();
        set_cell(&mut self.table, p.x as usize, p.y as usize, Some(record));
        proof {
            let row = before[p.y as int].update(p.x as int, Some(record));
            assert(self.rows() =~= before.update(p.y as int, row));
            lemma_row_weight_update(before[p.y as int], p.x as int, Some(record));
            lemma_rows_weight_update(before, p.y as int, row);
            assert(old(self).slot(p) == before[p.y as int][p.x as int]);
            assert(self@ =~= old(self)@.insert(p, record)) by {
                assert forall|q: Point| #[trigger] self.slot(q) == (if q == p {
                    Some(record)
                } else {
                    old(self).slot(q)
                }) by {
                    if 0 <= q.y < self.table.len() && q.y != p.y {
                        assert(self.table[q.y as int] == old(self).table[q.y as int]);
                    }
                }
            }
        }
    }
}

} // verus!
