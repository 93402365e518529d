//! The positional tabular container: rows are plain ordered sequences.

use vstd::prelude::*;
use crate::chars::display_width;
use crate::column::{Column, ColumnModel};
use crate::error::{DcsvError, DcsvResult};
use crate::meta::Meta;
use crate::value::{val_width, Value, ValueModel, ValueType};
use crate::vcont::{move_element, move_seq};

verus! {

/// The positional container: columns, width metadata, and rows stored as
/// value lists aligned to the column order.  Unlike the name-keyed
/// container it allows duplicate column names and applies no limiters.
pub struct VirtualArray {
    pub metas: Vec<Meta>,
    pub columns: Vec<Column>,
    pub rows: Vec<Vec<Value>>,
}

impl Default for VirtualArray {
    /// The default container is empty.
    fn default() -> (r: Self)
        ensures
            r.wf(),
            r.cols() == Seq::<ColumnModel>::empty(),
            r.grid() == Seq::<Seq<ValueModel>>::empty(),
    {
        VirtualArray::new()
    }
}

impl VirtualArray {
    /// The columns' mathematical content, in order.
    pub open spec fn cols(&self) -> Seq<ColumnModel> {
        self.columns@.map_values(|c: Column| c@)
    }

    /// The table as a grid of values.
    pub open spec fn grid(&self) -> Seq<Seq<ValueModel>> {
        self.rows@.map_values(|row: Vec<Value>| row@.map_values(|v: Value| v@))
    }

    /// The tracked maximum display width of each column.
    pub open spec fn widths(&self) -> Seq<nat> {
        self.metas@.map_values(|m: Meta| m.max_unicode_width as nat)
    }

    /// The container's invariant: one width per column and one value per
    /// column in every row.
    pub open spec fn wf(&self) -> bool {
        &&& self.metas@.len() == self.columns@.len()
        &&& (forall|r: int|
            0 <= r < self.rows@.len() ==> (#[trigger] self.rows@[r])@.len()
                == self.columns@.len())
    }

    /// An empty container.
    pub fn new() -> (r: Self)
        ensures
            r.wf(),
            r.cols() == Seq::<ColumnModel>::empty(),
            r.grid() == Seq::<Seq<ValueModel>>::empty(),
            r.widths() == Seq::<nat>::empty(),
    {
        let r = Self { metas: Vec::new(), columns: Vec::new(), rows: Vec::new() };
        proof {
            assert(r.cols() =~= Seq::<ColumnModel>::empty());
            assert(r.grid() =~= Seq::<Seq<ValueModel>>::empty());
            assert(r.widths() =~= Seq::<nat>::empty());
        }
        r
    }

    /// The number of rows.
    pub fn get_row_count(&self) -> (r: usize)
        ensures
            r == self.grid().len(),
    {
        self.rows.len()
    }

    /// The number of columns.
    pub fn get_column_count(&self) -> (r: usize)
        ensures
            r == self.cols().len(),
    {
        self.columns.len()
    }

    /// Drop every column and row; the table becomes empty.
    pub fn drop_data(&mut self)
        ensures
            final(self).wf(),
            final(self).cols() == Seq::<ColumnModel>::empty(),
            final(self).grid() == Seq::<Seq<ValueModel>>::empty(),
            final(self).widths() == Seq::<nat>::empty(),
    {
        self.columns.clear();
        self.rows.clear();
        self.metas.clear();
        proof {
            assert(self.cols() =~= Seq::<ColumnModel>::empty());
            assert(self.grid() =~= Seq::<Seq<ValueModel>>::empty());
            assert(self.widths() =~= Seq::<nat>::empty());
        }
    }

    /// Whether a coordinate lies inside the table.
    fn is_valid_cell_coordinate(&self, x: usize, y: usize) -> (r: bool)
        ensures
            r == (x < self.grid().len() && y < self.cols().len()),
    {
        x < self.rows.len() && y < self.columns.len()
    }

    /// Whether a value list has exactly one value per column.
    fn check_row_length(&self, values: &[Value]) -> (r: DcsvResult<()>)
        ensures
            r is Ok <==> values@.len() == self.cols().len(),
            r matches Err(e) ==> e is InvalidRowData,
    {
        if self.columns.len() == values.len() {
            Ok(())
        } else {
            Err(DcsvError::InvalidRowData("Given row length differs from column count".to_owned()))
        }
    }

    /// Rename a column in place; rows are untouched since they are keyed
    /// by position.
    pub fn rename_column(&mut self, column_index: usize, new_name: &str) -> (r: DcsvResult<()>)
        requires
            old(self).wf(),
            column_index < old(self).cols().len(),
        ensures
            final(self).wf(),
            r is Ok,
            final(self).cols() == old(self).cols().update(
                column_index as int,
                (ColumnModel { name: new_name@, ..old(self).cols()[column_index as int] }),
            ),
            final(self).grid() == old(self).grid(),
            final(self).widths() == old(self).widths(),
    {
        let col = &mut self.columns[column_index];
        let _ = col.rename(new_name);
        proof {
            assert(final(self).cols() =~= old(self).cols().update(
                column_index as int,
                (ColumnModel { name: new_name@, ..old(self).cols()[column_index as int] }),
            ));
            assert(final(self).grid() =~= old(self).grid());
        }
        Ok(())
    }

    /// Overwrite every row's value in a column, widening the column's
    /// width to cover the value written into each row.
    #[verifier::loop_isolation(false)]
    pub fn set_column(&mut self, column_index: usize, value: Value) -> (r: DcsvResult<()>)
        requires
            old(self).wf(),
        ensures
            final(self).wf(),
            r is Ok <==> column_index < old(self).cols().len(),
            r matches Err(e) ==> *final(self) == *old(self) && e is OutOfRangeError,
            r is Ok ==> final(self).cols() == old(self).cols() && final(self).grid() == Seq::new(
                old(self).grid().len(),
                |r: int| old(self).grid()[r].update(column_index as int, value@),
            ) && final(self).widths() == (if old(self).grid().len() > 0 {
                old(self).widths().update(
                    column_index as int,
                    (if val_width(value@) > old(self).widths()[column_index as int] {
                        val_width(value@)
                    } else {
                        old(self).widths()[column_index as int]
                    }),
                )
            } else {
                old(self).widths()
            }),
    {
        if column_index >= self.columns.len() {
            return Err(DcsvError::OutOfRangeError);
        }
        if self.rows.len() > 0 {
            let meta = &mut self.metas[column_index];
            meta.update_width_from_value(&value);
        }
        let ghost vm = value@;
        let n = self.rows.len();
        let mut r: usize = 0;
        while r < n
            invariant
                r <= n,
                n == self.rows@.len(),
                self.columns == old(self).columns,
                self.metas@.len() == old(self).metas@.len(),
                self.widths() == (if n > 0 {
                    old(self).widths().update(
                        column_index as int,
                        (if val_width(vm) > old(self).widths()[column_index as int] {
                            val_width(vm)
                        } else {
                            old(self).widths()[column_index as int]
                        }),
                    )
                } else {
                    old(self).widths()
                }),
                column_index < self.columns@.len(),
                forall|i: int|
                    0 <= i < r ==> (#[trigger] self.rows@[i])@.map_values(|v: Value| v@) == old(
                        self,
                    ).grid()[i].update(column_index as int, vm),
                forall|i: int| r <= i < n ==> (#[trigger] self.rows@[i]) == old(self).rows@[i],
            decreases n - r,
        {
            let row = &mut self.rows[r];
            row[column_index] = value.clone();
            proof {
                assert(self.rows@[r as int]@.map_values(|v: Value| v@) =~= old(
                    self,
                ).grid()[r as int].update(column_index as int, vm));
            }
            r = r + 1;
        }
        proof {
            assert(final(self).grid() =~~= Seq::new(
                old(self).grid().len(),
                |r: int| old(self).grid()[r].update(column_index as int, vm),
            ));
        }
        Ok(())
    }

    /// Overwrite the cells of a row for which a value is given.
    #[verifier::loop_isolation(false)]
    pub fn edit_row(&mut self, row_index: usize, values: &[Option<Value>]) -> (r: DcsvResult<()>)
        requires
            old(self).wf(),
        ensures
            final(self).wf(),
            r is Ok <==> values@.len() == old(self).cols().len() && row_index < old(
                self,
            ).grid().len(),
            r matches Err(e) ==> *final(self) == *old(self) && ((values@.len() != old(
                self,
            ).cols().len() ==> e is InsufficientRowData) && (values@.len() == old(
                self,
            ).cols().len() ==> e is OutOfRangeError)),
            r is Ok ==> final(self).cols() == old(self).cols() && final(self).grid() == old(
                self,
            ).grid().update(
                row_index as int,
                Seq::new(
                    old(self).cols().len(),
                    |c: int| match values@[c] {
                        Some(v) => v@,
                        None => old(self).grid()[row_index as int][c],
                    },
                ),
            ) && final(self).widths() == Seq::new(
                old(self).widths().len(),
                |c: int| (match values@[c] {
                    Some(v) => if val_width(v@) > old(self).widths()[c] {
                        val_width(v@)
                    } else {
                        old(self).widths()[c]
                    },
                    None => old(self).widths()[c],
                }),
            ),
    {
        if values.len() != self.columns.len() {
            return Err(DcsvError::InsufficientRowData);
        }
        if row_index >= self.rows.len() {
            return Err(DcsvError::OutOfRangeError);
        }
        let ncols = self.columns.len();
        let mut c: usize = 0;
        while c < ncols
            invariant
                c <= ncols,
                ncols == self.columns@.len() == self.metas@.len(),
                values@.len() == ncols,
                row_index < self.rows@.len(),
                self.columns == old(self).columns,
                self.rows@.len() == old(self).rows@.len(),
                (#[trigger] self.rows@[row_index as int])@.len() == ncols,
                forall|i: int|
                    0 <= i < self.rows@.len() && i != row_index as int ==> (
                    #[trigger] self.rows@[i]) == old(self).rows@[i],
                forall|i: int|
                    c <= i < ncols ==> (#[trigger] self.metas@[i]) == old(self).metas@[i],
                forall|i: int|
                    0 <= i < c ==> (#[trigger] self.metas@[i]).max_unicode_width as nat == (
                    match values@[i] {
                        Some(v) => if val_width(v@) > old(self).widths()[i] {
                            val_width(v@)
                        } else {
                            old(self).widths()[i]
                        },
                        None => old(self).widths()[i],
                    }),
                forall|i: int|
                    0 <= i < ncols ==> (#[trigger] self.rows@[row_index as int]@[i])@ == (
                    match (if 0 <= i < c {
                        values@[i]
                    } else {
                        None::<Value>
                    }) {
                        Some(v) => v@,
                        None => old(self).grid()[row_index as int][i],
                    }),
            decreases ncols - c,
        {
            match &values[c] {
                Some(v) => {
                    let value = v.clone();
                    {
                        let meta = &mut self.metas[c];
                        meta.update_width_from_value(&value);
                    }
                    let row = &mut self.rows[row_index];
                    row[c] = value;
                },
                None => {},
            }
            c = c + 1;
        }
        proof {
            assert(final(self).cols() =~= old(self).cols());
            assert(final(self).grid() =~~= old(self).grid().update(
                row_index as int,
                Seq::new(
                    old(self).cols().len(),
                    |c: int| match values@[c] {
                        Some(v) => v@,
                        None => old(self).grid()[row_index as int][c],
                    },
                ),
            ));
            assert(final(self).widths() =~= Seq::new(
                old(self).widths().len(),
                |c: int| (match values@[c] {
                    Some(v) => if val_width(v@) > old(self).widths()[c] {
                        val_width(v@)
                    } else {
                        old(self).widths()[c]
                    },
                    None => old(self).widths()[c],
                }),
            ));
        }
        Ok(())
    }

    /// Overwrite a whole row with one value per column.
    pub fn set_row(&mut self, row_index: usize, values: &[Value]) -> (r: DcsvResult<()>)
        requires
            old(self).wf(),
        ensures
            final(self).wf(),
            r is Ok <==> values@.len() == old(self).cols().len() && row_index < old(
                self,
            ).grid().len(),
            r matches Err(e) ==> *final(self) == *old(self) && ((values@.len() != old(
                self,
            ).cols().len() ==> e is InsufficientRowData) && (values@.len() == old(
                self,
            ).cols().len() ==> e is OutOfRangeError)),
            r is Ok ==> final(self).cols() == old(self).cols() && final(self).grid() == old(
                self,
            ).grid().update(
                row_index as int,
                values@.map_values(|v: Value| v@),
            ) && final(self).widths() == Seq::new(
                old(self).widths().len(),
                |c: int| (if val_width(values@[c]@) > old(self).widths()[c] {
                    val_width(values@[c]@)
                } else {
                    old(self).widths()[c]
                }),
            ),
    {
        let ncols = self.columns.len();
        if values.len() != ncols {
            return Err(DcsvError::InsufficientRowData);
        }
        let mut options: Vec<Option<Value>> = Vec::new();
        let mut c: usize = 0;
        while c < ncols
            invariant
                c <= ncols,
                values@.len() == ncols,
                options@.len() == c,
                forall|i: int|
                    0 <= i < c ==> (#[trigger] options@[i]) is Some && options@[i]->0@
                        == values@[i]@,
            decreases ncols - c,
        {
            options.push(Some(values[c].clone()));
            c = c + 1;
        }
        match self.edit_row(row_index, options.as_slice()) {
            Ok(_) => {
                proof {
                    let inner = Seq::new(
                        old(self).cols().len(),
                        |c: int| match options@[c] {
                            Some(v) => v@,
                            None => old(self).grid()[row_index as int][c],
                        },
                    );
                    assert(inner =~= values@.map_values(|v: Value| v@)) by {
                        assert forall|c: int| 0 <= c < inner.len() implies inner[c]
                            == values@.map_values(|v: Value| v@)[c] by {
                            assert(options@[c] is Some && options@[c]->0@ == values@[c]@);
                        }
                    }
                    assert(final(self).widths() =~= Seq::new(
                        old(self).widths().len(),
                        |c: int| (if val_width(values@[c]@) > old(self).widths()[c] {
                            val_width(values@[c]@)
                        } else {
                            old(self).widths()[c]
                        }),
                    )) by {
                        assert forall|c: int|
                            0 <= c < old(self).widths().len() implies final(self).widths()[c]
                            == (if val_width(values@[c]@) > old(self).widths()[c] {
                            val_width(values@[c]@)
                        } else {
                            old(self).widths()[c]
                        }) by {
                            assert(options@[c] is Some && options@[c]->0@ == values@[c]@);
                        }
                    }
                }
                Ok(())
            },
            Err(e) => Err(e),
        }
    }

    /// Insert a row at an index, from given values or from empty text
    /// cells; tracked widths widen to cover the new cells.
    #[verifier::loop_isolation(false)]
    pub fn insert_row(&mut self, row_index: usize, source: Option<&[Value]>) -> (r: DcsvResult<()>)
        requires
            old(self).wf(),
        ensures
            final(self).wf(),
            r is Ok <==> row_index <= old(self).grid().len() && (match source {
                Some(vals) => vals@.len() == old(self).cols().len(),
                None => true,
            }),
            r matches Err(e) ==> *final(self) == *old(self) && ((row_index > old(
                self,
            ).grid().len() ==> e is InvalidColumn) && (row_index <= old(self).grid().len()
                ==> e is InvalidRowData)),
            r is Ok ==> ({
                let vals = match source {
                    Some(vals) => vals@.map_values(|v: Value| v@),
                    None => Seq::new(
                        old(self).cols().len(),
                        |c: int| ValueModel::Str(Seq::empty()),
                    ),
                };
                &&& final(self).cols() == old(self).cols()
                &&& final(self).grid() == old(self).grid().insert(row_index as int, vals)
                &&& final(self).widths() == Seq::new(
                    old(self).widths().len(),
                    |c: int| (if val_width(vals[c]) > old(self).widths()[c] {
                        val_width(vals[c])
                    } else {
                        old(self).widths()[c]
                    }),
                )
            }),
    {
        if row_index > self.rows.len() {
            return Err(
                DcsvError::InvalidColumn("Cannot add row to out of range position".to_owned()),
            );
        }
        let ncols = self.columns.len();
        let mut cells: Vec<Value> = Vec::new();
        match source {
            Some(vals) => {
                match self.check_row_length(vals) {
                    Ok(_) => {},
                    Err(e) => {
                        return Err(e);
                    },
                }
                let mut c: usize = 0;
                while c < ncols
                    invariant
                        c <= ncols,
                        vals@.len() == ncols,
                        cells@.map_values(|v: Value| v@) == vals@.map_values(
                            |v: Value| v@,
                        ).take(c as int),
                    decreases ncols - c,
                {
                    let ghost old_cells = cells@;
                    cells.push(vals[c].clone());
                    proof {
                        assert(cells@.map_values(|v: Value| v@) =~= old_cells.map_values(
                            |v: Value| v@,
                        ).push(vals@[c as int]@));
                        assert(vals@.map_values(|v: Value| v@).take(c + 1) =~= vals@.map_values(
                            |v: Value| v@,
                        ).take(c as int).push(vals@[c as int]@));
                    }
                    c = c + 1;
                }
                proof {
                    assert(vals@.map_values(|v: Value| v@).take(ncols as int) =~= vals@.map_values(
                        |v: Value| v@,
                    ));
                }
            },
            None => {
                let mut c: usize = 0;
                while c < ncols
                    invariant
                        c <= ncols,
                        cells@.map_values(|v: Value| v@) == Seq::new(
                            c as nat,
                            |i: int| ValueModel::Str(Seq::empty()),
                        ),
                    decreases ncols - c,
                {
                    let ghost old_cells = cells@;
                    cells.push(Value::Text(String::new()));
                    proof {
                        assert(cells@.map_values(|v: Value| v@) =~= old_cells.map_values(
                            |v: Value| v@,
                        ).push(ValueModel::Str(Seq::empty())));
                        assert(old_cells.map_values(|v: Value| v@).push(
                            ValueModel::Str(Seq::empty()),
                        ) =~= Seq::new((c + 1) as nat, |i: int| ValueModel::Str(Seq::empty())));
                    }
                    c = c + 1;
                }
            },
        }
        let ghost vals = cells@.map_values(|v: Value| v@);
        let mut c: usize = 0;
        while c < ncols
            invariant
                c <= ncols,
                ncols == self.columns@.len() == self.metas@.len(),
                cells@.len() == ncols,
                cells@.map_values(|v: Value| v@) == vals,
                self.columns == old(self).columns,
                self.rows == old(self).rows,
                forall|i: int|
                    0 <= i < c ==> (#[trigger] self.metas@[i]).max_unicode_width as nat == (if
                        val_width(vals[i]) > old(self).widths()[i] {
                        val_width(vals[i])
                    } else {
                        old(self).widths()[i]
                    }),
                forall|i: int| c <= i < ncols ==> (#[trigger] self.metas@[i]) == old(self).metas@[i],
            decreases ncols - c,
        {
            let meta = &mut self.metas[c];
            meta.update_width_from_value(&cells[c]);
            c = c + 1;
        }
        self.rows.insert(row_index, cells);
        proof {
            assert(final(self).cols() =~= old(self).cols());
            assert(final(self).grid() =~~= old(self).grid().insert(row_index as int, vals));
            assert(final(self).widths() =~= Seq::new(
                old(self).widths().len(),
                |c: int| (if val_width(vals[c]) > old(self).widths()[c] {
                    val_width(vals[c])
                } else {
                    old(self).widths()[c]
                }),
            ));
        }
        Ok(())
    }

    /// Delete the row at an index; a stale index is a silent no-op.  For
    /// each column whose tracked width was set by the deleted row, the
    /// width is recomputed as the true maximum over the remaining rows.
    #[verifier::loop_isolation(false)]
    pub fn delete_row(&mut self, row_index: usize) -> (r: bool)
        requires
            old(self).wf(),
        ensures
            final(self).wf(),
            r == (row_index < old(self).grid().len()),
            !r ==> *final(self) == *old(self),
            r ==> final(self).cols() == old(self).cols() && final(self).grid() == old(
                self,
            ).grid().remove(row_index as int) && final(self).widths() == Seq::new(
                old(self).widths().len(),
                |c: int| (if val_width(old(self).grid()[row_index as int][c]) >= old(
                    self,
                ).widths()[c] {
                    crate::virtual_data::col_max_width(
                        old(self).grid().remove(row_index as int),
                        c,
                    )
                } else {
                    old(self).widths()[c]
                }),
            ),
    {
        if row_index >= self.rows.len() {
            return false;
        }
        let removed = self.rows.remove(row_index);
        let ncols = self.columns.len();
        let nrows = self.rows.len();
        proof {
            assert(self.grid() =~= old(self).grid().remove(row_index as int));
            assert forall|i: int| 0 <= i < self.rows@.len() implies (
            #[trigger] self.rows@[i])@.len() == ncols by {
                let orr = if i < row_index as int {
                    i
                } else {
                    i + 1
                };
                assert(self.rows@[i] == old(self).rows@[orr]);
            }
        }
        let ghost g2 = self.grid();
        let mut y: usize = 0;
        while y < ncols
            invariant
                y <= ncols,
                ncols == self.columns@.len() == self.metas@.len(),
                self.columns == old(self).columns,
                self.rows@.len() == nrows,
                g2 == self.grid(),
                forall|i: int|
                    0 <= i < self.rows@.len() ==> (#[trigger] self.rows@[i])@.len() == ncols,
                removed@.map_values(|v: Value| v@) == old(self).grid()[row_index as int],
                removed@.len() == ncols,
                forall|i: int|
                    y <= i < ncols ==> (#[trigger] self.metas@[i]) == old(self).metas@[i],
                forall|i: int|
                    0 <= i < y ==> (#[trigger] self.metas@[i]).max_unicode_width as nat == (if
                        val_width(old(self).grid()[row_index as int][i]) >= old(
                        self,
                    ).widths()[i] {
                        crate::virtual_data::col_max_width(g2, i)
                    } else {
                        old(self).widths()[i]
                    }),
            decreases ncols - y,
        {
            let removed_w: usize = removed[y].get_width();
            if removed_w >= self.metas[y].max_unicode_width {
                let mut new_max: usize = 0;
                let mut rr: usize = 0;
                proof {
                    assert(g2.take(0) =~= Seq::<Seq<ValueModel>>::empty());
                }
                while rr < nrows
                    invariant
                        rr <= nrows,
                        y < ncols,
                        nrows == self.rows@.len(),
                        g2 == self.grid(),
                        forall|i: int|
                            0 <= i < self.rows@.len() ==> (#[trigger] self.rows@[i])@.len()
                                == ncols,
                        new_max as nat == crate::virtual_data::col_max_width(
                            g2.take(rr as int),
                            y as int,
                        ),
                    decreases nrows - rr,
                {
                    let cell_w: usize = {
                        let row = &self.rows[rr];
                        row[y].get_width()
                    };
                    proof {
                        assert(cell_w as nat == val_width(g2[rr as int][y as int]));
                        assert(g2.take(rr + 1).drop_last() =~= g2.take(rr as int));
                        assert(g2.take(rr + 1).last() == g2[rr as int]);
                    }
                    if cell_w > new_max {
                        new_max = cell_w;
                    }
                    rr = rr + 1;
                }
                proof {
                    assert(g2.take(nrows as int) =~= g2);
                }
                let meta = &mut self.metas[y];
                meta.set_width(new_max);
            }
            y = y + 1;
        }
        proof {
            assert(final(self).widths() =~= Seq::new(
                old(self).widths().len(),
                |c: int| (if val_width(old(self).grid()[row_index as int][c]) >= old(
                    self,
                ).widths()[c] {
                    crate::virtual_data::col_max_width(
                        old(self).grid().remove(row_index as int),
                        c,
                    )
                } else {
                    old(self).widths()[c]
                }),
            ));
        }
        true
    }

    /// Insert an unconstrained text column at an index; every existing row
    /// gets an empty text cell, and the tracked width covers the name.
    #[verifier::loop_isolation(false)]
    pub fn insert_column(&mut self, column_index: usize, column_name: &str) -> (r: DcsvResult<()>)
        requires
            old(self).wf(),
        ensures
            final(self).wf(),
            r is Ok <==> column_index <= old(self).cols().len(),
            r matches Err(e) ==> *final(self) == *old(self) && e is InvalidColumn,
            r is Ok ==> ({
                let col_m = ColumnModel {
                    name: column_name@,
                    column_type: ValueType::Text,
                    limiter: crate::value::LimiterModel {
                        value_type: ValueType::Text,
                        default: None,
                        variant: None,
                        pattern: None,
                    },
                };
                &&& final(self).cols() == old(self).cols().insert(column_index as int, col_m)
                &&& final(self).grid() == Seq::new(
                    old(self).grid().len(),
                    |r: int| old(self).grid()[r].insert(
                        column_index as int,
                        ValueModel::Str(Seq::empty()),
                    ),
                )
                &&& final(self).widths() == old(self).widths().insert(
                    column_index as int,
                    display_width(column_name@),
                )
            }),
    {
        if column_index > self.columns.len() {
            return Err(
                DcsvError::InvalidColumn("Cannot add column to out of range position".to_owned()),
            );
        }
        let mut meta = Meta::new();
        meta.set_width(crate::chars::str_display_width(column_name));
        self.metas.insert(column_index, meta);
        self.columns.insert(column_index, Column::empty(column_name));
        proof {
            assert(self.columns@ =~= old(self).columns@.insert(
                column_index as int,
                self.columns@[column_index as int],
            ));
            assert(self.metas@ =~= old(self).metas@.insert(
                column_index as int,
                self.metas@[column_index as int],
            ));
        }
        let ghost cols_mid = self.columns@;
        let ghost metas_mid = self.metas@;
        let n = self.rows.len();
        let mut r: usize = 0;
        while r < n
            invariant
                r <= n,
                n == self.rows@.len(),
                self.columns@ == cols_mid,
                self.metas@ == metas_mid,
                cols_mid.len() == old(self).columns@.len() + 1,
                metas_mid.len() == old(self).metas@.len() + 1,
                cols_mid == old(self).columns@.insert(
                    column_index as int,
                    cols_mid[column_index as int],
                ),
                metas_mid == old(self).metas@.insert(
                    column_index as int,
                    metas_mid[column_index as int],
                ),
                cols_mid[column_index as int]@.name == column_name@,
                cols_mid[column_index as int]@.column_type == ValueType::Text,
                cols_mid[column_index as int]@.limiter == (crate::value::LimiterModel {
                    value_type: ValueType::Text,
                    default: None,
                    variant: None,
                    pattern: None,
                }),
                metas_mid[column_index as int].max_unicode_width as nat == display_width(
                    column_name@,
                ),
                column_index < self.columns@.len(),
                forall|i: int|
                    0 <= i < r ==> (#[trigger] self.rows@[i])@.map_values(|v: Value| v@) == old(
                        self,
                    ).grid()[i].insert(column_index as int, ValueModel::Str(Seq::empty())),
                forall|i: int| r <= i < n ==> (#[trigger] self.rows@[i]) == old(self).rows@[i],
            decreases n - r,
        {
            let row = &mut self.rows[r];
            row.insert(column_index, Value::Text(String::new()));
            proof {
                assert(self.rows@[r as int]@.map_values(|v: Value| v@) =~= old(
                    self,
                ).grid()[r as int].insert(column_index as int, ValueModel::Str(Seq::empty())));
            }
            r = r + 1;
        }
        proof {
            assert(final(self).cols() =~= old(self).cols().insert(
                column_index as int,
                (ColumnModel {
                    name: column_name@,
                    column_type: ValueType::Text,
                    limiter: crate::value::LimiterModel {
                        value_type: ValueType::Text,
                        default: None,
                        variant: None,
                        pattern: None,
                    },
                }),
            ));
            assert(final(self).grid() =~~= Seq::new(
                old(self).grid().len(),
                |r: int| old(self).grid()[r].insert(
                    column_index as int,
                    ValueModel::Str(Seq::empty()),
                ),
            ));
            assert(final(self).widths() =~= old(self).widths().insert(
                column_index as int,
                display_width(column_name@),
            ));
        }
        Ok(())
    }

    /// Delete the column at an index, removing its cell from every row; if
    /// no column is left, every row is dropped too.
    #[verifier::loop_isolation(false)]
    pub fn delete_column(&mut self, column_index: usize) -> (r: DcsvResult<()>)
        requires
            old(self).wf(),
        ensures
            final(self).wf(),
            r is Ok <==> column_index < old(self).cols().len(),
            r matches Err(e) ==> *final(self) == *old(self) && e is OutOfRangeError,
            r is Ok ==> final(self).cols() == old(self).cols().remove(column_index as int)
                && final(self).widths() == old(self).widths().remove(column_index as int)
                && final(self).grid() == (if old(self).cols().len() == 1 {
                Seq::<Seq<ValueModel>>::empty()
            } else {
                Seq::new(
                    old(self).grid().len(),
                    |r: int| old(self).grid()[r].remove(column_index as int),
                )
            }),
    {
        if column_index >= self.columns.len() {
            return Err(DcsvError::OutOfRangeError);
        }
        let n = self.rows.len();
        let mut r: usize = 0;
        while r < n
            invariant
                r <= n,
                n == self.rows@.len(),
                self.columns == old(self).columns,
                self.metas == old(self).metas,
                column_index < self.columns@.len(),
                forall|i: int|
                    0 <= i < r ==> (#[trigger] self.rows@[i])@.map_values(|v: Value| v@) == old(
                        self,
                    ).grid()[i].remove(column_index as int),
                forall|i: int| r <= i < n ==> (#[trigger] self.rows@[i]) == old(self).rows@[i],
            decreases n - r,
        {
            let row = &mut self.rows[r];
            let _ = row.remove(column_index);
            proof {
                assert(self.rows@[r as int]@.map_values(|v: Value| v@) =~= old(
                    self,
                ).grid()[r as int].remove(column_index as int));
            }
            r = r + 1;
        }
        self.metas.remove(column_index);
        self.columns.remove(column_index);
        if self.columns.len() == 0 {
            self.rows = Vec::new();
        }
        proof {
            assert(final(self).cols() =~= old(self).cols().remove(column_index as int));
            assert(final(self).widths() =~= old(self).widths().remove(column_index as int));
            if old(self).cols().len() == 1 {
                assert(final(self).grid() =~= Seq::<Seq<ValueModel>>::empty());
            } else {
                assert(final(self).grid() =~~= Seq::new(
                    old(self).grid().len(),
                    |r: int| old(self).grid()[r].remove(column_index as int),
                ));
            }
        }
        Ok(())
    }

    /// The value at a coordinate, or nothing when it is out of range.
    pub fn get_cell(&self, x: usize, y: usize) -> (r: Option<&Value>)
        requires
            self.wf(),
        ensures
            r is Some <==> x < self.grid().len() && y < self.cols().len(),
            r matches Some(v) ==> v@ == self.grid()[x as int][y as int],
    {
        if !self.is_valid_cell_coordinate(x, y) {
            return None;
        }
        let row = &self.rows[x];
        Some(&row[y])
    }

    /// Overwrite the value at a coordinate; the column's tracked width
    /// widens to cover the new value.
    pub fn set_cell(&mut self, x: usize, y: usize, value: Value) -> (r: DcsvResult<()>)
        requires
            old(self).wf(),
        ensures
            final(self).wf(),
            r is Ok <==> x < old(self).grid().len() && y < old(self).cols().len(),
            r matches Err(e) ==> *final(self) == *old(self) && e is OutOfRangeError,
            r is Ok ==> final(self).cols() == old(self).cols() && final(self).grid() == old(
                self,
            ).grid().update(
                x as int,
                old(self).grid()[x as int].update(y as int, value@),
            ) && final(self).widths() == old(self).widths().update(
                y as int,
                (if val_width(value@) > old(self).widths()[y as int] {
                    val_width(value@)
                } else {
                    old(self).widths()[y as int]
                }),
            ),
    {
        if !self.is_valid_cell_coordinate(x, y) {
            return Err(DcsvError::OutOfRangeError);
        }
        {
            let meta = &mut self.metas[y];
            meta.update_width_from_value(&value);
        }
        let row = &mut self.rows[x];
        row[y] = value;
        proof {
            assert(final(self).cols() =~= old(self).cols());
            assert(final(self).grid() =~~= old(self).grid().update(
                x as int,
                old(self).grid()[x as int].update(y as int, value@),
            ));
            assert(final(self).widths() =~= old(self).widths().update(
                y as int,
                (if val_width(value@) > old(self).widths()[y as int] {
                    val_width(value@)
                } else {
                    old(self).widths()[y as int]
                }),
            ));
        }
        Ok(())
    }

    /// Move a column to a target index by adjacent swaps; its width
    /// metadata and every row's cell move with it.
    #[verifier::loop_isolation(false)]
    pub fn move_column(&mut self, src_index: usize, target_index: usize) -> (r: DcsvResult<()>)
        requires
            old(self).wf(),
        ensures
            final(self).wf(),
            r is Ok <==> src_index < old(self).cols().len() && target_index < old(
                self,
            ).cols().len(),
            r matches Err(e) ==> *final(self) == *old(self) && e is OutOfRangeError,
            r is Ok ==> final(self).cols() == move_seq(
                old(self).cols(),
                src_index as int,
                target_index as int,
            ) && final(self).widths() == move_seq(
                old(self).widths(),
                src_index as int,
                target_index as int,
            ) && final(self).grid() == Seq::new(
                old(self).grid().len(),
                |r: int| move_seq(old(self).grid()[r], src_index as int, target_index as int),
            ),
    {
        let column_count = self.columns.len();
        if src_index >= column_count || target_index >= column_count {
            return Err(DcsvError::OutOfRangeError);
        }
        move_element(&mut self.columns, src_index, target_index);
        move_element(&mut self.metas, src_index, target_index);
        let ghost src = src_index as int;
        let ghost tgt = target_index as int;
        let n = self.rows.len();
        let mut r: usize = 0;
        while r < n
            invariant
                r <= n,
                n == self.rows@.len(),
                src_index < column_count,
                target_index < column_count,
                self.columns@ == move_seq(old(self).columns@, src, tgt),
                self.metas@ == move_seq(old(self).metas@, src, tgt),
                self.columns@.len() == column_count,
                self.metas@.len() == column_count,
                forall|i: int|
                    0 <= i < r ==> (#[trigger] self.rows@[i])@ == move_seq(
                        old(self).rows@[i]@,
                        src,
                        tgt,
                    ),
                forall|i: int| r <= i < n ==> (#[trigger] self.rows@[i]) == old(self).rows@[i],
            decreases n - r,
        {
            let row = &mut self.rows[r];
            move_element(row, src_index, target_index);
            r = r + 1;
        }
        proof {
            crate::vcont::lemma_move_seq_properties(old(self).columns@, src, tgt);
            crate::vcont::lemma_move_seq_properties(old(self).metas@, src, tgt);
            crate::vcont::lemma_move_seq_properties(old(self).cols(), src, tgt);
            crate::vcont::lemma_move_seq_properties(old(self).widths(), src, tgt);
            assert(final(self).cols() =~= move_seq(old(self).cols(), src, tgt)) by {
                assert forall|cc: int| 0 <= cc < self.cols().len() implies self.cols()[cc]
                    == move_seq(old(self).cols(), src, tgt)[cc] by {
                    let oc = crate::virtual_data::move_src(src, tgt, cc);
                    assert(self.columns@[cc] == old(self).columns@[oc]);
                    assert(move_seq(old(self).cols(), src, tgt)[cc] == old(self).cols()[oc]);
                }
            }
            assert(final(self).widths() =~= move_seq(old(self).widths(), src, tgt)) by {
                assert forall|cc: int| 0 <= cc < self.widths().len() implies self.widths()[cc]
                    == move_seq(old(self).widths(), src, tgt)[cc] by {
                    let oc = crate::virtual_data::move_src(src, tgt, cc);
                    assert(self.metas@[cc] == old(self).metas@[oc]);
                    assert(move_seq(old(self).widths(), src, tgt)[cc] == old(self).widths()[oc]);
                }
            }
            assert(final(self).grid() =~~= Seq::new(
                old(self).grid().len(),
                |r: int| move_seq(old(self).grid()[r], src, tgt),
            )) by {
                assert forall|rr: int| 0 <= rr < self.grid().len() implies self.grid()[rr] =~=
                    move_seq(old(self).grid()[rr], src, tgt) by {
                    crate::vcont::lemma_move_seq_properties(old(self).rows@[rr]@, src, tgt);
                    crate::vcont::lemma_move_seq_properties(old(self).grid()[rr], src, tgt);
                    assert forall|cc: int| 0 <= cc < self.grid()[rr].len() implies self.grid(
                    )[rr][cc] == move_seq(old(self).grid()[rr], src, tgt)[cc] by {
                        let oc = crate::virtual_data::move_src(src, tgt, cc);
                        assert(self.rows@[rr]@[cc] == old(self).rows@[rr]@[oc]);
                        assert(move_seq(old(self).grid()[rr], src, tgt)[cc] == old(
                            self,
                        ).grid()[rr][oc]);
                    }
                }
            }
        }
        Ok(())
    }

    /// Move a row to a target index by adjacent swaps.
    pub fn move_row(&mut self, src_index: usize, target_index: usize) -> (r: DcsvResult<()>)
        requires
            old(self).wf(),
        ensures
            final(self).wf(),
            r is Ok <==> src_index < old(self).grid().len() && target_index < old(
                self,
            ).grid().len(),
            r matches Err(e) ==> *final(self) == *old(self) && e is OutOfRangeError,
            r is Ok ==> final(self).cols() == old(self).cols() && final(self).widths() == old(
                self,
            ).widths() && final(self).grid() == move_seq(
                old(self).grid(),
                src_index as int,
                target_index as int,
            ),
    {
        let row_count = self.rows.len();
        if src_index >= row_count || target_index >= row_count {
            return Err(DcsvError::OutOfRangeError);
        }
        move_element(&mut self.rows, src_index, target_index);
        proof {
            let src = src_index as int;
            let tgt = target_index as int;
            crate::vcont::lemma_move_seq_properties(old(self).rows@, src, tgt);
            crate::vcont::lemma_move_seq_properties(old(self).grid(), src, tgt);
            assert(final(self).grid() =~~= move_seq(old(self).grid(), src, tgt)) by {
                assert forall|rr: int| 0 <= rr < self.grid().len() implies self.grid()[rr] =~=
                    move_seq(old(self).grid(), src, tgt)[rr] by {
                    let orr = crate::virtual_data::move_src(src, tgt, rr);
                    assert(self.rows@[rr] == old(self).rows@[orr]);
                    assert(move_seq(old(self).grid(), src, tgt)[rr] == old(self).grid()[orr]);
                }
            }
        }
        Ok(())
    }

    /// The values of one column, in row order.
    pub fn get_column_iterator(&self, column_index: usize) -> (r: DcsvResult<Vec<&Value>>)
        requires
            self.wf(),
        ensures
            r is Ok <==> column_index < self.cols().len(),
            r matches Ok(vs) ==> vs@.len() == self.grid().len() && (forall|i: int|
                0 <= i < vs@.len() ==> (#[trigger] vs@[i])@ == self.grid()[i][column_index as int]),
            r matches Err(e) ==> e is OutOfRangeError,
    {
        if self.columns.len() <= column_index {
            return Err(DcsvError::OutOfRangeError);
        }
        let mut acc: Vec<&Value> = Vec::new();
        let n = self.rows.len();
        let mut i: usize = 0;
        while i < n
            invariant
                i <= n,
                n == self.rows@.len(),
                self.wf(),
                column_index < self.cols().len(),
                acc@.len() == i,
                forall|j: int|
                    0 <= j < i ==> (#[trigger] acc@[j])@ == self.grid()[j][column_index as int],
            decreases n - i,
        {
            let row = &self.rows[i];
            acc.push(&row[column_index]);
            i = i + 1;
        }
        Ok(acc)
    }
}

} // verus!

verus! {

/// The csv rendering of the positional container: the header line, a
/// newline, then the comma-joined rows joined by newlines.
pub open spec fn spec_array_csv_text(d: VirtualArray) -> Seq<char> {
    crate::chars::join_char(Seq::new(d.cols().len(), |c: int| d.cols()[c].name), ',') + seq!['\n']
        + crate::chars::join_char(
        Seq::new(
            d.grid().len(),
            |r: int| crate::chars::join_char(
                Seq::new(d.cols().len(), |c: int| crate::value::val_str(d.grid()[r][c])),
                ',',
            ),
        ),
        '\n',
    )
}

impl VirtualArray {
    /// The table as csv text: the header line of column names, then one
    /// comma-joined line per row.
    #[verifier::loop_isolation(false)]
    pub fn to_string(&self) -> (r: String)
        requires
            self.wf(),
        ensures
            r@ == spec_array_csv_text(*self),
    {
        let ghost header_names = Seq::new(self.cols().len(), |c: int| self.cols()[c].name);
        let ghost row_lines = Seq::new(
            self.grid().len(),
            |r: int| crate::chars::join_char(
                Seq::new(self.cols().len(), |c: int| crate::value::val_str(self.grid()[r][c])),
                ',',
            ),
        );
        let ncols = self.columns.len();
        let mut acc = String::new();
        let mut c: usize = 0;
        proof {
            assert(acc@ =~= crate::chars::join_char(header_names.take(0), ','));
        }
        while c < ncols
            invariant
                c <= ncols,
                ncols == self.columns@.len(),
                header_names == Seq::new(self.cols().len(), |cc: int| self.cols()[cc].name),
                acc@ == crate::chars::join_char(header_names.take(c as int), ','),
            decreases ncols - c,
        {
            if c > 0 {
                acc.push(',');
            }
            acc.append(self.columns[c].get_name());
            proof {
                crate::chars::lemma_join_char_push(
                    header_names.take(c as int),
                    header_names[c as int],
                    ',',
                );
                assert(header_names.take(c + 1) =~= header_names.take(c as int).push(
                    header_names[c as int],
                ));
            }
            c = c + 1;
        }
        acc.push('\n');
        proof {
            assert(header_names.take(ncols as int) =~= header_names);
        }
        let ghost base = acc@;
        let nrows = self.rows.len();
        let mut r: usize = 0;
        proof {
            assert(base + crate::chars::join_char(row_lines.take(0), '\n') =~= base);
        }
        while r < nrows
            invariant
                r <= nrows,
                nrows == self.rows@.len(),
                ncols == self.columns@.len(),
                row_lines == Seq::new(
                    self.grid().len(),
                    |rr: int| crate::chars::join_char(
                        Seq::new(
                            self.cols().len(),
                            |cc: int| crate::value::val_str(self.grid()[rr][cc]),
                        ),
                        ',',
                    ),
                ),
                acc@ == base + crate::chars::join_char(row_lines.take(r as int), '\n'),
            decreases nrows - r,
        {
            if r > 0 {
                acc.push('\n');
            }
            let ghost row_strs = Seq::new(
                self.cols().len(),
                |cc: int| crate::value::val_str(self.grid()[r as int][cc]),
            );
            let ghost line_base = acc@;
            let mut c: usize = 0;
            proof {
                assert(line_base + crate::chars::join_char(row_strs.take(0), ',') =~= line_base);
            }
            while c < ncols
                invariant
                    c <= ncols,
                    r < nrows,
                    nrows == self.rows@.len(),
                    ncols == self.columns@.len(),
                    (#[trigger] self.rows@[r as int])@.len() == ncols,
                    row_strs == Seq::new(
                        self.cols().len(),
                        |cc: int| crate::value::val_str(self.grid()[r as int][cc]),
                    ),
                    acc@ == line_base + crate::chars::join_char(row_strs.take(c as int), ','),
                decreases ncols - c,
            {
                if c > 0 {
                    acc.push(',');
                }
                let value = {
                    let row = &self.rows[r];
                    row[c].to_string()
                };
                proof {
                    assert(value@ == row_strs[c as int]);
                }
                acc.append(value.as_str());
                proof {
                    crate::chars::lemma_join_char_push(
                        row_strs.take(c as int),
                        row_strs[c as int],
                        ',',
                    );
                    assert(row_strs.take(c + 1) =~= row_strs.take(c as int).push(
                        row_strs[c as int],
                    ));
                }
                c = c + 1;
            }
            proof {
                assert(row_strs.take(ncols as int) =~= row_strs);
                assert(row_lines[r as int] == crate::chars::join_char(row_strs, ','));
                crate::chars::lemma_join_char_push(row_lines.take(r as int), row_lines[r as int], '\n');
                assert(row_lines.take(r + 1) =~= row_lines.take(r as int).push(
                    row_lines[r as int],
                ));
                if r == 0 {
                    assert(acc@ =~= base + crate::chars::join_char(row_lines.take(1), '\n'));
                } else {
                    assert(acc@ =~= base + crate::chars::join_char(row_lines.take(r + 1), '\n'));
                }
            }
            r = r + 1;
        }
        proof {
            assert(row_lines.take(nrows as int) =~= row_lines);
        }
        acc
    }

    /// Rescan every cell and widen each column's tracked width to cover it.
    #[verifier::loop_isolation(false)]
    pub fn update_width_global(&mut self)
        requires
            old(self).wf(),
        ensures
            final(self).wf(),
            final(self).cols() == old(self).cols(),
            final(self).grid() == old(self).grid(),
            final(self).widths() == Seq::new(
                old(self).widths().len(),
                |c: int| (if crate::virtual_data::col_max_width(old(self).grid(), c) > old(
                    self,
                ).widths()[c] {
                    crate::virtual_data::col_max_width(old(self).grid(), c)
                } else {
                    old(self).widths()[c]
                }),
            ),
    {
        let ncols = self.columns.len();
        let nrows = self.rows.len();
        let mut c: usize = 0;
        while c < ncols
            invariant
                c <= ncols,
                ncols == self.columns@.len() == self.metas@.len(),
                nrows == self.rows@.len(),
                self.columns == old(self).columns,
                self.rows == old(self).rows,
                forall|i: int|
                    c <= i < ncols ==> (#[trigger] self.metas@[i]) == old(self).metas@[i],
                forall|i: int|
                    0 <= i < c ==> (#[trigger] self.metas@[i]).max_unicode_width as nat == (if
                        crate::virtual_data::col_max_width(old(self).grid(), i) > old(
                        self,
                    ).widths()[i] {
                        crate::virtual_data::col_max_width(old(self).grid(), i)
                    } else {
                        old(self).widths()[i]
                    }),
            decreases ncols - c,
        {
            let mut new_max: usize = 0;
            let mut rr: usize = 0;
            proof {
                assert(old(self).grid().take(0) =~= Seq::<Seq<crate::value::ValueModel>>::empty());
            }
            while rr < nrows
                invariant
                    rr <= nrows,
                    c < ncols,
                    nrows == self.rows@.len(),
                    ncols == self.columns@.len(),
                    self.rows == old(self).rows,
                    forall|i: int|
                        0 <= i < self.rows@.len() ==> (#[trigger] self.rows@[i])@.len() == ncols,
                    new_max as nat == crate::virtual_data::col_max_width(
                        old(self).grid().take(rr as int),
                        c as int,
                    ),
                decreases nrows - rr,
            {
                let cell_w: usize = {
                    let row = &self.rows[rr];
                    row[c].get_width()
                };
                proof {
                    assert(cell_w as nat == val_width(old(self).grid()[rr as int][c as int]));
                    assert(old(self).grid().take(rr + 1).drop_last() =~= old(self).grid().take(
                        rr as int,
                    ));
                    assert(old(self).grid().take(rr + 1).last() == old(self).grid()[rr as int]);
                }
                if cell_w > new_max {
                    new_max = cell_w;
                }
                rr = rr + 1;
            }
            proof {
                assert(old(self).grid().take(nrows as int) =~= old(self).grid());
            }
            let meta = &mut self.metas[c];
            meta.update_width(new_max);
            c = c + 1;
        }
        proof {
            assert(final(self).cols() =~= old(self).cols());
            assert(final(self).grid() =~= old(self).grid());
            assert(final(self).widths() =~= Seq::new(
                old(self).widths().len(),
                |c: int| (if crate::virtual_data::col_max_width(old(self).grid(), c) > old(
                    self,
                ).widths()[c] {
                    crate::virtual_data::col_max_width(old(self).grid(), c)
                } else {
                    old(self).widths()[c]
                }),
            ));
        }
    }
}

} // verus!

verus! {

impl crate::vcont::VCont for VirtualArray {
    open spec fn inv(&self) -> bool {
        self.wf()
    }

    fn new() -> Self {
        VirtualArray::new()
    }

    fn move_row(&mut self, src_index: usize, target_index: usize) -> DcsvResult<()> {
        VirtualArray::move_row(self, src_index, target_index)
    }

    fn move_column(&mut self, src_index: usize, target_index: usize) -> DcsvResult<()> {
        VirtualArray::move_column(self, src_index, target_index)
    }

    fn rename_column(&mut self, column_index: usize, new_name: &str) -> DcsvResult<()> {
        if column_index < self.columns.len() {
            VirtualArray::rename_column(self, column_index, new_name)
        } else {
            Err(DcsvError::OutOfRangeError)
        }
    }

    fn set_column(&mut self, column_index: usize, value: Value) -> DcsvResult<()> {
        VirtualArray::set_column(self, column_index, value)
    }

    fn edit_row(&mut self, row_index: usize, values: &[Option<Value>]) -> DcsvResult<()> {
        VirtualArray::edit_row(self, row_index, values)
    }

    fn set_row(&mut self, row_index: usize, values: &[Value]) -> DcsvResult<()> {
        VirtualArray::set_row(self, row_index, values)
    }

    fn get_cell(&self, x: usize, y: usize) -> Option<&Value> {
        VirtualArray::get_cell(self, x, y)
    }

    fn set_cell(&mut self, x: usize, y: usize, value: Value) -> DcsvResult<()> {
        VirtualArray::set_cell(self, x, y, value)
    }

    fn insert_row(&mut self, row_index: usize, source: Option<&[Value]>) -> DcsvResult<()> {
        VirtualArray::insert_row(self, row_index, source)
    }

    fn delete_row(&mut self, row_index: usize) -> bool {
        VirtualArray::delete_row(self, row_index)
    }

    fn insert_column(&mut self, column_index: usize, column_name: &str) -> DcsvResult<()> {
        VirtualArray::insert_column(self, column_index, column_name)
    }

    fn delete_column(&mut self, column_index: usize) -> DcsvResult<()> {
        VirtualArray::delete_column(self, column_index)
    }

    fn get_row_count(&self) -> usize {
        VirtualArray::get_row_count(self)
    }

    fn get_column_count(&self) -> usize {
        VirtualArray::get_column_count(self)
    }

    fn drop_data(&mut self) {
        VirtualArray::drop_data(self)
    }
}

} // verus!
