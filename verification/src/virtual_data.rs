//! The name-keyed tabular container with limiter enforcement.

use vstd::prelude::*;
use crate::chars::{display_width, join_char};
use crate::column::{spec_col_default, Column, ColumnModel};
use crate::digits::{is_uint_literal, parse_u64, uint_literal_val};
use crate::error::{DcsvError, DcsvResult};
use crate::meta::Meta;
use crate::row::{row_distinct, row_get, row_has, Row};
use crate::value::{spec_qualify, val_str, val_width, Value, ValueModel, ValueType};
use crate::vcont::{move_element, move_seq, pad_str, CellAlignType};

verus! {

/// Where the element now at `i` stood before a move from `src` to `target`.
pub open spec fn move_src(src: int, target: int, i: int) -> int {
    if i == target {
        src
    } else if src < target && src <= i < target {
        i + 1
    } else if target < src && target < i <= src {
        i - 1
    } else {
        i
    }
}

/// The cells of one row in the order of the given columns.
pub open spec fn row_cells(
    row: Seq<(Seq<char>, ValueModel)>,
    cols: Seq<ColumnModel>,
) -> Seq<ValueModel> {
    Seq::new(cols.len(), |c: int| row_get(row, cols[c].name)->0)
}

/// The widest display width in one column of a grid.
pub open spec fn col_max_width(grid: Seq<Seq<ValueModel>>, c: int) -> nat
    decreases grid.len(),
{
    if grid.len() == 0 {
        0
    } else {
        let rest = col_max_width(grid.drop_last(), c);
        if val_width(grid.last()[c]) > rest {
            val_width(grid.last()[c])
        } else {
            rest
        }
    }
}

/// The name-keyed container: columns, their width metadata, and rows keyed
/// by column name.  Column names are unique, and every operation that can
/// break an invariant is validated before anything is written.
pub struct VirtualData {
    pub metas: Vec<Meta>,
    pub columns: Vec<Column>,
    pub rows: Vec<Row>,
}

impl Default for VirtualData {
    /// The default container is empty.
    fn default() -> (r: Self)
        ensures
            r.wf(),
            r.cols() == Seq::<ColumnModel>::empty(),
            r.grid() == Seq::<Seq<ValueModel>>::empty(),
    {
        VirtualData::new()
    }
}

impl VirtualData {
    /// The columns' mathematical content, in order.
    pub open spec fn cols(&self) -> Seq<ColumnModel> {
        self.columns@.map_values(|c: Column| c@)
    }

    /// The table as a grid of values, each row in column order.
    pub open spec fn grid(&self) -> Seq<Seq<ValueModel>> {
        Seq::new(self.rows@.len(), |r: int| row_cells(self.rows@[r]@, self.cols()))
    }

    /// The tracked maximum display width of each column.
    pub open spec fn widths(&self) -> Seq<nat> {
        self.metas@.map_values(|m: Meta| m.max_unicode_width as nat)
    }

    /// The container's invariant: one width per column, unique column
    /// names, and every row keyed by every current column name.
    pub open spec fn wf(&self) -> bool {
        &&& self.metas@.len() == self.columns@.len()
        &&& (forall|i: int, j: int|
            0 <= i < j < self.columns@.len() ==> (#[trigger] self.columns@[i])@.name != (
            #[trigger] self.columns@[j])@.name)
        &&& (forall|r: int| 0 <= r < self.rows@.len() ==> row_distinct((#[trigger] self.rows@[r])@))
        &&& (forall|r: int, c: int|
            0 <= r < self.rows@.len() && 0 <= c < self.columns@.len() ==> row_has(
                (#[trigger] self.rows@[r])@,
                (#[trigger] self.columns@[c])@.name,
            ))
    }

    /// An empty container.
    pub fn new() -> (r: Self)
        ensures
            r.wf(),
            r.cols() == Seq::<ColumnModel>::empty(),
            r.grid() == Seq::<Seq<ValueModel>>::empty(),
            r.widths() == Seq::<nat>::empty(),
    {
        let r = Self { metas: Vec::new(), columns: Vec::new(), rows: Vec::new() };
        proof {
            assert(r.cols() =~= Seq::<ColumnModel>::empty());
            assert(r.grid() =~= Seq::<Seq<ValueModel>>::empty());
            assert(r.widths() =~= Seq::<nat>::empty());
        }
        r
    }

    /// The number of rows.
    pub fn get_row_count(&self) -> (r: usize)
        ensures
            r == self.grid().len(),
    {
        self.rows.len()
    }

    /// The number of columns.
    pub fn get_column_count(&self) -> (r: usize)
        ensures
            r == self.cols().len(),
    {
        self.columns.len()
    }

    /// Whether a coordinate lies inside the table.
    fn is_valid_cell_coordinate(&self, x: usize, y: usize) -> (r: bool)
        ensures
            r == (x < self.grid().len() && y < self.cols().len()),
    {
        x < self.rows.len() && y < self.columns.len()
    }

    /// The index of the column with exactly this name, if any.
    fn find_column(&self, name: &str) -> (r: Option<usize>)
        ensures
            r matches Some(i) ==> i < self.cols().len() && self.cols()[i as int].name == name@,
            r is None ==> forall|c: int|
                0 <= c < self.cols().len() ==> (#[trigger] self.cols()[c]).name != name@,
    {
        let n = self.columns.len();
        let mut i: usize = 0;
        while i < n
            invariant
                i <= n,
                n == self.columns@.len(),
                forall|c: int| 0 <= c < i ==> (#[trigger] self.cols()[c]).name != name@,
            decreases n - i,
        {
            let hit = {
                let col_name: &str = self.columns[i].get_name();
                let a: String = col_name.to_owned();
                let b: String = name.to_owned();
                a == b
            };
            if hit {
                proof {
                    assert(self.cols()[i as int].name == name@);
                }
                return Some(i);
            }
            i = i + 1;
        }
        None
    }

    /// A column index from either a decimal index or a column name: a
    /// numeric string is an index, checked against the column count, and
    /// any other string is looked up as a name.
    pub fn try_get_column_index(&self, src: &str) -> (r: Option<usize>)
        ensures
            is_uint_literal(src@) ==> ({
                &&& (r is Some <==> uint_literal_val(src@) < self.cols().len())
                &&& (r matches Some(i) ==> i as int == uint_literal_val(src@))
            }),
            !is_uint_literal(src@) ==> ({
                &&& (r matches Some(i) ==> i < self.cols().len() && self.cols()[i as int].name
                    == src@)
                &&& (r is None ==> forall|c: int|
                    0 <= c < self.cols().len() ==> (#[trigger] self.cols()[c]).name != src@)
            }),
    {
        let cs = crate::chars::chars_of(src);
        match parse_u64(cs.as_slice()) {
            Some(index) => {
                let count = self.columns.len();
                if index < count as u64 {
                    Some(index as usize)
                } else {
                    None
                }
            },
            None => self.find_column(src),
        }
    }

    /// The column at `y`, provided the coordinate `(x, y)` is in range.
    fn get_column_if_valid(&self, x: usize, y: usize) -> (r: DcsvResult<&Column>)
        ensures
            r is Ok <==> x < self.grid().len() && y < self.cols().len(),
            r matches Ok(col) ==> (*col)@ == self.cols()[y as int],
            r matches Err(e) ==> e is OutOfRangeError,
    {
        if !self.is_valid_cell_coordinate(x, y) {
            return Err(DcsvError::OutOfRangeError);
        }
        Ok(&self.columns[y])
    }

    /// The value at a coordinate, or nothing when it is out of range.
    pub fn get_cell(&self, x: usize, y: usize) -> (r: Option<&Value>)
        requires
            self.wf(),
        ensures
            r is Some <==> x < self.grid().len() && y < self.cols().len(),
            r matches Some(v) ==> v@ == self.grid()[x as int][y as int],
    {
        match self.get_column_if_valid(x, y) {
            Ok(_) => {
                let name: &str = self.columns[y].get_name();
                match self.rows[x].get_cell_value(name) {
                    Some(v) => {
                        proof {
                            assert(row_has(self.rows@[x as int]@, self.cols()[y as int].name));
                            crate::row::lemma_row_get_some(
                                self.rows@[x as int]@,
                                self.cols()[y as int].name,
                            );
                        }
                        Some(v)
                    },
                    None => {
                        proof {
                            assert(row_has(self.rows@[x as int]@, self.cols()[y as int].name));
                            crate::row::lemma_row_get_some(
                                self.rows@[x as int]@,
                                self.cols()[y as int].name,
                            );
                        }
                        None
                    },
                }
            },
            Err(_) => None,
        }
    }

    /// Whether a value passes the limiter of the column at this index.
    fn is_valid_column_data(&self, column: usize, value: &Value) -> (r: DcsvResult<()>)
        ensures
            r is Ok <==> column < self.cols().len() && spec_qualify(
                self.cols()[column as int].limiter,
                value@,
            ),
            r matches Err(e) ==> (column < self.cols().len() ==> e is InvalidCellData) && (
            column >= self.cols().len() ==> e is InvalidRowData),
    {
        if column < self.columns.len() {
            if self.columns[column].limiter.qualify(value) {
                Ok(())
            } else {
                Err(
                    DcsvError::InvalidCellData(
                        "Given cell data failed to match limiter's restriction".to_owned(),
                    ),
                )
            }
        } else {
            Err(DcsvError::InvalidRowData("Given column index doesn't exist".to_owned()))
        }
    }

    /// Whether a value list has exactly one value per column.
    fn check_row_length(&self, values: &[Value]) -> (r: DcsvResult<()>)
        ensures
            r is Ok <==> values@.len() == self.cols().len(),
            r matches Err(e) ==> e is InvalidRowData,
    {
        if self.columns.len() == values.len() {
            Ok(())
        } else {
            Err(DcsvError::InvalidRowData("Given row length differs from column count".to_owned()))
        }
    }

    /// Overwrite the value at a coordinate; the new value must pass the
    /// column's limiter, and the column's tracked width widens to cover it.
    pub fn set_cell(&mut self, x: usize, y: usize, value: Value) -> (r: DcsvResult<()>)
        requires
            old(self).wf(),
        ensures
            final(self).wf(),
            r is Ok <==> x < old(self).grid().len() && y < old(self).cols().len() && spec_qualify(
                old(self).cols()[y as int].limiter,
                value@,
            ),
            r matches Err(e) ==> *final(self) == *old(self) && ((!(x < old(self).grid().len() && y
                < old(self).cols().len()) ==> e is OutOfRangeError) && (x < old(
                self,
            ).grid().len() && y < old(self).cols().len() ==> e is InvalidCellData)),
            r is Ok ==> final(self).cols() == old(self).cols() && final(self).grid() == old(
                self,
            ).grid().update(
                x as int,
                old(self).grid()[x as int].update(y as int, value@),
            ) && final(self).widths() == old(self).widths().update(
                y as int,
                (if val_width(value@) > old(self).widths()[y as int] {
                    val_width(value@)
                } else {
                    old(self).widths()[y as int]
                }),
            ),
    {
        let name: String = match self.get_column_if_valid(x, y) {
            Ok(col) => col.get_name().to_owned(),
            Err(e) => {
                return Err(e);
            },
        };
        match self.is_valid_column_data(y, &value) {
            Ok(_) => {},
            Err(e) => {
                return Err(e);
            },
        }
        let meta = &mut self.metas[y];
        meta.update_width_from_value(&value);
        let row = &mut self.rows[x];
        row.update_cell_value(name.as_str(), value);
        proof {
            assert(row_has(old(self).rows@[x as int]@, old(self).cols()[y as int].name));
            assert(self.cols() =~= old(self).cols());
            assert forall|rr: int, cc: int|
                0 <= rr < self.rows@.len() && 0 <= cc < self.columns@.len()
                implies row_has(self.rows@[rr]@, self.columns@[cc]@.name) by {
                if rr == x as int {
                    crate::row::lemma_row_get_some(self.rows@[rr]@, self.columns@[cc]@.name);
                    crate::row::lemma_row_get_some(old(self).rows@[rr]@, old(
                        self,
                    ).columns@[cc]@.name);
                    if cc == y as int {
                    } else {
                        assert(old(self).columns@[cc]@.name != old(self).columns@[y as int]@.name);
                    }
                }
            }
            assert(self.grid() =~~= old(self).grid().update(
                x as int,
                old(self).grid()[x as int].update(y as int, value@),
            )) by {
                assert forall|rr: int| 0 <= rr < self.grid().len() implies self.grid()[rr] =~= old(
                    self,
                ).grid().update(
                    x as int,
                    old(self).grid()[x as int].update(y as int, value@),
                )[rr] by {
                    if rr == x as int {
                        assert forall|cc: int| 0 <= cc < self.cols().len() implies
                            row_cells(self.rows@[rr]@, self.cols())[cc] == old(
                            self,
                        ).grid()[x as int].update(y as int, value@)[cc] by {
                            if cc != y as int {
                                assert(old(self).columns@[cc]@.name != old(
                                    self,
                                ).columns@[y as int]@.name);
                            }
                        }
                    }
                }
            }
            assert(self.widths() =~= old(self).widths().update(
                y as int,
                (if val_width(value@) > old(self).widths()[y as int] {
                    val_width(value@)
                } else {
                    old(self).widths()[y as int]
                }),
            ));
        }
        Ok(())
    }

    /// Insert a column at an index, with a type, an optional limiter and an
    /// optional placeholder written into every existing row.  The tracked
    /// width covers the column name and the column's default value.
    pub fn insert_column_with_type(
        &mut self,
        column_index: usize,
        column_name: &str,
        column_type: ValueType,
        limiter: Option<crate::value::ValueLimiter>,
        placeholder: Option<Value>,
    ) -> (r: DcsvResult<()>)
        requires
            old(self).wf(),
        ensures
            final(self).wf(),
            r is Ok <==> column_index <= old(self).cols().len() && (forall|c: int|
                0 <= c < old(self).cols().len() ==> (#[trigger] old(self).cols()[c]).name
                    != column_name@),
            r matches Err(e) ==> *final(self) == *old(self) && e is InvalidColumn,
            r is Ok ==> ({
                let col_m = ColumnModel {
                    name: column_name@,
                    column_type: column_type,
                    limiter: match limiter {
                        Some(l) => l@,
                        None => crate::value::LimiterModel {
                            value_type: ValueType::Text,
                            default: None,
                            variant: None,
                            pattern: None,
                        },
                    },
                };
                let cell = match placeholder {
                    Some(p) => p@,
                    None => spec_col_default(col_m),
                };
                &&& final(self).cols() == old(self).cols().insert(column_index as int, col_m)
                &&& final(self).grid() == Seq::new(
                    old(self).grid().len(),
                    |r: int| old(self).grid()[r].insert(column_index as int, cell),
                )
                &&& final(self).widths() == old(self).widths().insert(
                    column_index as int,
                    (if display_width(column_name@) > val_width(spec_col_default(col_m)) {
                        display_width(column_name@)
                    } else {
                        val_width(spec_col_default(col_m))
                    }),
                )
            }),
    {
        if column_index > self.columns.len() {
            return Err(
                DcsvError::InvalidColumn("Cannot add column to out of range position".to_owned()),
            );
        }
        if let Some(_) = self.find_column(column_name) {
            return Err(DcsvError::InvalidColumn("Cannot add existing column".to_owned()));
        }
        let new_column = Column::new(column_name, column_type, limiter);
        let ghost col_m = new_column@;
        let default_value = new_column.get_default_value();
        let name_w = crate::chars::str_display_width(column_name);
        let def_w = default_value.get_width();
        let max_width = if name_w > def_w {
            name_w
        } else {
            def_w
        };
        let value = match placeholder {
            Some(p) => p,
            None => default_value,
        };
        let ghost cell = value@;
        let n = self.rows.len();
        let mut r: usize = 0;
        while r < n
            invariant
                r <= n,
                n == self.rows@.len(),
                self.columns == old(self).columns,
                self.metas == old(self).metas,
                self.rows@.len() == old(self).rows@.len(),
                old(self).wf(),
                value@ == cell,
                forall|i: int|
                    0 <= i < r ==> row_distinct((#[trigger] self.rows@[i])@) && row_get(
                        self.rows@[i]@,
                        column_name@,
                    ) == Some(cell) && (forall|k: Seq<char>|
                        k != column_name@ ==> row_get(self.rows@[i]@, k) == row_get(
                            old(self).rows@[i]@,
                            k,
                        )),
                forall|i: int| r <= i < n ==> (#[trigger] self.rows@[i]) == old(self).rows@[i],
            decreases n - r,
        {
            let row = &mut self.rows[r];
            row.insert_cell(column_name, value.clone());
            r = r + 1;
        }
        self.columns.insert(column_index, new_column);
        let mut meta = Meta::new();
        meta.set_width(max_width);
        self.metas.insert(column_index, meta);
        proof {
            let oldc = old(self).cols();
            let newc = self.cols();
            assert(newc =~= oldc.insert(column_index as int, col_m)) by {
                assert(forall|c: int|
                    0 <= c < column_index ==> (#[trigger] self.columns@[c]) == old(
                        self,
                    ).columns@[c]);
                assert(self.columns@[column_index as int]@ == col_m);
                assert(forall|c: int|
                    column_index < c < self.columns@.len() ==> (#[trigger] self.columns@[c])
                        == old(self).columns@[c - 1]);
            }
            assert(final(self).wf()) by {
                assert forall|i: int, j: int|
                    0 <= i < j < self.columns@.len() implies (#[trigger] self.columns@[i])@.name
                    != (#[trigger] self.columns@[j])@.name by {
                    assert(newc[i] == self.columns@[i]@ && newc[j] == self.columns@[j]@);
                    assert(newc =~= oldc.insert(column_index as int, col_m));
                }
                assert forall|rr: int, cc: int|
                    0 <= rr < self.rows@.len() && 0 <= cc < self.columns@.len() implies row_has(
                        (#[trigger] self.rows@[rr])@,
                        (#[trigger] self.columns@[cc])@.name,
                    ) by {
                    crate::row::lemma_row_get_some(self.rows@[rr]@, self.columns@[cc]@.name);
                    if cc == column_index as int {
                    } else {
                        let oc = if cc < column_index as int {
                            cc
                        } else {
                            cc - 1
                        };
                        assert(self.columns@[cc]@.name == oldc[oc].name);
                        assert(row_has(old(self).rows@[rr]@, old(self).columns@[oc]@.name));
                        crate::row::lemma_row_get_some(
                            old(self).rows@[rr]@,
                            old(self).columns@[oc]@.name,
                        );
                        assert(oldc[oc].name != column_name@);
                    }
                }
            }
            assert(final(self).grid() =~~= Seq::new(
                old(self).grid().len(),
                |r: int| old(self).grid()[r].insert(column_index as int, cell),
            )) by {
                assert forall|rr: int| 0 <= rr < self.grid().len() implies self.grid()[rr] =~=
                    old(self).grid()[rr].insert(column_index as int, cell) by {
                    assert forall|cc: int| 0 <= cc < self.cols().len() implies row_cells(
                        self.rows@[rr]@,
                        self.cols(),
                    )[cc] == old(self).grid()[rr].insert(column_index as int, cell)[cc] by {
                        if cc == column_index as int {
                        } else {
                            let oc = if cc < column_index as int {
                                cc
                            } else {
                                cc - 1
                            };
                            assert(self.cols()[cc].name == oldc[oc].name);
                            assert(oldc[oc].name != column_name@);
                            assert(row_get(self.rows@[rr]@, oldc[oc].name) == row_get(
                                old(self).rows@[rr]@,
                                oldc[oc].name,
                            ));
                        }
                    }
                }
            }
            assert(final(self).widths() =~= old(self).widths().insert(
                column_index as int,
                (if display_width(column_name@) > val_width(spec_col_default(col_m)) {
                    display_width(column_name@)
                } else {
                    val_width(spec_col_default(col_m))
                }),
            ));
        }
        Ok(())
    }

    /// Insert an unconstrained text column at an index; every existing row
    /// gets an empty text cell.
    pub fn insert_column(&mut self, column_index: usize, column_name: &str) -> (r: DcsvResult<()>)
        requires
            old(self).wf(),
        ensures
            final(self).wf(),
            r is Ok <==> column_index <= old(self).cols().len() && (forall|c: int|
                0 <= c < old(self).cols().len() ==> (#[trigger] old(self).cols()[c]).name
                    != column_name@),
            r matches Err(e) ==> *final(self) == *old(self) && e is InvalidColumn,
            r is Ok ==> ({
                let col_m = ColumnModel {
                    name: column_name@,
                    column_type: ValueType::Text,
                    limiter: crate::value::LimiterModel {
                        value_type: ValueType::Text,
                        default: None,
                        variant: None,
                        pattern: None,
                    },
                };
                &&& final(self).cols() == old(self).cols().insert(column_index as int, col_m)
                &&& final(self).grid() == Seq::new(
                    old(self).grid().len(),
                    |r: int| old(self).grid()[r].insert(
                        column_index as int,
                        ValueModel::Str(Seq::empty()),
                    ),
                )
                &&& final(self).widths() == old(self).widths().insert(
                    column_index as int,
                    (if display_width(column_name@) > val_width(
                        ValueModel::Str(Seq::empty()),
                    ) {
                        display_width(column_name@)
                    } else {
                        val_width(ValueModel::Str(Seq::empty()))
                    }),
                )
            }),
    {
        self.insert_column_with_type(column_index, column_name, ValueType::Text, None, None)
    }

    /// Delete the column at an index, removing its cell from every row; if
    /// no column is left, every row is dropped too.
    #[verifier::loop_isolation(false)]
    pub fn delete_column(&mut self, column_index: usize) -> (r: DcsvResult<()>)
        requires
            old(self).wf(),
        ensures
            final(self).wf(),
            r is Ok <==> column_index < old(self).cols().len(),
            r matches Err(e) ==> *final(self) == *old(self) && e is OutOfRangeError,
            r is Ok ==> final(self).cols() == old(self).cols().remove(column_index as int)
                && final(self).widths() == old(self).widths().remove(column_index as int)
                && final(self).grid() == (if old(self).cols().len() == 1 {
                Seq::<Seq<ValueModel>>::empty()
            } else {
                Seq::new(
                    old(self).grid().len(),
                    |r: int| old(self).grid()[r].remove(column_index as int),
                )
            }),
    {
        if column_index >= self.columns.len() {
            return Err(DcsvError::OutOfRangeError);
        }
        let name: String = self.columns[column_index].get_name().to_owned();
        let n = self.rows.len();
        let mut r: usize = 0;
        while r < n
            invariant
                r <= n,
                n == self.rows@.len(),
                self.columns == old(self).columns,
                self.metas == old(self).metas,
                old(self).wf(),
                name@ == old(self).cols()[column_index as int].name,
                column_index < old(self).cols().len(),
                forall|i: int|
                    0 <= i < r ==> row_distinct((#[trigger] self.rows@[i])@) && row_get(
                        self.rows@[i]@,
                        name@,
                    ) is None && (forall|k: Seq<char>|
                        k != name@ ==> row_get(self.rows@[i]@, k) == row_get(
                            old(self).rows@[i]@,
                            k,
                        )),
                forall|i: int| r <= i < n ==> (#[trigger] self.rows@[i]) == old(self).rows@[i],
            decreases n - r,
        {
            proof {
                assert(self.rows@[r as int] == old(self).rows@[r as int]);
                assert(row_distinct(old(self).rows@[r as int]@));
            }
            let row = &mut self.rows[r];
            row.remove_cell(name.as_str());
            r = r + 1;
        }
        self.metas.remove(column_index);
        self.columns.remove(column_index);
        if self.columns.len() == 0 {
            self.rows = Vec::new();
        }
        proof {
            let oldc = old(self).cols();
            assert(self.cols() =~= oldc.remove(column_index as int)) by {
                assert(forall|c: int|
                    0 <= c < column_index ==> (#[trigger] self.columns@[c]) == old(
                        self,
                    ).columns@[c]);
                assert(forall|c: int|
                    column_index <= c < self.columns@.len() ==> (#[trigger] self.columns@[c])
                        == old(self).columns@[c + 1]);
            }
            assert(self.widths() =~= old(self).widths().remove(column_index as int));
            assert(final(self).wf()) by {
                assert forall|rr: int, cc: int|
                    0 <= rr < self.rows@.len() && 0 <= cc < self.columns@.len() implies row_has(
                        (#[trigger] self.rows@[rr])@,
                        (#[trigger] self.columns@[cc])@.name,
                    ) by {
                    let oc = if cc < column_index as int {
                        cc
                    } else {
                        cc + 1
                    };
                    assert(self.columns@[cc]@.name == oldc[oc].name);
                    assert(row_has(old(self).rows@[rr]@, old(self).columns@[oc]@.name));
                    crate::row::lemma_row_get_some(
                        old(self).rows@[rr]@,
                        old(self).columns@[oc]@.name,
                    );
                    assert(oldc[oc].name != name@);
                    crate::row::lemma_row_get_some(self.rows@[rr]@, oldc[oc].name);
                }
            }
            if oldc.len() == 1 {
                assert(self.grid() =~= Seq::<Seq<ValueModel>>::empty());
            } else {
                assert(self.grid() =~~= Seq::new(
                    old(self).grid().len(),
                    |r: int| old(self).grid()[r].remove(column_index as int),
                )) by {
                    assert forall|rr: int| 0 <= rr < self.grid().len() implies self.grid()[rr]
                        =~= old(self).grid()[rr].remove(column_index as int) by {
                        assert forall|cc: int| 0 <= cc < self.cols().len() implies row_cells(
                            self.rows@[rr]@,
                            self.cols(),
                        )[cc] == old(self).grid()[rr].remove(column_index as int)[cc] by {
                            let oc = if cc < column_index as int {
                                cc
                            } else {
                                cc + 1
                            };
                            assert(self.cols()[cc].name == oldc[oc].name);
                            assert(oldc[oc].name != name@);
                            assert(row_get(self.rows@[rr]@, oldc[oc].name) == row_get(
                                old(self).rows@[rr]@,
                                oldc[oc].name,
                            ));
                        }
                    }
                }
            }
        }
        Ok(())
    }

    /// Insert a row at an index.  Given values must be one per column, in
    /// column order, and each must pass its column's limiter; without
    /// values, each cell takes its column's default value.  Tracked widths
    /// widen to cover the new cells.
    #[verifier::loop_isolation(false)]
    pub fn insert_row(&mut self, row_index: usize, source: Option<&[Value]>) -> (r: DcsvResult<()>)
        requires
            old(self).wf(),
        ensures
            final(self).wf(),
            r is Ok <==> row_index <= old(self).grid().len() && (match source {
                Some(vals) => vals@.len() == old(self).cols().len() && (forall|c: int|
                    0 <= c < vals@.len() ==> spec_qualify(
                        old(self).cols()[c].limiter,
                        (#[trigger] vals@[c])@,
                    )),
                None => true,
            }),
            r matches Err(e) ==> *final(self) == *old(self) && ((row_index > old(
                self,
            ).grid().len() ==> e is InvalidColumn) && (row_index <= old(self).grid().len()
                ==> e is InvalidRowData)),
            r is Ok ==> ({
                let vals = match source {
                    Some(vals) => vals@.map_values(|v: Value| v@),
                    None => Seq::new(
                        old(self).cols().len(),
                        |c: int| spec_col_default(old(self).cols()[c]),
                    ),
                };
                &&& final(self).cols() == old(self).cols()
                &&& final(self).grid() == old(self).grid().insert(row_index as int, vals)
                &&& final(self).widths() == Seq::new(
                    old(self).widths().len(),
                    |c: int| (if val_width(vals[c]) > old(self).widths()[c] {
                        val_width(vals[c])
                    } else {
                        old(self).widths()[c]
                    }),
                )
            }),
    {
        if row_index > self.rows.len() {
            return Err(
                DcsvError::InvalidColumn("Cannot add row to out of range position".to_owned()),
            );
        }
        let ncols = self.columns.len();
        let mut cells: Vec<Value> = Vec::new();
        match source {
            Some(vals) => {
                match self.check_row_length(vals) {
                    Ok(_) => {},
                    Err(e) => {
                        return Err(e);
                    },
                }
                let mut c: usize = 0;
                while c < ncols
                    invariant
                        c <= ncols,
                        vals@.len() == ncols,
                        forall|i: int|
                            0 <= i < c ==> spec_qualify(
                                old(self).cols()[i].limiter,
                                (#[trigger] vals@[i])@,
                            ),
                        cells@.map_values(|v: Value| v@) == vals@.map_values(
                            |v: Value| v@,
                        ).take(c as int),
                    decreases ncols - c,
                {
                    if !self.columns[c].limiter.qualify(&vals[c]) {
                        return Err(
                            DcsvError::InvalidRowData(
                                "Value does not qualify column's limiter".to_owned(),
                            ),
                        );
                    }
                    let ghost old_cells = cells@;
                    cells.push(vals[c].clone());
                    proof {
                        assert(cells@.map_values(|v: Value| v@) =~= old_cells.map_values(
                            |v: Value| v@,
                        ).push(vals@[c as int]@));
                        assert(vals@.map_values(|v: Value| v@).take(c + 1) =~= vals@.map_values(
                            |v: Value| v@,
                        ).take(c as int).push(vals@[c as int]@));
                    }
                    c = c + 1;
                }
                proof {
                    assert(vals@.map_values(|v: Value| v@).take(ncols as int) =~= vals@.map_values(
                        |v: Value| v@,
                    ));
                }
            },
            None => {
                let mut c: usize = 0;
                while c < ncols
                    invariant
                        c <= ncols,
                        ncols == old(self).cols().len(),
                        cells@.map_values(|v: Value| v@) == Seq::new(
                            c as nat,
                            |i: int| spec_col_default(old(self).cols()[i]),
                        ),
                    decreases ncols - c,
                {
                    let ghost old_cells = cells@;
                    let v = self.columns[c].get_default_value();
                    cells.push(v);
                    proof {
                        assert(cells@.map_values(|v: Value| v@) =~= old_cells.map_values(
                            |v: Value| v@,
                        ).push(spec_col_default(old(self).cols()[c as int])));
                        assert(old_cells.map_values(|v: Value| v@).push(
                            spec_col_default(old(self).cols()[c as int]),
                        ) =~= Seq::new(
                            (c + 1) as nat,
                            |i: int| spec_col_default(old(self).cols()[i]),
                        ));
                    }
                    c = c + 1;
                }
            },
        }
        let ghost vals = cells@.map_values(|v: Value| v@);

        let mut new_row = Row::new();
        let mut c: usize = 0;
        while c < ncols
            invariant
                c <= ncols,
                ncols == self.columns@.len(),
                cells@.len() == ncols,
                cells@.map_values(|v: Value| v@) == vals,
                row_distinct(new_row@),
                forall|i: int|
                    0 <= i < c ==> row_get(new_row@, (#[trigger] self.columns@[i])@.name)
                        == Some(vals[i]),
                forall|k: Seq<char>|
                    row_has(new_row@, k) ==> exists|i: int|
                        0 <= i < c && (#[trigger] self.columns@[i])@.name == k,
            decreases ncols - c,
        {
            let name: &str = self.columns[c].get_name();
            let ghost prev_row = new_row@;
            new_row.insert_cell(name, cells[c].clone());
            proof {
                crate::row::lemma_row_get_some(new_row@, self.columns@[c as int]@.name);
                assert forall|k: Seq<char>| row_has(new_row@, k) implies exists|i: int|
                    0 <= i < c + 1 && (#[trigger] self.columns@[i])@.name == k by {
                    crate::row::lemma_row_get_some(new_row@, k);
                    if k != self.columns@[c as int]@.name {
                        assert(row_has(prev_row, k)) by {
                            crate::row::lemma_row_get_some(prev_row, k);
                            crate::row::lemma_row_get_some(new_row@, k);
                        }
                    }
                }
                assert forall|i: int|
                    0 <= i < c + 1 implies row_get(
                        new_row@,
                        (#[trigger] self.columns@[i])@.name,
                    ) == Some(vals[i]) by {
                    if i < c {
                        assert(self.columns@[i]@.name != self.columns@[c as int]@.name);
                    }
                }
            }
            c = c + 1;
        }

        let mut c: usize = 0;
        while c < ncols
            invariant
                c <= ncols,
                ncols == self.columns@.len() == self.metas@.len(),
                cells@.len() == ncols,
                cells@.map_values(|v: Value| v@) == vals,
                self.columns == old(self).columns,
                self.rows == old(self).rows,
                forall|i: int|
                    0 <= i < c ==> (#[trigger] self.metas@[i]).max_unicode_width as nat == (if
                        val_width(vals[i]) > old(self).widths()[i] {
                        val_width(vals[i])
                    } else {
                        old(self).widths()[i]
                    }),
                forall|i: int| c <= i < ncols ==> (#[trigger] self.metas@[i]) == old(self).metas@[i],
            decreases ncols - c,
        {
            let meta = &mut self.metas[c];
            meta.update_width_from_value(&cells[c]);
            c = c + 1;
        }

        self.rows.insert(row_index, new_row);
        proof {
            assert(self.cols() =~= old(self).cols());
            assert(final(self).wf()) by {
                assert forall|rr: int, cc: int|
                    0 <= rr < self.rows@.len() && 0 <= cc < self.columns@.len() implies row_has(
                        (#[trigger] self.rows@[rr])@,
                        (#[trigger] self.columns@[cc])@.name,
                    ) by {
                    if rr == row_index as int {
                        crate::row::lemma_row_get_some(new_row@, self.columns@[cc]@.name);
                    } else {
                        let orr = if rr < row_index as int {
                            rr
                        } else {
                            rr - 1
                        };
                        assert(self.rows@[rr] == old(self).rows@[orr]);
                        assert(row_has(old(self).rows@[orr]@, old(self).columns@[cc]@.name));
                    }
                }
            }
            assert(self.grid() =~~= old(self).grid().insert(row_index as int, vals)) by {
                assert forall|rr: int| 0 <= rr < self.grid().len() implies self.grid()[rr] =~=
                    old(self).grid().insert(row_index as int, vals)[rr] by {
                    if rr == row_index as int {
                        assert(row_cells(new_row@, self.cols()) =~= vals);
                    } else {
                        let orr = if rr < row_index as int {
                            rr
                        } else {
                            rr - 1
                        };
                        assert(self.rows@[rr] == old(self).rows@[orr]);
                    }
                }
            }
            assert(self.widths() =~= Seq::new(
                old(self).widths().len(),
                |c: int| (if val_width(vals[c]) > old(self).widths()[c] {
                    val_width(vals[c])
                } else {
                    old(self).widths()[c]
                }),
            ));
        }
        Ok(())
    }

    /// Delete the row at an index; a stale index is a silent no-op.  For
    /// each column whose tracked width was set by the deleted row, the
    /// width is recomputed as the true maximum over the remaining rows.
    #[verifier::loop_isolation(false)]
    pub fn delete_row(&mut self, row_index: usize) -> (r: bool)
        requires
            old(self).wf(),
        ensures
            final(self).wf(),
            r == (row_index < old(self).grid().len()),
            !r ==> *final(self) == *old(self),
            r ==> final(self).cols() == old(self).cols() && final(self).grid() == old(
                self,
            ).grid().remove(row_index as int) && final(self).widths() == Seq::new(
                old(self).widths().len(),
                |c: int| (if val_width(old(self).grid()[row_index as int][c]) >= old(
                    self,
                ).widths()[c] {
                    col_max_width(old(self).grid().remove(row_index as int), c)
                } else {
                    old(self).widths()[c]
                }),
            ),
    {
        if row_index >= self.rows.len() {
            return false;
        }
        let removed = self.rows.remove(row_index);
        proof {
            assert(self.cols() =~= old(self).cols());
            assert forall|rr: int, cc: int|
                0 <= rr < self.rows@.len() && 0 <= cc < self.columns@.len() implies row_has(
                    (#[trigger] self.rows@[rr])@,
                    (#[trigger] self.columns@[cc])@.name,
                ) by {
                let orr = if rr < row_index as int {
                    rr
                } else {
                    rr + 1
                };
                assert(self.rows@[rr] == old(self).rows@[orr]);
                assert(row_has(old(self).rows@[orr]@, old(self).columns@[cc]@.name));
            }
            assert(self.grid() =~~= old(self).grid().remove(row_index as int)) by {
                assert forall|rr: int| 0 <= rr < self.grid().len() implies self.grid()[rr] =~=
                    old(self).grid().remove(row_index as int)[rr] by {
                    let orr = if rr < row_index as int {
                        rr
                    } else {
                        rr + 1
                    };
                    assert(self.rows@[rr] == old(self).rows@[orr]);
                }
            }
        }
        let ghost g2 = self.grid();
        let ncols = self.columns.len();
        let nrows = self.rows.len();
        let mut y: usize = 0;
        while y < ncols
            invariant
                y <= ncols,
                ncols == self.columns@.len() == self.metas@.len(),
                self.columns == old(self).columns,
                self.rows@.len() == nrows,
                g2 == self.grid(),
                removed@ == old(self).rows@[row_index as int]@,
                forall|rr: int|
                    0 <= rr < self.rows@.len() ==> row_distinct((#[trigger] self.rows@[rr])@),
                forall|rr: int, cc: int|
                    0 <= rr < self.rows@.len() && 0 <= cc < self.columns@.len() ==> row_has(
                        (#[trigger] self.rows@[rr])@,
                        (#[trigger] self.columns@[cc])@.name,
                    ),
                forall|i: int|
                    y <= i < ncols ==> (#[trigger] self.metas@[i]) == old(self).metas@[i],
                forall|i: int|
                    0 <= i < y ==> (#[trigger] self.metas@[i]).max_unicode_width as nat == (if
                        val_width(old(self).grid()[row_index as int][i]) >= old(
                        self,
                    ).widths()[i] {
                        col_max_width(g2, i)
                    } else {
                        old(self).widths()[i]
                    }),
            decreases ncols - y,
        {
            let name: &str = self.columns[y].get_name();
            let removed_w: usize = match removed.get_cell_value(name) {
                Some(v) => v.get_width(),
                None => {
                    proof {
                        assert(row_has(old(self).rows@[row_index as int]@, old(
                            self,
                        ).columns@[y as int]@.name));
                        crate::row::lemma_row_get_some(removed@, old(
                            self,
                        ).columns@[y as int]@.name);
                    }
                    0
                },
            };
            proof {
                crate::row::lemma_row_get_some(removed@, old(self).columns@[y as int]@.name);
                assert(removed_w as nat == val_width(old(self).grid()[row_index as int][y as int]));
            }
            if removed_w >= self.metas[y].max_unicode_width {
                let mut new_max: usize = 0;
                let mut rr: usize = 0;
                proof {
                    assert(g2.take(0) =~= Seq::<Seq<ValueModel>>::empty());
                }
                while rr < nrows
                    invariant
                        rr <= nrows,
                        y < ncols,
                        nrows == self.rows@.len(),
                        g2 == self.grid(),
                        new_max as nat == col_max_width(g2.take(rr as int), y as int),
                    decreases nrows - rr,
                {
                    let cell_w: usize = match self.rows[rr].get_cell_value(name) {
                        Some(v) => v.get_width(),
                        None => {
                            proof {
                                assert(row_has(self.rows@[rr as int]@, self.columns@[y as int]@.name));
                                crate::row::lemma_row_get_some(
                                    self.rows@[rr as int]@,
                                    self.columns@[y as int]@.name,
                                );
                            }
                            0
                        },
                    };
                    proof {
                        crate::row::lemma_row_get_some(
                            self.rows@[rr as int]@,
                            self.columns@[y as int]@.name,
                        );
                        assert(cell_w as nat == val_width(g2[rr as int][y as int]));
                        assert(g2.take(rr + 1).drop_last() =~= g2.take(rr as int));
                        assert(g2.take(rr + 1).last() == g2[rr as int]);
                    }
                    if cell_w > new_max {
                        new_max = cell_w;
                    }
                    rr = rr + 1;
                }
                proof {
                    assert(g2.take(nrows as int) =~= g2);
                }
                let meta = &mut self.metas[y];
                meta.set_width(new_max);
            }
            y = y + 1;
        }
        proof {
            assert(self.widths() =~= Seq::new(
                old(self).widths().len(),
                |c: int| (if val_width(old(self).grid()[row_index as int][c]) >= old(
                    self,
                ).widths()[c] {
                    col_max_width(old(self).grid().remove(row_index as int), c)
                } else {
                    old(self).widths()[c]
                }),
            ));
        }
        true
    }

    /// Move a row to a target index by adjacent swaps: it lands at the
    /// target and the rows between shift by exactly one place.
    pub fn move_row(&mut self, src_index: usize, target_index: usize) -> (r: DcsvResult<()>)
        requires
            old(self).wf(),
        ensures
            final(self).wf(),
            r is Ok <==> src_index < old(self).grid().len() && target_index < old(
                self,
            ).grid().len(),
            r matches Err(e) ==> *final(self) == *old(self) && e is OutOfRangeError,
            r is Ok ==> final(self).cols() == old(self).cols() && final(self).widths() == old(
                self,
            ).widths() && final(self).grid() == move_seq(
                old(self).grid(),
                src_index as int,
                target_index as int,
            ),
    {
        let row_count = self.rows.len();
        if src_index >= row_count || target_index >= row_count {
            return Err(DcsvError::OutOfRangeError);
        }
        move_element(&mut self.rows, src_index, target_index);
        proof {
            let src = src_index as int;
            let tgt = target_index as int;
            crate::vcont::lemma_move_seq_properties(old(self).rows@, src, tgt);
            crate::vcont::lemma_move_seq_properties(old(self).grid(), src, tgt);
            assert(self.cols() =~= old(self).cols());
            assert forall|rr: int| 0 <= rr < self.rows@.len() implies (#[trigger] self.rows@[rr])
                == old(self).rows@[move_src(src, tgt, rr)] by {
            }
            assert forall|rr: int, cc: int|
                0 <= rr < self.rows@.len() && 0 <= cc < self.columns@.len() implies row_has(
                    (#[trigger] self.rows@[rr])@,
                    (#[trigger] self.columns@[cc])@.name,
                ) by {
                let orr = move_src(src, tgt, rr);
                assert(row_has(old(self).rows@[orr]@, old(self).columns@[cc]@.name));
            }
            assert(self.grid() =~~= move_seq(old(self).grid(), src, tgt)) by {
                assert forall|rr: int| 0 <= rr < self.grid().len() implies self.grid()[rr] =~=
                    move_seq(old(self).grid(), src, tgt)[rr] by {
                    let orr = move_src(src, tgt, rr);
                    assert(self.rows@[rr] == old(self).rows@[orr]);
                    assert(move_seq(old(self).grid(), src, tgt)[rr] == old(self).grid()[orr]);
                }
            }
        }
        Ok(())
    }

    /// Move a column to a target index by adjacent swaps; its width
    /// metadata moves with it and every row keeps its values.
    pub fn move_column(&mut self, src_index: usize, target_index: usize) -> (r: DcsvResult<()>)
        requires
            old(self).wf(),
        ensures
            final(self).wf(),
            r is Ok <==> src_index < old(self).cols().len() && target_index < old(
                self,
            ).cols().len(),
            r matches Err(e) ==> *final(self) == *old(self) && e is OutOfRangeError,
            r is Ok ==> final(self).cols() == move_seq(
                old(self).cols(),
                src_index as int,
                target_index as int,
            ) && final(self).widths() == move_seq(
                old(self).widths(),
                src_index as int,
                target_index as int,
            ) && final(self).grid() == Seq::new(
                old(self).grid().len(),
                |r: int| move_seq(old(self).grid()[r], src_index as int, target_index as int),
            ),
    {
        let column_count = self.columns.len();
        if src_index >= column_count || target_index >= column_count {
            return Err(DcsvError::OutOfRangeError);
        }
        move_element(&mut self.columns, src_index, target_index);
        move_element(&mut self.metas, src_index, target_index);
        proof {
            let src = src_index as int;
            let tgt = target_index as int;
            crate::vcont::lemma_move_seq_properties(old(self).columns@, src, tgt);
            crate::vcont::lemma_move_seq_properties(old(self).metas@, src, tgt);
            assert forall|cc: int| 0 <= cc < self.columns@.len() implies (
            #[trigger] self.columns@[cc]) == old(self).columns@[move_src(src, tgt, cc)] by {
            }
            assert(self.cols() =~= move_seq(old(self).cols(), src, tgt)) by {
                crate::vcont::lemma_move_seq_properties(old(self).cols(), src, tgt);
                assert forall|cc: int| 0 <= cc < self.cols().len() implies self.cols()[cc]
                    == move_seq(old(self).cols(), src, tgt)[cc] by {
                    let oc = move_src(src, tgt, cc);
                    assert(self.columns@[cc] == old(self).columns@[oc]);
                    assert(move_seq(old(self).cols(), src, tgt)[cc] == old(self).cols()[oc]);
                }
            }
            assert(self.widths() =~= move_seq(old(self).widths(), src, tgt)) by {
                crate::vcont::lemma_move_seq_properties(old(self).widths(), src, tgt);
                assert forall|cc: int| 0 <= cc < self.widths().len() implies self.widths()[cc]
                    == move_seq(old(self).widths(), src, tgt)[cc] by {
                    let oc = move_src(src, tgt, cc);
                    assert(self.metas@[cc] == old(self).metas@[oc]);
                    assert(move_seq(old(self).widths(), src, tgt)[cc] == old(self).widths()[oc]);
                }
            }
            assert(final(self).wf()) by {
                assert forall|i: int, j: int|
                    0 <= i < j < self.columns@.len() implies (#[trigger] self.columns@[i])@.name
                    != (#[trigger] self.columns@[j])@.name by {
                    let oi = move_src(src, tgt, i);
                    let oj = move_src(src, tgt, j);
                    assert(self.columns@[i] == old(self).columns@[oi]);
                    assert(self.columns@[j] == old(self).columns@[oj]);
                    assert(oi != oj);
                    if oi < oj {
                        assert(old(self).columns@[oi]@.name != old(self).columns@[oj]@.name);
                    } else {
                        assert(old(self).columns@[oj]@.name != old(self).columns@[oi]@.name);
                    }
                }
                assert forall|rr: int, cc: int|
                    0 <= rr < self.rows@.len() && 0 <= cc < self.columns@.len() implies row_has(
                        (#[trigger] self.rows@[rr])@,
                        (#[trigger] self.columns@[cc])@.name,
                    ) by {
                    let oc = move_src(src, tgt, cc);
                    assert(self.columns@[cc] == old(self).columns@[oc]);
                    assert(row_has(old(self).rows@[rr]@, old(self).columns@[oc]@.name));
                }
            }
            assert(self.grid() =~~= Seq::new(
                old(self).grid().len(),
                |r: int| move_seq(old(self).grid()[r], src, tgt),
            )) by {
                assert forall|rr: int| 0 <= rr < self.grid().len() implies self.grid()[rr] =~=
                    move_seq(old(self).grid()[rr], src, tgt) by {
                    crate::vcont::lemma_move_seq_properties(old(self).grid()[rr], src, tgt);
                    assert forall|cc: int| 0 <= cc < self.cols().len() implies row_cells(
                        self.rows@[rr]@,
                        self.cols(),
                    )[cc] == move_seq(old(self).grid()[rr], src, tgt)[cc] by {
                        let oc = move_src(src, tgt, cc);
                        assert(self.columns@[cc] == old(self).columns@[oc]);
                        assert(row_get(self.rows@[rr]@, self.cols()[cc].name) == row_get(
                            old(self).rows@[rr]@,
                            old(self).cols()[oc].name,
                        ));
                        assert(move_seq(old(self).grid()[rr], src, tgt)[cc] == old(
                            self,
                        ).grid()[rr][oc]);
                    }
                }
            }
        }
        Ok(())
    }

    /// Rename the column at an index; the new name must not collide with
    /// an existing column, and every row's cell moves to the new key.
    #[verifier::loop_isolation(false)]
    pub fn rename_column(&mut self, column_index: usize, new_name: &str) -> (r: DcsvResult<()>)
        requires
            old(self).wf(),
        ensures
            final(self).wf(),
            r is Ok <==> (column_index < old(self).cols().len() && (forall|c: int|
                0 <= c < old(self).cols().len() ==> (#[trigger] old(self).cols()[c]).name
                    != new_name@)),
            r matches Err(e) ==> *final(self) == *old(self) && ((column_index >= old(
                self,
            ).cols().len() ==> e is OutOfRangeError) && (column_index < old(self).cols().len()
                ==> e is InvalidColumn)),
            r is Ok ==> final(self).cols() == old(self).cols().update(
                column_index as int,
                (ColumnModel { name: new_name@, ..old(self).cols()[column_index as int] }),
            ) && final(self).widths() == old(self).widths() && final(self).grid() == old(
                self,
            ).grid(),
    {
        if column_index >= self.columns.len() {
            return Err(DcsvError::OutOfRangeError);
        }
        if let Some(_) = self.find_column(new_name) {
            return Err(
                DcsvError::InvalidColumn("Cannot rename to a name which already exists".to_owned()),
            );
        }
        let previous: String = {
            let col = &mut self.columns[column_index];
            col.rename(new_name)
        };
        proof {
            assert(self.cols() =~= old(self).cols().update(
                column_index as int,
                (ColumnModel { name: new_name@, ..old(self).cols()[column_index as int] }),
            ));
            assert(previous@ == old(self).cols()[column_index as int].name);
        }
        let ghost mid_cols = self.cols();
        let n = self.rows.len();
        let mut r: usize = 0;
        while r < n
            invariant
                r <= n,
                n == self.rows@.len(),
                self.cols() == mid_cols,
                self.columns@.len() == old(self).columns@.len(),
                mid_cols == old(self).cols().update(
                    column_index as int,
                    (ColumnModel { name: new_name@, ..old(self).cols()[column_index as int] }),
                ),
                self.metas == old(self).metas,
                self.rows@.len() == old(self).rows@.len(),
                forall|i: int|
                    0 <= i < r ==> row_distinct((#[trigger] self.rows@[i])@) && (forall|
                        k: Seq<char>,
                    |
                        #![trigger row_get(self.rows@[i]@, k)]
                        row_get(self.rows@[i]@, k) == crate::row::spec_rename_get(
                            old(self).rows@[i]@,
                            previous@,
                            new_name@,
                            k,
                        )),
                forall|i: int| r <= i < n ==> (#[trigger] self.rows@[i]) == old(self).rows@[i],
            decreases n - r,
        {
            proof {
                assert(self.rows@[r as int] == old(self).rows@[r as int]);
                assert(row_distinct(old(self).rows@[r as int]@));
            }
            let row = &mut self.rows[r];
            row.rename_column(previous.as_str(), new_name);
            r = r + 1;
        }
        proof {
            assert(final(self).widths() =~= old(self).widths());
            assert(self.columns@.len() == old(self).columns@.len());
            assert forall|i: int, j: int|
                0 <= i < j < self.columns@.len() implies (#[trigger] self.columns@[i])@.name != (
            #[trigger] self.columns@[j])@.name by {
                assert(self.columns@[i]@ == self.cols()[i]);
                assert(self.columns@[j]@ == self.cols()[j]);
                if i != column_index as int {
                    assert(self.cols()[i] == old(self).cols()[i]);
                    assert(old(self).cols()[i].name != new_name@);
                }
                if j != column_index as int {
                    assert(self.cols()[j] == old(self).cols()[j]);
                    assert(old(self).cols()[j].name != new_name@);
                }
                assert(old(self).columns@[i]@.name != old(self).columns@[j]@.name);
            }
            assert forall|rr: int, cc: int|
                0 <= rr < self.rows@.len() && 0 <= cc < self.columns@.len() implies row_has(
                    (#[trigger] self.rows@[rr])@,
                    (#[trigger] self.columns@[cc])@.name,
                ) by {
                assert(self.columns@[cc]@ == self.cols()[cc]);
                if cc != column_index as int {
                    assert(self.cols()[cc] == old(self).cols()[cc]);
                }
                assert(row_has(old(self).rows@[rr]@, old(self).columns@[cc]@.name));
                crate::row::lemma_row_get_some(old(self).rows@[rr]@, old(self).columns@[cc]@.name);
                crate::row::lemma_row_get_some(old(self).rows@[rr]@, previous@);
                crate::row::lemma_row_get_some(self.rows@[rr]@, self.columns@[cc]@.name);
                if cc == column_index as int {
                } else {
                    assert(old(self).columns@[cc]@.name != previous@);
                }
            }
            assert(self.grid() =~~= old(self).grid()) by {
                assert forall|rr: int| 0 <= rr < self.grid().len() implies self.grid()[rr] =~=
                    old(self).grid()[rr] by {
                    assert forall|cc: int| 0 <= cc < self.cols().len() implies row_cells(
                        self.rows@[rr]@,
                        self.cols(),
                    )[cc] == old(self).grid()[rr][cc] by {
                        assert(self.columns@[cc]@ == self.cols()[cc]);
                        if cc != column_index as int {
                            assert(self.cols()[cc] == old(self).cols()[cc]);
                        }
                        crate::row::lemma_row_get_some(old(self).rows@[rr]@, previous@);
                        if cc == column_index as int {
                            assert(row_get(self.rows@[rr]@, new_name@) == row_get(
                                old(self).rows@[rr]@,
                                previous@,
                            ));
                        } else {
                            assert(old(self).columns@[cc]@.name != previous@);
                            assert(old(self).columns@[cc]@.name != new_name@);
                        }
                    }
                }
            }
        }
        Ok(())
    }

    /// Overwrite every row's value in a column, widening the column's
    /// tracked width to cover the value written into each row.  The value
    /// is not checked against the column's limiter.
    #[verifier::loop_isolation(false)]
    pub fn set_column(&mut self, column_index: usize, value: Value) -> (r: DcsvResult<()>)
        requires
            old(self).wf(),
        ensures
            final(self).wf(),
            r is Ok <==> column_index < old(self).cols().len(),
            r matches Err(e) ==> *final(self) == *old(self) && e is OutOfRangeError,
            r is Ok ==> final(self).cols() == old(self).cols() && final(self).grid() == Seq::new(
                old(self).grid().len(),
                |r: int| old(self).grid()[r].update(column_index as int, value@),
            ) && final(self).widths() == (if old(self).grid().len() > 0 {
                old(self).widths().update(
                    column_index as int,
                    (if val_width(value@) > old(self).widths()[column_index as int] {
                        val_width(value@)
                    } else {
                        old(self).widths()[column_index as int]
                    }),
                )
            } else {
                old(self).widths()
            }),
    {
        if column_index >= self.columns.len() {
            return Err(DcsvError::OutOfRangeError);
        }
        let name: String = self.columns[column_index].get_name().to_owned();
        if self.rows.len() > 0 {
            let meta = &mut self.metas[column_index];
            meta.update_width_from_value(&value);
        }
        let ghost vm = value@;
        let n = self.rows.len();
        let mut r: usize = 0;
        while r < n
            invariant
                r <= n,
                n == self.rows@.len(),
                self.columns == old(self).columns,
                self.metas@.len() == old(self).metas@.len(),
                self.widths() == (if n > 0 {
                    old(self).widths().update(
                        column_index as int,
                        (if val_width(vm) > old(self).widths()[column_index as int] {
                            val_width(vm)
                        } else {
                            old(self).widths()[column_index as int]
                        }),
                    )
                } else {
                    old(self).widths()
                }),
                column_index < self.columns@.len(),
                name@ == old(self).cols()[column_index as int].name,
                forall|i: int|
                    0 <= i < r ==> row_distinct((#[trigger] self.rows@[i])@) && row_get(
                        self.rows@[i]@,
                        name@,
                    ) == Some(vm) && (forall|k: Seq<char>|
                        k != name@ ==> row_get(self.rows@[i]@, k) == row_get(
                            old(self).rows@[i]@,
                            k,
                        )),
                forall|i: int| r <= i < n ==> (#[trigger] self.rows@[i]) == old(self).rows@[i],
            decreases n - r,
        {
            proof {
                assert(self.rows@[r as int] == old(self).rows@[r as int]);
                assert(row_distinct(old(self).rows@[r as int]@));
                assert(row_has(old(self).rows@[r as int]@, old(
                    self,
                ).columns@[column_index as int]@.name));
            }
            let row = &mut self.rows[r];
            row.update_cell_value(name.as_str(), value.clone());
            r = r + 1;
        }
        proof {
            assert(self.cols() =~= old(self).cols());
            assert forall|rr: int, cc: int|
                0 <= rr < self.rows@.len() && 0 <= cc < self.columns@.len() implies row_has(
                    (#[trigger] self.rows@[rr])@,
                    (#[trigger] self.columns@[cc])@.name,
                ) by {
                assert(row_has(old(self).rows@[rr]@, old(self).columns@[cc]@.name));
                crate::row::lemma_row_get_some(old(self).rows@[rr]@, old(self).columns@[cc]@.name);
                crate::row::lemma_row_get_some(self.rows@[rr]@, self.columns@[cc]@.name);
            }
            assert(self.grid() =~~= Seq::new(
                old(self).grid().len(),
                |r: int| old(self).grid()[r].update(column_index as int, vm),
            )) by {
                assert forall|rr: int| 0 <= rr < self.grid().len() implies self.grid()[rr] =~=
                    old(self).grid()[rr].update(column_index as int, vm) by {
                    assert forall|cc: int| 0 <= cc < self.cols().len() implies row_cells(
                        self.rows@[rr]@,
                        self.cols(),
                    )[cc] == old(self).grid()[rr].update(column_index as int, vm)[cc] by {
                        if cc != column_index as int {
                            assert(old(self).columns@[cc]@.name != old(
                                self,
                            ).columns@[column_index as int]@.name);
                        }
                    }
                }
            }
        }
        Ok(())
    }

    /// Overwrite the cells of a row for which a value is given, leaving the
    /// rest untouched; one optional value per column, each present value
    /// validated against its column's limiter before anything is written.
    #[verifier::loop_isolation(false)]
    #[verifier::rlimit(80)]
    pub fn edit_row(&mut self, row_index: usize, values: &[Option<Value>]) -> (r: DcsvResult<()>)
        requires
            old(self).wf(),
        ensures
            final(self).wf(),
            r is Ok <==> (values@.len() == old(self).cols().len() && row_index < old(
                self,
            ).grid().len() && (forall|c: int|
                0 <= c < values@.len() ==> ((#[trigger] values@[c]) matches Some(v)
                    ==> spec_qualify(old(self).cols()[c].limiter, v@)))),
            r matches Err(e) ==> *final(self) == *old(self) && ((values@.len() != old(
                self,
            ).cols().len() ==> e is InsufficientRowData) && (values@.len() == old(
                self,
            ).cols().len() && row_index >= old(self).grid().len() ==> e is OutOfRangeError) && (
            values@.len() == old(self).cols().len() && row_index < old(self).grid().len()
                ==> e is InvalidRowData)),
            r is Ok ==> final(self).cols() == old(self).cols() && final(self).grid() == old(
                self,
            ).grid().update(
                row_index as int,
                Seq::new(
                    old(self).cols().len(),
                    |c: int| match values@[c] {
                        Some(v) => v@,
                        None => old(self).grid()[row_index as int][c],
                    },
                ),
            ) && final(self).widths() == Seq::new(
                old(self).widths().len(),
                |c: int| (match values@[c] {
                    Some(v) => if val_width(v@) > old(self).widths()[c] {
                        val_width(v@)
                    } else {
                        old(self).widths()[c]
                    },
                    None => old(self).widths()[c],
                }),
            ),
    {
        if values.len() != self.columns.len() {
            return Err(DcsvError::InsufficientRowData);
        }
        if row_index >= self.rows.len() {
            return Err(DcsvError::OutOfRangeError);
        }
        let ncols = self.columns.len();
        let mut c: usize = 0;
        while c < ncols
            invariant
                c <= ncols,
                ncols == self.columns@.len(),
                values@.len() == ncols,
                forall|i: int|
                    0 <= i < c ==> ((#[trigger] values@[i]) matches Some(v) ==> spec_qualify(
                        self.cols()[i].limiter,
                        v@,
                    )),
            decreases ncols - c,
        {
            match &values[c] {
                Some(v) => {
                    if !self.columns[c].limiter.qualify(v) {
                        return Err(
                            DcsvError::InvalidRowData(
                                "Value does not qualify column's limiter".to_owned(),
                            ),
                        );
                    }
                },
                None => {},
            }
            c = c + 1;
        }
        let mut c: usize = 0;
        while c < ncols
            invariant
                c <= ncols,
                ncols == self.columns@.len() == self.metas@.len(),
                values@.len() == ncols,
                row_index < self.rows@.len(),
                self.columns == old(self).columns,
                self.rows@.len() == old(self).rows@.len(),
                forall|i: int|
                    c <= i < ncols ==> (#[trigger] self.metas@[i]) == old(self).metas@[i],
                forall|i: int|
                    0 <= i < c ==> (#[trigger] self.metas@[i]).max_unicode_width as nat == (
                    match values@[i] {
                        Some(v) => if val_width(v@) > old(self).widths()[i] {
                            val_width(v@)
                        } else {
                            old(self).widths()[i]
                        },
                        None => old(self).widths()[i],
                    }),
                forall|i: int|
                    0 <= i < self.rows@.len() && i != row_index as int ==> (
                    #[trigger] self.rows@[i]) == old(self).rows@[i],
                row_distinct(self.rows@[row_index as int]@),
                forall|i: int|
                    0 <= i < c ==> row_get(
                        self.rows@[row_index as int]@,
                        (#[trigger] self.columns@[i])@.name,
                    ) == (match values@[i] {
                        Some(v) => Some(v@),
                        None => row_get(
                            old(self).rows@[row_index as int]@,
                            self.columns@[i]@.name,
                        ),
                    }),
                forall|i: int|
                    c <= i < ncols ==> row_get(
                        self.rows@[row_index as int]@,
                        (#[trigger] self.columns@[i])@.name,
                    ) == row_get(old(self).rows@[row_index as int]@, self.columns@[i]@.name),
                forall|k: Seq<char>|
                    #![trigger row_get(self.rows@[row_index as int]@, k)]
                    (forall|i: int|
                        0 <= i < ncols ==> (#[trigger] self.columns@[i])@.name != k) ==> row_get(
                        self.rows@[row_index as int]@,
                        k,
                    ) == row_get(old(self).rows@[row_index as int]@, k),
            decreases ncols - c,
        {
            match &values[c] {
                Some(v) => {
                    let value = v.clone();
                    {
                        let meta = &mut self.metas[c];
                        meta.update_width_from_value(&value);
                    }
                    let name: String = self.columns[c].get_name().to_owned();
                    let ghost row_before = self.rows@[row_index as int]@;
                    let row = &mut self.rows[row_index];
                    row.update_cell_value(name.as_str(), value);
                    proof {
                        crate::row::lemma_row_get_some(row_before, self.columns@[c as int]@.name);
                        assert(row_get(row_before, self.columns@[c as int]@.name) == row_get(
                            old(self).rows@[row_index as int]@,
                            self.columns@[c as int]@.name,
                        ));
                        assert forall|i: int|
                            0 <= i < ncols && i != c as int implies (#[trigger] self.columns@[i])@.name
                            != self.columns@[c as int]@.name by {
                            if i < c as int {
                                assert(self.columns@[i]@.name != self.columns@[c as int]@.name);
                            }
                        }
                        assert(row_has(old(self).rows@[row_index as int]@, old(
                            self,
                        ).columns@[c as int]@.name));
                        crate::row::lemma_row_get_some(
                            old(self).rows@[row_index as int]@,
                            old(self).columns@[c as int]@.name,
                        );
                    }
                },
                None => {},
            }
            c = c + 1;
        }
        proof {
            assert(self.cols() =~= old(self).cols());
            assert forall|rr: int, cc: int|
                0 <= rr < self.rows@.len() && 0 <= cc < self.columns@.len() implies row_has(
                    (#[trigger] self.rows@[rr])@,
                    (#[trigger] self.columns@[cc])@.name,
                ) by {
                assert(row_has(old(self).rows@[rr]@, old(self).columns@[cc]@.name));
                crate::row::lemma_row_get_some(old(self).rows@[rr]@, old(self).columns@[cc]@.name);
                crate::row::lemma_row_get_some(self.rows@[rr]@, self.columns@[cc]@.name);
            }
            assert(self.grid() =~~= old(self).grid().update(
                row_index as int,
                Seq::new(
                    old(self).cols().len(),
                    |c: int| match values@[c] {
                        Some(v) => v@,
                        None => old(self).grid()[row_index as int][c],
                    },
                ),
            )) by {
                assert forall|rr: int| 0 <= rr < self.grid().len() implies self.grid()[rr] =~=
                    old(self).grid().update(
                    row_index as int,
                    Seq::new(
                        old(self).cols().len(),
                        |c: int| match values@[c] {
                            Some(v) => v@,
                            None => old(self).grid()[row_index as int][c],
                        },
                    ),
                )[rr] by {
                }
            }
            assert(self.widths() =~= Seq::new(
                old(self).widths().len(),
                |c: int| (match values@[c] {
                    Some(v) => if val_width(v@) > old(self).widths()[c] {
                        val_width(v@)
                    } else {
                        old(self).widths()[c]
                    },
                    None => old(self).widths()[c],
                }),
            ));
        }
        Ok(())
    }

    /// Overwrite a whole row: one value per column, in column order, every
    /// value validated against its column's limiter before anything is
    /// written.
    pub fn set_row(&mut self, row_index: usize, values: &[Value]) -> (r: DcsvResult<()>)
        requires
            old(self).wf(),
        ensures
            final(self).wf(),
            r is Ok <==> (values@.len() == old(self).cols().len() && row_index < old(
                self,
            ).grid().len() && (forall|c: int|
                0 <= c < values@.len() ==> spec_qualify(
                    old(self).cols()[c].limiter,
                    (#[trigger] values@[c])@,
                ))),
            r matches Err(e) ==> *final(self) == *old(self) && ((values@.len() != old(
                self,
            ).cols().len() ==> e is InsufficientRowData) && (values@.len() == old(
                self,
            ).cols().len() && row_index >= old(self).grid().len() ==> e is OutOfRangeError) && (
            values@.len() == old(self).cols().len() && row_index < old(self).grid().len()
                ==> e is InvalidRowData)),
            r is Ok ==> final(self).cols() == old(self).cols() && final(self).grid() == old(
                self,
            ).grid().update(
                row_index as int,
                values@.map_values(|v: Value| v@),
            ) && final(self).widths() == Seq::new(
                old(self).widths().len(),
                |c: int| (if val_width(values@[c]@) > old(self).widths()[c] {
                    val_width(values@[c]@)
                } else {
                    old(self).widths()[c]
                }),
            ),
    {
        let ncols = self.columns.len();
        if values.len() != ncols {
            return Err(DcsvError::InsufficientRowData);
        }
        let mut options: Vec<Option<Value>> = Vec::new();
        let mut c: usize = 0;
        while c < ncols
            invariant
                c <= ncols,
                values@.len() == ncols,
                options@.len() == c,
                forall|i: int|
                    0 <= i < c ==> (#[trigger] options@[i]) is Some && options@[i]->0@
                        == values@[i]@,
            decreases ncols - c,
        {
            options.push(Some(values[c].clone()));
            c = c + 1;
        }
        match self.edit_row(row_index, options.as_slice()) {
            Ok(_) => {
                proof {
                    assert forall|c: int|
                        0 <= c < values@.len() implies spec_qualify(
                        old(self).cols()[c].limiter,
                        (#[trigger] values@[c])@,
                    ) by {
                        assert(options@[c] is Some && options@[c]->0@ == values@[c]@);
                    }
                    let inner = Seq::new(
                        old(self).cols().len(),
                        |c: int| match options@[c] {
                            Some(v) => v@,
                            None => old(self).grid()[row_index as int][c],
                        },
                    );
                    assert(inner =~= values@.map_values(|v: Value| v@)) by {
                        assert forall|c: int| 0 <= c < inner.len() implies inner[c]
                            == values@.map_values(|v: Value| v@)[c] by {
                            assert(options@[c] is Some && options@[c]->0@ == values@[c]@);
                        }
                    }
                    assert(final(self).widths() =~= Seq::new(
                        old(self).widths().len(),
                        |c: int| (if val_width(values@[c]@) > old(self).widths()[c] {
                            val_width(values@[c]@)
                        } else {
                            old(self).widths()[c]
                        }),
                    )) by {
                        assert forall|c: int|
                            0 <= c < old(self).widths().len() implies final(self).widths()[c]
                            == (if val_width(values@[c]@) > old(self).widths()[c] {
                            val_width(values@[c]@)
                        } else {
                            old(self).widths()[c]
                        }) by {
                            assert(options@[c] is Some && options@[c]->0@ == values@[c]@);
                        }
                    }
                }
                Ok(())
            },
            Err(e) => {
                proof {
                    if values@.len() == old(self).cols().len() && row_index < old(
                        self,
                    ).grid().len() {
                        if forall|c: int|
                            0 <= c < values@.len() ==> spec_qualify(
                                old(self).cols()[c].limiter,
                                (#[trigger] values@[c])@,
                            ) {
                            assert forall|c: int|
                                0 <= c < options@.len() implies ((#[trigger] options@[c]) matches
                            Some(v) ==> spec_qualify(old(self).cols()[c].limiter, v@)) by {
                                assert(options@[c] is Some && options@[c]->0@ == values@[c]@);
                                assert(spec_qualify(
                                    old(self).cols()[c].limiter,
                                    values@[c]@,
                                ));
                            }
                            assert(false);
                        }
                    }
                }
                Err(e)
            },
        }
    }

    /// Drop every column and row; the table becomes empty.
    pub fn drop_data(&mut self)
        ensures
            final(self).wf(),
            final(self).cols() == Seq::<ColumnModel>::empty(),
            final(self).grid() == Seq::<Seq<ValueModel>>::empty(),
            final(self).widths() == Seq::<nat>::empty(),
    {
        self.columns.clear();
        self.rows.clear();
        self.metas.clear();
        proof {
            assert(self.cols() =~= Seq::<ColumnModel>::empty());
            assert(self.grid() =~= Seq::<Seq<ValueModel>>::empty());
            assert(self.widths() =~= Seq::<nat>::empty());
        }
    }
}

} // verus!

verus! {

/// The column widths an aligned rendering pads to: the tracked width, or
/// the column name's display width when that is larger.
pub open spec fn target_widths(d: VirtualData) -> Seq<int> {
    Seq::new(
        d.cols().len(),
        |c: int| if display_width(d.cols()[c].name) > d.widths()[c] {
            display_width(d.cols()[c].name) as int
        } else {
            d.widths()[c] as int
        },
    )
}

/// The aligned string table: one header row of padded column names, then
/// one padded row per data row.
pub open spec fn spec_string_table(d: VirtualData, align: CellAlignType) -> Seq<Seq<Seq<char>>> {
    let w = target_widths(d);
    seq![Seq::new(d.cols().len(), |c: int| pad_str(d.cols()[c].name, w[c], align))] + Seq::new(
        d.grid().len(),
        |r: int| Seq::new(d.cols().len(), |c: int| pad_str(val_str(d.grid()[r][c]), w[c], align)),
    )
}

/// The csv rendering: the comma-joined header line, then one comma-joined
/// line per row, all joined by newlines.
pub open spec fn spec_csv_text(d: VirtualData) -> Seq<char> {
    let lines = seq![
        join_char(Seq::new(d.cols().len(), |c: int| d.cols()[c].name), ','),
    ] + Seq::new(
        d.grid().len(),
        |r: int| join_char(Seq::new(d.cols().len(), |c: int| val_str(d.grid()[r][c])), ','),
    );
    join_char(lines, '\n')
}

/// One line of the schema export: the column's name, type, default,
/// space-joined variants and pattern, comma-separated.
pub open spec fn schema_line(c: ColumnModel) -> Seq<char> {
    c.name + seq![','] + crate::value::value_type_str(c.limiter.value_type) + seq![','] + (match c
        .limiter
        .default {
        Some(v) => val_str(v),
        None => Seq::<char>::empty(),
    }) + seq![','] + (match c.limiter.variant {
        Some(vs) => join_char(vs.map_values(|v: ValueModel| val_str(v)), ' '),
        None => Seq::<char>::empty(),
    }) + seq![','] + (match c.limiter.pattern {
        Some(p) => p,
        None => Seq::<char>::empty(),
    }) + seq!['\n']
}

/// The schema lines of every column, in order.
pub open spec fn schema_lines(cols: Seq<ColumnModel>) -> Seq<char>
    decreases cols.len(),
{
    if cols.len() == 0 {
        Seq::empty()
    } else {
        schema_lines(cols.drop_last()) + schema_line(cols.last())
    }
}

impl VirtualData {
    /// The table as padded strings: a header row of column names, then one
    /// row per data row, each cell padded to its column's width.
    #[verifier::loop_isolation(false)]
    pub fn get_string_table(&self, align_type: CellAlignType) -> (r: Vec<Vec<String>>)
        requires
            self.wf(),
        ensures
            r@.map_values(|row: Vec<String>| row@.map_values(|s: String| s@))
                == spec_string_table(*self, align_type),
    {
        let ghost w = target_widths(*self);
        let ncols = self.columns.len();
        let mut widths: Vec<usize> = Vec::new();
        let mut c: usize = 0;
        while c < ncols
            invariant
                c <= ncols,
                ncols == self.columns@.len() == self.metas@.len(),
                widths@.len() == c,
                forall|i: int| 0 <= i < c ==> (#[trigger] widths@[i]) as int == w[i],
            decreases ncols - c,
        {
            let name_w = crate::chars::str_display_width(self.columns[c].get_name());
            let tracked_w = self.metas[c].max_unicode_width;
            let target = if name_w > tracked_w {
                name_w
            } else {
                tracked_w
            };
            widths.push(target);
            c = c + 1;
        }

        let mut formatted: Vec<Vec<String>> = Vec::new();
        let mut header: Vec<String> = Vec::new();
        let mut c: usize = 0;
        while c < ncols
            invariant
                c <= ncols,
                ncols == self.columns@.len(),
                widths@.len() == ncols,
                forall|i: int| 0 <= i < ncols ==> (#[trigger] widths@[i]) as int == w[i],
                header@.map_values(|s: String| s@) == Seq::new(
                    c as nat,
                    |i: int| pad_str(self.cols()[i].name, w[i], align_type),
                ),
            decreases ncols - c,
        {
            let ghost old_h = header@;
            let cell = crate::vcont::pad_cell(self.columns[c].get_name(), widths[c], align_type);
            header.push(cell);
            proof {
                assert(header@.map_values(|s: String| s@) =~= old_h.map_values(
                    |s: String| s@,
                ).push(pad_str(self.cols()[c as int].name, w[c as int], align_type)));
                assert(header@.map_values(|s: String| s@) =~= Seq::new(
                    (c + 1) as nat,
                    |i: int| pad_str(self.cols()[i].name, w[i], align_type),
                ));
            }
            c = c + 1;
        }
        formatted.push(header);
        proof {
            assert(formatted@.map_values(|row: Vec<String>| row@.map_values(|s: String| s@))
                =~= spec_string_table(*self, align_type).take(1));
        }

        let nrows = self.rows.len();
        let mut r: usize = 0;
        while r < nrows
            invariant
                r <= nrows,
                nrows == self.rows@.len(),
                ncols == self.columns@.len(),
                widths@.len() == ncols,
                forall|i: int| 0 <= i < ncols ==> (#[trigger] widths@[i]) as int == w[i],
                formatted@.map_values(|row: Vec<String>| row@.map_values(|s: String| s@))
                    == spec_string_table(*self, align_type).take(r + 1),
            decreases nrows - r,
        {
            let mut row_out: Vec<String> = Vec::new();
            let mut c: usize = 0;
            while c < ncols
                invariant
                    c <= ncols,
                    r < nrows,
                    nrows == self.rows@.len(),
                    ncols == self.columns@.len(),
                    widths@.len() == ncols,
                    forall|i: int| 0 <= i < ncols ==> (#[trigger] widths@[i]) as int == w[i],
                    row_out@.map_values(|s: String| s@) == Seq::new(
                        c as nat,
                        |i: int| pad_str(val_str(self.grid()[r as int][i]), w[i], align_type),
                    ),
                decreases ncols - c,
            {
                let ghost old_row = row_out@;
                let value = match self.rows[r].get_cell_value(self.columns[c].get_name()) {
                    Some(v) => v.to_string(),
                    None => {
                        proof {
                            assert(row_has(self.rows@[r as int]@, self.columns@[c as int]@.name));
                            crate::row::lemma_row_get_some(
                                self.rows@[r as int]@,
                                self.columns@[c as int]@.name,
                            );
                        }
                        String::new()
                    },
                };
                proof {
                    crate::row::lemma_row_get_some(
                        self.rows@[r as int]@,
                        self.columns@[c as int]@.name,
                    );
                    assert(value@ == val_str(self.grid()[r as int][c as int]));
                }
                let cell = crate::vcont::pad_cell(value.as_str(), widths[c], align_type);
                row_out.push(cell);
                proof {
                    assert(row_out@.map_values(|s: String| s@) =~= old_row.map_values(
                        |s: String| s@,
                    ).push(pad_str(val_str(self.grid()[r as int][c as int]), w[c as int], align_type)));
                    assert(row_out@.map_values(|s: String| s@) =~= Seq::new(
                        (c + 1) as nat,
                        |i: int| pad_str(val_str(self.grid()[r as int][i]), w[i], align_type),
                    ));
                }
                c = c + 1;
            }
            let ghost old_f = formatted@;
            formatted.push(row_out);
            proof {
                assert(formatted@.map_values(|row: Vec<String>| row@.map_values(|s: String| s@))
                    =~= old_f.map_values(|row: Vec<String>| row@.map_values(|s: String| s@)).push(
                    row_out@.map_values(|s: String| s@),
                ));
                assert(spec_string_table(*self, align_type).take(r + 2) =~= spec_string_table(
                    *self,
                    align_type,
                ).take(r + 1).push(spec_string_table(*self, align_type)[r + 1]));
                assert(row_out@.map_values(|s: String| s@) =~= spec_string_table(
                    *self,
                    align_type,
                )[r + 1]);
            }
            r = r + 1;
        }
        proof {
            assert(spec_string_table(*self, align_type).take(nrows + 1) =~= spec_string_table(
                *self,
                align_type,
            ));
        }
        formatted
    }

    /// The aligned table as one string: cells joined by single spaces,
    /// lines joined by the given separator.
    #[verifier::loop_isolation(false)]
    pub fn get_formatted_string(&self, line_delimiter: &str, align_type: CellAlignType) -> (r:
        String)
        requires
            self.wf(),
        ensures
            r@ == crate::chars::join_seq(
                spec_string_table(*self, align_type).map_values(
                    |row: Seq<Seq<char>>| join_char(row, ' '),
                ),
                line_delimiter@,
            ),
    {
        let table = self.get_string_table(align_type);
        let ghost lines = spec_string_table(*self, align_type).map_values(
            |row: Seq<Seq<char>>| join_char(row, ' '),
        );
        let mut formatted = String::new();
        let n = table.len();
        let mut i: usize = 0;
        proof {
            assert(formatted@ =~= crate::chars::join_seq(lines.take(0), line_delimiter@));
        }
        while i < n
            invariant
                i <= n,
                n == table@.len() == lines.len(),
                table@.map_values(|row: Vec<String>| row@.map_values(|s: String| s@))
                    == spec_string_table(*self, align_type),
                lines == spec_string_table(*self, align_type).map_values(
                    |row: Seq<Seq<char>>| join_char(row, ' '),
                ),
                formatted@ == crate::chars::join_seq(lines.take(i as int), line_delimiter@),
            decreases n - i,
        {
            let ghost old_fmt = formatted@;
            if i > 0 {
                formatted.append(line_delimiter);
            }
            let row = &table[i];
            let m = row.len();
            let ghost cells = table@[i as int]@.map_values(|s: String| s@);
            proof {
                assert(row@ == table@[i as int]@);
            }
            let mut j: usize = 0;
            proof {
                assert(join_char(cells.take(0), ' ') =~= Seq::<char>::empty());
            }
            let ghost base = formatted@;
            while j < m
                invariant
                    j <= m,
                    i < n,
                    n == table@.len(),
                    m == row@.len(),
                    row@ == table@[i as int]@,
                    cells == table@[i as int]@.map_values(|s: String| s@),
                    formatted@ == base + join_char(cells.take(j as int), ' '),
                decreases m - j,
            {
                let ghost before = formatted@;
                if j > 0 {
                    formatted.push(' ');
                }
                formatted.append(row[j].as_str());
                proof {
                    crate::chars::lemma_join_char_push(cells.take(j as int), cells[j as int], ' ');
                    assert(cells.take(j + 1) =~= cells.take(j as int).push(cells[j as int]));
                    if j == 0 {
                        assert(formatted@ =~= base + join_char(cells.take(1), ' '));
                    } else {
                        assert(formatted@ =~= base + join_char(cells.take(j + 1), ' '));
                    }
                }
                j = j + 1;
            }
            proof {
                assert(cells.take(m as int) =~= cells);
                assert(cells == spec_string_table(*self, align_type)[i as int]);
                assert(lines[i as int] == join_char(cells, ' '));
                crate::chars::lemma_join_seq_push(
                    lines.take(i as int),
                    lines[i as int],
                    line_delimiter@,
                );
                assert(lines.take(i + 1) =~= lines.take(i as int).push(lines[i as int]));
                if i == 0 {
                    assert(formatted@ =~= crate::chars::join_seq(lines.take(1), line_delimiter@));
                } else {
                    assert(formatted@ =~= crate::chars::join_seq(
                        lines.take(i + 1),
                        line_delimiter@,
                    ));
                }
            }
            i = i + 1;
        }
        proof {
            assert(lines.take(n as int) =~= lines);
        }
        formatted
    }

    /// The table as csv text: the header line of column names, then one
    /// comma-joined line per row, with no trailing newline.
    #[verifier::loop_isolation(false)]
    pub fn to_string(&self) -> (r: String)
        requires
            self.wf(),
        ensures
            r@ == spec_csv_text(*self),
    {
        let ghost lines = seq![
            join_char(Seq::new(self.cols().len(), |c: int| self.cols()[c].name), ','),
        ] + Seq::new(
            self.grid().len(),
            |r: int| join_char(
                Seq::new(self.cols().len(), |c: int| val_str(self.grid()[r][c])),
                ',',
            ),
        );
        let ncols = self.columns.len();
        let mut acc = String::new();
        let ghost header_names = Seq::new(self.cols().len(), |c: int| self.cols()[c].name);
        let mut c: usize = 0;
        proof {
            assert(acc@ =~= join_char(header_names.take(0), ','));
        }
        while c < ncols
            invariant
                c <= ncols,
                ncols == self.columns@.len(),
                header_names == Seq::new(self.cols().len(), |c: int| self.cols()[c].name),
                acc@ == join_char(header_names.take(c as int), ','),
            decreases ncols - c,
        {
            if c > 0 {
                acc.push(',');
            }
            acc.append(self.columns[c].get_name());
            proof {
                crate::chars::lemma_join_char_push(
                    header_names.take(c as int),
                    header_names[c as int],
                    ',',
                );
                assert(header_names.take(c + 1) =~= header_names.take(c as int).push(
                    header_names[c as int],
                ));
            }
            c = c + 1;
        }
        proof {
            assert(header_names.take(ncols as int) =~= header_names);
            assert(acc@ == lines[0]);
            assert(acc@ =~= crate::chars::join_seq(lines.take(1), seq!['\n']));
            assert(join_char(lines.take(1), '\n') == lines[0]);
        }

        let nrows = self.rows.len();
        let mut r: usize = 0;
        while r < nrows
            invariant
                r <= nrows,
                nrows == self.rows@.len(),
                ncols == self.columns@.len(),
                lines == seq![
                    join_char(Seq::new(self.cols().len(), |c: int| self.cols()[c].name), ','),
                ] + Seq::new(
                    self.grid().len(),
                    |rr: int| join_char(
                        Seq::new(self.cols().len(), |c: int| val_str(self.grid()[rr][c])),
                        ',',
                    ),
                ),
                acc@ == join_char(lines.take(r + 1), '\n'),
            decreases nrows - r,
        {
            acc.push('\n');
            let ghost row_strs = Seq::new(
                self.cols().len(),
                |c: int| val_str(self.grid()[r as int][c]),
            );
            let ghost base = acc@;
            let mut c: usize = 0;
            proof {
                assert(join_char(row_strs.take(0), ',') =~= Seq::<char>::empty());
                assert(base + join_char(row_strs.take(0), ',') =~= base);
            }
            while c < ncols
                invariant
                    c <= ncols,
                    r < nrows,
                    nrows == self.rows@.len(),
                    ncols == self.columns@.len(),
                    row_strs == Seq::new(
                        self.cols().len(),
                        |cc: int| val_str(self.grid()[r as int][cc]),
                    ),
                    acc@ == base + join_char(row_strs.take(c as int), ','),
                decreases ncols - c,
            {
                if c > 0 {
                    acc.push(',');
                }
                let value = match self.rows[r].get_cell_value(self.columns[c].get_name()) {
                    Some(v) => v.to_string(),
                    None => {
                        proof {
                            assert(row_has(self.rows@[r as int]@, self.columns@[c as int]@.name));
                            crate::row::lemma_row_get_some(
                                self.rows@[r as int]@,
                                self.columns@[c as int]@.name,
                            );
                        }
                        String::new()
                    },
                };
                proof {
                    crate::row::lemma_row_get_some(
                        self.rows@[r as int]@,
                        self.columns@[c as int]@.name,
                    );
                    assert(value@ == row_strs[c as int]);
                }
                acc.append(value.as_str());
                proof {
                    crate::chars::lemma_join_char_push(
                        row_strs.take(c as int),
                        row_strs[c as int],
                        ',',
                    );
                    assert(row_strs.take(c + 1) =~= row_strs.take(c as int).push(
                        row_strs[c as int],
                    ));
                }
                c = c + 1;
            }
            proof {
                assert(row_strs.take(ncols as int) =~= row_strs);
                assert(lines[r + 1] == join_char(row_strs, ','));
                crate::chars::lemma_join_char_push(lines.take(r + 1), lines[r + 1], '\n');
                assert(lines.take(r + 2) =~= lines.take(r + 1).push(lines[r + 1]));
                assert(acc@ =~= join_char(lines.take(r + 2), '\n'));
            }
            r = r + 1;
        }
        proof {
            assert(lines.take(nrows + 1) =~= lines);
        }
        acc
    }

    /// The schema of every column as csv text: a fixed header line, then
    /// the name, type, default, variants and pattern of each column.  A
    /// default or variant member that is the empty string exports as an
    /// empty field, which re-imports as no default at all.
    #[verifier::loop_isolation(false)]
    #[verifier::rlimit(100)]
    pub fn export_schema(&self) -> (r: String)
        ensures
            r@ == crate::SCHEMA_HEADER@ + seq!['\n'] + schema_lines(self.cols()),
    {
        let mut schema = crate::SCHEMA_HEADER.to_owned();
        schema.push('\n');
        let ghost base = schema@;
        let ncols = self.columns.len();
        let mut c: usize = 0;
        proof {
            assert(base + schema_lines(self.cols().take(0)) =~= base);
        }
        while c < ncols
            invariant
                c <= ncols,
                ncols == self.columns@.len(),
                base == crate::SCHEMA_HEADER@ + seq!['\n'],
                schema@ == base + schema_lines(self.cols().take(c as int)),
            decreases ncols - c,
        {
            let col = &self.columns[c];
            let ghost line_start = schema@;
            schema.append(col.get_name());
            schema.push(',');
            let ts = col.limiter.get_type().to_string();
            schema.append(ts.as_str());
            schema.push(',');
            match col.limiter.get_default() {
                Some(v) => {
                    let vs = v.to_string();
                    schema.append(vs.as_str());
                },
                None => {},
            }
            schema.push(',');
            let ghost cm = self.cols()[c as int];
            match col.limiter.get_variant() {
                Some(vs) => {
                    let ghost var_strs = cm.limiter.variant->0.map_values(
                        |v: ValueModel| val_str(v),
                    );
                    let ghost vbase = schema@;
                    let m = vs.len();
                    let mut j: usize = 0;
                    proof {
                        assert(join_char(var_strs.take(0), ' ') =~= Seq::<char>::empty());
                        assert(vbase + join_char(var_strs.take(0), ' ') =~= vbase);
                    }
                    while j < m
                        invariant
                            j <= m,
                            c < ncols,
                            ncols == self.columns@.len(),
                            cm.limiter.variant == Some(vs@.map_values(|x: Value| x@)),
                            m == vs@.len(),
                            var_strs == vs@.map_values(|x: Value| x@).map_values(
                                |v: ValueModel| val_str(v),
                            ),
                            schema@ == vbase + join_char(var_strs.take(j as int), ' '),
                        decreases m - j,
                    {
                        if j > 0 {
                            schema.push(' ');
                        }
                        let s = vs[j].to_string();
                        schema.append(s.as_str());
                        proof {
                            assert(s@ == var_strs[j as int]);
                            crate::chars::lemma_join_char_push(
                                var_strs.take(j as int),
                                var_strs[j as int],
                                ' ',
                            );
                            assert(var_strs.take(j + 1) =~= var_strs.take(j as int).push(
                                var_strs[j as int],
                            ));
                        }
                        j = j + 1;
                    }
                    proof {
                        assert(var_strs.take(m as int) =~= var_strs);
                    }
                },
                None => {},
            }
            schema.push(',');
            match col.limiter.get_pattern() {
                Some(p) => {
                    schema.append(p.as_str());
                },
                None => {},
            }
            schema.push('\n');
            proof {
                assert(schema@ =~= line_start + schema_line(cm));
                assert(self.cols().take(c + 1).drop_last() =~= self.cols().take(c as int));
                assert(schema@ =~= base + schema_lines(self.cols().take(c + 1)));
            }
            c = c + 1;
        }
        proof {
            assert(self.cols().take(ncols as int) =~= self.cols());
        }
        schema
    }
}

} // verus!

verus! {

/// What applying a new limiter does to one cell: the value is converted to
/// the limiter's type when possible, kept if it then qualifies, and
/// otherwise replaced by the limiter's default (or the empty value of the
/// limiter's type when it has none).
pub open spec fn relimit_value(v: ValueModel, lim: crate::value::LimiterModel) -> ValueModel {
    let converted = match crate::value::spec_convertible(lim, v) {
        Some(tt) => crate::row::spec_change_type(v, tt),
        None => v,
    };
    if spec_qualify(lim, converted) {
        converted
    } else {
        match lim.default {
            Some(d) => d,
            None => crate::value::spec_empty_value(lim.value_type),
        }
    }
}

/// Whether one cell survives a new limiter without falling back to the
/// default.
pub open spec fn relimit_ok(v: ValueModel, lim: crate::value::LimiterModel) -> bool {
    let converted = match crate::value::spec_convertible(lim, v) {
        Some(tt) => crate::row::spec_change_type(v, tt),
        None => v,
    };
    spec_qualify(lim, converted)
}

/// The cell value converted to a target type; the caller must know the
/// conversion is possible.
fn convert_value(v: &Value, target_type: ValueType) -> (r: Value)
    requires
        (v@ is Str && target_type == ValueType::Number) ==> (val_str(v@).len() == 0
            || crate::digits::is_i64_literal(val_str(v@))),
    ensures
        r@ == crate::row::spec_change_type(v@, target_type),
{
    match v {
        Value::Text(t) => {
            if target_type == ValueType::Number {
                match Value::from_str(t.as_str(), ValueType::Number) {
                    Ok(nv) => nv,
                    Err(_) => {
                        proof {
                            assert(false);
                        }
                        Value::Number(0)
                    },
                }
            } else {
                v.clone()
            }
        },
        Value::Number(n) => {
            if target_type == ValueType::Text {
                Value::Text(Value::Number(*n).to_string())
            } else {
                v.clone()
            }
        },
    }
}

impl VirtualData {
    /// Apply a new limiter to a column, revalidating every cell: a cell is
    /// converted to the limiter's type when possible and kept if it then
    /// qualifies.  With `strict` set, any cell that fails aborts the whole
    /// operation before anything is written; otherwise failing cells take
    /// the limiter's default.  The column takes the limiter's type.
    #[verifier::loop_isolation(false)]
    #[verifier::rlimit(100)]
    pub fn set_limiter(
        &mut self,
        column: usize,
        limiter: &crate::value::ValueLimiter,
        strict: bool,
    ) -> (r: DcsvResult<()>)
        requires
            old(self).wf(),
        ensures
            final(self).wf(),
            r is Ok <==> (column < old(self).cols().len() && (!strict || (forall|rr: int|
                0 <= rr < old(self).grid().len() ==> relimit_ok(
                    #[trigger] old(self).grid()[rr][column as int],
                    limiter@,
                )))),
            r matches Err(e) ==> *final(self) == *old(self) && ((column >= old(
                self,
            ).cols().len() ==> e is OutOfRangeError) && (column < old(self).cols().len()
                ==> e is InvalidCellData)),
            r is Ok ==> final(self).cols() == old(self).cols().update(
                column as int,
                (ColumnModel {
                    column_type: limiter@.value_type,
                    limiter: limiter@,
                    ..old(self).cols()[column as int]
                }),
            ) && final(self).grid() == Seq::new(
                old(self).grid().len(),
                |rr: int| old(self).grid()[rr].update(
                    column as int,
                    relimit_value(old(self).grid()[rr][column as int], limiter@),
                ),
            ) && final(self).widths() == old(self).widths(),
    {
        if column >= self.columns.len() {
            return Err(DcsvError::OutOfRangeError);
        }
        let name: String = self.columns[column].get_name().to_owned();
        let nrows = self.rows.len();
        if strict {
            let mut rr: usize = 0;
            while rr < nrows
                invariant
                    rr <= nrows,
                    nrows == self.rows@.len(),
                    forall|i: int|
                        0 <= i < rr ==> relimit_ok(
                            #[trigger] self.grid()[i][column as int],
                            limiter@,
                        ),
                decreases nrows - rr,
            {
                let current: Value = match self.rows[rr].get_cell_value(name.as_str()) {
                    Some(v) => v.clone(),
                    None => {
                        proof {
                            assert(row_has(self.rows@[rr as int]@, self.columns@[column as int]@.name));
                            crate::row::lemma_row_get_some(
                                self.rows@[rr as int]@,
                                self.columns@[column as int]@.name,
                            );
                        }
                        Value::Number(0)
                    },
                };
                proof {
                    crate::row::lemma_row_get_some(
                        self.rows@[rr as int]@,
                        self.columns@[column as int]@.name,
                    );
                    assert(current@ == self.grid()[rr as int][column as int]);
                }
                let converted: Value = match limiter.is_convertible(&current) {
                    Some(tt) => {
                        proof {
                            match current@ {
                                ValueModel::Num(n) => crate::digits::lemma_parse_dec_seq(n),
                                ValueModel::Str(_) => {},
                            }
                        }
                        convert_value(&current, tt)
                    },
                    None => current.clone(),
                };
                if !limiter.qualify(&converted) {
                    return Err(
                        DcsvError::InvalidCellData(
                            "Cell does not match the limiter's qualification".to_owned(),
                        ),
                    );
                }
                rr = rr + 1;
            }
        }
        let mut rr: usize = 0;
        while rr < nrows
            invariant
                rr <= nrows,
                nrows == self.rows@.len(),
                self.columns == old(self).columns,
                self.metas == old(self).metas,
                column < self.columns@.len(),
                name@ == old(self).cols()[column as int].name,
                strict ==> (forall|i: int|
                    0 <= i < nrows ==> relimit_ok(
                        #[trigger] old(self).grid()[i][column as int],
                        limiter@,
                    )),
                forall|i: int|
                    0 <= i < rr ==> row_distinct((#[trigger] self.rows@[i])@) && row_get(
                        self.rows@[i]@,
                        name@,
                    ) == Some(relimit_value(old(self).grid()[i][column as int], limiter@)) && (
                    forall|k: Seq<char>|
                        k != name@ ==> row_get(self.rows@[i]@, k) == row_get(
                            old(self).rows@[i]@,
                            k,
                        )),
                forall|i: int| rr <= i < nrows ==> (#[trigger] self.rows@[i]) == old(self).rows@[i],
            decreases nrows - rr,
        {
            proof {
                assert(self.rows@[rr as int] == old(self).rows@[rr as int]);
                assert(row_distinct(old(self).rows@[rr as int]@));
                assert(row_has(old(self).rows@[rr as int]@, old(
                    self,
                ).columns@[column as int]@.name));
                crate::row::lemma_row_get_some(
                    old(self).rows@[rr as int]@,
                    old(self).columns@[column as int]@.name,
                );
            }
            let current: Value = match self.rows[rr].get_cell_value(name.as_str()) {
                Some(v) => v.clone(),
                None => Value::Number(0),
            };
            proof {
                assert(current@ == old(self).grid()[rr as int][column as int]);
            }
            let converted: Value = match limiter.is_convertible(&current) {
                Some(tt) => {
                    proof {
                        match current@ {
                            ValueModel::Num(n) => crate::digits::lemma_parse_dec_seq(n),
                            ValueModel::Str(_) => {},
                        }
                    }
                    convert_value(&current, tt)
                },
                None => current.clone(),
            };
            let new_value: Value = if limiter.qualify(&converted) {
                converted
            } else {
                if strict {
                    proof {
                        assert(relimit_ok(old(self).grid()[rr as int][column as int], limiter@));
                        assert(false);
                    }
                    converted
                } else {
                    match limiter.get_default() {
                        Some(d) => d.clone(),
                        None => Value::empty(limiter.get_type()),
                    }
                }
            };
            proof {
                assert(new_value@ == relimit_value(
                    old(self).grid()[rr as int][column as int],
                    limiter@,
                ));
            }
            let row = &mut self.rows[rr];
            row.update_cell_value(name.as_str(), new_value);
            rr = rr + 1;
        }
        let new_limiter = limiter.clone();
        self.columns[column].set_limiter(new_limiter);
        proof {
            assert(self.cols() =~= old(self).cols().update(
                column as int,
                (ColumnModel {
                    column_type: limiter@.value_type,
                    limiter: limiter@,
                    ..old(self).cols()[column as int]
                }),
            ));
            assert(final(self).widths() =~= old(self).widths());
            assert forall|i: int, j: int|
                0 <= i < j < self.columns@.len() implies (#[trigger] self.columns@[i])@.name != (
            #[trigger] self.columns@[j])@.name by {
                assert(old(self).columns@[i]@.name != old(self).columns@[j]@.name);
                assert(self.columns@[i]@.name == old(self).columns@[i]@.name);
                assert(self.columns@[j]@.name == old(self).columns@[j]@.name);
            }
            assert forall|rr2: int, cc: int|
                0 <= rr2 < self.rows@.len() && 0 <= cc < self.columns@.len() implies row_has(
                    (#[trigger] self.rows@[rr2])@,
                    (#[trigger] self.columns@[cc])@.name,
                ) by {
                assert(row_has(old(self).rows@[rr2]@, old(self).columns@[cc]@.name));
                crate::row::lemma_row_get_some(old(self).rows@[rr2]@, old(self).columns@[cc]@.name);
                crate::row::lemma_row_get_some(self.rows@[rr2]@, self.columns@[cc]@.name);
                assert(self.columns@[cc]@.name == old(self).columns@[cc]@.name);
            }
            assert(self.grid() =~~= Seq::new(
                old(self).grid().len(),
                |rr2: int| old(self).grid()[rr2].update(
                    column as int,
                    relimit_value(old(self).grid()[rr2][column as int], limiter@),
                ),
            )) by {
                assert forall|rr2: int| 0 <= rr2 < self.grid().len() implies self.grid()[rr2] =~=
                    old(self).grid()[rr2].update(
                    column as int,
                    relimit_value(old(self).grid()[rr2][column as int], limiter@),
                ) by {
                    assert forall|cc: int| 0 <= cc < self.cols().len() implies row_cells(
                        self.rows@[rr2]@,
                        self.cols(),
                    )[cc] == old(self).grid()[rr2].update(
                        column as int,
                        relimit_value(old(self).grid()[rr2][column as int], limiter@),
                    )[cc] by {
                        assert(self.columns@[cc]@.name == old(self).columns@[cc]@.name);
                        if cc != column as int {
                            assert(old(self).columns@[cc]@.name != old(
                                self,
                            ).columns@[column as int]@.name);
                        }
                    }
                }
            }
        }
        Ok(())
    }

    /// Overwrite a cell from a string: the string is interpreted at the
    /// column's declared type, then validated against the column's limiter.
    pub fn set_cell_from_string(&mut self, x: usize, y: usize, value: &str) -> (r: DcsvResult<()>)
        requires
            old(self).wf(),
        ensures
            final(self).wf(),
            r is Ok <==> (x < old(self).grid().len() && y < old(self).cols().len() && ({
                let ct = old(self).cols()[y as int].column_type;
                &&& (ct == ValueType::Number ==> crate::digits::is_i64_literal(value@))
                &&& spec_qualify(
                    old(self).cols()[y as int].limiter,
                    crate::value::spec_value_from_str(value@, ct),
                )
            })),
            r matches Err(e) ==> *final(self) == *old(self) && (!(x < old(self).grid().len() && y
                < old(self).cols().len()) ==> e is OutOfRangeError) && ((x < old(
                self,
            ).grid().len() && y < old(self).cols().len()) ==> e is InvalidCellData),
            r is Ok ==> ({
                let nv = crate::value::spec_value_from_str(
                    value@,
                    old(self).cols()[y as int].column_type,
                );
                &&& final(self).cols() == old(self).cols()
                &&& final(self).grid() == old(self).grid().update(
                    x as int,
                    old(self).grid()[x as int].update(y as int, nv),
                )
                &&& final(self).widths() == old(self).widths().update(
                    y as int,
                    (if val_width(nv) > old(self).widths()[y as int] {
                        val_width(nv)
                    } else {
                        old(self).widths()[y as int]
                    }),
                )
            }),
    {
        let column_type: ValueType = match self.get_column_if_valid(x, y) {
            Ok(col) => *col.get_column_type(),
            Err(e) => {
                return Err(e);
            },
        };
        let nvalue: Value = match column_type {
            ValueType::Text => Value::Text(value.to_owned()),
            ValueType::Number => {
                match Value::from_str(value, ValueType::Number) {
                    Ok(v) => v,
                    Err(_) => {
                        return Err(
                            DcsvError::InvalidCellData(
                                "Given value is not a number".to_owned(),
                            ),
                        );
                    },
                }
            },
        };
        if column_type == ValueType::Number && value.unicode_len() == 0 {
            return Err(
                DcsvError::InvalidCellData("Given value is not a number".to_owned()),
            );
        }
        self.set_cell(x, y, nvalue)
    }

    /// The rows whose cell in the given column passes the limiter, in row
    /// order.
    #[verifier::loop_isolation(false)]
    pub fn qualify(&self, column: usize, limiter: &crate::value::ValueLimiter) -> (r: DcsvResult<
        Vec<&Row>,
    >)
        requires
            self.wf(),
        ensures
            r is Ok <==> column < self.cols().len(),
            r matches Ok(rows) ==> rows@.map_values(|x: &Row| (*x)@) == qualifying_rows(
                self.rows@.map_values(|x: Row| x@),
                self.cols()[column as int].name,
                limiter@,
            ),
            r matches Err(e) ==> e is OutOfRangeError,
    {
        if column >= self.columns.len() {
            return Err(DcsvError::OutOfRangeError);
        }
        let name: &str = self.columns[column].get_name();
        let ghost all = self.rows@.map_values(|x: Row| x@);
        let mut acc: Vec<&Row> = Vec::new();
        let nrows = self.rows.len();
        let mut rr: usize = 0;
        proof {
            assert(all.take(0) =~= Seq::<Seq<(Seq<char>, ValueModel)>>::empty());
            assert(acc@.map_values(|x: &Row| (*x)@) =~= qualifying_rows(
                all.take(0),
                self.cols()[column as int].name,
                limiter@,
            ));
        }
        while rr < nrows
            invariant
                rr <= nrows,
                nrows == self.rows@.len() == all.len(),
                all == self.rows@.map_values(|x: Row| x@),
                acc@.map_values(|x: &Row| (*x)@) == qualifying_rows(
                    all.take(rr as int),
                    self.cols()[column as int].name,
                    limiter@,
                ),
            decreases nrows - rr,
        {
            let ghost old_acc = acc@;
            proof {
                assert(all.take(rr + 1).drop_last() =~= all.take(rr as int));
                assert(all.take(rr + 1).last() == all[rr as int]);
                assert(row_has(self.rows@[rr as int]@, self.columns@[column as int]@.name));
                crate::row::lemma_row_get_some(
                    self.rows@[rr as int]@,
                    self.columns@[column as int]@.name,
                );
            }
            let qualifies = match self.rows[rr].get_cell_value(name) {
                Some(v) => limiter.qualify(v),
                None => false,
            };
            if qualifies {
                acc.push(&self.rows[rr]);
                proof {
                    assert(acc@.map_values(|x: &Row| (*x)@) =~= old_acc.map_values(
                        |x: &Row| (*x)@,
                    ).push(all[rr as int]));
                }
            }
            rr = rr + 1;
        }
        proof {
            assert(all.take(nrows as int) =~= all);
        }
        Ok(acc)
    }

    /// The rows that pass every one of the given per-column limiters, in
    /// row order.
    #[verifier::loop_isolation(false)]
    pub fn qualify_multiple(&self, qualifiers: Vec<(usize, &crate::value::ValueLimiter)>) -> (r:
        DcsvResult<Vec<&Row>>)
        requires
            self.wf(),
        ensures
            r is Ok <==> (forall|q: int|
                0 <= q < qualifiers@.len() ==> (#[trigger] qualifiers@[q]).0 < self.cols().len()),
            r matches Ok(rows) ==> rows@.map_values(|x: &Row| (*x)@) == multi_qualifying_rows(
                self.rows@.map_values(|x: Row| x@),
                Seq::new(
                    qualifiers@.len(),
                    |q: int| (self.cols()[qualifiers@[q].0 as int].name, qualifiers@[q].1@),
                ),
            ),
            r matches Err(e) ==> e is OutOfRangeError,
    {
        let ncheck = qualifiers.len();
        let mut qc: usize = 0;
        while qc < ncheck
            invariant
                qc <= ncheck,
                ncheck == qualifiers@.len(),
                forall|q: int|
                    0 <= q < qc ==> (#[trigger] qualifiers@[q]).0 < self.cols().len(),
            decreases ncheck - qc,
        {
            let (ci, _) = &qualifiers[qc];
            if *ci >= self.columns.len() {
                return Err(DcsvError::OutOfRangeError);
            }
            qc = qc + 1;
        }
        let ghost all = self.rows@.map_values(|x: Row| x@);
        let ghost quals = Seq::new(
            qualifiers@.len(),
            |q: int| (self.cols()[qualifiers@[q].0 as int].name, qualifiers@[q].1@),
        );
        let mut acc: Vec<&Row> = Vec::new();
        let nrows = self.rows.len();
        let mut rr: usize = 0;
        proof {
            assert(all.take(0) =~= Seq::<Seq<(Seq<char>, ValueModel)>>::empty());
            assert(acc@.map_values(|x: &Row| (*x)@) =~= multi_qualifying_rows(all.take(0), quals));
        }
        while rr < nrows
            invariant
                rr <= nrows,
                nrows == self.rows@.len() == all.len(),
                all == self.rows@.map_values(|x: Row| x@),
                quals == Seq::new(
                    qualifiers@.len(),
                    |q: int| (self.cols()[qualifiers@[q].0 as int].name, qualifiers@[q].1@),
                ),
                acc@.map_values(|x: &Row| (*x)@) == multi_qualifying_rows(
                    all.take(rr as int),
                    quals,
                ),
            decreases nrows - rr,
        {
            let ghost old_acc = acc@;
            proof {
                assert(all.take(rr + 1).drop_last() =~= all.take(rr as int));
                assert(all.take(rr + 1).last() == all[rr as int]);
            }
            let nquals = qualifiers.len();
            let mut q: usize = 0;
            let mut passes = true;
            while q < nquals
                invariant
                    q <= nquals,
                    rr < nrows,
                    nrows == self.rows@.len(),
                    nquals == qualifiers@.len() == quals.len(),
                    all == self.rows@.map_values(|x: Row| x@),
                    quals == Seq::new(
                        qualifiers@.len(),
                        |qq: int| (self.cols()[qualifiers@[qq].0 as int].name, qualifiers@[qq].1@),
                    ),
                    passes ==> (forall|qq: int|
                        0 <= qq < q ==> spec_qualify(
                            (#[trigger] quals[qq]).1,
                            row_get(all[rr as int], quals[qq].0)->0,
                        )),
                    !passes ==> (exists|qq: int|
                        0 <= qq < q && !spec_qualify(
                            (#[trigger] quals[qq]).1,
                            row_get(all[rr as int], quals[qq].0)->0,
                        )),
                decreases nquals - q,
            {
                if passes {
                    let (ci, lim) = &qualifiers[q];
                    let name: &str = self.columns[*ci].get_name();
                    proof {
                        assert(row_has(self.rows@[rr as int]@, self.columns@[
                            qualifiers@[q as int].0 as int
                        ]@.name));
                        crate::row::lemma_row_get_some(
                            self.rows@[rr as int]@,
                            self.columns@[qualifiers@[q as int].0 as int]@.name,
                        );
                    }
                    let ok = match self.rows[rr].get_cell_value(name) {
                        Some(v) => lim.qualify(v),
                        None => false,
                    };
                    proof {
                        assert(quals[q as int].0 == self.cols()[
                            qualifiers@[q as int].0 as int
                        ].name);
                        assert(quals[q as int].1 == qualifiers@[q as int].1@);
                        assert(ok == spec_qualify(
                            quals[q as int].1,
                            row_get(all[rr as int], quals[q as int].0)->0,
                        ));
                    }
                    if !ok {
                        passes = false;
                        proof {
                            assert(!spec_qualify(
                                (#[trigger] quals[q as int]).1,
                                row_get(all[rr as int], quals[q as int].0)->0,
                            ));
                        }
                    } else {
                        proof {
                            assert forall|qq: int|
                                0 <= qq < q + 1 implies spec_qualify(
                                (#[trigger] quals[qq]).1,
                                row_get(all[rr as int], quals[qq].0)->0,
                            ) by {
                                if qq < q {
                                }
                            }
                        }
                    }
                }
                q = q + 1;
            }
            if passes {
                acc.push(&self.rows[rr]);
                proof {
                    assert(row_passes(all[rr as int], quals));
                    assert(acc@.map_values(|x: &Row| (*x)@) =~= old_acc.map_values(
                        |x: &Row| (*x)@,
                    ).push(all[rr as int]));
                }
            } else {
                proof {
                    let qq = choose|qq: int|
                        0 <= qq < quals.len() && !spec_qualify(
                            (#[trigger] quals[qq]).1,
                            row_get(all[rr as int], quals[qq].0)->0,
                        );
                    assert(!row_passes(all[rr as int], quals));
                }
            }
            rr = rr + 1;
        }
        proof {
            assert(all.take(nrows as int) =~= all);
        }
        Ok(acc)
    }
}

/// The rows whose cell under a name passes a limiter, kept in order.
pub open spec fn qualifying_rows(
    rows: Seq<Seq<(Seq<char>, ValueModel)>>,
    name: Seq<char>,
    lim: crate::value::LimiterModel,
) -> Seq<Seq<(Seq<char>, ValueModel)>>
    decreases rows.len(),
{
    if rows.len() == 0 {
        Seq::empty()
    } else {
        let rest = qualifying_rows(rows.drop_last(), name, lim);
        if spec_qualify(lim, row_get(rows.last(), name)->0) {
            rest.push(rows.last())
        } else {
            rest
        }
    }
}

/// Whether a row passes every limiter of a qualifier list.
pub open spec fn row_passes(
    row: Seq<(Seq<char>, ValueModel)>,
    quals: Seq<(Seq<char>, crate::value::LimiterModel)>,
) -> bool {
    forall|q: int|
        0 <= q < quals.len() ==> spec_qualify(
            (#[trigger] quals[q]).1,
            row_get(row, quals[q].0)->0,
        )
}

/// The rows that pass every limiter of a qualifier list, kept in order.
pub open spec fn multi_qualifying_rows(
    rows: Seq<Seq<(Seq<char>, ValueModel)>>,
    quals: Seq<(Seq<char>, crate::value::LimiterModel)>,
) -> Seq<Seq<(Seq<char>, ValueModel)>>
    decreases rows.len(),
{
    if rows.len() == 0 {
        Seq::empty()
    } else {
        let rest = multi_qualifying_rows(rows.drop_last(), quals);
        if row_passes(rows.last(), quals) {
            rest.push(rows.last())
        } else {
            rest
        }
    }
}

} // verus!

verus! {

/// The rows of a grid laid end to end, in row order.
pub open spec fn concat_grid(grid: Seq<Seq<ValueModel>>) -> Seq<ValueModel>
    decreases grid.len(),
{
    if grid.len() == 0 {
        Seq::empty()
    } else {
        concat_grid(grid.drop_last()) + grid.last()
    }
}

/// A table with every value cloned out of the name-keyed container, for
/// callers that want a plain record list.
pub struct ReadOnlyData {
    pub columns: Vec<Column>,
    pub rows: Vec<Vec<Value>>,
}

/// A borrowed view of the same record list.
pub struct ReadOnlyDataRef<'data> {
    pub columns: Vec<&'data Column>,
    pub rows: Vec<Vec<&'data Value>>,
}

impl<'data> ReadOnlyDataRef<'data> {
    /// Clone the borrowed records into an owned table.
    #[verifier::loop_isolation(false)]
    pub fn to_owned(&self) -> (r: ReadOnlyData)
        ensures
            r.columns@.map_values(|c: Column| c@) == self.columns@.map_values(
                |c: &Column| (*c)@,
            ),
            r.rows@.map_values(|row: Vec<Value>| row@.map_values(|v: Value| v@))
                == self.rows@.map_values(
                |row: Vec<&Value>| row@.map_values(|v: &Value| (*v)@),
            ),
    {
        let mut columns: Vec<Column> = Vec::new();
        let mut i: usize = 0;
        while i < self.columns.len()
            invariant
                i <= self.columns@.len(),
                columns@.map_values(|c: Column| c@) == self.columns@.map_values(
                    |c: &Column| (*c)@,
                ).take(i as int),
            decreases self.columns@.len() - i,
        {
            let ghost old_c = columns@;
            columns.push(self.columns[i].clone());
            proof {
                assert(columns@.map_values(|c: Column| c@) =~= old_c.map_values(
                    |c: Column| c@,
                ).push(self.columns@[i as int]@));
                assert(self.columns@.map_values(|c: &Column| (*c)@).take(i + 1)
                    =~= self.columns@.map_values(|c: &Column| (*c)@).take(i as int).push(
                    self.columns@[i as int]@,
                ));
            }
            i = i + 1;
        }
        proof {
            assert(self.columns@.map_values(|c: &Column| (*c)@).take(self.columns@.len() as int)
                =~= self.columns@.map_values(|c: &Column| (*c)@));
        }
        let ghost target = self.rows@.map_values(
            |row: Vec<&Value>| row@.map_values(|v: &Value| (*v)@),
        );
        let mut rows: Vec<Vec<Value>> = Vec::new();
        let mut i: usize = 0;
        proof {
            assert(rows@.map_values(|row: Vec<Value>| row@.map_values(|v: Value| v@))
                =~= target.take(0));
        }
        while i < self.rows.len()
            invariant
                i <= self.rows@.len(),
                target == self.rows@.map_values(
                    |row: Vec<&Value>| row@.map_values(|v: &Value| (*v)@),
                ),
                rows@.map_values(|row: Vec<Value>| row@.map_values(|v: Value| v@)) == target.take(
                    i as int,
                ),
            decreases self.rows@.len() - i,
        {
            let src = &self.rows[i];
            let mut row: Vec<Value> = Vec::new();
            let mut j: usize = 0;
            proof {
                assert(row@.map_values(|v: Value| v@) =~= target[i as int].take(0));
            }
            while j < src.len()
                invariant
                    j <= src@.len(),
                    i < self.rows@.len(),
                    src == &self.rows@[i as int],
                    target == self.rows@.map_values(
                        |row: Vec<&Value>| row@.map_values(|v: &Value| (*v)@),
                    ),
                    target[i as int].len() == src@.len(),
                    row@.map_values(|v: Value| v@) == target[i as int].take(j as int),
                decreases src@.len() - j,
            {
                let ghost old_row = row@;
                row.push(src[j].clone());
                proof {
                    assert(row@.map_values(|v: Value| v@) =~= old_row.map_values(
                        |v: Value| v@,
                    ).push(src@[j as int]@));
                    assert(target[i as int].take(j + 1) =~= target[i as int].take(j as int).push(
                        target[i as int][j as int],
                    ));
                }
                j = j + 1;
            }
            proof {
                assert(target[i as int].take(src@.len() as int) =~= target[i as int]);
            }
            let ghost old_rows = rows@;
            rows.push(row);
            proof {
                assert(rows@.map_values(|row: Vec<Value>| row@.map_values(|v: Value| v@))
                    =~= old_rows.map_values(|row: Vec<Value>| row@.map_values(|v: Value| v@)).push(
                    target[i as int],
                ));
                assert(target.take(i + 1) =~= target.take(i as int).push(target[i as int]));
            }
            i = i + 1;
        }
        proof {
            assert(target.take(self.rows@.len() as int) =~= target);
        }
        ReadOnlyData { columns, rows }
    }
}

impl VirtualData {
    /// The table with every value cloned out, as a plain record list.
    pub fn read_only(&self) -> (r: ReadOnlyData)
        requires
            self.wf(),
        ensures
            r.columns@.map_values(|c: Column| c@) == self.cols(),
            r.rows@.map_values(|row: Vec<Value>| row@.map_values(|v: Value| v@)) == self.grid(),
    {
        let borrowed = self.read_only_ref();
        let owned = borrowed.to_owned();
        proof {
            assert(owned.columns@.map_values(|c: Column| c@) =~= self.cols());
            assert(owned.rows@.map_values(|row: Vec<Value>| row@.map_values(|v: Value| v@))
                =~= self.grid());
        }
        owned
    }

    /// A borrowed record list over the table's current values.
    #[verifier::loop_isolation(false)]
    pub fn read_only_ref<'data>(&'data self) -> (r: ReadOnlyDataRef<'data>)
        requires
            self.wf(),
        ensures
            r.columns@.map_values(|c: &Column| (*c)@) == self.cols(),
            r.rows@.map_values(|row: Vec<&Value>| row@.map_values(|v: &Value| (*v)@))
                == self.grid(),
    {
        let mut columns: Vec<&Column> = Vec::new();
        let ncols = self.columns.len();
        let mut c: usize = 0;
        while c < ncols
            invariant
                c <= ncols,
                ncols == self.columns@.len(),
                columns@.len() == c,
                forall|i: int| 0 <= i < c ==> (#[trigger] columns@[i])@ == self.cols()[i],
            decreases ncols - c,
        {
            columns.push(&self.columns[c]);
            c = c + 1;
        }
        let mut rows: Vec<Vec<&Value>> = Vec::new();
        let nrows = self.rows.len();
        let mut r: usize = 0;
        while r < nrows
            invariant
                r <= nrows,
                nrows == self.rows@.len(),
                ncols == self.columns@.len(),
                rows@.len() == r,
                forall|i: int|
                    0 <= i < r ==> (#[trigger] rows@[i])@.map_values(|v: &Value| (*v)@)
                        == self.grid()[i],
            decreases nrows - r,
        {
            let mut static_row: Vec<&Value> = Vec::new();
            let mut c: usize = 0;
            while c < ncols
                invariant
                    c <= ncols,
                    r < nrows,
                    nrows == self.rows@.len(),
                    ncols == self.columns@.len(),
                    static_row@.len() == c,
                    forall|i: int|
                        0 <= i < c ==> ((#[trigger] static_row@[i])@) == self.grid()[r as int][i],
                decreases ncols - c,
            {
                match self.rows[r].get_cell_value(self.columns[c].get_name()) {
                    Some(v) => {
                        static_row.push(v);
                        proof {
                            crate::row::lemma_row_get_some(
                                self.rows@[r as int]@,
                                self.columns@[c as int]@.name,
                            );
                        }
                    },
                    None => {
                        proof {
                            assert(row_has(self.rows@[r as int]@, self.columns@[c as int]@.name));
                            crate::row::lemma_row_get_some(
                                self.rows@[r as int]@,
                                self.columns@[c as int]@.name,
                            );
                        }
                    },
                }
                c = c + 1;
            }
            let ghost old_rows = rows@;
            rows.push(static_row);
            proof {
                assert(static_row@.map_values(|v: &Value| (*v)@) =~= self.grid()[r as int]);
            }
            r = r + 1;
        }
        proof {
            let rr = ReadOnlyDataRef { columns, rows };
            assert(rr.columns@.map_values(|c: &Column| (*c)@) =~= self.cols());
            assert(rr.rows@.map_values(|row: Vec<&Value>| row@.map_values(|v: &Value| (*v)@))
                =~= self.grid());
        }
        ReadOnlyDataRef { columns, rows }
    }

    /// Every value of the table in row order, each row in column order.
    #[verifier::loop_isolation(false)]
    pub fn get_iterator(&self) -> (r: Vec<&Value>)
        requires
            self.wf(),
        ensures
            r@.map_values(|v: &Value| (*v)@) == concat_grid(self.grid()),
    {
        let mut iterate: Vec<&Value> = Vec::new();
        let nrows = self.rows.len();
        let mut r: usize = 0;
        proof {
            assert(self.grid().take(0) =~= Seq::<Seq<ValueModel>>::empty());
            assert(iterate@.map_values(|v: &Value| (*v)@) =~= concat_grid(self.grid().take(0)));
        }
        while r < nrows
            invariant
                r <= nrows,
                nrows == self.rows@.len(),
                iterate@.map_values(|v: &Value| (*v)@) == concat_grid(self.grid().take(r as int)),
            decreases nrows - r,
        {
            let ncols = self.columns.len();
            let ghost base = iterate@;
            let mut c: usize = 0;
            while c < ncols
                invariant
                    c <= ncols,
                    r < nrows,
                    nrows == self.rows@.len(),
                    ncols == self.columns@.len(),
                    iterate@.map_values(|v: &Value| (*v)@) == base.map_values(|v: &Value| (*v)@)
                        + self.grid()[r as int].take(c as int),
                decreases ncols - c,
            {
                let ghost old_it = iterate@;
                match self.rows[r].get_cell_value(self.columns[c].get_name()) {
                    Some(v) => {
                        iterate.push(v);
                        proof {
                            crate::row::lemma_row_get_some(
                                self.rows@[r as int]@,
                                self.columns@[c as int]@.name,
                            );
                            assert(iterate@.map_values(|v: &Value| (*v)@) =~= old_it.map_values(
                                |v: &Value| (*v)@,
                            ).push(self.grid()[r as int][c as int]));
                            assert(self.grid()[r as int].take(c + 1) =~= self.grid(
                            )[r as int].take(c as int).push(self.grid()[r as int][c as int]));
                            assert(iterate@.map_values(|v: &Value| (*v)@) =~= base.map_values(
                                |v: &Value| (*v)@,
                            ) + self.grid()[r as int].take(c + 1));
                        }
                    },
                    None => {
                        proof {
                            assert(row_has(self.rows@[r as int]@, self.columns@[c as int]@.name));
                            crate::row::lemma_row_get_some(
                                self.rows@[r as int]@,
                                self.columns@[c as int]@.name,
                            );
                        }
                    },
                }
                c = c + 1;
            }
            proof {
                assert(self.grid()[r as int].take(ncols as int) =~= self.grid()[r as int]);
                assert(self.grid().take(r + 1).drop_last() =~= self.grid().take(r as int));
                assert(self.grid().take(r + 1).last() == self.grid()[r as int]);
                assert(iterate@.map_values(|v: &Value| (*v)@) =~= concat_grid(
                    self.grid().take(r + 1),
                ));
            }
            r = r + 1;
        }
        proof {
            assert(self.grid().take(nrows as int) =~= self.grid());
        }
        iterate
    }

    /// The values of one column, in row order.
    #[verifier::loop_isolation(false)]
    pub fn get_column_iterator(&self, column_index: usize) -> (r: DcsvResult<Vec<&Value>>)
        requires
            self.wf(),
        ensures
            r is Ok <==> column_index < self.cols().len(),
            r matches Ok(vs) ==> vs@.len() == self.grid().len() && (forall|i: int|
                0 <= i < vs@.len() ==> (#[trigger] vs@[i])@ == self.grid()[i][column_index as int]),
            r matches Err(e) ==> e is OutOfRangeError,
    {
        if column_index >= self.columns.len() {
            return Err(DcsvError::OutOfRangeError);
        }
        let name: &str = self.columns[column_index].get_name();
        let mut acc: Vec<&Value> = Vec::new();
        let nrows = self.rows.len();
        let mut rr: usize = 0;
        while rr < nrows
            invariant
                rr <= nrows,
                nrows == self.rows@.len(),
                column_index < self.columns@.len(),
                name@ == self.cols()[column_index as int].name,
                acc@.len() == rr,
                forall|i: int|
                    0 <= i < rr ==> (#[trigger] acc@[i])@ == self.grid()[i][column_index as int],
            decreases nrows - rr,
        {
            match self.rows[rr].get_cell_value(name) {
                Some(v) => {
                    acc.push(v);
                    proof {
                        crate::row::lemma_row_get_some(
                            self.rows@[rr as int]@,
                            self.columns@[column_index as int]@.name,
                        );
                    }
                },
                None => {
                    proof {
                        assert(row_has(self.rows@[rr as int]@, self.columns@[
                            column_index as int
                        ]@.name));
                        crate::row::lemma_row_get_some(
                            self.rows@[rr as int]@,
                            self.columns@[column_index as int]@.name,
                        );
                    }
                },
            }
            rr = rr + 1;
        }
        Ok(acc)
    }

    /// The values of one row, in column order.
    #[verifier::loop_isolation(false)]
    pub fn get_row_iterator(&self, row_index: usize) -> (r: DcsvResult<Vec<&Value>>)
        requires
            self.wf(),
        ensures
            r is Ok <==> row_index < self.grid().len(),
            r matches Ok(vs) ==> vs@.len() == self.cols().len() && (forall|c: int|
                0 <= c < vs@.len() ==> (#[trigger] vs@[c])@ == self.grid()[row_index as int][c]),
            r matches Err(e) ==> e is OutOfRangeError,
    {
        if row_index >= self.rows.len() {
            return Err(DcsvError::OutOfRangeError);
        }
        let mut acc: Vec<&Value> = Vec::new();
        let ncols = self.columns.len();
        let mut c: usize = 0;
        while c < ncols
            invariant
                c <= ncols,
                row_index < self.rows@.len(),
                ncols == self.columns@.len(),
                acc@.len() == c,
                forall|i: int|
                    0 <= i < c ==> (#[trigger] acc@[i])@ == self.grid()[row_index as int][i],
            decreases ncols - c,
        {
            match self.rows[row_index].get_cell_value(self.columns[c].get_name()) {
                Some(v) => {
                    acc.push(v);
                    proof {
                        crate::row::lemma_row_get_some(
                            self.rows@[row_index as int]@,
                            self.columns@[c as int]@.name,
                        );
                    }
                },
                None => {
                    proof {
                        assert(row_has(self.rows@[row_index as int]@, self.columns@[
                            c as int
                        ]@.name));
                        crate::row::lemma_row_get_some(
                            self.rows@[row_index as int]@,
                            self.columns@[c as int]@.name,
                        );
                    }
                },
            }
            c = c + 1;
        }
        Ok(acc)
    }

    /// Rescan every cell and widen each column's tracked width to cover it.
    #[verifier::loop_isolation(false)]
    pub fn update_width_global(&mut self)
        requires
            old(self).wf(),
        ensures
            final(self).wf(),
            final(self).cols() == old(self).cols(),
            final(self).grid() == old(self).grid(),
            final(self).widths() == Seq::new(
                old(self).widths().len(),
                |c: int| (if col_max_width(old(self).grid(), c) > old(self).widths()[c] {
                    col_max_width(old(self).grid(), c)
                } else {
                    old(self).widths()[c]
                }),
            ),
    {
        let ncols = self.columns.len();
        let nrows = self.rows.len();
        let mut c: usize = 0;
        while c < ncols
            invariant
                c <= ncols,
                ncols == self.columns@.len() == self.metas@.len(),
                nrows == self.rows@.len(),
                self.columns == old(self).columns,
                self.rows == old(self).rows,
                forall|i: int|
                    c <= i < ncols ==> (#[trigger] self.metas@[i]) == old(self).metas@[i],
                forall|i: int|
                    0 <= i < c ==> (#[trigger] self.metas@[i]).max_unicode_width as nat == (if
                        col_max_width(old(self).grid(), i) > old(self).widths()[i] {
                        col_max_width(old(self).grid(), i)
                    } else {
                        old(self).widths()[i]
                    }),
            decreases ncols - c,
        {
            let name: &str = self.columns[c].get_name();
            let mut new_max: usize = 0;
            let mut rr: usize = 0;
            proof {
                assert(old(self).grid().take(0) =~= Seq::<Seq<ValueModel>>::empty());
            }
            while rr < nrows
                invariant
                    rr <= nrows,
                    c < ncols,
                    nrows == self.rows@.len(),
                    ncols == self.columns@.len(),
                    self.rows == old(self).rows,
                    self.columns == old(self).columns,
                    name@ == self.cols()[c as int].name,
                    new_max as nat == col_max_width(old(self).grid().take(rr as int), c as int),
                decreases nrows - rr,
            {
                let cell_w: usize = match self.rows[rr].get_cell_value(name) {
                    Some(v) => v.get_width(),
                    None => {
                        proof {
                            assert(row_has(self.rows@[rr as int]@, self.columns@[c as int]@.name));
                            crate::row::lemma_row_get_some(
                                self.rows@[rr as int]@,
                                self.columns@[c as int]@.name,
                            );
                        }
                        0
                    },
                };
                proof {
                    crate::row::lemma_row_get_some(
                        self.rows@[rr as int]@,
                        self.columns@[c as int]@.name,
                    );
                    assert(cell_w as nat == val_width(old(self).grid()[rr as int][c as int]));
                    assert(old(self).grid().take(rr + 1).drop_last() =~= old(self).grid().take(
                        rr as int,
                    ));
                    assert(old(self).grid().take(rr + 1).last() == old(self).grid()[rr as int]);
                }
                if cell_w > new_max {
                    new_max = cell_w;
                }
                rr = rr + 1;
            }
            proof {
                assert(old(self).grid().take(nrows as int) =~= old(self).grid());
            }
            let meta = &mut self.metas[c];
            meta.update_width(new_max);
            c = c + 1;
        }
        proof {
            assert(final(self).cols() =~= old(self).cols());
            assert(final(self).grid() =~~= old(self).grid());
            assert(final(self).widths() =~= Seq::new(
                old(self).widths().len(),
                |c: int| (if col_max_width(old(self).grid(), c) > old(self).widths()[c] {
                    col_max_width(old(self).grid(), c)
                } else {
                    old(self).widths()[c]
                }),
            ));
        }
    }
}

} // verus!

verus! {

impl crate::vcont::VCont for VirtualData {
    open spec fn inv(&self) -> bool {
        self.wf()
    }

    fn new() -> Self {
        VirtualData::new()
    }

    fn move_row(&mut self, src_index: usize, target_index: usize) -> DcsvResult<()> {
        VirtualData::move_row(self, src_index, target_index)
    }

    fn move_column(&mut self, src_index: usize, target_index: usize) -> DcsvResult<()> {
        VirtualData::move_column(self, src_index, target_index)
    }

    fn rename_column(&mut self, column_index: usize, new_name: &str) -> DcsvResult<()> {
        VirtualData::rename_column(self, column_index, new_name)
    }

    fn set_column(&mut self, column_index: usize, value: Value) -> DcsvResult<()> {
        VirtualData::set_column(self, column_index, value)
    }

    fn edit_row(&mut self, row_index: usize, values: &[Option<Value>]) -> DcsvResult<()> {
        VirtualData::edit_row(self, row_index, values)
    }

    fn set_row(&mut self, row_index: usize, values: &[Value]) -> DcsvResult<()> {
        VirtualData::set_row(self, row_index, values)
    }

    fn get_cell(&self, x: usize, y: usize) -> Option<&Value> {
        VirtualData::get_cell(self, x, y)
    }

    fn set_cell(&mut self, x: usize, y: usize, value: Value) -> DcsvResult<()> {
        VirtualData::set_cell(self, x, y, value)
    }

    fn insert_row(&mut self, row_index: usize, source: Option<&[Value]>) -> DcsvResult<()> {
        VirtualData::insert_row(self, row_index, source)
    }

    fn delete_row(&mut self, row_index: usize) -> bool {
        VirtualData::delete_row(self, row_index)
    }

    fn insert_column(&mut self, column_index: usize, column_name: &str) -> DcsvResult<()> {
        VirtualData::insert_column(self, column_index, column_name)
    }

    fn delete_column(&mut self, column_index: usize) -> DcsvResult<()> {
        VirtualData::delete_column(self, column_index)
    }

    fn get_row_count(&self) -> usize {
        VirtualData::get_row_count(self)
    }

    fn get_column_count(&self) -> usize {
        VirtualData::get_column_count(self)
    }

    fn drop_data(&mut self) {
        VirtualData::drop_data(self)
    }
}

} // verus!
