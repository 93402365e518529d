//! A row of the name-keyed container: a mapping from column name to value.

use vstd::prelude::*;
use vstd::string::StringExecFns;
use crate::column::Column;
use crate::chars::join_char;
use crate::digits::{dec_seq, int_literal_val, is_i64_literal};
use crate::error::{DcsvError, DcsvResult};
use crate::value::{val_str, val_type, Value, ValueModel, ValueType};

verus! {

/// Whether a key occurs in an association list.
pub open spec fn row_has(r: Seq<(Seq<char>, ValueModel)>, k: Seq<char>) -> bool {
    exists|i: int| 0 <= i < r.len() && #[trigger] r[i].0 == k
}

/// The value stored under a key, when the key occurs.
pub open spec fn row_get(r: Seq<(Seq<char>, ValueModel)>, k: Seq<char>) -> Option<ValueModel>
    decreases r.len(),
{
    if r.len() == 0 {
        None
    } else if r[0].0 == k {
        Some(r[0].1)
    } else {
        row_get(r.drop_first(), k)
    }
}

/// Whether the keys of an association list are pairwise distinct.
pub open spec fn row_distinct(r: Seq<(Seq<char>, ValueModel)>) -> bool {
    forall|i: int, j: int| 0 <= i < j < r.len() ==> (#[trigger] r[i].0) != (#[trigger] r[j].0)
}

pub proof fn lemma_row_get_some(r: Seq<(Seq<char>, ValueModel)>, k: Seq<char>)
    ensures
        row_get(r, k) is Some <==> row_has(r, k),
        row_get(r, k) matches Some(v) ==> exists|i: int|
            0 <= i < r.len() && r[i].0 == k && #[trigger] r[i].1 == v,
    decreases r.len(),
{
    if r.len() > 0 {
        lemma_row_get_some(r.drop_first(), k);
        if r[0].0 == k {
        } else {
            assert(forall|i: int|
                1 <= i < r.len() ==> r[i] == (#[trigger] r.drop_first()[i - 1]));
            if row_has(r, k) {
                let i = choose|i: int| 0 <= i < r.len() && #[trigger] r[i].0 == k;
                assert(r.drop_first()[i - 1].0 == k);
            }
        }
    }
}

pub proof fn lemma_row_get_at(r: Seq<(Seq<char>, ValueModel)>, i: int)
    requires
        row_distinct(r),
        0 <= i < r.len(),
    ensures
        row_get(r, r[i].0) == Some(r[i].1),
    decreases r.len(),
{
    if i == 0 {
    } else {
        assert(r[0].0 != r[i].0);
        assert(forall|a: int, b: int|
            0 <= a < b < r.drop_first().len() ==> (#[trigger] r.drop_first()[a].0) != (
            #[trigger] r.drop_first()[b].0)) by {
            assert(forall|a: int|
                0 <= a < r.drop_first().len() ==> r.drop_first()[a] == (#[trigger] r[a + 1]));
        }
        assert(r.drop_first()[i - 1] == r[i]);
        lemma_row_get_at(r.drop_first(), i - 1);
    }
}

/// A row keyed by column name.  Exactly one value is stored per key; the
/// container keeps each of its rows keyed by the current column names.
pub struct Row {
    values: Vec<(String, Value)>,
}

impl View for Row {
    type V = Seq<(Seq<char>, ValueModel)>;

    closed spec fn view(&self) -> Seq<(Seq<char>, ValueModel)> {
        self.values@.map_values(|p: (String, Value)| (p.0@, p.1@))
    }
}

impl Clone for Row {
    /// A clone has the same content.
    fn clone(&self) -> (r: Self)
        ensures
            r@ == self@,
    {
        let mut values: Vec<(String, Value)> = Vec::new();
        let mut i: usize = 0;
        while i < self.values.len()
            invariant
                i <= self.values@.len(),
                values@.map_values(|p: (String, Value)| (p.0@, p.1@)) == self@.take(i as int),
            decreases self.values@.len() - i,
        {
            let ghost old_vals = values@;
            let (k, v) = &self.values[i];
            values.push((k.clone(), v.clone()));
            proof {
                assert(values@.map_values(|p: (String, Value)| (p.0@, p.1@)) =~= old_vals
                    .map_values(|p: (String, Value)| (p.0@, p.1@)).push(self@[i as int]));
                assert(self@.take(i + 1) =~= self@.take(i as int).push(self@[i as int]));
            }
            i = i + 1;
        }
        proof {
            assert(self@.take(self@.len() as int) =~= self@);
        }
        Row { values }
    }
}

/// What changing a cell's type does to its value: text becomes the parsed
/// number (empty text becomes zero), a number becomes its decimal string;
/// a value already of the target type is unchanged.
pub open spec fn spec_change_type(v: ValueModel, t: ValueType) -> ValueModel {
    match v {
        ValueModel::Str(s) => if t == ValueType::Number {
            ValueModel::Num(if s.len() == 0 {
                0
            } else {
                int_literal_val(s)
            })
        } else {
            v
        },
        ValueModel::Num(n) => if t == ValueType::Text {
            ValueModel::Str(dec_seq(n))
        } else {
            v
        },
    }
}

/// The value a row holds under a key after renaming `name` to `new_name`.
pub open spec fn spec_rename_get(
    r: Seq<(Seq<char>, ValueModel)>,
    name: Seq<char>,
    new_name: Seq<char>,
    k: Seq<char>,
) -> Option<ValueModel> {
    if !row_has(r, name) {
        row_get(r, k)
    } else if k == new_name {
        row_get(r, name)
    } else if k == name {
        None
    } else {
        row_get(r, k)
    }
}

impl Default for Row {
    /// The default row has no cells.
    fn default() -> (r: Self)
        ensures
            r@ == Seq::<(Seq<char>, ValueModel)>::empty(),
            row_distinct(r@),
    {
        Row::new()
    }
}

impl Row {
    /// A fresh row with no cells.
    pub fn new() -> (r: Self)
        ensures
            r@ == Seq::<(Seq<char>, ValueModel)>::empty(),
            row_distinct(r@),
    {
        let r = Row { values: Vec::new() };
        proof {
            assert(r@ =~= Seq::<(Seq<char>, ValueModel)>::empty());
        }
        r
    }

    /// Store a value under a key, replacing any value already there.
    #[verifier::loop_isolation(false)]
    pub fn insert_cell(&mut self, key: &str, value: Value)
        requires
            row_distinct(old(self)@),
        ensures
            row_distinct(final(self)@),
            row_get(final(self)@, key@) == Some(value@),
            forall|k: Seq<char>| k != key@ ==> row_get(final(self)@, k) == row_get(old(self)@, k),
            final(self)@.len() == old(self)@.len() + (if row_has(old(self)@, key@) {
                0int
            } else {
                1int
            }),
    {
        let n = self.values.len();
        let mut i: usize = 0;
        while i < n
            invariant
                i <= n,
                n == self@.len(),
                self@ == old(self)@,
                forall|j: int| 0 <= j < i ==> (#[trigger] self@[j].0) != key@,
            decreases n - i,
        {
            let hit = {
                let (k, _) = &self.values[i];
                let key_string = key.to_owned();
                *k == key_string
            };
            if hit {
                let ghost prev = self@;
                self.values[i] = (key.to_owned(), value);
                proof {
                    assert(self@ =~= prev.update(i as int, (key@, value@)));
                    assert(prev[i as int] == (old(self).values@[i as int].0@, old(
                        self,
                    ).values@[i as int].1@));
                    assert(prev[i as int].0 == key@);
                    assert(row_has(prev, key@));
                    lemma_insert_update(prev, i as int, key@, value@);
                }
                return ;
            }
            i = i + 1;
        }
        let ghost prev = self@;
        self.values.push((key.to_owned(), value));
        proof {
            assert(self@ =~= prev.push((key@, value@)));
            assert(!row_has(prev, key@));
            lemma_insert_push(prev, key@, value@);
        }
    }

    /// The value stored under a key, if any.
    #[verifier::loop_isolation(false)]
    pub fn get_cell_value(&self, key: &str) -> (r: Option<&Value>)
        ensures
            r matches Some(v) ==> row_get(self@, key@) == Some(v@),
            r is None ==> row_get(self@, key@) is None,
    {
        let n = self.values.len();
        let mut i: usize = 0;
        while i < n
            invariant
                i <= n,
                n == self@.len(),
                forall|j: int| 0 <= j < i ==> (#[trigger] self@[j].0) != key@,
            decreases n - i,
        {
            let hit = {
                let (k, _) = &self.values[i];
                let key_string = key.to_owned();
                *k == key_string
            };
            if hit {
                proof {
                    lemma_get_first_hit(self@, key@, i as int);
                }
                let (_, v) = &self.values[i];
                return Some(v);
            }
            i = i + 1;
        }
        proof {
            lemma_get_none(self@, key@);
        }
        None
    }

    /// Overwrite the value under a key; a missing key is silently ignored.
    #[verifier::loop_isolation(false)]
    pub fn update_cell_value(&mut self, key: &str, value: Value)
        requires
            row_distinct(old(self)@),
        ensures
            row_distinct(final(self)@),
            row_get(final(self)@, key@) == (if row_has(old(self)@, key@) {
                Some(value@)
            } else {
                None::<ValueModel>
            }),
            forall|k: Seq<char>| k != key@ ==> row_get(final(self)@, k) == row_get(old(self)@, k),
            final(self)@.len() == old(self)@.len(),
    {
        let n = self.values.len();
        let mut i: usize = 0;
        while i < n
            invariant
                i <= n,
                n == self@.len(),
                self@ == old(self)@,
                forall|j: int| 0 <= j < i ==> (#[trigger] self@[j].0) != key@,
            decreases n - i,
        {
            let hit = {
                let (k, _) = &self.values[i];
                let key_string = key.to_owned();
                *k == key_string
            };
            if hit {
                let ghost prev = self@;
                self.values[i] = (key.to_owned(), value);
                proof {
                    assert(self@ =~= prev.update(i as int, (key@, value@)));
                    assert(prev[i as int] == (old(self).values@[i as int].0@, old(
                        self,
                    ).values@[i as int].1@));
                    assert(prev[i as int].0 == key@);
                    assert(row_has(prev, key@));
                    lemma_insert_update(prev, i as int, key@, value@);
                }
                return ;
            }
            i = i + 1;
        }
        proof {
            lemma_get_none(self@, key@);
        }
    }

    /// Remove the cell under a key, if present.
    #[verifier::loop_isolation(false)]
    pub fn remove_cell(&mut self, key: &str)
        requires
            row_distinct(old(self)@),
        ensures
            row_distinct(final(self)@),
            row_get(final(self)@, key@) is None,
            forall|k: Seq<char>| k != key@ ==> row_get(final(self)@, k) == row_get(old(self)@, k),
    {
        let n = self.values.len();
        let mut i: usize = 0;
        while i < n
            invariant
                i <= n,
                n == self@.len(),
                self@ == old(self)@,
                forall|j: int| 0 <= j < i ==> (#[trigger] self@[j].0) != key@,
            decreases n - i,
        {
            let hit = {
                let (k, _) = &self.values[i];
                let key_string = key.to_owned();
                *k == key_string
            };
            if hit {
                let ghost prev = self@;
                let _ = self.values.remove(i);
                proof {
                    assert(self@ =~= prev.remove(i as int));
                    lemma_remove_get(prev, i as int, key@);
                }
                return ;
            }
            i = i + 1;
        }
        proof {
            lemma_get_none(self@, key@);
        }
    }

    /// Move the cell under `name` to the key `new_name`, overwriting any
    /// cell already there; a missing `name` leaves the row unchanged.
    pub fn rename_column(&mut self, name: &str, new_name: &str)
        requires
            row_distinct(old(self)@),
        ensures
            row_distinct(final(self)@),
            forall|k: Seq<char>|
                #![trigger row_get(final(self)@, k)]
                row_get(final(self)@, k) == spec_rename_get(old(self)@, name@, new_name@, k),
    {
        proof {
            lemma_row_get_some(old(self)@, name@);
        }
        let previous = match self.get_cell_value(name) {
            Some(v) => Some(v.clone()),
            None => None,
        };
        match previous {
            Some(prev) => {
                self.remove_cell(name);
                self.insert_cell(new_name, prev);
            },
            None => {},
        }
    }

    /// Convert the cell under a key to the target type; text that does not
    /// parse as a number is rejected, and a missing key does nothing.
    pub fn change_cell_type(&mut self, key: &str, target_type: ValueType) -> (r: DcsvResult<()>)
        requires
            row_distinct(old(self)@),
        ensures
            row_distinct(final(self)@),
            r is Err <==> (row_get(old(self)@, key@) matches Some(v) && v matches ValueModel::Str(
                s,
            ) && target_type == ValueType::Number && s.len() > 0 && !is_i64_literal(s)),
            r matches Err(e) ==> final(self)@ == old(self)@ && e is InvalidCellData,
            r is Ok ==> row_get(final(self)@, key@) == (match row_get(old(self)@, key@) {
                Some(v) => Some(spec_change_type(v, target_type)),
                None => None::<ValueModel>,
            }),
            r is Ok ==> forall|k: Seq<char>|
                k != key@ ==> row_get(final(self)@, k) == row_get(old(self)@, k),
    {
        proof {
            lemma_row_get_some(old(self)@, key@);
        }
        let current = match self.get_cell_value(key) {
            Some(v) => Some(v.clone()),
            None => None,
        };
        match current {
            Some(v) => {
                let converted = match &v {
                    Value::Text(t) => {
                        if target_type == ValueType::Number {
                            match Value::from_str(t.as_str(), ValueType::Number) {
                                Ok(nv) => nv,
                                Err(_) => {
                                    return Err(
                                        DcsvError::InvalidCellData(
                                            "Cell value cannot be converted to a number".to_owned(),
                                        ),
                                    );
                                },
                            }
                        } else {
                            v.clone()
                        }
                    },
                    Value::Number(n) => {
                        if target_type == ValueType::Text {
                            let s = Value::Number(*n).to_string();
                            Value::Text(s)
                        } else {
                            v.clone()
                        }
                    },
                };
                proof {
                    assert(converted@ == spec_change_type(v@, target_type));
                }
                self.update_cell_value(key, converted);
                Ok(())
            },
            None => Ok(()),
        }
    }

    /// The row's values in the order of the given columns; every column
    /// must have a cell.
    #[verifier::loop_isolation(false)]
    pub fn to_vector(&self, columns: &[Column]) -> (r: DcsvResult<Vec<&Value>>)
        ensures
            r is Ok <==> (forall|c: int|
                0 <= c < columns@.len() ==> row_has(self@, #[trigger] columns@[c]@.name)),
            r matches Ok(vs) ==> vs@.len() == columns@.len() && (forall|c: int|
                0 <= c < columns@.len() ==> Some((#[trigger] vs@[c])@) == row_get(
                    self@,
                    columns@[c]@.name,
                )),
            r matches Err(e) ==> e is InvalidColumn,
    {
        let mut acc: Vec<&Value> = Vec::new();
        let n = columns.len();
        let mut i: usize = 0;
        while i < n
            invariant
                i <= n,
                n == columns@.len(),
                acc@.len() == i,
                forall|c: int|
                    0 <= c < i ==> Some((#[trigger] acc@[c])@) == row_get(
                        self@,
                        columns@[c]@.name,
                    ),
            decreases n - i,
        {
            match self.get_cell_value(columns[i].get_name()) {
                Some(v) => {
                    acc.push(v);
                },
                None => {
                    proof {
                        lemma_row_get_some(self@, columns@[i as int]@.name);
                    }
                    return Err(
                        DcsvError::InvalidColumn(
                            "Given column was not present thus cannot construct row vector"
                                .to_owned(),
                        ),
                    );
                },
            }
            i = i + 1;
        }
        proof {
            assert forall|c: int|
                0 <= c < columns@.len() implies row_has(self@, #[trigger] columns@[c]@.name) by {
                assert(Some((acc@[c])@) == row_get(self@, columns@[c]@.name));
                lemma_row_get_some(self@, columns@[c]@.name);
            }
        }
        Ok(acc)
    }

    /// The comma-joined string of the row's values in column order; every
    /// column must have a cell.
    #[verifier::loop_isolation(false)]
    pub fn to_string(&self, columns: &[Column]) -> (r: DcsvResult<String>)
        ensures
            r is Ok <==> (forall|c: int|
                0 <= c < columns@.len() ==> row_has(self@, #[trigger] columns@[c]@.name)),
            r matches Ok(s) ==> s@ == join_char(
                Seq::new(
                    columns@.len(),
                    |c: int| val_str(row_get(self@, columns@[c]@.name)->0),
                ),
                ',',
            ),
            r matches Err(e) ==> e is InvalidColumn,
    {
        let cells = match self.to_vector(columns) {
            Ok(vs) => vs,
            Err(e) => {
                return Err(e);
            },
        };
        let ghost strs = Seq::new(
            columns@.len(),
            |c: int| val_str(row_get(self@, columns@[c]@.name)->0),
        );
        let mut acc = String::new();
        let n = cells.len();
        let mut i: usize = 0;
        proof {
            assert(acc@ =~= join_char(strs.take(0), ','));
        }
        while i < n
            invariant
                i <= n,
                n == cells@.len() == columns@.len(),
                strs == Seq::new(
                    columns@.len(),
                    |c: int| val_str(row_get(self@, columns@[c]@.name)->0),
                ),
                forall|c: int|
                    0 <= c < n ==> Some((#[trigger] cells@[c])@) == row_get(
                        self@,
                        columns@[c]@.name,
                    ),
                acc@ == join_char(strs.take(i as int), ','),
            decreases n - i,
        {
            let ghost old_acc = acc@;
            if i > 0 {
                acc.push(',');
            }
            let s = cells[i].to_string();
            acc.append(s.as_str());
            proof {
                crate::chars::lemma_join_char_push(strs.take(i as int), strs[i as int], ',');
                assert(strs.take(i + 1) =~= strs.take(i as int).push(strs[i as int]));
            }
            i = i + 1;
        }
        proof {
            assert(strs.take(n as int) =~= strs);
        }
        Ok(acc)
    }

    /// The values present under the given columns, in column order; columns
    /// without a cell are skipped.
    #[verifier::loop_isolation(false)]
    pub fn get_iterator(&self, columns: &[Column]) -> (r: Vec<&Value>)
        ensures
            r@.map_values(|v: &Value| (*v)@) == present_cells(
                self@,
                columns@.map_values(|c: Column| c@.name),
            ),
    {
        let mut acc: Vec<&Value> = Vec::new();
        let n = columns.len();
        let ghost names = columns@.map_values(|c: Column| c@.name);
        let mut i: usize = 0;
        proof {
            assert(names.take(0) =~= Seq::<Seq<char>>::empty());
            assert(acc@.map_values(|v: &Value| (*v)@) =~= present_cells(self@, names.take(0)));
        }
        while i < n
            invariant
                i <= n,
                n == columns@.len() == names.len(),
                names == columns@.map_values(|c: Column| c@.name),
                acc@.map_values(|v: &Value| (*v)@) == present_cells(self@, names.take(i as int)),
            decreases n - i,
        {
            let ghost old_acc = acc@;
            proof {
                assert(names.take(i + 1) =~= names.take(i as int).push(names[i as int]));
                assert(names.take(i + 1).drop_last() =~= names.take(i as int));
            }
            match self.get_cell_value(columns[i].get_name()) {
                Some(v) => {
                    acc.push(v);
                    proof {
                        lemma_row_get_some(self@, names[i as int]);
                        assert(acc@.map_values(|v: &Value| (*v)@) =~= old_acc.map_values(
                            |v: &Value| (*v)@,
                        ).push(v@));
                        assert(present_cells(self@, names.take(i + 1)) =~= present_cells(
                            self@,
                            names.take(i as int),
                        ).push(row_get(self@, names[i as int])->0));
                    }
                },
                None => {
                    proof {
                        lemma_row_get_some(self@, names[i as int]);
                        assert(present_cells(self@, names.take(i + 1)) =~= present_cells(
                            self@,
                            names.take(i as int),
                        ));
                    }
                },
            }
            i = i + 1;
        }
        proof {
            assert(names.take(n as int) =~= names);
        }
        acc
    }
}

/// The values a row holds under the given names, in order, skipping names
/// without a cell.
pub open spec fn present_cells(
    r: Seq<(Seq<char>, ValueModel)>,
    names: Seq<Seq<char>>,
) -> Seq<ValueModel>
    decreases names.len(),
{
    if names.len() == 0 {
        Seq::empty()
    } else {
        let rest = present_cells(r, names.drop_last());
        if row_has(r, names.last()) {
            rest.push(row_get(r, names.last())->0)
        } else {
            rest
        }
    }
}

proof fn lemma_insert_update(
    prev: Seq<(Seq<char>, ValueModel)>,
    i: int,
    key: Seq<char>,
    v: ValueModel,
)
    requires
        row_distinct(prev),
        0 <= i < prev.len(),
        prev[i].0 == key,
    ensures
        row_distinct(prev.update(i, (key, v))),
        row_get(prev.update(i, (key, v)), key) == Some(v),
        forall|k: Seq<char>|
            k != key ==> row_get(prev.update(i, (key, v)), k) == row_get(prev, k),
    decreases prev.len(),
{
    let cur = prev.update(i, (key, v));
    assert(forall|a: int| 0 <= a < prev.len() && a != i ==> cur[a] == (#[trigger] prev[a]));
    assert(cur[i] == (key, v));
    assert(row_distinct(cur)) by {
        assert(forall|a: int, b: int|
            0 <= a < b < cur.len() ==> (#[trigger] cur[a].0) != (#[trigger] cur[b].0)) by {
            assert(forall|a: int|
                0 <= a < cur.len() ==> (#[trigger] cur[a].0) == prev[a].0);
        }
    }
    if i == 0 {
        assert(row_get(cur, key) == Some(v));
        assert forall|k: Seq<char>| k != key implies row_get(cur, k) == row_get(prev, k) by {
            assert(cur[0].0 == key);
            assert(row_get(cur, k) == row_get(cur.drop_first(), k));
            assert(row_get(prev, k) == row_get(prev.drop_first(), k));
            assert(cur.drop_first() =~= prev.drop_first());
        }
    } else {
        assert(cur[0] == prev[0]);
        assert(cur.drop_first() =~= prev.drop_first().update(i - 1, (key, v)));
        assert(forall|a: int|
            0 <= a < prev.drop_first().len() ==> (#[trigger] prev.drop_first()[a]) == prev[a + 1]);
        lemma_insert_update(prev.drop_first(), i - 1, key, v);
        assert(prev[0].0 != key);
        assert(row_get(cur, key) == row_get(cur.drop_first(), key));
        assert(row_get(cur, key) == Some(v));
        assert forall|k: Seq<char>| k != key implies row_get(cur, k) == row_get(prev, k) by {
            if k == prev[0].0 {
                assert(row_get(cur, k) == Some(cur[0].1));
                assert(row_get(prev, k) == Some(prev[0].1));
            } else {
                assert(row_get(cur, k) == row_get(cur.drop_first(), k));
                assert(row_get(prev, k) == row_get(prev.drop_first(), k));
                assert(row_get(prev.drop_first().update(i - 1, (key, v)), k) == row_get(
                    prev.drop_first(),
                    k,
                ));
            }
        }
    }
}

proof fn lemma_insert_push(prev: Seq<(Seq<char>, ValueModel)>, key: Seq<char>, v: ValueModel)
    requires
        row_distinct(prev),
        !row_has(prev, key),
    ensures
        row_distinct(prev.push((key, v))),
        row_get(prev.push((key, v)), key) == Some(v),
        forall|k: Seq<char>| k != key ==> row_get(prev.push((key, v)), k) == row_get(prev, k),
    decreases prev.len(),
{
    let cur = prev.push((key, v));
    assert(forall|a: int| 0 <= a < prev.len() ==> cur[a] == (#[trigger] prev[a]));
    assert(cur[prev.len() as int] == (key, v));
    assert(row_distinct(cur)) by {
        assert forall|a: int, b: int|
            0 <= a < b < cur.len() implies (#[trigger] cur[a].0) != (#[trigger] cur[b].0) by {
            if b < prev.len() {
            } else {
                assert(cur[b].0 == key);
                assert(cur[a].0 == prev[a].0);
            }
        }
    }
    if prev.len() == 0 {
        assert(row_get(cur, key) == Some(v));
        assert forall|k: Seq<char>| k != key implies row_get(cur, k) == row_get(prev, k) by {
            assert(cur[0].0 == key);
            assert(row_get(cur, k) == row_get(cur.drop_first(), k));
            assert(cur.drop_first() =~= Seq::<(Seq<char>, ValueModel)>::empty());
            assert(row_get(cur.drop_first(), k) is None);
            assert(row_get(prev, k) is None);
        }
    } else {
        assert(cur[0] == prev[0]);
        assert(cur.drop_first() =~= prev.drop_first().push((key, v)));
        assert(!row_has(prev.drop_first(), key)) by {
            if row_has(prev.drop_first(), key) {
                let a = choose|a: int|
                    0 <= a < prev.drop_first().len() && #[trigger] prev.drop_first()[a].0 == key;
                assert(prev[a + 1].0 == key);
            }
        }
        assert(forall|a: int, b: int|
            0 <= a < b < prev.drop_first().len() ==> (#[trigger] prev.drop_first()[a].0) != (
            #[trigger] prev.drop_first()[b].0)) by {
            assert(forall|a: int|
                0 <= a < prev.drop_first().len() ==> (#[trigger] prev.drop_first()[a]) == prev[a
                    + 1]);
        }
        lemma_insert_push(prev.drop_first(), key, v);
        assert(prev[0].0 != key);
        assert(row_get(cur, key) == row_get(cur.drop_first(), key));
        assert(row_get(cur, key) == Some(v));
        assert forall|k: Seq<char>| k != key implies row_get(cur, k) == row_get(prev, k) by {
            if k == prev[0].0 {
                assert(row_get(cur, k) == Some(cur[0].1));
                assert(row_get(prev, k) == Some(prev[0].1));
            } else {
                assert(row_get(cur, k) == row_get(cur.drop_first(), k));
                assert(row_get(prev, k) == row_get(prev.drop_first(), k));
                assert(row_get(prev.drop_first().push((key, v)), k) == row_get(
                    prev.drop_first(),
                    k,
                ));
            }
        }
    }
}

proof fn lemma_get_first_hit(r: Seq<(Seq<char>, ValueModel)>, key: Seq<char>, i: int)
    requires
        0 <= i < r.len(),
        r[i].0 == key,
        forall|j: int| 0 <= j < i ==> (#[trigger] r[j].0) != key,
    ensures
        row_get(r, key) == Some(r[i].1),
    decreases i,
{
    if i > 0 {
        assert(r.drop_first()[i - 1] == r[i]);
        assert(forall|j: int|
            0 <= j < i - 1 ==> (#[trigger] r.drop_first()[j]) == r[j + 1]);
        lemma_get_first_hit(r.drop_first(), key, i - 1);
    }
}

proof fn lemma_get_none(r: Seq<(Seq<char>, ValueModel)>, key: Seq<char>)
    requires
        forall|j: int| 0 <= j < r.len() ==> (#[trigger] r[j].0) != key,
    ensures
        row_get(r, key) is None,
    decreases r.len(),
{
    if r.len() > 0 {
        assert(forall|j: int|
            0 <= j < r.drop_first().len() ==> (#[trigger] r.drop_first()[j]) == r[j + 1]);
        lemma_get_none(r.drop_first(), key);
    }
}

proof fn lemma_remove_get(prev: Seq<(Seq<char>, ValueModel)>, i: int, key: Seq<char>)
    requires
        row_distinct(prev),
        0 <= i < prev.len(),
        prev[i].0 == key,
    ensures
        row_distinct(prev.remove(i)),
        row_get(prev.remove(i), key) is None,
        forall|k: Seq<char>| k != key ==> row_get(prev.remove(i), k) == row_get(prev, k),
    decreases prev.len(),
{
    let cur = prev.remove(i);
    assert(forall|a: int| 0 <= a < i ==> cur[a] == (#[trigger] prev[a]));
    assert(forall|a: int| i <= a < cur.len() ==> cur[a] == (#[trigger] prev[a + 1]));
    assert(row_distinct(cur)) by {
        assert forall|a: int, b: int|
            0 <= a < b < cur.len() implies (#[trigger] cur[a].0) != (#[trigger] cur[b].0) by {
            if a < i && b < i {
            } else if a < i {
                assert(cur[b] == prev[b + 1]);
            } else {
                assert(cur[a] == prev[a + 1]);
                assert(cur[b] == prev[b + 1]);
            }
        }
    }
    if i == 0 {
        assert(cur =~= prev.drop_first());
        assert(!row_has(cur, key)) by {
            if row_has(cur, key) {
                let a = choose|a: int| 0 <= a < cur.len() && #[trigger] cur[a].0 == key;
                assert(prev[a + 1].0 == key);
                assert(prev[0].0 == key);
            }
        }
        lemma_row_get_some(cur, key);
        assert forall|k: Seq<char>| k != key implies row_get(cur, k) == row_get(prev, k) by {
            assert(prev[0].0 == key);
            assert(row_get(prev, k) == row_get(prev.drop_first(), k));
        }
    } else {
        assert(cur[0] == prev[0]);
        assert(cur.drop_first() =~= prev.drop_first().remove(i - 1));
        assert(forall|a: int, b: int|
            0 <= a < b < prev.drop_first().len() ==> (#[trigger] prev.drop_first()[a].0) != (
            #[trigger] prev.drop_first()[b].0)) by {
            assert(forall|a: int|
                0 <= a < prev.drop_first().len() ==> (#[trigger] prev.drop_first()[a]) == prev[a
                    + 1]);
        }
        assert(prev.drop_first()[i - 1] == prev[i]);
        lemma_remove_get(prev.drop_first(), i - 1, key);
        assert(prev[0].0 != key);
        assert(row_get(cur, key) == row_get(cur.drop_first(), key));
        assert(row_get(cur, key) is None);
        assert forall|k: Seq<char>| k != key implies row_get(cur, k) == row_get(prev, k) by {
            if k == prev[0].0 {
                assert(row_get(cur, k) == Some(cur[0].1));
                assert(row_get(prev, k) == Some(prev[0].1));
            } else {
                assert(row_get(cur, k) == row_get(cur.drop_first(), k));
                assert(row_get(prev, k) == row_get(prev.drop_first(), k));
                assert(row_get(prev.drop_first().remove(i - 1), k) == row_get(
                    prev.drop_first(),
                    k,
                ));
            }
        }
    }
}

} // verus!
