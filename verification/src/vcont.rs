//! What the two containers share: cell alignment, padding, and the
//! swap-walk that moves a row or column to a new index.

use vstd::prelude::*;
use crate::chars::display_width;
use crate::error::DcsvResult;
use crate::value::Value;

verus! {

/// How a cell is padded in an aligned string table.
#[derive(Clone, Copy, PartialEq, Eq, Structural, Debug)]
pub enum CellAlignType {
    NoAlign,
    Left,
    Center,
    Right,
}

/// A run of spaces; none when the count is not positive.
pub open spec fn spaces(n: int) -> Seq<char> {
    if n <= 0 {
        Seq::empty()
    } else {
        Seq::new(n as nat, |i: int| ' ')
    }
}

/// A cell padded to a column width: left and right alignment put all the
/// padding on one side; centering splits it, with the leftover space on the
/// right when the padding is odd.  A cell wider than the column is kept
/// whole.
pub open spec fn pad_str(s: Seq<char>, w: int, align: CellAlignType) -> Seq<char> {
    let d = w - display_width(s);
    match align {
        CellAlignType::NoAlign => s,
        CellAlignType::Left => s + spaces(d),
        CellAlignType::Right => spaces(d) + s,
        CellAlignType::Center => spaces(d / 2) + s + spaces(d - d / 2),
    }
}

/// Append a run of spaces to a string.
pub fn push_spaces(s: &mut String, n: usize)
    ensures
        final(s)@ == old(s)@ + spaces(n as int),
{
    let mut i: usize = 0;
    proof {
        assert(old(s)@ + spaces(0) =~= old(s)@);
    }
    while i < n
        invariant
            i <= n,
            s@ == old(s)@ + spaces(i as int),
        decreases n - i,
    {
        s.push(' ');
        proof {
            assert(old(s)@ + spaces(i + 1) =~= (old(s)@ + spaces(i as int)).push(' '));
        }
        i = i + 1;
    }
}

/// The cell string padded to the column width under the given alignment.
pub fn pad_cell(target: &str, max_width: usize, align: CellAlignType) -> (r: String)
    ensures
        r@ == pad_str(target@, max_width as int, align),
{
    if align == CellAlignType::NoAlign {
        return target.to_owned();
    }
    let t_len = crate::chars::str_display_width(target);
    let d: usize = if max_width > t_len {
        max_width - t_len
    } else {
        0
    };
    proof {
        assert(spaces(max_width as int - display_width(target@)) == spaces(d as int));
    }
    match align {
        CellAlignType::NoAlign => target.to_owned(),
        CellAlignType::Left => {
            let mut s = target.to_owned();
            push_spaces(&mut s, d);
            s
        },
        CellAlignType::Right => {
            let mut s = String::new();
            push_spaces(&mut s, d);
            s.append(target);
            proof {
                assert(s@ =~= spaces(d as int) + target@);
            }
            s
        },
        CellAlignType::Center => {
            let leading = d / 2;
            let following = d - leading;
            let mut s = String::new();
            push_spaces(&mut s, leading);
            s.append(target);
            let ghost mid = s@;
            push_spaces(&mut s, following);
            proof {
                assert(mid =~= spaces(leading as int) + target@);
                assert(s@ =~= spaces(leading as int) + target@ + spaces(following as int));
                assert(spaces(d as int / 2) == spaces(leading as int));
                assert(spaces(d as int - d as int / 2) == spaces(following as int));
            }
            s
        },
    }
}

/// The sequence after moving the element at `src` to `target`: the element
/// lands at `target` and everything between shifts by one place; the rest
/// is untouched.
pub open spec fn move_seq<T>(s: Seq<T>, src: int, target: int) -> Seq<T> {
    if src < target {
        s.take(src) + s.subrange(src + 1, target + 1) + seq![s[src]] + s.skip(target + 1)
    } else if target < src {
        s.take(target) + seq![s[src]] + s.subrange(target, src) + s.skip(src + 1)
    } else {
        s
    }
}

/// How a move rearranges a sequence: the moved element lands at `target`,
/// every element strictly between the two indices shifts by exactly one
/// place toward `src`, and all other elements keep their positions.
pub proof fn lemma_move_seq_properties<T>(s: Seq<T>, src: int, target: int)
    requires
        0 <= src < s.len(),
        0 <= target < s.len(),
    ensures
        move_seq(s, src, target).len() == s.len(),
        move_seq(s, src, target)[target] == s[src],
        forall|i: int|
            0 <= i < s.len() && (i < src && i < target || i > src && i > target) ==> move_seq(
                s,
                src,
                target,
            )[i] == s[i],
        src < target ==> forall|i: int|
            src <= i < target ==> move_seq(s, src, target)[i] == s[i + 1],
        target < src ==> forall|i: int|
            target < i <= src ==> move_seq(s, src, target)[i] == s[i - 1],
{
    let m = move_seq(s, src, target);
    if src < target {
        assert(m =~= Seq::new(s.len(), |i: int|
            if i < src || i > target {
                s[i]
            } else if i == target {
                s[src]
            } else {
                s[i + 1]
            }));
    } else if target < src {
        assert(m =~= Seq::new(s.len(), |i: int|
            if i < target || i > src {
                s[i]
            } else if i == target {
                s[src]
            } else {
                s[i - 1]
            }));
    }
}

/// Move the element at `src` to `target` by adjacent swaps, shifting
/// everything between by one place.
pub fn move_element<T>(v: &mut Vec<T>, src: usize, target: usize)
    requires
        src < old(v)@.len(),
        target < old(v)@.len(),
    ensures
        final(v)@ == move_seq(old(v)@, src as int, target as int),
{
    let ghost s = v@;
    if src < target {
        let mut index = src;
        while index < target
            invariant
                src <= index <= target < s.len(),
                v@.len() == s.len(),
                v@ == move_seq(s, src as int, index as int),
            decreases target - index,
        {
            let x = v.remove(index);
            v.insert(index + 1, x);
            proof {
                assert(v@ =~= move_seq(s, src as int, index + 1));
            }
            index = index + 1;
        }
    } else if target < src {
        let mut index = src;
        while index > target
            invariant
                target <= index <= src < s.len(),
                v@.len() == s.len(),
                v@ == move_seq(s, src as int, index as int),
            decreases index,
        {
            let x = v.remove(index);
            v.insert(index - 1, x);
            proof {
                assert(v@ =~= move_seq(s, src as int, index - 1));
            }
            index = index - 1;
        }
    }
}

/// The operation surface the two containers share.  Each implementation
/// supplies its own well-formedness predicate, which every operation
/// requires and preserves; the exact behaviour of each operation is stated
/// on the implementing type's inherent methods.
pub trait VCont: Sized {
    /// The container's well-formedness.
    spec fn inv(&self) -> bool;

    /// Create an empty container.
    fn new() -> (r: Self)
        ensures
            r.inv(),
    ;

    /// Move a row to a target row index.
    fn move_row(&mut self, src_index: usize, target_index: usize) -> (r: DcsvResult<()>)
        requires
            old(self).inv(),
        ensures
            final(self).inv(),
    ;

    /// Move a column to a target column index.
    fn move_column(&mut self, src_index: usize, target_index: usize) -> (r: DcsvResult<()>)
        requires
            old(self).inv(),
        ensures
            final(self).inv(),
    ;

    /// Rename a column.
    fn rename_column(&mut self, column_index: usize, new_name: &str) -> (r: DcsvResult<()>)
        requires
            old(self).inv(),
        ensures
            final(self).inv(),
    ;

    /// Overwrite every row's value in a column.
    fn set_column(&mut self, column_index: usize, value: Value) -> (r: DcsvResult<()>)
        requires
            old(self).inv(),
        ensures
            final(self).inv(),
    ;

    /// Overwrite the cells of a row for which a value is given.
    fn edit_row(&mut self, row_index: usize, values: &[Option<Value>]) -> (r: DcsvResult<()>)
        requires
            old(self).inv(),
        ensures
            final(self).inv(),
    ;

    /// Overwrite a whole row, validating every value first.
    fn set_row(&mut self, row_index: usize, values: &[Value]) -> (r: DcsvResult<()>)
        requires
            old(self).inv(),
        ensures
            final(self).inv(),
    ;

    /// The value at a coordinate, if it is in range.
    fn get_cell(&self, x: usize, y: usize) -> Option<&Value>
        requires
            self.inv(),
    ;

    /// Overwrite the value at a coordinate.
    fn set_cell(&mut self, x: usize, y: usize, value: Value) -> (r: DcsvResult<()>)
        requires
            old(self).inv(),
        ensures
            final(self).inv(),
    ;

    /// Insert a row at an index, from given values or from defaults.
    fn insert_row(&mut self, row_index: usize, source: Option<&[Value]>) -> (r: DcsvResult<()>)
        requires
            old(self).inv(),
        ensures
            final(self).inv(),
    ;

    /// Delete a row; a stale index is a silent no-op.
    fn delete_row(&mut self, row_index: usize) -> (r: bool)
        requires
            old(self).inv(),
        ensures
            final(self).inv(),
    ;

    /// Insert an unconstrained text column at an index.
    fn insert_column(&mut self, column_index: usize, column_name: &str) -> (r: DcsvResult<()>)
        requires
            old(self).inv(),
        ensures
            final(self).inv(),
    ;

    /// Delete a column, removing its cell from every row.
    fn delete_column(&mut self, column_index: usize) -> (r: DcsvResult<()>)
        requires
            old(self).inv(),
        ensures
            final(self).inv(),
    ;

    /// The number of rows.
    fn get_row_count(&self) -> usize
        requires
            self.inv(),
    ;

    /// The number of columns.
    fn get_column_count(&self) -> usize
        requires
            self.inv(),
    ;

    /// Drop all columns and rows.
    fn drop_data(&mut self)
        ensures
            final(self).inv(),
    ;
}

} // verus!
