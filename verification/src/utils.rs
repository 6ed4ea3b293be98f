use std::collections::HashMap;
use vstd::prelude::*;

use crate::errors::SudokuCreationError;

verus! {

/// The index of the `k`-th cell of row `row`.
pub open spec fn row_index(row: int, k: int) -> int {
    row * 9 + k
}

/// The index of the `k`-th cell of column `column`.
pub open spec fn column_index(column: int, k: int) -> int {
    column + 9 * k
}

/// The index of the `k`-th cell of block `block`, the blocks and the cells of a
/// block both counted row by row.
pub open spec fn block_index(block: int, k: int) -> int {
    27 * (block / 3) + 3 * (block % 3) + 9 * (k / 3) + k % 3
}

/// The index of the `k`-th cell of group `group`: groups 0 to 8 are the rows,
/// 9 to 17 the columns, 18 to 26 the blocks.
pub open spec fn group_index(group: int, k: int) -> int {
    if group < 9 {
        row_index(group, k)
    } else if group < 18 {
        column_index(group - 9, k)
    } else {
        block_index(group - 18, k)
    }
}

/// Every cell of every group lies on the board.
pub proof fn lemma_group_index_on_board(group: int, k: int)
    requires
        0 <= group < 27,
        0 <= k < 9,
    ensures
        0 <= group_index(group, k) < 81,
{
}

/// How many indexes a column walk that starts at `column` holds: it goes on in
/// steps of nine while it stays below 81.
pub open spec fn column_walk_len(column: int) -> int {
    if column < 81 {
        (80 - column) / 9 + 1
    } else {
        0
    }
}

/// Cells `j` and `k` of group `group` hold the same non-zero digit.
pub open spec fn repeats_in_group(values: Seq<u8>, group: int, j: int, k: int) -> bool {
    &&& values[group_index(group, j)] != 0
    &&& values[group_index(group, j)] == values[group_index(group, k)]
}

/// Some row, column or block of `values` holds a non-zero digit twice.
pub open spec fn has_repeated_digit(values: Seq<u8>) -> bool {
    exists|group: int, j: int, k: int|
        0 <= group < 27 && 0 <= j < k < 9 && #[trigger] repeats_in_group(values, group, j, k)
}

/// The nine indexes of row `row`.
pub fn get_row_indexes(row: usize) -> (indexes: Vec<usize>)
    requires
        row * 9 + 9 <= usize::MAX,
    ensures
        indexes@.len() == 9,
        forall|k: int| 0 <= k < 9 ==> #[trigger] indexes@[k] == row_index(row as int, k),
{
    let mut indexes: Vec<usize> = Vec::new();
    let mut k: usize = 0;
    while k < 9
        invariant
            k <= 9,
            row * 9 + 9 <= usize::MAX,
            indexes@.len() == k,
            forall|j: int| 0 <= j < k ==> indexes@[j] == row_index(row as int, j),
        decreases 9 - k,
    {
        indexes.push(row * 9 + k);
        k += 1;
    }
    indexes
}

/// The indexes of column `column`: from `column` on in steps of nine, as long
/// as they are below 81.
pub fn get_column_indexes(column: usize) -> (indexes: Vec<usize>)
    ensures
        indexes@.len() == column_walk_len(column as int),
        forall|k: int|
            0 <= k < indexes@.len() ==> #[trigger] indexes@[k] == column_index(column as int, k),
{
    let mut indexes: Vec<usize> = Vec::new();
    let mut index: usize = column;
    while index < 81
        invariant
            index == column + 9 * indexes@.len(),
            indexes@.len() <= 9,
            column < 81 ==> indexes@.len() <= column_walk_len(column as int),
            index >= 81 ==> indexes@.len() == column_walk_len(column as int),
            forall|j: int|
                0 <= j < indexes@.len() ==> indexes@[j] == column_index(column as int, j),
        decreases 90 - index,
    {
        indexes.push(index);
        index += 9;
    }
    indexes
}

/// The nine indexes of block `block`.
pub fn get_block_indexes(block: usize) -> (indexes: Vec<usize>)
    requires
        27 * (block / 3) + 26 <= usize::MAX,
    ensures
        indexes@.len() == 9,
        forall|k: int| 0 <= k < 9 ==> #[trigger] indexes@[k] == block_index(block as int, k),
{
    let mut indexes: Vec<usize> = Vec::new();
    let mut i: usize = 0;
    while i < 3
        invariant
            i <= 3,
            27 * (block / 3) + 26 <= usize::MAX,
            indexes@.len() == 3 * i,
            forall|k: int| 0 <= k < 3 * i ==> indexes@[k] == block_index(block as int, k),
        decreases 3 - i,
    {
        let mut j: usize = 0;
        while j < 3
            invariant
                i < 3,
                j <= 3,
                27 * (block / 3) + 26 <= usize::MAX,
                indexes@.len() == 3 * i + j,
                forall|k: int| 0 <= k < 3 * i + j ==> indexes@[k] == block_index(block as int, k),
            decreases 3 - j,
        {
            indexes.push(9 * 3 * (block / 3) + (block % 3) * 3 + i * 9 + j);
            j += 1;
        }
        i += 1;
    }
    indexes
}

/// The nine indexes of group `group`.
pub fn get_group_indexes(group: usize) -> (indexes: Vec<usize>)
    requires
        group < 27,
    ensures
        indexes@.len() == 9,
        forall|k: int| 0 <= k < 9 ==> #[trigger] indexes@[k] == group_index(group as int, k),
        forall|k: int| 0 <= k < 9 ==> #[trigger] indexes@[k] < 81,
{
    let indexes = if group / 9 == 0 {
        get_row_indexes(group)
    } else if group / 9 == 1 {
        get_column_indexes(group - 9)
    } else {
        get_block_indexes(group - 18)
    };
    proof {
        assert forall|k: int| 0 <= k < 9 implies indexes@[k] < 81 by {
            assert(indexes@[k] == group_index(group as int, k));
            lemma_group_index_on_board(group as int, k);
        }
    }
    indexes
}

/// A walk over the 27 groups of a board: the rows, then the columns, then the
/// blocks. Its view is the number of groups already handed out.
pub struct GroupIndexes {
    i: usize,
}

impl View for GroupIndexes {
    type V = nat;

    closed spec fn view(&self) -> nat {
        self.i as nat
    }
}

impl GroupIndexes {
    /// A walk that stands before the first row.
    pub fn new() -> (groups: GroupIndexes)
        ensures
            groups@ == 0,
    {
        GroupIndexes { i: 0 }
    }

    /// Hands out the indexes of the next group, or `None` once all 27 were
    /// handed out.
    pub fn next(&mut self) -> (indexes: Option<Vec<usize>>)
        ensures
            old(self)@ < 27 ==> final(self)@ == old(self)@ + 1,
            old(self)@ >= 27 ==> final(self)@ == old(self)@,
            indexes is Some <==> old(self)@ < 27,
            indexes matches Some(v) ==> {
                &&& v@.len() == 9
                &&& forall|k: int|
                    0 <= k < 9 ==> #[trigger] v@[k] == group_index(old(self)@ as int, k)
                &&& forall|k: int| 0 <= k < 9 ==> #[trigger] v@[k] < 81
            },
    {
        if self.i < 27 {
            self.i += 1;
            Some(get_group_indexes(self.i - 1))
        } else {
            None
        }
    }
}

/// Tells whether `values` can open a sudoku: 81 digits, no non-zero digit
/// twice in a row, a column or a block.
pub fn assert_values(values: Vec<u8>) -> (checked: Result<(), SudokuCreationError>)
    ensures
        checked == (if values@.len() != 81 {
            Err::<(), SudokuCreationError>(SudokuCreationError::InvalidLength)
        } else if has_repeated_digit(values@) {
            Err::<(), SudokuCreationError>(SudokuCreationError::InvalidValues)
        } else {
            Ok::<(), SudokuCreationError>(())
        }),
{
    if values.len() != 81 {
        return Err(SudokuCreationError::InvalidLength);
    }
    let mut groups = GroupIndexes::new();
    let mut group: usize = 0;
    while group < 27
        invariant
            group <= 27,
            groups@ == group,
            values@.len() == 81,
            forall|g: int, j: int, k: int|
                0 <= g < group && 0 <= j < k < 9 ==> !#[trigger] repeats_in_group(values@, g, j, k),
        decreases 27 - group,
    {
        let indexes = groups.next().unwrap();
        let mut counter: HashMap<u8, i32> = HashMap::new();
        let mut k: usize = 0;
        while k < 9
            invariant
                k <= 9,
                group < 27,
                values@.len() == 81,
                indexes@.len() == 9,
                forall|j: int| 0 <= j < 9 ==> indexes@[j] == group_index(group as int, j),
                forall|j: int| 0 <= j < 9 ==> indexes@[j] < 81,
                forall|i: int, j: int|
                    0 <= i < j < k ==> !#[trigger] repeats_in_group(values@, group as int, i, j),
                forall|v: u8|
                    counter@.contains_key(v) <==> (v != 0 && exists|j: int|
                        0 <= j < k && #[trigger] values@[group_index(group as int, j)] == v),
                forall|v: u8| counter@.contains_key(v) ==> counter@[v] == 1,
            decreases 9 - k,
        {
            let value = values[indexes[k]];
            if value != 0 {
                let count: i32 = match counter.get(&value) {
                    Some(seen) => *seen,
                    None => 0,
                };
                if count + 1 > 1 {
                    proof {
                        let j = choose|j: int|
                            0 <= j < k && #[trigger] values@[group_index(group as int, j)] == value;
                        assert(repeats_in_group(values@, group as int, j, k as int));
                    }
                    return Err(SudokuCreationError::InvalidValues);
                }
                counter.insert(value, count + 1);
            }
            proof {
                assert(values@[group_index(group as int, k as int)] == value);
            }
            k += 1;
        }
        group += 1;
    }
    Ok(())
}

} // verus!
