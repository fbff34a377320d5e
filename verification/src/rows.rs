//! Row-major matrices as flat vectors, and rows computed in two batches put
//! back into their input order.

use vstd::arithmetic::div_mod::lemma_fundamental_div_mod_converse;
use vstd::prelude::*;

verus! {

/// Rows one after the other.
pub open spec fn stacked<T>(rows: Seq<Seq<T>>) -> Seq<T>
    decreases rows.len(),
{
    if rows.len() == 0 {
        Seq::empty()
    } else {
        stacked(rows.drop_last()) + rows.last()
    }
}

pub open spec fn row_views<T>(rows: Seq<Vec<T>>) -> Seq<Seq<T>> {
    rows.map_values(|row: Vec<T>| row@)
}

pub proof fn lemma_stacked_push<T>(rows: Seq<Seq<T>>, row: Seq<T>)
    ensures
        stacked(rows.push(row)) == stacked(rows) + row,
{
    assert(rows.push(row).drop_last() =~= rows);
}

/// In a flat matrix of rows of one width, cell `(row, column)` stands at
/// `row * width + column`.
pub proof fn law_stacked_cell<T>(rows: Seq<Seq<T>>, width: nat, row: int, column: int)
    requires
        forall|r: int| 0 <= r < rows.len() ==> (#[trigger] rows[r]).len() == width,
        0 <= row < rows.len(),
        0 <= column < width,
    ensures
        stacked(rows).len() == rows.len() * width,
        0 <= row * width + column < stacked(rows).len(),
        stacked(rows)[row * width + column] == rows[row][column],
    decreases rows.len(),
{
    let before = rows.drop_last();
    let count = rows.len() as int;
    lemma_stacked_len(rows, width);
    lemma_stacked_len(before, width);
    assert(row * width + column < count * width && row * width >= 0) by (nonlinear_arith)
        requires
            0 <= row < count,
            0 <= column < width,
    ;
    if row < count - 1 {
        assert forall|r: int| 0 <= r < before.len() implies (#[trigger] before[r]).len()
            == width by {
            assert(before[r] == rows[r]);
        }
        law_stacked_cell(before, width, row, column);
    } else {
        assert((count - 1) * width + column >= (count - 1) * width);
    }
}

pub proof fn lemma_stacked_len<T>(rows: Seq<Seq<T>>, width: nat)
    requires
        forall|r: int| 0 <= r < rows.len() ==> (#[trigger] rows[r]).len() == width,
    ensures
        stacked(rows).len() == rows.len() * width,
    decreases rows.len(),
{
    if rows.len() > 0 {
        let before = rows.drop_last();
        assert forall|r: int| 0 <= r < before.len() implies (#[trigger] before[r]).len()
            == width by {
            assert(before[r] == rows[r]);
        }
        lemma_stacked_len(before, width);
        assert(rows[rows.len() - 1].len() == width);
        let count = rows.len();
        assert((count - 1) * width + width == count * width) by (nonlinear_arith);
    }
}

/// The rows of a matrix that was computed column by column.
pub open spec fn turned(columns: Seq<Vec<u32>>, rows: nat) -> Seq<Seq<u32>> {
    Seq::new(rows, |row: int| Seq::new(columns.len(), |column: int| columns[column]@[row]))
}

/// Lays columns of equal length out row-major.
pub fn transposed(columns: &Vec<Vec<u32>>, rows: usize) -> (flat: Vec<u32>)
    requires
        forall|c: int| 0 <= c < columns@.len() ==> (#[trigger] columns@[c])@.len() == rows,
    ensures
        flat@ == stacked(turned(columns@, rows as nat)),
{
    let ghost all = turned(columns@, rows as nat);
    let mut flat: Vec<u32> = Vec::new();
    let mut row: usize = 0;
    assert(all.subrange(0, 0) =~= Seq::empty());
    while row < rows
        invariant
            row <= rows,
            all == turned(columns@, rows as nat),
            forall|c: int| 0 <= c < columns@.len() ==> (#[trigger] columns@[c])@.len() == rows,
            flat@ == stacked(all.subrange(0, row as int)),
        decreases rows - row,
    {
        let ghost before = flat@;
        let ghost line = all[row as int];
        let mut column: usize = 0;
        assert(before + line.subrange(0, 0) =~= before);
        while column < columns.len()
            invariant
                column <= columns@.len(),
                row < rows,
                all == turned(columns@, rows as nat),
                line == all[row as int],
                forall|c: int|
                    0 <= c < columns@.len() ==> (#[trigger] columns@[c])@.len() == rows,
                flat@ == before + line.subrange(0, column as int),
            decreases columns.len() - column,
        {
            assert(columns@[column as int]@.len() == rows);
            flat.push(columns[column][row]);
            column += 1;
            assert(flat@ =~= before + line.subrange(0, column as int));
        }
        proof {
            assert(line.subrange(0, line.len() as int) =~= line);
            lemma_stacked_push(all.subrange(0, row as int), line);
            assert(all.subrange(0, row as int).push(line) =~= all.subrange(0, row + 1));
        }
        row += 1;
    }
    assert(all.subrange(0, all.len() as int) =~= all);
    flat
}

/// The planes of cell `(row, column)` of a matrix computed column by column.
pub open spec fn cell_planes(columns: Seq<Vec<u32>>, planes: nat, row: int, column: int) -> Seq<u32> {
    columns[column]@.subrange(row * planes, row * planes + planes)
}

/// The rows of a matrix with several planes per cell.
pub open spec fn turned_planes(columns: Seq<Vec<u32>>, rows: nat, planes: nat) -> Seq<Seq<u32>> {
    Seq::new(
        rows,
        |row: int|
            stacked(
                Seq::new(columns.len(), |column: int| cell_planes(columns, planes, row, column)),
            ),
    )
}

/// Lays columns with several planes per cell out row-major, the planes of a
/// cell together.
pub fn transposed_planes(columns: &Vec<Vec<u32>>, rows: usize, planes: usize) -> (flat: Vec<u32>)
    requires
        planes > 0,
        forall|c: int| 0 <= c < columns@.len() ==> (#[trigger] columns@[c])@.len() == rows * planes,
    ensures
        flat@ == stacked(turned_planes(columns@, rows as nat, planes as nat)),
{
    let ghost all = turned_planes(columns@, rows as nat, planes as nat);
    let mut flat: Vec<u32> = Vec::new();
    let mut row: usize = 0;
    assert(all.subrange(0, 0) =~= Seq::empty());
    while row < rows
        invariant
            row <= rows,
            all == turned_planes(columns@, rows as nat, planes as nat),
            forall|c: int|
                0 <= c < columns@.len() ==> (#[trigger] columns@[c])@.len() == rows * planes,
            flat@ == stacked(all.subrange(0, row as int)),
        decreases rows - row,
    {
        let ghost before = flat@;
        let ghost cells = Seq::new(
            columns@.len(),
            |column: int| cell_planes(columns@, planes as nat, row as int, column),
        );
        let mut column: usize = 0;
        assert(cells.subrange(0, 0) =~= Seq::empty());
        assert(before + stacked(cells.subrange(0, 0)) =~= before);
        while column < columns.len()
            invariant
                column <= columns@.len(),
                row < rows,
                cells == Seq::new(
                    columns@.len(),
                    |column: int| cell_planes(columns@, planes as nat, row as int, column),
                ),
                forall|c: int|
                    0 <= c < columns@.len() ==> (#[trigger] columns@[c])@.len() == rows * planes,
                flat@ == before + stacked(cells.subrange(0, column as int)),
            decreases columns.len() - column,
        {
            assert(columns@[column as int]@.len() == rows * planes);
            let values = &columns[column];
            let ghost held = flat@;
            let length: usize = values.len();
            proof {
                assert(row * planes + planes <= rows * planes && row * planes >= 0)
                    by (nonlinear_arith)
                    requires
                        row + 1 <= rows,
                ;
            }
            let start: usize = row * planes;
            let mut plane: usize = 0;
            assert(held + values@.subrange(start as int, start as int) =~= held);
            while plane < planes
                invariant
                    plane <= planes,
                    start + planes <= length == values@.len(),
                    flat@ == held + values@.subrange(start as int, start + plane),
                decreases planes - plane,
            {
                flat.push(values[start + plane]);
                plane += 1;
                assert(flat@ =~= held + values@.subrange(start as int, start + plane));
            }
            proof {
                lemma_stacked_push(cells.subrange(0, column as int), cells[column as int]);
                assert(cells.subrange(0, column as int).push(cells[column as int])
                    =~= cells.subrange(0, column + 1));
                assert(flat@ =~= before + stacked(cells.subrange(0, column + 1)));
            }
            column += 1;
        }
        proof {
            assert(cells.subrange(0, cells.len() as int) =~= cells);
            lemma_stacked_push(all.subrange(0, row as int), all[row as int]);
            assert(all.subrange(0, row as int).push(all[row as int]) =~= all.subrange(0, row + 1));
        }
        row += 1;
    }
    assert(all.subrange(0, all.len() as int) =~= all);
    flat
}

/// How many of the first `count` flags have a value.
pub open spec fn flags_before(flags: Seq<bool>, value: bool, count: int) -> nat
    decreases count,
{
    if count <= 0 {
        0
    } else {
        flags_before(flags, value, count - 1) + if flags[count - 1] == value {
            1nat
        } else {
            0
        }
    }
}

/// The positions among the first `count` whose flag has a value.
pub open spec fn flagged(flags: Seq<bool>, value: bool, count: int) -> Seq<usize>
    decreases count,
{
    if count <= 0 {
        Seq::empty()
    } else if flags[count - 1] == value {
        flagged(flags, value, count - 1).push((count - 1) as usize)
    } else {
        flagged(flags, value, count - 1)
    }
}

/// Splits positions by a flag, each part in input order.
pub fn partition(flags: &Vec<bool>) -> (parts: (Vec<usize>, Vec<usize>))
    ensures
        parts.0@ == flagged(flags@, true, flags@.len() as int),
        parts.1@ == flagged(flags@, false, flags@.len() as int),
{
    let mut usable: Vec<usize> = Vec::new();
    let mut fallback: Vec<usize> = Vec::new();
    let mut index: usize = 0;
    while index < flags.len()
        invariant
            index <= flags@.len(),
            usable@ == flagged(flags@, true, index as int),
            fallback@ == flagged(flags@, false, index as int),
        decreases flags.len() - index,
    {
        if flags[index] {
            usable.push(index);
        } else {
            fallback.push(index);
        }
        index += 1;
    }
    (usable, fallback)
}

/// The row of each input position: the next one of its part.
pub open spec fn merged_row<T>(
    flags: Seq<bool>,
    usable: Seq<Seq<T>>,
    fallback: Seq<Seq<T>>,
    index: int,
) -> Seq<T> {
    if flags[index] {
        usable[flags_before(flags, true, index) as int]
    } else {
        fallback[flags_before(flags, false, index) as int]
    }
}

/// Puts the rows of both parts back into input order.
pub fn merge_rows<T>(flags: &Vec<bool>, usable: Vec<Vec<T>>, fallback: Vec<Vec<T>>) -> (rows: Vec<
    Vec<T>,
>)
    requires
        usable@.len() == flags_before(flags@, true, flags@.len() as int),
        fallback@.len() == flags_before(flags@, false, flags@.len() as int),
    ensures
        row_views(rows@) == Seq::new(
            flags@.len(),
            |i: int| merged_row(flags@, row_views(usable@), row_views(fallback@), i),
        ),
{
    let ghost first = row_views(usable@);
    let ghost second = row_views(fallback@);
    let ghost expected = Seq::new(flags@.len(), |i: int| merged_row(flags@, first, second, i));
    let mut usable: Vec<Vec<T>> = usable;
    let mut fallback: Vec<Vec<T>> = fallback;
    let mut rows: Vec<Vec<T>> = Vec::new();
    let mut next: usize = 0;
    let mut next_fallback: usize = 0;
    let mut index: usize = 0;
    while index < flags.len()
        invariant
            index <= flags@.len(),
            next <= index,
            next_fallback <= index,
            next == flags_before(flags@, true, index as int),
            next_fallback == flags_before(flags@, false, index as int),
            first.len() == flags_before(flags@, true, flags@.len() as int),
            second.len() == flags_before(flags@, false, flags@.len() as int),
            usable@.len() == first.len(),
            fallback@.len() == second.len(),
            forall|k: int| next <= k < first.len() ==> (#[trigger] usable@[k])@ == first[k],
            forall|k: int|
                next_fallback <= k < second.len() ==> (#[trigger] fallback@[k])@ == second[k],
            expected == Seq::new(
                flags@.len(),
                |i: int| merged_row(flags@, first, second, i),
            ),
            row_views(rows@) == expected.subrange(0, index as int),
        decreases flags.len() - index,
    {
        proof {
            lemma_flags_grow(flags@, true, index + 1, flags@.len() as int);
            lemma_flags_grow(flags@, false, index + 1, flags@.len() as int);
        }
        let mut row: Vec<T> = Vec::new();
        let ghost before = row_views(rows@);
        if flags[index] {
            assert(usable@[next as int]@ == first[next as int]);
            core::mem::swap(&mut usable[next], &mut row);
            next += 1;
        } else {
            assert(fallback@[next_fallback as int]@ == second[next_fallback as int]);
            core::mem::swap(&mut fallback[next_fallback], &mut row);
            next_fallback += 1;
        }
        let ghost taken = row@;
        rows.push(row);
        index += 1;
        assert(row_views(rows@) =~= before.push(taken));
        assert(row_views(rows@) =~= expected.subrange(0, index as int));
    }
    assert(row_views(rows@) =~= expected);
    rows
}

proof fn lemma_flags_grow(flags: Seq<bool>, value: bool, few: int, many: int)
    requires
        0 <= few <= many <= flags.len(),
    ensures
        flags_before(flags, value, few) <= flags_before(flags, value, many),
    decreases many - few,
{
    if few < many {
        lemma_flags_grow(flags, value, few, many - 1);
    }
}

/// Partitioning and merging are inverse: the row computed for the k-th
/// position of a part comes back at that position.
pub proof fn law_merge_restores_input_order(flags: Seq<bool>, index: int)
    requires
        0 <= index < flags.len() <= usize::MAX,
    ensures
        ({
            let part = flagged(flags, flags[index], flags.len() as int);
            let at = flags_before(flags, flags[index], index) as int;
            &&& at < part.len()
            &&& part[at] == index
            &&& part.len() == flags_before(flags, flags[index], flags.len() as int)
        }),
{
    lemma_flagged(flags, flags[index], flags.len() as int, index);
}

proof fn lemma_flagged(flags: Seq<bool>, value: bool, count: int, index: int)
    requires
        0 <= index < count <= flags.len() <= usize::MAX,
        flags[index] == value,
    ensures
        flagged(flags, value, count).len() == flags_before(flags, value, count),
        flags_before(flags, value, index) < flagged(flags, value, count).len(),
        flagged(flags, value, count)[flags_before(flags, value, index) as int] == index,
    decreases count,
{
    lemma_flagged_len(flags, value, count - 1);
    if index < count - 1 {
        lemma_flagged(flags, value, count - 1, index);
    }
}

proof fn lemma_flagged_len(flags: Seq<bool>, value: bool, count: int)
    ensures
        flagged(flags, value, count).len() == flags_before(flags, value, count),
    decreases count,
{
    if count > 0 {
        lemma_flagged_len(flags, value, count - 1);
    }
}

/// The quotient and remainder of a position in a flat matrix.
pub proof fn lemma_cell_position(row: int, width: int, column: int)
    requires
        0 <= row,
        0 <= column < width,
    ensures
        (row * width + column) / width == row,
        (row * width + column) % width == column,
{
    vstd::arithmetic::mul::lemma_mul_is_commutative(row, width);
    lemma_fundamental_div_mod_converse(row * width + column, width, row, column);
}

pub open spec fn in_some_row<T>(rows: Seq<Seq<T>>, value: T) -> bool {
    exists|r: int, k: int|
        0 <= r < rows.len() && 0 <= k < rows[r].len() && #[trigger] rows[r][k] == value
}

/// Stacked rows hold what the rows hold and nothing else.
pub proof fn law_stacked_holds_the_rows<T>(rows: Seq<Seq<T>>)
    ensures
        forall|r: int, k: int|
            0 <= r < rows.len() && 0 <= k < rows[r].len() ==> stacked(rows).contains(
                #[trigger] rows[r][k],
            ),
        forall|i: int|
            0 <= i < stacked(rows).len() ==> in_some_row(rows, #[trigger] stacked(rows)[i]),
    decreases rows.len(),
{
    if rows.len() > 0 {
        let before = rows.drop_last();
        let last = rows.last();
        law_stacked_holds_the_rows(before);
        let held = stacked(before);
        let all = stacked(rows);
        assert forall|r: int, k: int|
            0 <= r < rows.len() && 0 <= k < rows[r].len() implies all.contains(
            #[trigger] rows[r][k],
        ) by {
            if r < rows.len() - 1 {
                assert(before[r][k] == rows[r][k]);
                assert(held.contains(before[r][k]));
                let at = choose|at: int| 0 <= at < held.len() && held[at] == rows[r][k];
                assert(all[at] == rows[r][k]);
            } else {
                assert(all[held.len() + k] == rows[r][k]);
            }
        }
        assert forall|i: int| 0 <= i < all.len() implies in_some_row(rows, #[trigger] all[i]) by {
            if i < held.len() {
                assert(all[i] == held[i]);
                let (r, k) = choose|r: int, k: int|
                    0 <= r < before.len() && 0 <= k < before[r].len() && #[trigger] before[r][k]
                        == held[i];
                assert(rows[r][k] == all[i]);
            } else {
                assert(rows[rows.len() - 1][i - held.len()] == all[i]);
            }
        }
    }
}

/// A matrix laid out from its columns holds, at `row * columns + column`, what
/// the column holds at the row.
pub proof fn law_transposed_cells(columns: Seq<Vec<u32>>, rows: nat, row: int, column: int)
    requires
        0 <= row < rows,
        0 <= column < columns.len(),
    ensures
        stacked(turned(columns, rows)).len() == rows * columns.len(),
        0 <= row * columns.len() + column < rows * columns.len(),
        stacked(turned(columns, rows))[row * columns.len() + column] == columns[column]@[row],
{
    law_stacked_cell(turned(columns, rows), columns.len(), row, column);
}

/// With several planes per cell, plane `plane` of a cell stands at
/// `(row * columns + column) * planes + plane`, and is the column's value at
/// `row * planes + plane`.
pub proof fn law_transposed_planes(
    columns: Seq<Vec<u32>>,
    rows: nat,
    planes: nat,
    row: int,
    column: int,
    plane: int,
)
    requires
        forall|c: int| 0 <= c < columns.len() ==> (#[trigger] columns[c])@.len() == rows * planes,
        0 <= row < rows,
        0 <= column < columns.len(),
        0 <= plane < planes,
    ensures
        stacked(turned_planes(columns, rows, planes)).len() == rows * (columns.len() * planes),
        0 <= row * (columns.len() * planes) + (column * planes + plane) < rows * (columns.len()
            * planes),
        stacked(turned_planes(columns, rows, planes))[row * (columns.len() * planes) + (column
            * planes + plane)] == columns[column]@[row * planes + plane],
{
    let all = turned_planes(columns, rows, planes);
    let width = columns.len() * planes;
    assert forall|r: int| 0 <= r < all.len() implies (#[trigger] all[r]).len() == width by {
        let cells = Seq::new(
            columns.len(),
            |column: int| cell_planes(columns, planes, r, column),
        );
        assert(0 <= r * planes && r * planes + planes <= rows * planes) by (nonlinear_arith)
            requires
                0 <= r < rows,
        ;
        assert forall|c: int| 0 <= c < cells.len() implies (#[trigger] cells[c]).len()
            == planes by {
            assert(columns[c]@.len() == rows * planes);
        }
        lemma_stacked_len(cells, planes);
    }
    let cells = Seq::new(columns.len(), |column: int| cell_planes(columns, planes, row, column));
    assert(0 <= row * planes && row * planes + planes <= rows * planes) by (nonlinear_arith)
        requires
            0 <= row < rows,
    ;
    assert forall|c: int| 0 <= c < cells.len() implies (#[trigger] cells[c]).len() == planes by {
        assert(columns[c]@.len() == rows * planes);
    }
    law_stacked_cell(cells, planes, column, plane);
    assert(column * planes + plane < width);
    assert(columns[column]@.len() == rows * planes);
    law_stacked_cell(all, width, row, column * planes + plane);
}

/// A part lists its positions in input order, each once: those whose flag has
/// the value and no others.
pub proof fn law_parts_hold_their_positions(flags: Seq<bool>, value: bool, count: int)
    requires
        0 <= count <= flags.len() <= usize::MAX,
    ensures
        forall|k: int|
            0 <= k < flagged(flags, value, count).len() ==> (#[trigger] flagged(
                flags,
                value,
                count,
            )[k]) < count && flags[flagged(flags, value, count)[k] as int] == value,
        forall|j: int, k: int|
            0 <= j < k < flagged(flags, value, count).len() ==> (#[trigger] flagged(
                flags,
                value,
                count,
            )[j]) < (#[trigger] flagged(flags, value, count)[k]),
        forall|i: int|
            0 <= i < count && #[trigger] flags[i] == value ==> flagged(
                flags,
                value,
                count,
            ).contains(i as usize),
    decreases count,
{
    if count > 0 {
        law_parts_hold_their_positions(flags, value, count - 1);
        let before = flagged(flags, value, count - 1);
        let after = flagged(flags, value, count);
        assert forall|i: int| 0 <= i < count && #[trigger] flags[i] == value implies after.contains(
            i as usize,
        ) by {
            if i < count - 1 {
                assert(before.contains(i as usize));
                let at = choose|at: int| 0 <= at < before.len() && before[at] == i as usize;
                assert(after[at] == i as usize);
            } else {
                assert(after[after.len() - 1] == i as usize);
            }
        }
    }
}

/// Whatever is computed for the positions of both parts comes back position by
/// position: splitting, computing part by part and merging is computing in
/// input order.
pub proof fn law_merging_undoes_the_split<T>(
    flags: Seq<bool>,
    results: Seq<Seq<T>>,
    usable: Seq<Seq<T>>,
    fallback: Seq<Seq<T>>,
    index: int,
)
    requires
        0 <= index < flags.len() <= usize::MAX,
        results.len() == flags.len(),
        usable.len() == flagged(flags, true, flags.len() as int).len(),
        fallback.len() == flagged(flags, false, flags.len() as int).len(),
        forall|k: int|
            0 <= k < usable.len() ==> #[trigger] usable[k] == results[flagged(
                flags,
                true,
                flags.len() as int,
            )[k] as int],
        forall|k: int|
            0 <= k < fallback.len() ==> #[trigger] fallback[k] == results[flagged(
                flags,
                false,
                flags.len() as int,
            )[k] as int],
    ensures
        merged_row(flags, usable, fallback, index) == results[index],
{
    law_merge_restores_input_order(flags, index);
    let at = flags_before(flags, flags[index], index) as int;
    if flags[index] {
        assert(usable[at] == results[index]);
    } else {
        assert(fallback[at] == results[index]);
    }
}

/// Rows are viewed in order, cell by cell.
pub proof fn law_row_views_keep_their_cells<T>(rows: Seq<Vec<T>>, row: int, cell: int)
    requires
        0 <= row < rows.len(),
        0 <= cell < rows[row]@.len(),
    ensures
        row_views(rows).len() == rows.len(),
        row_views(rows)[row].len() == rows[row]@.len(),
        row_views(rows)[row][cell] == rows[row]@[cell],
{
}

} // verus!
