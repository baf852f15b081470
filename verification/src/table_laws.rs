//! What the requests that reshape a table do to it, read by the names of the document
//! service.
use crate::json::{dig, get_field, is_true, JsonV};
use crate::structure::{cell_location, excess, growable, resize_ops, table_op, Resize};
use crate::wire_laws::{asks, lemma_members, read_index};
use vstd::prelude::*;

verus! {

/// A change of the rows or columns of a table.
pub enum TableChange {
    InsertRow { row: int, below: bool },
    DeleteRow { row: int },
    InsertColumn { column: int, right: bool },
    DeleteColumn { column: int },
}

/// The table that a request is about, by where it starts, and the row and column of the cell
/// that it names.
pub open spec fn read_cell(x: Option<JsonV>) -> Option<(int, int, int)> {
    let at = dig(x, "tableCellLocation"@);
    match (
        read_index(dig(dig(at, "tableStartLocation"@), "index"@)),
        read_index(dig(at, "rowIndex"@)),
        read_index(dig(at, "columnIndex"@)),
    ) {
        (Some(start), Some(row), Some(column)) => Some((start, row, column)),
        _ => None,
    }
}

/// Which table a request changes, and how.
pub open spec fn read_table_request(j: JsonV) -> Option<(int, TableChange)> {
    if asks(j, "insertTableRow"@) {
        let x = get_field(j, "insertTableRow"@);
        match read_cell(x) {
            Some((start, row, _)) => Some(
                (start, TableChange::InsertRow { row, below: is_true(dig(x, "insertBelow"@)) }),
            ),
            None => None,
        }
    } else if asks(j, "deleteTableRow"@) {
        match read_cell(get_field(j, "deleteTableRow"@)) {
            Some((start, row, _)) => Some((start, TableChange::DeleteRow { row })),
            None => None,
        }
    } else if asks(j, "insertTableColumn"@) {
        let x = get_field(j, "insertTableColumn"@);
        match read_cell(x) {
            Some((start, _, column)) => Some(
                (
                    start,
                    TableChange::InsertColumn { column, right: is_true(dig(x, "insertRight"@)) },
                ),
            ),
            None => None,
        }
    } else if asks(j, "deleteTableColumn"@) {
        match read_cell(get_field(j, "deleteTableColumn"@)) {
            Some((start, _, column)) => Some((start, TableChange::DeleteColumn { column })),
            None => None,
        }
    } else {
        None
    }
}

/// The cells of a table; a new one is empty.
pub type Grid = Seq<Seq<Option<int>>>;

/// The table has these many rows and columns.
pub open spec fn shaped(g: Grid, rows: int, cols: int) -> bool {
    &&& g.len() == rows
    &&& forall|i: int| 0 <= i < g.len() ==> (#[trigger] g[i]).len() == cols
}

/// The table of `cols` columns after a change; `None` if the change names a row or column
/// that the table does not have.
pub open spec fn changed(g: Grid, cols: int, c: TableChange) -> Option<(Grid, int)> {
    match c {
        TableChange::InsertRow { row, below } => {
            let at = if below {
                row + 1
            } else {
                row
            };
            if 0 <= row < g.len() {
                Some((g.insert(at, Seq::new(cols as nat, |j: int| None)), cols))
            } else {
                None
            }
        },
        TableChange::DeleteRow { row } => if 0 <= row < g.len() {
            Some((g.remove(row), cols))
        } else {
            None
        },
        TableChange::InsertColumn { column, right } => {
            let at = if right {
                column + 1
            } else {
                column
            };
            if 0 <= column < cols {
                Some((Seq::new(g.len(), |i: int| g[i].insert(at, None)), cols + 1))
            } else {
                None
            }
        },
        TableChange::DeleteColumn { column } => if 0 <= column < cols {
            Some((Seq::new(g.len(), |i: int| g[i].remove(column)), cols - 1))
        } else {
            None
        },
    }
}

/// The table that starts at `start` after requests; `None` if one is no request on it or
/// names what it does not have.
pub open spec fn all_changed(g: Grid, cols: int, start: int, js: Seq<JsonV>) -> Option<(Grid, int)>
    decreases js.len(),
{
    if js.len() == 0 {
        Some((g, cols))
    } else {
        match (all_changed(g, cols, start, js.drop_last()), read_table_request(js.last())) {
            (Some((h, n)), Some((at, c))) => if at == start {
                changed(h, n, c)
            } else {
                None
            },
            _ => None,
        }
    }
}

/// The table with other dimensions: every cell that is left stands where it stood, and every
/// other is new.
pub open spec fn reshaped(g: Grid, cols: int, rows2: int, cols2: int) -> Grid {
    Seq::new(
        rows2 as nat,
        |i: int|
            Seq::new(
                cols2 as nat,
                |j: int|
                    if i < g.len() && j < cols {
                        g[i][j]
                    } else {
                        None
                    },
            ),
    )
}

proof fn lemma_names()
    ensures
        "insertTableRow"@.len() == 14,
        "insertTableRow"@[0] == 'i',
        "deleteTableRow"@.len() == 14,
        "deleteTableRow"@[0] == 'd',
        "insertTableColumn"@.len() == 17,
        "insertTableColumn"@[0] == 'i',
        "deleteTableColumn"@.len() == 17,
        "deleteTableColumn"@[0] == 'd',
        "tableCellLocation"@.len() == 17,
        "tableStartLocation"@.len() == 18,
        "rowIndex"@.len() == 8,
        "columnIndex"@.len() == 11,
        "insertBelow"@.len() == 11,
        "insertRight"@.len() == 11,
{
    reveal_strlit("insertTableRow");
    reveal_strlit("deleteTableRow");
    reveal_strlit("insertTableColumn");
    reveal_strlit("deleteTableColumn");
    reveal_strlit("tableCellLocation");
    reveal_strlit("tableStartLocation");
    reveal_strlit("rowIndex");
    reveal_strlit("columnIndex");
    reveal_strlit("insertBelow");
    reveal_strlit("insertRight");
}

/// The cell of a request on a table.
proof fn lemma_cell(start: int, row: int, column: int, name: Seq<char>, beside: Option<Seq<char>>)
    requires
        0 <= start <= u64::MAX,
        0 <= row <= u64::MAX,
        0 <= column <= u64::MAX,
        beside is None || beside == Some("insertBelow"@) || beside == Some("insertRight"@),
    ensures
        ({
            let j = table_op(name, cell_location(start, row, column), beside);
            let x = get_field(j, name);
            &&& asks(j, name)
            &&& read_cell(x) == Some((start, row, column))
            &&& beside matches Some(flag) ==> is_true(dig(x, flag))
        }),
{
    lemma_names();
    let location = cell_location(start, row, column);
    let j = table_op(name, location, beside);
    let outer = j->Object_0;
    lemma_members(outer);
    assert(outer[0].0 == name);
    let x = outer[0].1;
    let ms = x->Object_0;
    lemma_members(ms);
    assert(ms[0].0 == "tableCellLocation"@);
    if beside is Some {
        assert(ms[1].0 == beside->0);
    }
    let ls = location->Object_0;
    lemma_members(ls);
    assert(ls[0].0 == "tableStartLocation"@ && ls[1].0 == "rowIndex"@ && ls[2].0 == "columnIndex"@);
    let is = ls[0].1->Object_0;
    lemma_members(is);
    assert(is[0].0 == "index"@);
}

/// The four requests read as the changes that they ask for.
pub proof fn law_table_requests(start: int, row: int, column: int)
    requires
        0 <= start <= u64::MAX,
        0 <= row <= u64::MAX,
        0 <= column <= u64::MAX,
    ensures
        read_table_request(
            table_op("insertTableRow"@, cell_location(start, row, column), Some("insertBelow"@)),
        ) == Some((start, TableChange::InsertRow { row, below: true })),
        read_table_request(
            table_op("deleteTableRow"@, cell_location(start, row, column), None),
        ) == Some((start, TableChange::DeleteRow { row })),
        read_table_request(
            table_op("insertTableColumn"@, cell_location(start, row, column), Some("insertRight"@)),
        ) == Some((start, TableChange::InsertColumn { column, right: true })),
        read_table_request(
            table_op("deleteTableColumn"@, cell_location(start, row, column), None),
        ) == Some((start, TableChange::DeleteColumn { column })),
{
    lemma_names();
    lemma_cell(start, row, column, "insertTableRow"@, Some("insertBelow"@));
    lemma_cell(start, row, column, "deleteTableRow"@, None);
    lemma_cell(start, row, column, "insertTableColumn"@, Some("insertRight"@));
    lemma_cell(start, row, column, "deleteTableColumn"@, None);
}

proof fn lemma_changed_add(g: Grid, cols: int, start: int, a: Seq<JsonV>, b: Seq<JsonV>)
    ensures
        all_changed(g, cols, start, a + b) == match all_changed(g, cols, start, a) {
            Some((h, n)) => all_changed(h, n, start, b),
            None => None,
        },
    decreases b.len(),
{
    if b.len() == 0 {
        assert(a + b =~= a);
    } else {
        lemma_changed_add(g, cols, start, a, b.drop_last());
        assert((a + b).drop_last() =~= a + b.drop_last());
        assert((a + b).last() == b.last());
    }
}

proof fn lemma_same(g: Grid, rows: int, cols: int)
    requires
        shaped(g, rows, cols),
        0 <= rows,
        0 <= cols,
    ensures
        reshaped(g, cols, rows, cols) == g,
{
    let h = reshaped(g, cols, rows, cols);
    assert forall|i: int| 0 <= i < rows implies h[i] == g[i] by {
        assert(h[i] =~= g[i]);
    }
    assert(h =~= g);
}

/// Rows that are inserted below the last.
proof fn lemma_rows_grow(g: Grid, rows: int, cols: int, start: int, m: nat)
    requires
        shaped(g, rows, cols),
        0 <= cols,
        0 <= start <= u64::MAX,
        0 <= rows,
        rows + m <= u64::MAX,
        m > 0 ==> rows > 0,
    ensures
        all_changed(
            g,
            cols,
            start,
            Seq::new(
                m,
                |i: int|
                    table_op(
                        "insertTableRow"@,
                        cell_location(start, rows - 1 + i, 0),
                        Some("insertBelow"@),
                    ),
            ),
        ) == Some((reshaped(g, cols, rows + m, cols), cols)),
    decreases m,
{
    let ops = Seq::new(
        m,
        |i: int|
            table_op(
                "insertTableRow"@,
                cell_location(start, rows - 1 + i, 0),
                Some("insertBelow"@),
            ),
    );
    if m == 0 {
        lemma_same(g, rows, cols);
    } else {
        let k = (m - 1) as nat;
        lemma_rows_grow(g, rows, cols, start, k);
        let fewer = Seq::new(
            k,
            |i: int|
                table_op(
                    "insertTableRow"@,
                    cell_location(start, rows - 1 + i, 0),
                    Some("insertBelow"@),
                ),
        );
        assert(ops.drop_last() =~= fewer);
        law_table_requests(start, rows - 1 + k, 0);
        let h = reshaped(g, cols, rows + k, cols);
        let none = Seq::new(cols as nat, |j: int| None::<int>);
        let after = h.insert(rows + k, none);
        let want = reshaped(g, cols, rows + m, cols);
        assert forall|i: int| 0 <= i < rows + m implies after[i] == want[i] by {
            assert(after[i] =~= want[i]);
        }
        assert(after =~= want);
    }
}

/// Rows that are deleted from the last on.
proof fn lemma_rows_shrink(g: Grid, rows: int, cols: int, start: int, m: nat)
    requires
        shaped(g, rows, cols),
        0 <= cols,
        0 <= start <= u64::MAX,
        m <= rows <= u64::MAX,
    ensures
        all_changed(
            g,
            cols,
            start,
            Seq::new(
                m,
                |i: int|
                    table_op("deleteTableRow"@, cell_location(start, rows - 1 - i, 0), None),
            ),
        ) == Some((reshaped(g, cols, rows - m, cols), cols)),
    decreases m,
{
    let ops = Seq::new(
        m,
        |i: int| table_op("deleteTableRow"@, cell_location(start, rows - 1 - i, 0), None),
    );
    if m == 0 {
        lemma_same(g, rows, cols);
    } else {
        let k = (m - 1) as nat;
        lemma_rows_shrink(g, rows, cols, start, k);
        let fewer = Seq::new(
            k,
            |i: int| table_op("deleteTableRow"@, cell_location(start, rows - 1 - i, 0), None),
        );
        assert(ops.drop_last() =~= fewer);
        law_table_requests(start, rows - 1 - k, 0);
        let h = reshaped(g, cols, rows - k, cols);
        assert(h.remove(rows - 1 - k) =~= reshaped(g, cols, rows - m, cols));
    }
}

/// Columns that are inserted to the right of the last.
proof fn lemma_columns_grow(g: Grid, rows: int, cols: int, start: int, m: nat)
    requires
        shaped(g, rows, cols),
        0 <= rows,
        0 <= start <= u64::MAX,
        0 <= cols,
        cols + m <= u64::MAX,
        m > 0 ==> cols > 0,
    ensures
        all_changed(
            g,
            cols,
            start,
            Seq::new(
                m,
                |i: int|
                    table_op(
                        "insertTableColumn"@,
                        cell_location(start, 0, cols - 1 + i),
                        Some("insertRight"@),
                    ),
            ),
        ) == Some((reshaped(g, cols, rows, cols + m), cols + m)),
    decreases m,
{
    let ops = Seq::new(
        m,
        |i: int|
            table_op(
                "insertTableColumn"@,
                cell_location(start, 0, cols - 1 + i),
                Some("insertRight"@),
            ),
    );
    if m == 0 {
        lemma_same(g, rows, cols);
    } else {
        let k = (m - 1) as nat;
        lemma_columns_grow(g, rows, cols, start, k);
        let fewer = Seq::new(
            k,
            |i: int|
                table_op(
                    "insertTableColumn"@,
                    cell_location(start, 0, cols - 1 + i),
                    Some("insertRight"@),
                ),
        );
        assert(ops.drop_last() =~= fewer);
        law_table_requests(start, 0, cols - 1 + k);
        let h = reshaped(g, cols, rows, cols + k);
        let after = Seq::new(h.len(), |i: int| h[i].insert(cols + k, None));
        let want = reshaped(g, cols, rows, cols + m);
        assert forall|i: int| 0 <= i < rows implies after[i] == want[i] by {
            assert(after[i] =~= want[i]);
        }
        assert(after =~= want);
    }
}

/// Columns that are deleted from the last on.
proof fn lemma_columns_shrink(g: Grid, rows: int, cols: int, start: int, m: nat)
    requires
        shaped(g, rows, cols),
        0 <= rows,
        0 <= start <= u64::MAX,
        m <= cols <= u64::MAX,
    ensures
        all_changed(
            g,
            cols,
            start,
            Seq::new(
                m,
                |i: int|
                    table_op("deleteTableColumn"@, cell_location(start, 0, cols - 1 - i), None),
            ),
        ) == Some((reshaped(g, cols, rows, cols - m), cols - m)),
    decreases m,
{
    let ops = Seq::new(
        m,
        |i: int| table_op("deleteTableColumn"@, cell_location(start, 0, cols - 1 - i), None),
    );
    if m == 0 {
        lemma_same(g, rows, cols);
    } else {
        let k = (m - 1) as nat;
        lemma_columns_shrink(g, rows, cols, start, k);
        let fewer = Seq::new(
            k,
            |i: int| table_op("deleteTableColumn"@, cell_location(start, 0, cols - 1 - i), None),
        );
        assert(ops.drop_last() =~= fewer);
        law_table_requests(start, 0, cols - 1 - k);
        let h = reshaped(g, cols, rows, cols - k);
        let after = Seq::new(h.len(), |i: int| h[i].remove(cols - 1 - k));
        let want = reshaped(g, cols, rows, cols - m);
        assert forall|i: int| 0 <= i < rows implies after[i] == want[i] by {
            assert(after[i] =~= want[i]);
        }
        assert(after =~= want);
    }
}

/// The requests that reshape a table are all about that table, give it its dimensions, and
/// leave every cell that stays where it was: what is new stands below and to the right.
pub proof fn law_reshaped(r: Resize, g: Grid)
    requires
        growable(r),
        shaped(g, r.cur_rows as int, r.cur_cols as int),
    ensures
        all_changed(g, r.cur_cols as int, r.start as int, resize_ops(r)) == Some(
            (
                reshaped(g, r.cur_cols as int, r.des_rows as int, r.des_cols as int),
                r.des_cols as int,
            ),
        ),
{
    let start = r.start as int;
    let (rows, cols) = (r.cur_rows as int, r.cur_cols as int);
    let (rows2, cols2) = (r.des_rows as int, r.des_cols as int);
    let a = Seq::new(
        excess(r.des_rows, r.cur_rows),
        |i: int|
            table_op(
                "insertTableRow"@,
                cell_location(start, rows - 1 + i, 0),
                Some("insertBelow"@),
            ),
    );
    let b = Seq::new(
        excess(r.cur_rows, r.des_rows),
        |i: int| table_op("deleteTableRow"@, cell_location(start, rows - 1 - i, 0), None),
    );
    let c = Seq::new(
        excess(r.des_cols, r.cur_cols),
        |i: int|
            table_op(
                "insertTableColumn"@,
                cell_location(start, 0, cols - 1 + i),
                Some("insertRight"@),
            ),
    );
    let d = Seq::new(
        excess(r.cur_cols, r.des_cols),
        |i: int| table_op("deleteTableColumn"@, cell_location(start, 0, cols - 1 - i), None),
    );
    assert(resize_ops(r) =~= a + b + c + d);
    lemma_changed_add(g, cols, start, a, b);
    lemma_changed_add(g, cols, start, a + b, c);
    lemma_changed_add(g, cols, start, a + b + c, d);
    let h = reshaped(g, cols, rows2, cols);
    if rows2 >= rows {
        lemma_rows_grow(g, rows, cols, start, excess(r.des_rows, r.cur_rows));
    } else {
        lemma_rows_grow(g, rows, cols, start, 0);
        lemma_same(g, rows, cols);
        lemma_rows_shrink(g, rows, cols, start, excess(r.cur_rows, r.des_rows));
        assert(a =~= Seq::<JsonV>::empty());
    }
    assert(all_changed(g, cols, start, a + b) == Some((h, cols))) by {
        if rows2 >= rows {
            assert(b =~= Seq::<JsonV>::empty());
        }
    }
    assert(shaped(h, rows2, cols));
    let want = reshaped(g, cols, rows2, cols2);
    assert(reshaped(h, cols, rows2, cols2) =~= want) by {
        let x = reshaped(h, cols, rows2, cols2);
        assert forall|i: int| 0 <= i < rows2 implies x[i] == want[i] by {
            assert(x[i] =~= want[i]);
        }
    }
    if cols2 >= cols {
        lemma_columns_grow(h, rows2, cols, start, excess(r.des_cols, r.cur_cols));
        assert(d =~= Seq::<JsonV>::empty());
    } else {
        assert(c =~= Seq::<JsonV>::empty());
        lemma_columns_shrink(h, rows2, cols, start, excess(r.cur_cols, r.des_cols));
    }
}

} // verus!
