use vstd::prelude::*;
use vstd::string::StringExecFns;

verus! {

/// Most columns (sample sizes) a table can have.
pub const COLUMNS: usize = 200;

/// Most rows (variations) a table can have.
pub const ROWS: usize = 10;

/// The characters of each label, in order.
pub open spec fn labels_view(labels: Seq<String>) -> Seq<Seq<char>> {
    labels.map_values(|s: String| s@)
}

/// `i` is the first position of `labels` that holds `l`.
pub open spec fn is_first_index(labels: Seq<String>, l: Seq<char>, i: int) -> bool {
    &&& 0 <= i < labels.len()
    &&& labels[i]@ == l
    &&& forall|j: int| 0 <= j < i ==> #[trigger] labels[j]@ != l
}

/// Some position of `labels` holds `l`.
pub open spec fn has_label(labels: Seq<String>, l: Seq<char>) -> bool {
    exists|i: int| 0 <= i < labels.len() && #[trigger] labels[i]@ == l
}

/// The grid after one more measurement `value` in cell (`r`, `c`): its count
/// goes up by one and `value` joins its sum.
pub open spec fn add_to_cell(cells: Seq<Seq<(u128, u128)>>, r: int, c: int, value: u128) -> Seq<Seq<(u128, u128)>> {
    cells.update(r, cells[r].update(c, ((cells[r][c].0 + 1) as u128, (cells[r][c].1 + value) as u128)))
}

/// The average of a cell: its sum over its count, rounded down; 0 for a cell
/// with no measurement.
pub open spec fn cell_average(cell: (u128, u128)) -> u128 {
    if cell.0 == 0 { 0 } else { (cell.1 / cell.0) as u128 }
}

/// Each of `cells` followed by a comma.
pub open spec fn joined(cells: Seq<Seq<char>>) -> Seq<char>
    decreases cells.len(),
{
    if cells.len() == 0 {
        Seq::empty()
    } else {
        joined(cells.drop_last()) + cells.last() + seq![',']
    }
}

/// One line of the CSV text: `head`, a comma, each cell followed by a comma,
/// then a newline.
pub open spec fn csv_line(head: Seq<char>, cells: Seq<Seq<char>>) -> Seq<char> {
    head + seq![','] + joined(cells) + seq!['\n']
}

/// One line per row label, with the first `ncols` texts of that row.
pub open spec fn csv_rows(rows: Seq<Seq<char>>, texts: Seq<Seq<Seq<char>>>, ncols: int) -> Seq<char>
    decreases rows.len(),
{
    if rows.len() == 0 {
        Seq::empty()
    } else {
        csv_rows(rows.drop_last(), texts, ncols) + csv_line(rows.last(), texts[rows.len() - 1].take(ncols))
    }
}

/// Appends `csv_line(head, cells[..n])` to `out`.
fn append_line(out: &mut String, head: &str, cells: &Vec<String>, n: usize)
    requires
        n <= cells@.len(),
    ensures
        final(out)@ == old(out)@ + csv_line(head@, labels_view(cells@).take(n as int)),
{
    proof {
        reveal_strlit(",");
        reveal_strlit("\n");
    }
    let ghost start = out@;
    out.append(head);
    out.append(",");
    let ghost mid = out@;
    let mut j: usize = 0;
    while j < n
        invariant
            n <= cells@.len(),
            j <= n,
            mid == start + head@ + seq![','],
            out@ == mid + joined(labels_view(cells@).take(j as int)),
        decreases n - j,
    {
        let ghost before = out@;
        out.append(cells[j].as_str());
        out.append(",");
        proof {
            reveal_strlit(",");
            let v = labels_view(cells@);
            assert(v.take(j + 1).drop_last() =~= v.take(j as int));
            assert(v.take(j + 1).last() == cells@[j as int]@);
        }
        j = j + 1;
    }
    out.append("\n");
}

/// The first position of `labels` that holds `l`, if any.
pub fn position_of(labels: &Vec<String>, l: &str) -> (r: Option<usize>)
    ensures
        r matches Some(i) ==> is_first_index(labels@, l@, i as int),
        r is None ==> !has_label(labels@, l@),
{
    let wanted = l.to_owned();
    let mut i: usize = 0;
    while i < labels.len()
        invariant
            wanted@ == l@,
            i <= labels@.len(),
            forall|j: int| 0 <= j < i ==> #[trigger] labels@[j]@ != l@,
        decreases labels@.len() - i,
    {
        if labels[i] == wanted {
            return Some(i);
        }
        i = i + 1;
    }
    None
}

/// A grid of (count, sum) accumulators: one row per variation label, one
/// column per sample-size label.
pub struct Table {
    pub columns: Vec<String>,
    pub rows: Vec<String>,
    cells: Vec<Vec<(u128, u128)>>,
}

impl Table {
    /// The grid has one row of cells per row label and one cell per column
    /// label in each, within the fixed maxima.
    pub closed spec fn wf(&self) -> bool {
        &&& self.rows@.len() <= ROWS
        &&& self.columns@.len() <= COLUMNS
        &&& self.cells@.len() == self.rows@.len()
        &&& forall|r: int| 0 <= r < self.cells@.len() ==> #[trigger] self.cells@[r]@.len() == self.columns@.len()
    }

    /// The row labels.
    pub closed spec fn row_labels(&self) -> Seq<String> {
        self.rows@
    }

    /// The column labels.
    pub closed spec fn column_labels(&self) -> Seq<String> {
        self.columns@
    }

    /// The (count, sum) of every cell, row by row.
    pub closed spec fn cells_view(&self) -> Seq<Seq<(u128, u128)>> {
        self.cells@.map_values(|row: Vec<(u128, u128)>| row@)
    }

    /// The grid has one row of cells per row label and one cell per column
    /// label in each, within the fixed maxima.
    pub open spec fn has_shape(&self) -> bool {
        &&& self.row_labels().len() <= ROWS
        &&& self.column_labels().len() <= COLUMNS
        &&& self.cells_view().len() == self.row_labels().len()
        &&& forall|r: int| 0 <= r < self.cells_view().len() ==> #[trigger] self.cells_view()[r].len() == self.column_labels().len()
    }

    /// A consistent table has its shape: every cell that the labels name
    /// exists.
    pub proof fn lemma_shape(&self)
        requires
            self.wf(),
        ensures
            self.has_shape(),
    {
        assert forall|r: int| 0 <= r < self.cells_view().len() implies #[trigger] self.cells_view()[r].len() == self.column_labels().len() by {
            assert(self.cells_view()[r] == self.cells@[r]@);
        }
    }

    /// A table with the given labels and every cell at (0, 0).
    pub fn new(columns: Vec<String>, rows: Vec<String>) -> (t: Table)
        requires
            rows@.len() <= ROWS,
            columns@.len() <= COLUMNS,
        ensures
            t.wf(),
            t.has_shape(),
            t.row_labels() == rows@,
            t.column_labels() == columns@,
            t.cells_view().len() == rows@.len(),
            forall|r: int, c: int| 0 <= r < rows@.len() && 0 <= c < columns@.len() ==> #[trigger] t.cells_view()[r][c] == (0u128, 0u128),
    {
        let nrows = rows.len();
        let ncols = columns.len();
        let mut cells: Vec<Vec<(u128, u128)>> = Vec::with_capacity(nrows);
        let mut r: usize = 0;
        while r < nrows
            invariant
                r <= nrows,
                cells@.len() == r,
                forall|i: int| 0 <= i < r ==> #[trigger] cells@[i]@ == Seq::new(ncols as nat, |k: int| (0u128, 0u128)),
            decreases nrows - r,
        {
            let mut row: Vec<(u128, u128)> = Vec::with_capacity(ncols);
            let mut c: usize = 0;
            while c < ncols
                invariant
                    c <= ncols,
                    row@ == Seq::new(c as nat, |k: int| (0u128, 0u128)),
                decreases ncols - c,
            {
                row.push((0u128, 0u128));
                c = c + 1;
                assert(row@ =~= Seq::new(c as nat, |k: int| (0u128, 0u128)));
            }
            cells.push(row);
            r = r + 1;
        }
        let t = Table { columns, rows, cells };
        proof {
            t.lemma_shape();
        }
        t
    }

    /// Adds one measurement to the cell at (`row_index`, `column_index`).
    pub fn insert_value_in_cell_by_indices(&mut self, row_index: usize, column_index: usize, value: u128)
        requires
            old(self).wf(),
            row_index < old(self).row_labels().len(),
            column_index < old(self).column_labels().len(),
            old(self).cells_view()[row_index as int][column_index as int].0 < u128::MAX,
            old(self).cells_view()[row_index as int][column_index as int].1 + value <= u128::MAX,
        ensures
            final(self).wf(),
            final(self).has_shape(),
            final(self).row_labels() == old(self).row_labels(),
            final(self).column_labels() == old(self).column_labels(),
            final(self).cells_view() == add_to_cell(old(self).cells_view(), row_index as int, column_index as int, value),
    {
        let cell = self.cells[row_index][column_index];
        self.cells[row_index][column_index] = (cell.0 + 1, cell.1 + value);
        proof {
            assert(self.cells_view() =~= add_to_cell(old(self).cells_view(), row_index as int, column_index as int, value));
            self.lemma_shape();
        }
    }

    /// Adds one measurement to the cell of the first row labelled `row` and
    /// the first column labelled `column`.
    pub fn insert_value_in_cell(&mut self, row: &str, column: &str, value: u128)
        requires
            old(self).wf(),
            has_label(old(self).row_labels(), row@),
            has_label(old(self).column_labels(), column@),
            forall|r: int, c: int|
                #[trigger] is_first_index(old(self).row_labels(), row@, r) && #[trigger] is_first_index(old(self).column_labels(), column@, c)
                    ==> old(self).cells_view()[r][c].0 < u128::MAX && old(self).cells_view()[r][c].1 + value <= u128::MAX,
        ensures
            final(self).wf(),
            final(self).has_shape(),
            final(self).row_labels() == old(self).row_labels(),
            final(self).column_labels() == old(self).column_labels(),
            forall|r: int, c: int|
                is_first_index(old(self).row_labels(), row@, r) && is_first_index(old(self).column_labels(), column@, c)
                    ==> final(self).cells_view() == #[trigger] add_to_cell(old(self).cells_view(), r, c, value),
    {
        let row_index = position_of(&self.rows, row).unwrap();
        let column_index = position_of(&self.columns, column).unwrap();
        proof {
            assert forall|r: int, c: int|
                is_first_index(self.row_labels(), row@, r) && is_first_index(self.column_labels(), column@, c)
                implies r == row_index && c == column_index by {
                if r < row_index { assert(self.rows@[r]@ != row@); }
                if row_index < r { assert(self.rows@[row_index as int]@ != row@); }
                if c < column_index { assert(self.columns@[c]@ != column@); }
                if column_index < c { assert(self.columns@[column_index as int]@ != column@); }
            }
            assert(is_first_index(self.row_labels(), row@, row_index as int));
            assert(is_first_index(self.column_labels(), column@, column_index as int));
        }
        self.insert_value_in_cell_by_indices(row_index, column_index, value);
    }

    /// The (count, sum) of the cell at (`row_index`, `column_index`).
    pub fn cell(&self, row_index: usize, column_index: usize) -> (r: (u128, u128))
        requires
            self.wf(),
            row_index < self.row_labels().len(),
            column_index < self.column_labels().len(),
        ensures
            r == self.cells_view()[row_index as int][column_index as int],
    {
        self.cells[row_index][column_index]
    }

    /// The average of the cell at (`row_index`, `column_index`), rounded
    /// down; 0 where nothing was recorded.
    pub fn average(&self, row_index: usize, column_index: usize) -> (r: u128)
        requires
            self.wf(),
            row_index < self.row_labels().len(),
            column_index < self.column_labels().len(),
        ensures
            r == cell_average(self.cells_view()[row_index as int][column_index as int]),
    {
        let (count, sum) = self.cells[row_index][column_index];
        if count == 0 {
            0
        } else {
            sum / count
        }
    }

    /// The CSV text of the table under `table_name`: a header line of the
    /// name and the column labels, then a line per row label with the texts
    /// of that row's cells (`cell_texts`, row by row), every field followed by
    /// a comma and every line by a newline.
    pub fn csv_text(&self, table_name: &str, cell_texts: &Vec<Vec<String>>) -> (r: String)
        requires
            self.wf(),
            cell_texts@.len() >= self.row_labels().len(),
            forall|i: int| 0 <= i < self.row_labels().len() ==> #[trigger] cell_texts@[i]@.len() >= self.column_labels().len(),
        ensures
            r@ == csv_line(table_name@, labels_view(self.column_labels()))
                + csv_rows(labels_view(self.row_labels()), cell_texts@.map_values(|row: Vec<String>| labels_view(row@)),
                    self.column_labels().len() as int),
    {
        let ghost texts = cell_texts@.map_values(|row: Vec<String>| labels_view(row@));
        let ghost rows = labels_view(self.rows@);
        let ghost ncols = self.columns@.len() as int;
        let mut out = String::new();
        append_line(&mut out, table_name, &self.columns, self.columns.len());
        assert(labels_view(self.columns@).take(ncols) =~= labels_view(self.columns@));
        let ghost header = out@;
        let mut i: usize = 0;
        while i < self.rows.len()
            invariant
                self.wf(),
                i <= self.rows@.len(),
                rows == labels_view(self.rows@),
                ncols == self.columns@.len(),
                texts == cell_texts@.map_values(|row: Vec<String>| labels_view(row@)),
                cell_texts@.len() >= self.rows@.len(),
                forall|k: int| 0 <= k < self.rows@.len() ==> #[trigger] cell_texts@[k]@.len() >= self.columns@.len(),
                out@ == header + csv_rows(rows.take(i as int), texts, ncols),
            decreases self.rows@.len() - i,
        {
            append_line(&mut out, self.rows[i].as_str(), &cell_texts[i], self.columns.len());
            proof {
                assert(rows.take(i + 1).drop_last() =~= rows.take(i as int));
                assert(texts[i as int] == labels_view(cell_texts@[i as int]@));
            }
            i = i + 1;
        }
        assert(rows.take(self.rows@.len() as int) =~= rows);
        out
    }
}


/// Why the profiler refused a request.
#[derive(Clone, Copy, Debug, PartialEq, Eq, Structural)]
pub enum ProfilerError {
    /// The table would have more than `ROWS` rows or `COLUMNS` columns.
    Capacity,
}

/// The named tables of one benchmarking process.
pub struct Profiler {
    pub tables: Vec<Table>,
    pub table_names: Vec<String>,
}

impl Profiler {
    /// One name per table, and every table consistent.
    pub open spec fn wf(&self) -> bool {
        &&& self.tables@.len() == self.table_names@.len()
        &&& forall|i: int| 0 <= i < self.tables@.len() ==> (#[trigger] self.tables@[i]).wf() && self.tables@[i].has_shape()
    }

    /// `after` is `before` with one more measurement `value` in cell (`r`,
    /// `c`) of table `t`, and nothing else changed.
    pub open spec fn recorded(before: &Profiler, after: &Profiler, t: int, r: int, c: int, value: u128) -> bool {
        &&& after.table_names == before.table_names
        &&& after.tables@.len() == before.tables@.len()
        &&& forall|i: int| 0 <= i < before.tables@.len() && i != t ==> #[trigger] after.tables@[i] == before.tables@[i]
        &&& after.tables@[t].row_labels() == before.tables@[t].row_labels()
        &&& after.tables@[t].column_labels() == before.tables@[t].column_labels()
        &&& after.tables@[t].cells_view() == add_to_cell(before.tables@[t].cells_view(), r, c, value)
    }

    /// A profiler with no table.
    pub fn new() -> (p: Profiler)
        ensures
            p.wf(),
            p.tables@.len() == 0,
    {
        Profiler { tables: Vec::new(), table_names: Vec::new() }
    }

    /// Adds a table named `table_name` with the given row and column labels
    /// and every cell at (0, 0), and returns its index. A table beyond `ROWS`
    /// rows or `COLUMNS` columns is refused.
    pub fn create_table(&mut self, table_name: &str, rows: Vec<String>, columns: Vec<String>) -> (r: Result<usize, ProfilerError>)
        requires
            old(self).wf(),
        ensures
            final(self).wf(),
            r is Err <==> rows@.len() > ROWS || columns@.len() > COLUMNS,
            r is Err ==> r == Err::<usize, ProfilerError>(ProfilerError::Capacity) && *final(self) == *old(self),
            r matches Ok(i) ==> {
                &&& i == old(self).tables@.len()
                &&& final(self).tables@.len() == i + 1
                &&& final(self).table_names@ == old(self).table_names@.push(final(self).table_names@[i as int])
                &&& final(self).table_names@[i as int]@ == table_name@
                &&& final(self).tables@.take(i as int) == old(self).tables@
                &&& final(self).tables@[i as int].row_labels() == rows@
                &&& final(self).tables@[i as int].column_labels() == columns@
                &&& final(self).tables@[i as int].cells_view().len() == rows@.len()
                &&& forall|a: int, b: int| 0 <= a < rows@.len() && 0 <= b < columns@.len()
                    ==> #[trigger] final(self).tables@[i as int].cells_view()[a][b] == (0u128, 0u128)
            },
    {
        if rows.len() > ROWS || columns.len() > COLUMNS {
            return Err(ProfilerError::Capacity);
        }
        let table_index = self.tables.len();
        self.tables.push(Table::new(columns, rows));
        self.table_names.push(table_name.to_owned());
        assert(self.tables@.take(table_index as int) =~= old(self).tables@);
        Ok(table_index)
    }

    /// The table under the first name equal to `table_name`, if any.
    pub fn get_table_ref(&self, table_name: &str) -> (r: Option<&Table>)
        requires
            self.wf(),
        ensures
            r is None <==> !has_label(self.table_names@, table_name@),
            r matches Some(t) ==> exists|i: int| is_first_index(self.table_names@, table_name@, i) && *t == self.tables@[i],
    {
        match position_of(&self.table_names, table_name) {
            Some(index) => Some(&self.tables[index]),
            None => None,
        }
    }

    /// Adds one measurement to cell (`row`, `column`) of table `table`.
    pub fn record_cell_data_by_table_row_col_index(&mut self, table: usize, row: usize, column: usize, value: u128)
        requires
            old(self).wf(),
            table < old(self).tables@.len(),
            row < old(self).tables@[table as int].row_labels().len(),
            column < old(self).tables@[table as int].column_labels().len(),
            old(self).tables@[table as int].cells_view()[row as int][column as int].0 < u128::MAX,
            old(self).tables@[table as int].cells_view()[row as int][column as int].1 + value <= u128::MAX,
        ensures
            final(self).wf(),
            Profiler::recorded(old(self), final(self), table as int, row as int, column as int, value),
    {
        self.tables[table].insert_value_in_cell_by_indices(row, column, value);
    }

    /// Adds one measurement to table `table`, in the first row labelled `row`
    /// and the first column labelled `column`.
    pub fn record_cell_data_by_table_index(&mut self, table: usize, row: &str, column: &str, value: u128)
        requires
            old(self).wf(),
            table < old(self).tables@.len(),
            has_label(old(self).tables@[table as int].row_labels(), row@),
            has_label(old(self).tables@[table as int].column_labels(), column@),
            forall|r: int, c: int|
                #[trigger] is_first_index(old(self).tables@[table as int].row_labels(), row@, r)
                    && #[trigger] is_first_index(old(self).tables@[table as int].column_labels(), column@, c)
                    ==> old(self).tables@[table as int].cells_view()[r][c].0 < u128::MAX
                        && old(self).tables@[table as int].cells_view()[r][c].1 + value <= u128::MAX,
        ensures
            final(self).wf(),
            forall|r: int, c: int|
                #[trigger] is_first_index(old(self).tables@[table as int].row_labels(), row@, r)
                    && #[trigger] is_first_index(old(self).tables@[table as int].column_labels(), column@, c)
                    ==> Profiler::recorded(old(self), final(self), table as int, r, c, value),
    {
        self.tables[table].insert_value_in_cell(row, column, value);
    }

    /// Adds one measurement to the first table named `table`, in its first
    /// row labelled `row` and first column labelled `column`.
    pub fn record_cell_data(&mut self, table: &str, row: &str, column: &str, value: u128)
        requires
            old(self).wf(),
            has_label(old(self).table_names@, table@),
            forall|t: int| #[trigger] is_first_index(old(self).table_names@, table@, t) ==> {
                &&& has_label(old(self).tables@[t].row_labels(), row@)
                &&& has_label(old(self).tables@[t].column_labels(), column@)
            },
            forall|t: int, r: int, c: int|
                #[trigger] is_first_index(old(self).table_names@, table@, t)
                    && #[trigger] is_first_index(old(self).tables@[t].row_labels(), row@, r)
                    && #[trigger] is_first_index(old(self).tables@[t].column_labels(), column@, c)
                    ==> old(self).tables@[t].cells_view()[r][c].0 < u128::MAX
                        && old(self).tables@[t].cells_view()[r][c].1 + value <= u128::MAX,
        ensures
            final(self).wf(),
            forall|t: int, r: int, c: int|
                #[trigger] is_first_index(old(self).table_names@, table@, t)
                    && #[trigger] is_first_index(old(self).tables@[t].row_labels(), row@, r)
                    && #[trigger] is_first_index(old(self).tables@[t].column_labels(), column@, c)
                    ==> Profiler::recorded(old(self), final(self), t, r, c, value),
    {
        let table_index = position_of(&self.table_names, table).unwrap();
        proof {
            assert forall|t: int| #[trigger] is_first_index(self.table_names@, table@, t) implies t == table_index by {
                if t < table_index { assert(self.table_names@[t]@ != table@); }
                if table_index < t { assert(self.table_names@[table_index as int]@ != table@); }
            }
        }
        self.record_cell_data_by_table_index(table_index, row, column, value);
    }

    /// The average of cell (`row`, `column`) of table `table`, rounded down;
    /// 0 where nothing was recorded.
    pub fn average(&self, table: usize, row: usize, column: usize) -> (r: u128)
        requires
            self.wf(),
            table < self.tables@.len(),
            row < self.tables@[table as int].row_labels().len(),
            column < self.tables@[table as int].column_labels().len(),
        ensures
            r == cell_average(self.tables@[table as int].cells_view()[row as int][column as int]),
    {
        self.tables[table].average(row, column)
    }
}

} // verus!
