//! Karnaugh maps: the values of one output of a truth table, laid out on a
//! grid whose rows and columns follow the Gray code, so that neighbouring
//! cells differ in one input.

use vstd::prelude::*;
use vstd::arithmetic::power2::*;
use vstd::string::*;
use crate::logic::error::LogicError;
use crate::logic::gray::{
    bit_string, cell_of, extract_row_col, format_bits, gray_encode, gray_sequence, is_minterm,
    lemma_cell_of_minterm, lemma_gray_in_range, lemma_minterm_of_cell, lemma_one_shl,
    lemma_pow2_small, minterm_at, MAX_SEQUENCE_BITS,
};
use crate::logic::text::{
    byte_len, byte_length, centered, concat, joined, larger, left_aligned, lemma_concat_step,
    lemma_joined_step, lemma_repeated_add, lemma_repeated_push, newline, push_centered,
    push_dashes, push_newline, push_right_aligned, push_spaces, repeated, right_aligned,
};
use crate::logic::truth_table::{names_of, names_of_strs, TableView, TruthTable};
use crate::logic::variable::BitValue;

verus! {

/// How the inputs of a table are divided between the two axes of a map: the
/// first names label the rows, the rest the columns.
#[derive(Clone, Debug)]
pub struct KMapFormat {
    pub row_vars: Vec<String>,
    pub col_vars: Vec<String>,
}

/// What a format holds.
#[verifier::ext_equal]
pub struct FormatView {
    pub row_vars: Seq<Seq<char>>,
    pub col_vars: Seq<Seq<char>>,
}

impl View for KMapFormat {
    type V = FormatView;

    open spec fn view(&self) -> FormatView {
        FormatView { row_vars: names_of(self.row_vars@), col_vars: names_of(self.col_vars@) }
    }
}

/// The number of row variables that the automatic split gives to `n`
/// variables: half of them, and the odd one too.
pub open spec fn auto_rows(n: nat) -> nat {
    if n % 2 == 0 {
        n / 2
    } else {
        n / 2 + 1
    }
}

impl FormatView {
    /// The format that gives the first `rows` of `names` to the rows and the
    /// rest to the columns.
    pub open spec fn split_at(names: Seq<Seq<char>>, rows: int) -> FormatView {
        FormatView { row_vars: names.take(rows), col_vars: names.skip(rows) }
    }

    /// The number of variables on both axes together.
    pub open spec fn bits(self) -> nat {
        self.row_vars.len() + self.col_vars.len()
    }
}

/// Copies the names from `from` up to `to` into owned strings.
fn owned_range(names: &[&str], from: usize, to: usize) -> (v: Vec<String>)
    requires
        from <= to <= names@.len(),
    ensures
        names_of(v@) == names_of_strs(names@).subrange(from as int, to as int),
{
    let mut v: Vec<String> = Vec::new();
    let mut i: usize = from;
    while i < to
        invariant
            from <= i <= to <= names@.len(),
            v@.len() == i - from,
            forall|j: int| 0 <= j < i - from ==> v@[j]@ == names@[from + j]@,
        decreases to - i,
    {
        v.push(names[i].to_owned());
        i += 1;
    }
    assert(names_of(v@) =~= names_of_strs(names@).subrange(from as int, to as int));
    v
}

impl KMapFormat {
    /// The format that divides `variables` evenly: the first half labels the
    /// rows, the second the columns, and of an odd number the rows get one
    /// more.
    pub fn auto(variables: &[&str]) -> (format: KMapFormat)
        ensures
            format@ == FormatView::split_at(
                names_of_strs(variables@),
                auto_rows(variables@.len()) as int,
            ),
    {
        let n = variables.len();
        let r = if n % 2 == 0 {
            n / 2
        } else {
            n / 2 + 1
        };
        KMapFormat {
            row_vars: owned_range(variables, 0, r),
            col_vars: owned_range(variables, r, n),
        }
    }

    /// The format that gives the first `rows` of `variables` to the rows and
    /// the other `columns` to the columns.
    pub fn split(variables: &[&str], rows: usize, columns: usize) -> (format: KMapFormat)
        requires
            rows + columns == variables@.len(),
        ensures
            format@ == FormatView::split_at(names_of_strs(variables@), rows as int),
    {
        KMapFormat {
            row_vars: owned_range(variables, 0, rows),
            col_vars: owned_range(variables, rows, variables.len()),
        }
    }

    /// The format that gives the first `rows` of `variables` to the rows and
    /// the other `columns` to the columns, or `SplitMismatch` where the two
    /// counts do not add up to the number of variables.
    pub fn checked_split(variables: &[&str], rows: usize, columns: usize) -> (r: Result<
        KMapFormat,
        LogicError,
    >)
        ensures
            rows + columns == variables@.len() ==> r is Ok && r->Ok_0@ == FormatView::split_at(
                names_of_strs(variables@),
                rows as int,
            ),
            rows + columns != variables@.len() ==> r is Err && r->Err_0
                == LogicError::SplitMismatch,
    {
        let n = variables.len();
        if rows <= n && columns == n - rows {
            Ok(KMapFormat::split(variables, rows, columns))
        } else {
            Err(LogicError::SplitMismatch)
        }
    }
}

/// A Karnaugh map: a snapshot of one output of a truth table on a grid of
/// `rows` by `cols` cells.
#[derive(Clone, Debug)]
pub struct KMap {
    pub variables: Vec<String>,
    pub format: KMapFormat,
    pub rows: usize,
    pub cols: usize,
    /// The cells, row by row.
    pub grid: Vec<Vec<BitValue>>,
}

/// What a map holds.
#[verifier::ext_equal]
pub struct MapView {
    pub variables: Seq<Seq<char>>,
    pub format: FormatView,
    pub rows: nat,
    pub cols: nat,
    pub grid: Seq<Seq<BitValue>>,
}

impl View for KMap {
    type V = MapView;

    open spec fn view(&self) -> MapView {
        MapView {
            variables: names_of(self.variables@),
            format: self.format@,
            rows: self.rows as nat,
            cols: self.cols as nat,
            grid: Seq::new(self.grid@.len(), |i: int| self.grid@[i]@),
        }
    }
}

impl MapView {
    /// The number of variables on the row axis.
    pub open spec fn row_bits(self) -> nat {
        self.format.row_vars.len()
    }

    /// The number of variables on the column axis.
    pub open spec fn col_bits(self) -> nat {
        self.format.col_vars.len()
    }

    /// The shape every map has: the format covers the variables, of which
    /// there are at most seven, and the grid has a row for every Gray code
    /// word of the row variables and in it a cell for every code word of the
    /// column variables.
    pub open spec fn wf(self) -> bool {
        &&& self.format.bits() == self.variables.len()
        &&& self.variables.len() <= MAX_SEQUENCE_BITS
        &&& self.rows == pow2(self.row_bits())
        &&& self.cols == pow2(self.col_bits())
        &&& self.grid.len() == self.rows
        &&& forall|r: int| 0 <= r < self.grid.len() ==> (#[trigger] self.grid[r]).len() == self.cols
    }

    /// Whether the map shows output number `output_index` of `table`: the
    /// cell at the place of each Gray code word pair holds the output of the
    /// minterm made of the two words.
    pub open spec fn shows(self, table: TableView, output_index: int) -> bool {
        forall|r: int, c: int|
            0 <= r < self.rows && 0 <= c < self.cols ==> (#[trigger] self.grid[r][c])
                == table.rows[minterm_at(r as u8, c as u8, self.col_bits()) as int].outputs[output_index]
    }
}

/// The label of the row or column at `position` on an axis of `bits`
/// variables: the Gray code word of the position in binary, one digit for
/// each variable, and one digit on an axis without variables.
pub open spec fn label(position: nat, bits: nat) -> Seq<char> {
    bit_string(gray_encode(position as u8) as nat, larger(bits, 1))
}

/// The labels along an axis of `bits` variables, in the order of the grid.
pub open spec fn labels(bits: nat) -> Seq<Seq<char>> {
    Seq::new(pow2(bits), |i: int| label(i as nat, bits))
}

/// A cell of the drawing: `s` centered in `width` characters, with a space
/// on either side.
pub open spec fn framed(s: Seq<char>, width: nat) -> Seq<char> {
    seq![' '] + centered(s, width) + seq![' ']
}

/// The cells of a line of the drawing, with `'|'` between them.
pub open spec fn cell_row(cells: Seq<Seq<char>>, width: nat) -> Seq<char> {
    joined(Seq::new(cells.len(), |i: int| framed(cells[i], width)), seq!['|'])
}

/// The values of a row of the grid as they are printed.
pub open spec fn symbols(values: Seq<BitValue>) -> Seq<Seq<char>> {
    Seq::new(values.len(), |i: int| seq![values[i].symbol()])
}

/// A rule over `cells` cells of `width` characters: dashes over each cell
/// and its two spaces, with `'+'` between the cells.
pub open spec fn border(cells: nat, width: nat) -> Seq<char> {
    joined(Seq::new(cells, |i: int| repeated('-', width + 2)), seq!['+'])
}

impl MapView {
    /// The names of the row variables, run together.
    pub open spec fn row_name(self) -> Seq<char> {
        concat(self.format.row_vars)
    }

    /// The names of the column variables, run together.
    pub open spec fn col_name(self) -> Seq<char> {
        concat(self.format.col_vars)
    }

    /// The width of a cell: a digit for every column variable, and at least
    /// one character.
    pub open spec fn cell_width(self) -> nat {
        larger(self.col_bits(), 1)
    }

    /// The width of the field that holds the row name: the longer of the
    /// name, in bytes, and a row label, and at least one character.
    pub open spec fn name_width(self) -> nat {
        larger(larger(byte_len(self.row_name()), self.row_bits()), 1)
    }

    /// The width of the field that holds a row label: one more than the
    /// longest of the column name, the row name and a row label.
    pub open spec fn label_width(self) -> nat {
        larger(byte_len(self.col_name()), larger(byte_len(self.row_name()), self.row_bits())) + 1
    }

    /// The rule above and below the grid.
    pub open spec fn rule(self) -> Seq<char> {
        seq!['+'] + border(self.cols, self.cell_width()) + seq!['+'] + newline()
    }

    /// The first line: the column name and the label of every column.
    pub open spec fn header_line(self) -> Seq<char> {
        repeated(' ', self.name_width() + 1) + self.col_name() + cell_row(
            labels(self.col_bits()),
            self.cell_width(),
        ) + seq!['|'] + newline()
    }

    /// The second line: the row name and the rule above the grid.
    pub open spec fn separator_line(self) -> Seq<char> {
        right_aligned(self.row_name(), self.name_width()) + repeated(
            ' ',
            byte_len(self.col_name()),
        ) + self.rule()
    }

    /// The line of row `r` of the grid: its label and its cells.
    pub open spec fn row_line(self, r: int) -> Seq<char> {
        left_aligned(labels(self.row_bits())[r], self.label_width()) + seq!['|'] + cell_row(
            symbols(self.grid[r]),
            self.cell_width(),
        ) + seq!['|'] + newline()
    }

    /// The lines of all the rows of the grid, in order.
    pub open spec fn row_lines(self) -> Seq<Seq<char>> {
        Seq::new(self.grid.len(), |r: int| self.row_line(r))
    }

    /// The last line: the rule below the grid.
    pub open spec fn bottom_line(self) -> Seq<char> {
        repeated(' ', self.label_width()) + self.rule()
    }

    /// The map as text.
    pub open spec fn rendered(self) -> Seq<char> {
        self.header_line() + self.separator_line() + concat(self.row_lines()) + self.bottom_line()
    }
}

/// The output index that an optional choice stands for: the first output
/// where none is chosen.
pub open spec fn chosen(output_index: Option<usize>) -> usize {
    match output_index {
        Some(i) => i,
        None => 0,
    }
}

impl KMap {
    /// Whether the map has the shape that `from_table` gives it.
    pub open spec fn wf(&self) -> bool {
        self@.wf()
    }

    /// Whether a map can be made of `table` in the given format for the
    /// given output.
    pub open spec fn can_show(
        table: TableView,
        format: FormatView,
        output_index: Option<usize>,
    ) -> bool {
        &&& table.inputs.len() <= MAX_SEQUENCE_BITS
        &&& format.bits() == table.inputs.len()
        &&& chosen(output_index) < table.outputs.len()
    }

    /// Lays out one output of a truth table as a Karnaugh map.
    ///
    /// Every minterm of the table is placed by `extract_row_col`, with the
    /// format's row variables as its row field and the column variables as
    /// its column field, and the cell there takes the value that the chosen
    /// output has in the minterm's row of the table. Without a choice the
    /// first output is taken.
    pub fn from_table(table: &TruthTable, format: KMapFormat, output_index: Option<usize>) -> (map:
        KMap)
        requires
            table.wf(),
            KMap::can_show(table@, format@, output_index),
        ensures
            map.wf(),
            map@.variables == table@.inputs,
            map@.format == format@,
            map@.shows(table@, chosen(output_index) as int),
            forall|m: u8|
                #![trigger cell_of(m, map@.row_bits(), map@.col_bits())]
                is_minterm(m, map@.row_bits(), map@.col_bits()) ==> map@.grid[cell_of(
                    m,
                    map@.row_bits(),
                    map@.col_bits(),
                ).0 as int][cell_of(m, map@.row_bits(), map@.col_bits()).1 as int]
                    == table@.rows[m as int].outputs[chosen(output_index) as int],
    {
        let variables = copy_names(&table.inputs);
        let index: usize = match output_index {
            Some(i) => i,
            None => 0,
        };
        let row_bits: usize = format.row_vars.len();
        let col_bits: usize = format.col_vars.len();
        let ghost rb = row_bits as nat;
        let ghost cb = col_bits as nat;
        proof {
            lemma_pow2_small();
            lemma_one_shl(row_bits as u8);
            lemma_one_shl(col_bits as u8);
            lemma_one_shl((row_bits + col_bits) as u8);
        }
        let row_count: usize = (1u8 << (row_bits as u8)) as usize;
        let col_count: usize = (1u8 << (col_bits as u8)) as usize;
        let total: u8 = 1u8 << ((row_bits + col_bits) as u8);

        let mut grid: Vec<Vec<BitValue>> = Vec::new();
        let mut r: usize = 0;
        while r < row_count
            invariant
                r <= row_count,
                grid@.len() == r,
                forall|i: int| 0 <= i < r ==> (#[trigger] grid@[i])@.len() == col_count,
            decreases row_count - r,
        {
            grid.push(vec![BitValue::Zero; col_count]);
            r += 1;
        }

        let mut minterm: u8 = 0;
        while minterm < total
            invariant
                minterm <= total,
                total as nat == pow2(rb + cb),
                rb + cb <= 7,
                rb == row_bits,
                cb == col_bits,
                row_count == pow2(rb),
                col_count == pow2(cb),
                table.wf(),
                table@.inputs.len() == rb + cb,
                index < table@.outputs.len(),
                grid@.len() == row_count,
                forall|i: int| 0 <= i < row_count ==> (#[trigger] grid@[i])@.len() == col_count,
                forall|m: u8|
                    #![trigger cell_of(m, rb, cb)]
                    m < minterm ==> grid@[cell_of(m, rb, cb).0 as int]@[cell_of(m, rb, cb).1 as int]
                        == table@.rows[m as int].outputs[index as int],
            decreases total - minterm,
        {
            assert(table@.rows[minterm as int] == table.rows@[minterm as int]@);
            let value = table.rows[minterm as usize].outputs[index];
            let (r, c) = extract_row_col(minterm, row_bits, col_bits);
            grid[r as usize].set(c as usize, value);
            proof {
                assert forall|m: u8|
                    #![trigger cell_of(m, rb, cb)]
                    m < minterm + 1 implies grid@[cell_of(m, rb, cb).0 as int]@[cell_of(
                    m,
                    rb,
                    cb,
                ).1 as int] == table@.rows[m as int].outputs[index as int] by {
                    lemma_cell_of_minterm(m, rb, cb);
                    lemma_cell_of_minterm(minterm, rb, cb);
                }
            }
            minterm += 1;
        }

        let map = KMap { rows: row_count, cols: col_count, format, variables, grid };
        proof {
            assert(map@.variables =~= table@.inputs);
            assert forall|m: u8|
                #![trigger cell_of(m, rb, cb)]
                is_minterm(m, rb, cb) implies map@.grid[cell_of(m, rb, cb).0 as int][cell_of(
                m,
                rb,
                cb,
            ).1 as int] == table@.rows[m as int].outputs[index as int] by {
                lemma_cell_of_minterm(m, rb, cb);
                assert(map@.grid[cell_of(m, rb, cb).0 as int] == map.grid@[cell_of(
                    m,
                    rb,
                    cb,
                ).0 as int]@);
            }
            assert forall|r: int, c: int| 0 <= r < map@.rows && 0 <= c < map@.cols implies (
            #[trigger] map@.grid[r][c]) == table@.rows[minterm_at(
                r as u8,
                c as u8,
                map@.col_bits(),
            ) as int].outputs[index as int] by {
                lemma_minterm_of_cell(r as u8, c as u8, rb, cb);
                let m = minterm_at(r as u8, c as u8, cb) as u8;
                assert(cell_of(m, rb, cb) == (r as u8, c as u8));
            }
        }
        map
    }

    /// Whether the map has the shape that `from_table` gives it.
    pub fn is_well_formed(&self) -> (b: bool)
        ensures
            b == self.wf(),
    {
        let row_bits = self.format.row_vars.len();
        let col_bits = self.format.col_vars.len();
        let n = self.variables.len();
        if n > MAX_SEQUENCE_BITS as usize || row_bits > n || col_bits != n - row_bits {
            return false;
        }
        proof {
            lemma_pow2_small();
            lemma_one_shl(row_bits as u8);
            lemma_one_shl(col_bits as u8);
        }
        let rows: usize = (1u8 << (row_bits as u8)) as usize;
        let cols: usize = (1u8 << (col_bits as u8)) as usize;
        if self.rows != rows || self.cols != cols || self.grid.len() != rows {
            return false;
        }
        let mut r: usize = 0;
        while r < self.grid.len()
            invariant
                r <= self.grid@.len(),
                cols == self@.cols,
                forall|i: int| 0 <= i < r ==> (#[trigger] self@.grid[i]).len() == cols,
            decreases self.grid@.len() - r,
        {
            assert(self@.grid[r as int] == self.grid@[r as int]@);
            if self.grid[r].len() != cols {
                return false;
            }
            r += 1;
        }
        true
    }

    /// Lays out one output of a truth table as a Karnaugh map, or says why
    /// it cannot: `BitWidth` where the table has more than seven inputs,
    /// `FormatMismatch` where the format does not cover as many variables as
    /// the table has inputs, `OutputIndex` where the table has no output at
    /// the chosen index.
    pub fn checked_from_table(
        table: &TruthTable,
        format: KMapFormat,
        output_index: Option<usize>,
    ) -> (r: Result<KMap, LogicError>)
        requires
            table.wf(),
        ensures
            table@.inputs.len() > MAX_SEQUENCE_BITS ==> r is Err && r->Err_0
                == LogicError::BitWidth,
            table@.inputs.len() <= MAX_SEQUENCE_BITS && format@.bits() != table@.inputs.len()
                ==> r is Err && r->Err_0 == LogicError::FormatMismatch,
            table@.inputs.len() <= MAX_SEQUENCE_BITS && format@.bits() == table@.inputs.len()
                && chosen(output_index) >= table@.outputs.len() ==> r is Err && r->Err_0
                == LogicError::OutputIndex,
            KMap::can_show(table@, format@, output_index) ==> r is Ok && r->Ok_0.wf()
                && r->Ok_0@.variables == table@.inputs && r->Ok_0@.format == format@
                && r->Ok_0@.shows(table@, chosen(output_index) as int),
    {
        let n = table.inputs.len();
        let index: usize = match output_index {
            Some(i) => i,
            None => 0,
        };
        if n > MAX_SEQUENCE_BITS as usize {
            Err(LogicError::BitWidth)
        } else if format.row_vars.len() > n || format.col_vars.len() != n - format.row_vars.len() {
            Err(LogicError::FormatMismatch)
        } else if index >= table.outputs.len() {
            Err(LogicError::OutputIndex)
        } else {
            Ok(KMap::from_table(table, format, output_index))
        }
    }
}

/// Copies a list of names.
fn copy_names(names: &Vec<String>) -> (v: Vec<String>)
    ensures
        names_of(v@) == names_of(names@),
{
    let mut v: Vec<String> = Vec::new();
    let mut i: usize = 0;
    while i < names.len()
        invariant
            i <= names@.len(),
            v@.len() == i,
            forall|j: int| 0 <= j < i ==> v@[j]@ == names@[j]@,
        decreases names@.len() - i,
    {
        v.push(names[i].clone());
        i += 1;
    }
    assert(names_of(v@) =~= names_of(names@));
    v
}

/// The names of a list, run together.
fn run_together(names: &Vec<String>) -> (s: String)
    ensures
        s@ == concat(names_of(names@)),
{
    let ghost parts = names_of(names@);
    let mut s = String::new();
    let mut i: usize = 0;
    proof {
        assert(parts.take(0).len() == 0);
        assert(s@ =~= concat(parts.take(0)));
    }
    while i < names.len()
        invariant
            i <= names@.len(),
            parts == names_of(names@),
            s@ == concat(parts.take(i as int)),
        decreases names@.len() - i,
    {
        s.append(names[i].as_str());
        proof {
            lemma_concat_step(parts, i as int);
        }
        i += 1;
    }
    assert(parts.take(names@.len() as int) =~= parts);
    s
}

/// The labels along an axis of `bits` variables.
fn label_strings(bits: usize) -> (v: Vec<String>)
    requires
        bits <= MAX_SEQUENCE_BITS,
    ensures
        names_of(v@) == labels(bits as nat),
{
    let words = gray_sequence(bits as u8);
    let digits: u8 = if bits >= 1 {
        bits as u8
    } else {
        1
    };
    let mut v: Vec<String> = Vec::new();
    let mut i: usize = 0;
    proof {
        lemma_pow2_small();
    }
    while i < words.len()
        invariant
            i <= words@.len(),
            bits <= 7,
            digits as nat == larger(bits as nat, 1),
            words@.len() == pow2(bits as nat),
            forall|j: int| 0 <= j < words@.len() ==> words@[j] == gray_encode(j as u8),
            v@.len() == i,
            forall|j: int| 0 <= j < i ==> (#[trigger] v@[j])@ == label(j as nat, bits as nat),
        decreases words@.len() - i,
    {
        proof {
            lemma_pow2_small();
            lemma_gray_in_range(i as u8, bits as nat);
            if bits == 0 {
                assert(pow2(0) < pow2(1));
            }
        }
        v.push(format_bits(words[i], digits));
        i += 1;
    }
    assert(names_of(v@) =~= labels(bits as nat));
    v
}

/// The values of a row of the grid as strings of one character.
fn symbol_strings(values: &Vec<BitValue>) -> (v: Vec<String>)
    ensures
        names_of(v@) == symbols(values@),
{
    let mut v: Vec<String> = Vec::new();
    let mut i: usize = 0;
    while i < values.len()
        invariant
            i <= values@.len(),
            v@.len() == i,
            forall|j: int| 0 <= j < i ==> (#[trigger] v@[j])@ == seq![values@[j].symbol()],
        decreases values@.len() - i,
    {
        v.push(values[i].to_string());
        i += 1;
    }
    assert(names_of(v@) =~= symbols(values@));
    v
}

/// Appends one character, which `unit` holds.
fn push_mark(out: &mut String, unit: &str)
    requires
        unit@.len() == 1,
    ensures
        final(out)@ == old(out)@ + seq![unit@[0]],
{
    assert(unit@ =~= seq![unit@[0]]);
    out.append(unit);
}

/// Appends each of `cells` centered in `width` characters with a space on
/// either side, and `'|'` between them.
fn push_cell_row(out: &mut String, cells: &Vec<String>, width: usize)
    ensures
        final(out)@ == old(out)@ + cell_row(names_of(cells@), width as nat),
{
    let ghost texts = names_of(cells@);
    let ghost frames = Seq::new(texts.len(), |i: int| framed(texts[i], width as nat));
    let mut i: usize = 0;
    proof {
        reveal_strlit("|");
        reveal_strlit(" ");
        assert(frames.take(0).len() == 0);
        assert(out@ =~= old(out)@ + joined(frames.take(0), seq!['|']));
    }
    while i < cells.len()
        invariant
            i <= cells@.len(),
            texts == names_of(cells@),
            frames == Seq::new(texts.len(), |k: int| framed(texts[k], width as nat)),
            "|"@.len() == 1,
            "|"@[0] == '|',
            " "@.len() == 1,
            " "@[0] == ' ',
            out@ == old(out)@ + joined(frames.take(i as int), seq!['|']),
        decreases cells@.len() - i,
    {
        if i > 0 {
            push_mark(out, "|");
        }
        push_mark(out, " ");
        push_centered(out, cells[i].as_str(), width);
        push_mark(out, " ");
        proof {
            lemma_joined_step(frames, seq!['|'], i as int);
            assert(frames[i as int] == framed(cells@[i as int]@, width as nat));
            assert(out@ =~= old(out)@ + joined(frames.take(i + 1), seq!['|']));
        }
        i += 1;
    }
    assert(frames.take(cells@.len() as int) =~= frames);
}

/// Appends a rule over `cells` cells of `width` characters, with its two
/// corners, and ends the line.
fn push_rule(out: &mut String, cells: usize, width: usize)
    requires
        width + 2 <= usize::MAX,
    ensures
        final(out)@ == old(out)@ + seq!['+'] + border(cells as nat, width as nat) + seq!['+']
            + newline(),
{
    let ghost runs = Seq::new(cells as nat, |i: int| repeated('-', (width + 2) as nat));
    let mut i: usize = 0;
    proof {
        reveal_strlit("+");
    }
    push_mark(out, "+");
    proof {
        assert(runs.take(0).len() == 0);
        assert(out@ =~= old(out)@ + seq!['+'] + joined(runs.take(0), seq!['+']));
    }
    while i < cells
        invariant
            i <= cells,
            width + 2 <= usize::MAX,
            runs == Seq::new(cells as nat, |k: int| repeated('-', (width + 2) as nat)),
            "+"@.len() == 1,
            "+"@[0] == '+',
            out@ == old(out)@ + seq!['+'] + joined(runs.take(i as int), seq!['+']),
        decreases cells - i,
    {
        if i > 0 {
            push_mark(out, "+");
        }
        push_dashes(out, width + 2);
        proof {
            lemma_joined_step(runs, seq!['+'], i as int);
            assert(out@ =~= old(out)@ + seq!['+'] + joined(runs.take(i + 1), seq!['+']));
        }
        i += 1;
    }
    assert(runs.take(cells as int) =~= runs);
    push_mark(out, "+");
    push_newline(out);
}

/// Appends `n + 1` spaces.
fn push_margin(out: &mut String, n: usize)
    ensures
        final(out)@ == old(out)@ + repeated(' ', (n + 1) as nat),
{
    push_spaces(out, n);
    push_spaces(out, 1);
    proof {
        lemma_repeated_add(' ', n as nat, 1);
        assert(out@ =~= old(out)@ + (repeated(' ', n as nat) + repeated(' ', 1)));
    }
}

/// Appends the first line of a drawing: a margin, the column name, and the
/// column labels in their cells.
fn push_header_line(
    out: &mut String,
    name_width: usize,
    col_name: &str,
    col_labels: &Vec<String>,
    cell_width: usize,
)
    ensures
        final(out)@ == old(out)@ + (repeated(' ', (name_width + 1) as nat) + col_name@ + cell_row(
            names_of(col_labels@),
            cell_width as nat,
        ) + seq!['|'] + newline()),
{
    push_margin(out, name_width);
    out.append(col_name);
    push_cell_row(out, col_labels, cell_width);
    proof {
        reveal_strlit("|");
    }
    push_mark(out, "|");
    push_newline(out);
    assert(out@ =~= old(out)@ + (repeated(' ', (name_width + 1) as nat) + col_name@ + cell_row(
        names_of(col_labels@),
        cell_width as nat,
    ) + seq!['|'] + newline()));
}

/// Appends the second line of a drawing: the row name in its field, spaces
/// under the column name, and the rule above the grid.
fn push_separator_line(
    out: &mut String,
    row_name: &str,
    name_width: usize,
    gap: usize,
    cells: usize,
    cell_width: usize,
)
    requires
        cell_width + 2 <= usize::MAX,
    ensures
        final(out)@ == old(out)@ + (right_aligned(row_name@, name_width as nat) + repeated(
            ' ',
            gap as nat,
        ) + (seq!['+'] + border(cells as nat, cell_width as nat) + seq!['+'] + newline())),
{
    push_right_aligned(out, row_name, name_width);
    push_spaces(out, gap);
    push_rule(out, cells, cell_width);
    assert(out@ =~= old(out)@ + (right_aligned(row_name@, name_width as nat) + repeated(
        ' ',
        gap as nat,
    ) + (seq!['+'] + border(cells as nat, cell_width as nat) + seq!['+'] + newline())));
}

/// Appends the line of one row of the grid: its label at the left of a field
/// of `label_span + 1` characters, and its values in their cells.
fn push_row_line(
    out: &mut String,
    row_label: &str,
    label_span: usize,
    values: &Vec<BitValue>,
    cell_width: usize,
)
    ensures
        final(out)@ == old(out)@ + (left_aligned(row_label@, (label_span + 1) as nat) + seq!['|']
            + cell_row(symbols(values@), cell_width as nat) + seq!['|'] + newline()),
{
    let cells = symbol_strings(values);
    let label_len = row_label.unicode_len();
    out.append(row_label);
    if label_span >= label_len {
        push_margin(out, label_span - label_len);
    } else {
        proof {
            lemma_repeated_push(' ', 0);
        }
    }
    assert(out@ =~= old(out)@ + left_aligned(row_label@, (label_span + 1) as nat));
    proof {
        reveal_strlit("|");
    }
    push_mark(out, "|");
    push_cell_row(out, &cells, cell_width);
    push_mark(out, "|");
    push_newline(out);
    assert(out@ =~= old(out)@ + (left_aligned(row_label@, (label_span + 1) as nat) + seq!['|']
        + cell_row(symbols(values@), cell_width as nat) + seq!['|'] + newline()));
}

/// Appends the last line of a drawing: a margin and the rule below the grid.
fn push_bottom_line(out: &mut String, label_span: usize, cells: usize, cell_width: usize)
    requires
        cell_width + 2 <= usize::MAX,
    ensures
        final(out)@ == old(out)@ + (repeated(' ', (label_span + 1) as nat) + (seq!['+'] + border(
            cells as nat,
            cell_width as nat,
        ) + seq!['+'] + newline())),
{
    push_margin(out, label_span);
    push_rule(out, cells, cell_width);
    assert(out@ =~= old(out)@ + (repeated(' ', (label_span + 1) as nat) + (seq!['+'] + border(
        cells as nat,
        cell_width as nat,
    ) + seq!['+'] + newline())));
}

/// The larger of two numbers.
fn max_of(a: usize, b: usize) -> (m: usize)
    ensures
        m as nat == larger(a as nat, b as nat),
{
    if a >= b {
        a
    } else {
        b
    }
}

impl KMap {
    /// The map as text.
    ///
    /// The first line shows the names of the column variables, run together,
    /// and then the label of every column: the Gray code word of the column
    /// in binary, centered in a cell with a space on either side, cells
    /// separated and the line closed by `'|'`. The second line shows the
    /// names of the row variables and the rule above the grid, dashes over
    /// the cells and `'+'` at their corners. Then comes a line for each row
    /// of the grid, its label first and its values in cells like those of
    /// the labels, and last the rule below the grid. Every line ends in a
    /// line feed.
    pub fn to_string(&self) -> (s: String)
        requires
            self.wf(),
        ensures
            s@ == self@.rendered(),
    {
        let row_name = run_together(&self.format.row_vars);
        let col_name = run_together(&self.format.col_vars);
        let row_bits = self.format.row_vars.len();
        let col_bits = self.format.col_vars.len();
        let row_len = byte_length(row_name.as_str());
        let col_len = byte_length(col_name.as_str());

        let cell_width = max_of(col_bits, 1);
        let row_span = max_of(row_len, row_bits);
        let name_width = max_of(row_span, 1);
        let label_span = max_of(col_len, row_span);

        let col_labels = label_strings(col_bits);
        let row_labels = label_strings(row_bits);
        let mut out = String::new();

        push_header_line(&mut out, name_width, col_name.as_str(), &col_labels, cell_width);
        assert(out@ =~= self@.header_line());
        push_separator_line(
            &mut out,
            row_name.as_str(),
            name_width,
            col_len,
            self.cols,
            cell_width,
        );
        assert(out@ == self@.header_line() + self@.separator_line());

        let ghost lines = self@.row_lines();
        let ghost top = self@.header_line() + self@.separator_line();
        let mut r: usize = 0;
        proof {
            assert(lines.take(0).len() == 0);
            assert(out@ =~= top + concat(lines.take(0)));
        }
        while r < self.grid.len()
            invariant
                r <= self.grid@.len(),
                self@.grid.len() == pow2(self@.row_bits()),
                lines == self@.row_lines(),
                cell_width as nat == self@.cell_width(),
                label_span + 1 == self@.label_width(),
                names_of(row_labels@) == labels(self@.row_bits()),
                out@ == top + concat(lines.take(r as int)),
            decreases self.grid@.len() - r,
        {
            proof {
                assert(self@.grid[r as int] == self.grid@[r as int]@);
                assert(names_of(row_labels@).len() == pow2(self@.row_bits()));
                assert(names_of(row_labels@)[r as int] == row_labels@[r as int]@);
            }
            push_row_line(&mut out, row_labels[r].as_str(), label_span, &self.grid[r], cell_width);
            proof {
                lemma_concat_step(lines, r as int);
                assert(lines[r as int] == self@.row_line(r as int));
            }
            r += 1;
        }
        assert(lines.take(self.grid@.len() as int) =~= lines);

        push_bottom_line(&mut out, label_span, self.cols, cell_width);
        assert(out@ == top + concat(lines) + self@.bottom_line());
        out
    }
}

} // verus!
