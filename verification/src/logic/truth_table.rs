//! Truth tables: every assignment of the inputs of a boolean function, in
//! counting order, each with the value of every output.

use vstd::prelude::*;
use vstd::arithmetic::div_mod::*;
use vstd::arithmetic::power2::*;
use vstd::string::*;
use crate::logic::error::LogicError;
use crate::logic::gray::{bit_at, lemma_pow2_small};
use crate::logic::text::{
    bar, byte_len, byte_length, concat, double_bar, joined, larger, lemma_concat_step,
    lemma_joined_step, lemma_repeated_add, lemma_repeated_push, newline, push_bar, push_dashes,
    push_double_bar, push_newline, push_right_aligned, repeated, right_aligned,
};
use crate::logic::variable::BitValue;

verus! {

/// One row of a truth table: an assignment of the inputs, first input first,
/// and a cell for each output.
#[derive(Clone, Debug)]
pub struct TruthRow {
    pub inputs: Vec<BitValue>,
    pub outputs: Vec<BitValue>,
}

/// A truth table: the names of the inputs and outputs, and one row for every
/// assignment of the inputs. The first input is the highest bit of the row
/// number.
#[derive(Clone, Debug)]
pub struct TruthTable {
    pub inputs: Vec<String>,
    pub outputs: Vec<String>,
    pub rows: Vec<TruthRow>,
}

/// What a row holds.
#[verifier::ext_equal]
pub struct RowView {
    pub inputs: Seq<BitValue>,
    pub outputs: Seq<BitValue>,
}

/// What a table holds: names as texts, rows as sequences of values.
#[verifier::ext_equal]
pub struct TableView {
    pub inputs: Seq<Seq<char>>,
    pub outputs: Seq<Seq<char>>,
    pub rows: Seq<RowView>,
}

/// The texts of a sequence of strings.
pub open spec fn names_of(v: Seq<String>) -> Seq<Seq<char>> {
    Seq::new(v.len(), |i: int| v[i]@)
}

/// The texts of a sequence of string slices.
pub open spec fn names_of_strs(v: Seq<&str>) -> Seq<Seq<char>> {
    Seq::new(v.len(), |i: int| v[i]@)
}

/// The input assignment of row number `row` of a table of `n` inputs: the
/// `n` lowest bits of `row`, highest first.
pub open spec fn input_bits(row: nat, n: nat) -> Seq<BitValue> {
    Seq::new(
        n,
        |b: int|
            if bit_at(row, (n - 1 - b) as nat) {
                BitValue::One
            } else {
                BitValue::Zero
            },
    )
}

impl View for TruthRow {
    type V = RowView;

    open spec fn view(&self) -> RowView {
        RowView { inputs: self.inputs@, outputs: self.outputs@ }
    }
}

impl View for TruthTable {
    type V = TableView;

    open spec fn view(&self) -> TableView {
        TableView {
            inputs: names_of(self.inputs@),
            outputs: names_of(self.outputs@),
            rows: Seq::new(self.rows@.len(), |i: int| self.rows@[i]@),
        }
    }
}

/// The width of the column headed by `name`: the length of the name in
/// bytes, and at least the one character a value takes.
pub open spec fn column_width(name: Seq<char>) -> nat {
    larger(byte_len(name), 1)
}

/// The widths of the columns headed by `names`.
pub open spec fn column_widths(names: Seq<Seq<char>>) -> Seq<nat> {
    Seq::new(names.len(), |i: int| column_width(names[i]))
}

/// The header cells of the columns headed by `names`: each name at the right
/// edge of its column.
pub open spec fn header_cells(names: Seq<Seq<char>>) -> Seq<Seq<char>> {
    Seq::new(names.len(), |i: int| right_aligned(names[i], column_width(names[i])))
}

/// The cells of `values` under the columns headed by `names`: each value at
/// the right edge of its column.
pub open spec fn value_cells(values: Seq<BitValue>, names: Seq<Seq<char>>) -> Seq<Seq<char>> {
    Seq::new(
        values.len(),
        |i: int| right_aligned(seq![values[i].symbol()], column_width(names[i])),
    )
}

/// One line of a table: the input cells with `" | "` between them, then,
/// where the table has outputs, `" || "` and the output cells likewise.
pub open spec fn table_line(ins: Seq<Seq<char>>, outs: Seq<Seq<char>>) -> Seq<char> {
    joined(ins, bar()) + (if outs.len() > 0 {
        double_bar() + joined(outs, bar())
    } else {
        Seq::empty()
    }) + newline()
}

/// The sum of `widths`.
pub open spec fn total(widths: Seq<nat>) -> nat
    decreases widths.len(),
{
    if widths.len() == 0 {
        0
    } else {
        total(widths.drop_last()) + widths.last()
    }
}

/// The length of the rule under the header of columns of the given widths:
/// the widths and three characters between each two columns.
pub open spec fn rule_width(widths: Seq<nat>) -> nat {
    total(widths) + if widths.len() > 0 {
        (3 * (widths.len() - 1)) as nat
    } else {
        0
    }
}

impl TableView {
    /// The header: the names of the columns.
    pub open spec fn header_line(self) -> Seq<char> {
        table_line(header_cells(self.inputs), header_cells(self.outputs))
    }

    /// The rule under the header.
    pub open spec fn rule_line(self) -> Seq<char> {
        repeated('-', rule_width(column_widths(self.inputs + self.outputs))) + newline()
    }

    /// The line of row number `r`.
    pub open spec fn row_line(self, r: int) -> Seq<char> {
        table_line(
            value_cells(self.rows[r].inputs, self.inputs),
            value_cells(self.rows[r].outputs, self.outputs),
        )
    }

    /// The lines of all the rows, in order.
    pub open spec fn row_lines(self) -> Seq<Seq<char>> {
        Seq::new(self.rows.len(), |r: int| self.row_line(r))
    }

    /// The table as text: header, rule, and a line for each row.
    pub open spec fn rendered(self) -> Seq<char> {
        self.header_line() + self.rule_line() + concat(self.row_lines())
    }

    /// The shape every table has: a row for each of the `2^n` assignments of
    /// its `n` inputs, in counting order, with a cell for each output.
    pub open spec fn wf(self) -> bool {
        &&& self.rows.len() == pow2(self.inputs.len())
        &&& forall|i: int|
            0 <= i < self.rows.len() ==> (#[trigger] self.rows[i]).inputs == input_bits(
                i as nat,
                self.inputs.len(),
            )
        &&& forall|i: int|
            0 <= i < self.rows.len() ==> (#[trigger] self.rows[i]).outputs.len()
                == self.outputs.len()
    }

    /// Whether `row` and `output_index` name a cell of the table.
    pub open spec fn has_cell(self, row: int, output_index: int) -> bool {
        0 <= row < self.rows.len() && 0 <= output_index < self.rows[row].outputs.len()
    }

    /// The table with one output cell replaced.
    pub open spec fn with_cell(self, row: int, output_index: int, value: BitValue) -> TableView {
        TableView {
            rows: self.rows.update(
                row,
                RowView {
                    outputs: self.rows[row].outputs.update(output_index, value),
                    ..self.rows[row]
                },
            ),
            ..self
        }
    }
}

/// Copies a list of names into owned strings.
fn owned_names(names: &[&str]) -> (v: Vec<String>)
    ensures
        v@.len() == names@.len(),
        names_of(v@) == names_of_strs(names@),
{
    let mut v: Vec<String> = Vec::new();
    let mut i: usize = 0;
    while i < names.len()
        invariant
            i <= names@.len(),
            v@.len() == i,
            forall|j: int| 0 <= j < i ==> v@[j]@ == names@[j]@,
        decreases names@.len() - i,
    {
        v.push(names[i].to_owned());
        i += 1;
    }
    assert(names_of(v@) =~= names_of_strs(names@));
    v
}

/// The number of rows of a table of `n` inputs.
fn row_count(n: usize) -> (rows: usize)
    requires
        pow2(n as nat) <= usize::MAX,
    ensures
        rows == pow2(n as nat),
{
    let mut rows: usize = 1;
    let mut k: usize = 0;
    proof {
        lemma_pow2_small();
    }
    while k < n
        invariant
            k <= n,
            rows == pow2(k as nat),
            pow2(n as nat) <= usize::MAX,
        decreases n - k,
    {
        proof {
            lemma_pow2_unfold((k + 1) as nat);
            if k + 1 < n {
                lemma_pow2_strictly_increases((k + 1) as nat, n as nat);
            }
        }
        rows = rows * 2;
        k += 1;
    }
    rows
}

/// Whether a table of `n` inputs has no more rows than can be counted.
fn rows_can_be_counted(n: usize) -> (b: bool)
    ensures
        b == (pow2(n as nat) <= usize::MAX),
{
    proof {
        vstd::arithmetic::power2::lemma2_to64();
        if n < usize::BITS {
            vstd::bits::lemma_usize_pow2_no_overflow(n as nat);
        } else {
            if n > usize::BITS {
                lemma_pow2_strictly_increases(usize::BITS as nat, n as nat);
            }
            assert(pow2(usize::BITS as nat) > usize::MAX);
        }
    }
    n < usize::BITS as usize
}

/// Whether two rows of values are the same.
fn same_values(a: &Vec<BitValue>, b: &Vec<BitValue>) -> (same: bool)
    ensures
        same == (a@ == b@),
{
    if a.len() != b.len() {
        return false;
    }
    let mut i: usize = 0;
    while i < a.len()
        invariant
            i <= a@.len(),
            a@.len() == b@.len(),
            forall|j: int| 0 <= j < i ==> a@[j] == b@[j],
        decreases a@.len() - i,
    {
        if a[i] != b[i] {
            return false;
        }
        i += 1;
    }
    assert(a@ =~= b@);
    true
}

/// The input assignment of row number `index` of a table of `n` inputs.
fn input_row(index: usize, n: usize) -> (bits: Vec<BitValue>)
    ensures
        bits@ == input_bits(index as nat, n as nat),
{
    let mut bits: Vec<BitValue> = vec![BitValue::Zero; n];
    let mut rest: usize = index;
    let mut k: usize = 0;
    proof {
        lemma_pow2_small();
    }
    while k < n
        invariant
            k <= n,
            bits@.len() == n,
            rest == index as nat / pow2(k as nat),
            forall|j: int| n - k <= j < n ==> bits@[j] == input_bits(index as nat, n as nat)[j],
        decreases n - k,
    {
        let bit = if rest % 2 == 1 {
            BitValue::One
        } else {
            BitValue::Zero
        };
        bits.set(n - 1 - k, bit);
        proof {
            lemma_pow2_pos(k as nat);
            lemma_pow2_unfold((k + 1) as nat);
            lemma_div_denominator(index as int, pow2(k as nat) as int, 2);
            assert(pow2(k as nat) * 2 == 2 * pow2(k as nat));
        }
        rest = rest / 2;
        k += 1;
    }
    assert(bits@ =~= input_bits(index as nat, n as nat));
    bits
}

/// The widths of the columns headed by `inputs` and then `outputs`.
fn measure_columns(inputs: &Vec<String>, outputs: &Vec<String>) -> (widths: Vec<usize>)
    ensures
        widths@.len() == inputs@.len() + outputs@.len(),
        forall|i: int|
            0 <= i < inputs@.len() ==> widths@[i] as nat == column_width(#[trigger] inputs@[i]@),
        forall|j: int|
            0 <= j < outputs@.len() ==> widths@[inputs@.len() + j] as nat == column_width(
                #[trigger] outputs@[j]@,
            ),
{
    let mut widths: Vec<usize> = Vec::new();
    let mut i: usize = 0;
    while i < inputs.len()
        invariant
            i <= inputs@.len(),
            widths@.len() == i,
            forall|k: int|
                0 <= k < i ==> widths@[k] as nat == column_width(#[trigger] inputs@[k]@),
        decreases inputs@.len() - i,
    {
        let len = byte_length(inputs[i].as_str());
        widths.push(if len >= 1 {
            len
        } else {
            1
        });
        i += 1;
    }
    let mut j: usize = 0;
    while j < outputs.len()
        invariant
            j <= outputs@.len(),
            widths@.len() == inputs@.len() + j,
            forall|k: int|
                0 <= k < inputs@.len() ==> widths@[k] as nat == column_width(
                    #[trigger] inputs@[k]@,
                ),
            forall|k: int|
                0 <= k < j ==> widths@[inputs@.len() + k] as nat == column_width(
                    #[trigger] outputs@[k]@,
                ),
        decreases outputs@.len() - j,
    {
        let len = byte_length(outputs[j].as_str());
        widths.push(if len >= 1 {
            len
        } else {
            1
        });
        j += 1;
    }
    widths
}

/// Appends the header cells of `names`, whose columns are those of `widths`
/// from `offset` on, with `" | "` between them.
fn push_header_cells(out: &mut String, names: &Vec<String>, widths: &Vec<usize>, offset: usize)
    requires
        offset + names@.len() <= widths@.len(),
        forall|i: int|
            0 <= i < names@.len() ==> widths@[offset + i] as nat == column_width(
                #[trigger] names@[i]@,
            ),
    ensures
        final(out)@ == old(out)@ + joined(header_cells(names_of(names@)), bar()),
{
    let ghost cells = header_cells(names_of(names@));
    let mut i: usize = 0;
    let columns = widths.len();
    proof {
        assert(cells.take(0).len() == 0);
        assert(out@ =~= old(out)@ + joined(cells.take(0), bar()));
    }
    while i < names.len()
        invariant
            i <= names@.len(),
            cells == header_cells(names_of(names@)),
            offset + names@.len() <= columns,
            columns == widths@.len(),
            forall|k: int|
                0 <= k < names@.len() ==> widths@[offset + k] as nat == column_width(
                    #[trigger] names@[k]@,
                ),
            out@ == old(out)@ + joined(cells.take(i as int), bar()),
        decreases names@.len() - i,
    {
        if i > 0 {
            push_bar(out);
        }
        push_right_aligned(out, names[i].as_str(), widths[offset + i]);
        proof {
            lemma_joined_step(cells, bar(), i as int);
            assert(cells[i as int] == right_aligned(names@[i as int]@, widths@[offset + i] as nat));
            assert(out@ =~= old(out)@ + joined(cells.take(i + 1), bar()));
        }
        i += 1;
    }
    assert(cells.take(names@.len() as int) =~= cells);
}

/// Appends the cells of `values`, whose columns are headed by `names` and
/// are those of `widths` from `offset` on, with `" | "` between them.
fn push_value_cells(
    out: &mut String,
    values: &Vec<BitValue>,
    names: &Vec<String>,
    widths: &Vec<usize>,
    offset: usize,
)
    requires
        values@.len() == names@.len(),
        offset + names@.len() <= widths@.len(),
        forall|i: int|
            0 <= i < names@.len() ==> widths@[offset + i] as nat == column_width(
                #[trigger] names@[i]@,
            ),
    ensures
        final(out)@ == old(out)@ + joined(value_cells(values@, names_of(names@)), bar()),
{
    let ghost cells = value_cells(values@, names_of(names@));
    let mut i: usize = 0;
    let columns = widths.len();
    proof {
        assert(cells.take(0).len() == 0);
        assert(out@ =~= old(out)@ + joined(cells.take(0), bar()));
    }
    while i < values.len()
        invariant
            i <= values@.len(),
            values@.len() == names@.len(),
            cells == value_cells(values@, names_of(names@)),
            offset + names@.len() <= columns,
            columns == widths@.len(),
            forall|k: int|
                0 <= k < names@.len() ==> widths@[offset + k] as nat == column_width(
                    #[trigger] names@[k]@,
                ),
            out@ == old(out)@ + joined(cells.take(i as int), bar()),
        decreases values@.len() - i,
    {
        if i > 0 {
            push_bar(out);
        }
        push_right_aligned(out, values[i].as_str(), widths[offset + i]);
        proof {
            lemma_joined_step(cells, bar(), i as int);
            assert(names_of(names@)[i as int] == names@[i as int]@);
            assert(cells[i as int] == right_aligned(
                seq![values@[i as int].symbol()],
                widths@[offset + i] as nat,
            ));
            assert(out@ =~= old(out)@ + joined(cells.take(i + 1), bar()));
        }
        i += 1;
    }
    assert(cells.take(values@.len() as int) =~= cells);
}

/// Taking one width more into a sum adds it.
proof fn lemma_total_step(widths: Seq<nat>, i: int)
    requires
        0 <= i < widths.len(),
    ensures
        total(widths.take(i + 1)) == total(widths.take(i)) + widths[i],
{
    assert(widths.take(i + 1).drop_last() =~= widths.take(i));
    assert(widths.take(i + 1).last() == widths[i]);
}

/// Appends the rule for columns of the given widths, and ends the line.
fn push_rule(out: &mut String, widths: &Vec<usize>)
    ensures
        final(out)@ == old(out)@ + repeated(
            '-',
            rule_width(Seq::new(widths@.len(), |i: int| widths@[i] as nat)),
        ) + newline(),
{
    let ghost ws = Seq::new(widths@.len(), |i: int| widths@[i] as nat);
    let mut i: usize = 0;
    proof {
        lemma_repeated_push('-', 0);
        assert(ws.take(0).len() == 0);
        assert(out@ =~= old(out)@ + repeated('-', rule_width(ws.take(0))));
    }
    while i < widths.len()
        invariant
            i <= widths@.len(),
            ws == Seq::new(widths@.len(), |k: int| widths@[k] as nat),
            out@ == old(out)@ + repeated('-', rule_width(ws.take(i as int))),
        decreases widths@.len() - i,
    {
        let ghost done = rule_width(ws.take(i as int));
        if i > 0 {
            push_dashes(out, 3);
        }
        push_dashes(out, widths[i]);
        proof {
            lemma_total_step(ws, i as int);
            let gap: nat = if i > 0 {
                3
            } else {
                0
            };
            lemma_repeated_add('-', done, gap);
            lemma_repeated_add('-', done + gap, ws[i as int]);
            assert(rule_width(ws.take(i + 1)) == done + gap + ws[i as int]);
            assert(out@ =~= old(out)@ + repeated('-', rule_width(ws.take(i + 1))));
        }
        i += 1;
    }
    assert(ws.take(widths@.len() as int) =~= ws);
    push_newline(out);
}

impl TruthTable {
    /// Whether the table has the shape that `new` gives it.
    pub open spec fn wf(&self) -> bool {
        self@.wf()
    }

    /// A table for the given input and output names, with every output cell
    /// unassigned.
    ///
    /// The table has `2^n` rows for `n` inputs; row number `i` assigns to the
    /// inputs the `n` lowest bits of `i`, the first input taking the highest.
    pub fn new(inputs: &[&str], outputs: &[&str]) -> (table: TruthTable)
        requires
            pow2(inputs@.len()) <= usize::MAX,
        ensures
            table.wf(),
            table@.inputs == names_of_strs(inputs@),
            table@.outputs == names_of_strs(outputs@),
            forall|i: int, j: int|
                0 <= i < table@.rows.len() && 0 <= j < outputs@.len() ==> (
                #[trigger] table@.rows[i].outputs[j]) == BitValue::DontCare,
    {
        let input_names: Vec<String> = owned_names(inputs);
        let output_names: Vec<String> = owned_names(outputs);
        let n = input_names.len();
        let m = output_names.len();
        let num_rows = row_count(n);
        let mut rows: Vec<TruthRow> = Vec::new();
        let mut i: usize = 0;
        while i < num_rows
            invariant
                i <= num_rows,
                rows@.len() == i,
                forall|r: int|
                    0 <= r < i ==> (#[trigger] rows@[r]).inputs@ == input_bits(r as nat, n as nat),
                forall|r: int| 0 <= r < i ==> (#[trigger] rows@[r]).outputs@.len() == m,
                forall|r: int, j: int|
                    0 <= r < i && 0 <= j < m ==> (#[trigger] rows@[r].outputs@[j])
                        == BitValue::DontCare,
            decreases num_rows - i,
        {
            let cells: Vec<BitValue> = vec![BitValue::DontCare; m];
            assert(forall|j: int| 0 <= j < m ==> cells@[j] == BitValue::DontCare);
            let row = TruthRow { inputs: input_row(i, n), outputs: cells };
            rows.push(row);
            i += 1;
        }
        let table = TruthTable { inputs: input_names, outputs: output_names, rows };
        assert forall|i: int, j: int|
            0 <= i < table@.rows.len() && 0 <= j < outputs@.len() implies (
        #[trigger] table@.rows[i].outputs[j]) == BitValue::DontCare by {
            assert(table@.rows[i] == rows@[i]@);
            assert(rows@[i].outputs@[j] == BitValue::DontCare);
        }
        table
    }

    /// The output cell at `row` and `output_index`, if there is one.
    fn get_output_cell(&mut self, row: usize, output_index: usize) -> (cell: Option<&mut BitValue>)
        ensures
            old(self)@.has_cell(row as int, output_index as int) ==> cell is Some
                && *cell->Some_0 == old(self)@.rows[row as int].outputs[output_index as int]
                && final(self)@ =~~= old(self)@.with_cell(
                row as int,
                output_index as int,
                *final(cell->Some_0),
            ),
            !old(self)@.has_cell(row as int, output_index as int) ==> cell is None && final(self)@
                == old(self)@,
    {
        if row < self.rows.len() {
            if output_index < self.rows[row].outputs.len() {
                let cell = &mut self.rows[row].outputs[output_index];
                return Some(cell);
            }
        }
        None
    }

    /// Advances one output cell a step in the cycle of values. Coordinates
    /// that name no cell change nothing.
    pub fn toggle(&mut self, row: usize, output_index: usize)
        ensures
            old(self)@.has_cell(row as int, output_index as int) ==> final(self)@ == old(
                self,
            )@.with_cell(
                row as int,
                output_index as int,
                old(self)@.rows[row as int].outputs[output_index as int].toggled(),
            ),
            !old(self)@.has_cell(row as int, output_index as int) ==> final(self)@ == old(self)@,
            old(self).wf() ==> final(self).wf(),
    {
        if let Some(cell) = self.get_output_cell(row, output_index) {
            cell.toggle();
        }
    }

    /// Writes one output cell. Coordinates that name no cell change nothing.
    pub fn set(&mut self, row: usize, output_index: usize, value: BitValue)
        ensures
            old(self)@.has_cell(row as int, output_index as int) ==> final(self)@ == old(
                self,
            )@.with_cell(row as int, output_index as int, value),
            !old(self)@.has_cell(row as int, output_index as int) ==> final(self)@ == old(self)@,
            old(self).wf() ==> final(self).wf(),
    {
        if let Some(cell) = self.get_output_cell(row, output_index) {
            cell.set(value);
        }
    }

    /// A table for the given input and output names, or `BitWidth` where the
    /// inputs are so many that the rows cannot be counted.
    pub fn checked_new(inputs: &[&str], outputs: &[&str]) -> (r: Result<TruthTable, LogicError>)
        ensures
            pow2(inputs@.len()) <= usize::MAX ==> r is Ok && r->Ok_0.wf() && r->Ok_0@.inputs
                == names_of_strs(inputs@) && r->Ok_0@.outputs == names_of_strs(outputs@)
                && forall|i: int, j: int|
                0 <= i < r->Ok_0@.rows.len() && 0 <= j < outputs@.len() ==> (
                #[trigger] r->Ok_0@.rows[i].outputs[j]) == BitValue::DontCare,
            pow2(inputs@.len()) > usize::MAX ==> r is Err && r->Err_0 == LogicError::BitWidth,
    {
        if rows_can_be_counted(inputs.len()) {
            Ok(TruthTable::new(inputs, outputs))
        } else {
            Err(LogicError::BitWidth)
        }
    }

    /// Whether the table has the shape that `new` gives it.
    pub fn is_well_formed(&self) -> (b: bool)
        ensures
            b == self.wf(),
    {
        let n = self.inputs.len();
        let m = self.outputs.len();
        let rows = self.rows.len();
        if !rows_can_be_counted(n) {
            return false;
        }
        if rows != row_count(n) {
            return false;
        }
        let mut i: usize = 0;
        while i < self.rows.len()
            invariant
                i <= self.rows@.len(),
                n == self.inputs@.len(),
                m == self.outputs@.len(),
                self.rows@.len() == pow2(n as nat),
                forall|r: int|
                    0 <= r < i ==> (#[trigger] self@.rows[r]).inputs == input_bits(
                        r as nat,
                        n as nat,
                    ),
                forall|r: int| 0 <= r < i ==> (#[trigger] self@.rows[r]).outputs.len() == m,
            decreases self.rows@.len() - i,
        {
            assert(self@.rows[i as int] == self.rows@[i as int]@);
            if self.rows[i].outputs.len() != m {
                return false;
            }
            if !same_values(&self.rows[i].inputs, &input_row(i, n)) {
                return false;
            }
            i += 1;
        }
        true
    }

    /// Appends the line of row number `row`.
    fn push_row(&self, out: &mut String, row: usize, widths: &Vec<usize>)
        requires
            self.wf(),
            row < self.rows@.len(),
            widths@.len() == self.inputs@.len() + self.outputs@.len(),
            forall|i: int|
                0 <= i < self.inputs@.len() ==> widths@[i] as nat == column_width(
                    #[trigger] self.inputs@[i]@,
                ),
            forall|j: int|
                0 <= j < self.outputs@.len() ==> widths@[self.inputs@.len() + j] as nat
                    == column_width(#[trigger] self.outputs@[j]@),
        ensures
            final(out)@ == old(out)@ + self@.row_line(row as int),
    {
        let n = self.inputs.len();
        assert(self@.rows[row as int] == self.rows@[row as int]@);
        assert(self.rows@[row as int].inputs@.len() == n);
        assert(self.rows@[row as int].outputs@.len() == self.outputs@.len());
        push_value_cells(out, &self.rows[row].inputs, &self.inputs, widths, 0);
        if self.outputs.len() > 0 {
            push_double_bar(out);
            push_value_cells(out, &self.rows[row].outputs, &self.outputs, widths, n);
        }
        push_newline(out);
        assert(out@ =~= old(out)@ + self@.row_line(row as int));
    }

    /// The table as text.
    ///
    /// The first line holds the names of the inputs and outputs, each at the
    /// right edge of its column; a column is as wide as its name is long in
    /// bytes, and at least one character. Columns are separated by `" | "`,
    /// inputs from outputs by `" || "`. A rule of dashes follows, as long as
    /// the columns with three characters between each two, and then a line
    /// for each row with its values under their names. Every line ends in a
    /// line feed.
    pub fn to_string(&self) -> (s: String)
        requires
            self.wf(),
        ensures
            s@ == self@.rendered(),
    {
        let widths = measure_columns(&self.inputs, &self.outputs);
        let n = self.inputs.len();
        let mut out = String::new();

        push_header_cells(&mut out, &self.inputs, &widths, 0);
        if self.outputs.len() > 0 {
            push_double_bar(&mut out);
            push_header_cells(&mut out, &self.outputs, &widths, n);
        }
        push_newline(&mut out);
        assert(out@ =~= self@.header_line());

        push_rule(&mut out, &widths);
        proof {
            assert(Seq::new(widths@.len(), |i: int| widths@[i] as nat) =~= column_widths(
                self@.inputs + self@.outputs,
            ));
            assert(out@ =~= self@.header_line() + self@.rule_line());
        }

        let ghost lines = self@.row_lines();
        let mut r: usize = 0;
        proof {
            assert(lines.take(0).len() == 0);
            assert(out@ =~= self@.header_line() + self@.rule_line() + concat(lines.take(0)));
        }
        while r < self.rows.len()
            invariant
                r <= self.rows@.len(),
                self.wf(),
                lines == self@.row_lines(),
                widths@.len() == self.inputs@.len() + self.outputs@.len(),
                forall|i: int|
                    0 <= i < self.inputs@.len() ==> widths@[i] as nat == column_width(
                        #[trigger] self.inputs@[i]@,
                    ),
                forall|j: int|
                    0 <= j < self.outputs@.len() ==> widths@[self.inputs@.len() + j] as nat
                        == column_width(#[trigger] self.outputs@[j]@),
                out@ == self@.header_line() + self@.rule_line() + concat(lines.take(r as int)),
            decreases self.rows@.len() - r,
        {
            self.push_row(&mut out, r, &widths);
            proof {
                lemma_concat_step(lines, r as int);
                assert(out@ =~= self@.header_line() + self@.rule_line() + concat(
                    lines.take(r + 1),
                ));
            }
            r += 1;
        }
        assert(lines.take(self.rows@.len() as int) =~= lines);
        out
    }
}

} // verus!
