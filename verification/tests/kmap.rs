use karny::logic::error::LogicError;
use karny::logic::gray::{extract_row_col, format_bits, gray_sequence};
use karny::logic::kmap::{KMap, KMapFormat};
use karny::logic::truth_table::TruthTable;
use karny::logic::variable::BitValue;

const X: BitValue = BitValue::DontCare;
const I: BitValue = BitValue::One;
const O: BitValue = BitValue::Zero;

#[test]
fn auto_gives_the_odd_variable_to_the_rows() {
    let names = ["A", "B", "C", "D", "E"];
    for n in 0..=5usize {
        let format = KMapFormat::auto(&names[..n]);
        let r = if n % 2 == 0 { n / 2 } else { n / 2 + 1 };
        assert_eq!(format.row_vars, names[..r].to_vec());
        assert_eq!(format.col_vars, names[r..n].to_vec());
    }
}

#[test]
fn auto_of_three() {
    let format = KMapFormat::auto(&["A", "B", "C"]);
    assert_eq!(format.row_vars, vec!["A", "B"]);
    assert_eq!(format.col_vars, vec!["C"]);
}

#[test]
fn split_divides_where_told() {
    let format = KMapFormat::split(&["A", "B", "C"], 1, 2);
    assert_eq!(format.row_vars, vec!["A"]);
    assert_eq!(format.col_vars, vec!["B", "C"]);

    let format = KMapFormat::split(&["A", "B", "C"], 0, 3);
    assert!(format.row_vars.is_empty());
    assert_eq!(format.col_vars, vec!["A", "B", "C"]);

    let format = KMapFormat::split(&["A", "B", "C"], 3, 0);
    assert_eq!(format.row_vars, vec!["A", "B", "C"]);
    assert!(format.col_vars.is_empty());
}

#[test]
fn checked_split_refuses_counts_that_do_not_add_up() {
    let ok = KMapFormat::checked_split(&["A", "B", "C"], 2, 1).unwrap();
    assert_eq!(ok.row_vars, vec!["A", "B"]);
    assert_eq!(ok.col_vars, vec!["C"]);
    for (r, c) in [(1, 1), (2, 2), (4, 0), (0, 0), (usize::MAX, 4), (3, usize::MAX)] {
        let refused = KMapFormat::checked_split(&["A", "B", "C"], r, c);
        assert_eq!(refused.err(), Some(LogicError::SplitMismatch));
    }
}

#[test]
fn map_of_two_inputs() {
    let inputs = ["A", "B"];
    let mut table = TruthTable::new(&inputs, &["S", "Co"]);
    table.set(0, 0, BitValue::One);
    table.set(3, 0, BitValue::One);

    let map = KMap::from_table(&table, KMapFormat::auto(&inputs), None);
    assert_eq!(map.variables, vec!["A", "B"]);
    assert_eq!(map.rows, 2);
    assert_eq!(map.cols, 2);
    assert_eq!(map.grid, vec![vec![I, X], vec![X, I]]);

    let (r0, c0) = extract_row_col(0, 1, 1);
    let (r3, c3) = extract_row_col(3, 1, 1);
    for r in 0..2u8 {
        for c in 0..2u8 {
            let expected = if (r, c) == (r0, c0) || (r, c) == (r3, c3) { I } else { X };
            assert_eq!(map.grid[r as usize][c as usize], expected);
        }
    }
}

#[test]
fn map_takes_the_chosen_output() {
    let inputs = ["A", "B"];
    let mut table = TruthTable::new(&inputs, &["S", "Co"]);
    table.set(0, 0, BitValue::One);
    table.set(2, 1, BitValue::Zero);

    let map = KMap::from_table(&table, KMapFormat::auto(&inputs), Some(1));
    assert_eq!(map.grid, vec![vec![X, X], vec![O, X]]);
    let map = KMap::from_table(&table, KMapFormat::auto(&inputs), Some(0));
    assert_eq!(map.grid, vec![vec![I, X], vec![X, X]]);
}

#[test]
fn map_places_every_minterm_by_gray_order() {
    let inputs = ["A", "B", "C", "D", "E"];
    let mut table = TruthTable::new(&inputs, &["F"]);
    for m in 0..32 {
        table.set(m, 0, BitValue::from_u8((m % 3) as u8));
    }
    for row_bits in 0..=5usize {
        let col_bits = 5 - row_bits;
        let format = KMapFormat::split(&inputs, row_bits, col_bits);
        let map = KMap::from_table(&table, format, None);
        assert_eq!(map.rows, 1 << row_bits);
        assert_eq!(map.cols, 1 << col_bits);
        assert_eq!(map.grid.len(), map.rows);
        let rows = gray_sequence(row_bits as u8);
        let cols = gray_sequence(col_bits as u8);
        for r in 0..map.rows {
            assert_eq!(map.grid[r].len(), map.cols);
            for c in 0..map.cols {
                let minterm = ((rows[r] as usize) << col_bits) | cols[c] as usize;
                assert_eq!(map.grid[r][c], table.rows[minterm].outputs[0]);
            }
        }
        for m in 0..32u8 {
            let (r, c) = extract_row_col(m, row_bits, col_bits);
            assert_eq!(map.grid[r as usize][c as usize], table.rows[m as usize].outputs[0]);
        }
    }
}

#[test]
fn map_is_a_snapshot() {
    let inputs = ["A"];
    let mut table = TruthTable::new(&inputs, &["F"]);
    let map = KMap::from_table(&table, KMapFormat::auto(&inputs), None);
    table.set(0, 0, BitValue::One);
    assert_eq!(map.grid, vec![vec![X], vec![X]]);
}

#[test]
fn map_of_seven_inputs() {
    let inputs = ["a", "b", "c", "d", "e", "f", "g"];
    let mut table = TruthTable::new(&inputs, &["F"]);
    table.set(127, 0, BitValue::One);
    let map = KMap::from_table(&table, KMapFormat::auto(&inputs), None);
    assert_eq!((map.rows, map.cols), (16, 8));
    let (r, c) = extract_row_col(127, 4, 3);
    assert_eq!(map.grid[r as usize][c as usize], I);
    let ones: usize = map.grid.iter().flatten().filter(|v| **v == I).count();
    assert_eq!(ones, 1);
}

#[test]
fn checked_from_table_names_what_is_wrong() {
    let inputs = ["A", "B"];
    let table = TruthTable::new(&inputs, &["S", "Co"]);

    let map = KMap::checked_from_table(&table, KMapFormat::auto(&inputs), Some(1)).unwrap();
    assert_eq!(map.grid, vec![vec![X, X], vec![X, X]]);

    let refused = KMap::checked_from_table(&table, KMapFormat::auto(&inputs), Some(2));
    assert_eq!(refused.err(), Some(LogicError::OutputIndex));

    let refused = KMap::checked_from_table(&table, KMapFormat::auto(&["A", "B", "C"]), None);
    assert_eq!(refused.err(), Some(LogicError::FormatMismatch));

    let refused = KMap::checked_from_table(&table, KMapFormat::auto(&["A"]), Some(9));
    assert_eq!(refused.err(), Some(LogicError::FormatMismatch));

    let wide = ["a", "b", "c", "d", "e", "f", "g", "h"];
    let table = TruthTable::new(&wide, &["F"]);
    let refused = KMap::checked_from_table(&table, KMapFormat::auto(&wide), None);
    assert_eq!(refused.err(), Some(LogicError::BitWidth));

    let table = TruthTable::new(&inputs, &[]);
    let refused = KMap::checked_from_table(&table, KMapFormat::auto(&inputs), None);
    assert_eq!(refused.err(), Some(LogicError::OutputIndex));
}

#[test]
fn map_as_text() {
    let inputs = ["A", "B"];
    let mut table = TruthTable::new(&inputs, &["S", "Co"]);
    table.set(0, 0, BitValue::One);
    table.set(3, 0, BitValue::One);
    let map = KMap::from_table(&table, KMapFormat::auto(&inputs), None);
    let expected = "  B 0 | 1 |
A +---+---+
0 | 1 | x |
1 | x | 1 |
  +---+---+
";
    assert_eq!(map.to_string(), expected);
}

#[test]
fn map_as_text_of_three_inputs() {
    let inputs = ["A", "B", "C"];
    let mut table = TruthTable::new(&inputs, &["F"]);
    for m in 0..8 {
        table.set(m, 0, BitValue::from_u8((m % 2) as u8));
    }
    let map = KMap::from_table(&table, KMapFormat::auto(&inputs), None);
    let expected = "   C 0 | 1 |
AB +---+---+
00 | 0 | 1 |
01 | 0 | 1 |
11 | 0 | 1 |
10 | 0 | 1 |
   +---+---+
";
    assert_eq!(map.to_string(), expected);
}

#[test]
fn map_as_text_of_four_inputs() {
    let inputs = ["A", "B", "C", "D"];
    let mut table = TruthTable::new(&inputs, &["F"]);
    table.set(0b0110, 0, BitValue::One);
    table.set(0b1100, 0, BitValue::Zero);
    let map = KMap::from_table(&table, KMapFormat::auto(&inputs), None);
    let expected = "   CD 00 | 01 | 11 | 10 |
AB  +----+----+----+----+
00 | x  | x  | x  | x  |
01 | x  | x  | x  | 1  |
11 | 0  | x  | x  | x  |
10 | x  | x  | x  | x  |
   +----+----+----+----+
";
    assert_eq!(map.to_string(), expected);
}

#[test]
fn map_as_text_with_more_columns_than_rows() {
    let inputs = ["A", "B", "C"];
    let table = TruthTable::new(&inputs, &["F"]);
    let map = KMap::from_table(&table, KMapFormat::split(&inputs, 1, 2), None);
    let expected = "  BC 00 | 01 | 11 | 10 |
A  +----+----+----+----+
0  | x  | x  | x  | x  |
1  | x  | x  | x  | x  |
   +----+----+----+----+
";
    assert_eq!(map.to_string(), expected);
}

#[test]
fn map_as_text_without_variables() {
    let none: [&str; 0] = [];
    let mut table = TruthTable::new(&none, &["F"]);
    table.set(0, 0, BitValue::One);
    let map = KMap::from_table(&table, KMapFormat::auto(&none), None);
    assert_eq!(map.grid, vec![vec![I]]);
    assert_eq!(map.to_string(), "   0 |\n +---+\n0| 1 |\n +---+\n");
}

#[test]
fn map_as_text_with_rows_only() {
    let inputs = ["A", "B"];
    let table = TruthTable::new(&inputs, &["F"]);
    let map = KMap::from_table(&table, KMapFormat::split(&inputs, 2, 0), None);
    let expected = "    0 |
AB+---+
00 | x |
01 | x |
11 | x |
10 | x |
   +---+
";
    assert_eq!(map.to_string(), expected);
}

#[test]
fn map_as_text_with_long_names() {
    let inputs = ["x1", "y1"];
    let table = TruthTable::new(&inputs, &["F"]);
    let map = KMap::from_table(&table, KMapFormat::auto(&inputs), None);
    let expected = "   y1 0 | 1 |
x1  +---+---+
0  | x | x |
1  | x | x |
   +---+---+
";
    assert_eq!(map.to_string(), expected);
}

#[test]
fn map_labels_follow_the_gray_sequence() {
    let inputs = ["A", "B", "C", "D", "E", "F"];
    let table = TruthTable::new(&inputs, &["Q"]);
    let map = KMap::from_table(&table, KMapFormat::auto(&inputs), None);
    let text = map.to_string();
    let lines: Vec<&str> = text.lines().collect();
    assert_eq!(lines.len(), 2 + 8 + 1);
    let words = gray_sequence(3);
    for (i, line) in lines[2..10].iter().enumerate() {
        assert!(line.starts_with(&format_bits(words[i], 3)));
    }
    let header: Vec<String> = words.iter().map(|w| format!(" {} ", format_bits(*w, 3))).collect();
    assert_eq!(lines[0], format!("    DEF{}|", header.join("|")));
}

#[test]
fn is_well_formed_knows_the_shape_of_a_map() {
    let inputs = ["A", "B", "C"];
    let table = TruthTable::new(&inputs, &["F"]);
    let map = KMap::from_table(&table, KMapFormat::auto(&inputs), None);
    assert!(map.is_well_formed());

    let mut broken = map.clone();
    broken.grid[1].pop();
    assert!(!broken.is_well_formed());

    let mut broken = map.clone();
    broken.grid.pop();
    assert!(!broken.is_well_formed());

    let mut broken = map.clone();
    broken.rows = 2;
    assert!(!broken.is_well_formed());

    let mut broken = map.clone();
    broken.cols = 4;
    assert!(!broken.is_well_formed());

    let mut broken = map.clone();
    broken.format.col_vars.push(String::from("D"));
    assert!(!broken.is_well_formed());

    let mut broken = map.clone();
    broken.variables.pop();
    assert!(!broken.is_well_formed());
}

// The drawing of a map whose variables have names of one letter, put
// together with the standard formatter.
fn drawn_with_the_formatter(map: &KMap) -> String {
    let row_vars = map.format.row_vars.join("");
    let col_vars = map.format.col_vars.join("");
    let rbits = row_vars.len();
    let cbits = col_vars.len();

    let col_inner_w = cbits.max(1);
    let row_pad = rbits.max(1) + 1;
    let left_pad = if cbits > rbits { cbits + 1 } else { rbits + 1 };

    let cell = |s: &str| format!(" {:^w$} ", s, w = col_inner_w);
    let label = |v: u8, bits: usize| format!("{:0w$b}", v, w = bits);

    let headers: Vec<String> =
        gray_sequence(cbits as u8).into_iter().map(|v| cell(&label(v, cbits))).collect();
    let border =
        (0..headers.len()).map(|_| "-".repeat(col_inner_w + 2)).collect::<Vec<_>>().join("+");
    let row_labels: Vec<String> =
        gray_sequence(rbits as u8).into_iter().map(|v| label(v, rbits)).collect();

    let mut out = String::new();
    out += &format!("{:>rp$}{}{}|\n", "", col_vars, headers.join("|"), rp = row_pad);
    out += &format!("{:>rp$}{:>cw$}+{}+\n", row_vars, "", border, rp = row_pad - 1, cw = cbits);
    for (i, row) in map.grid.iter().enumerate() {
        let values =
            row.iter().map(|v| cell(&v.to_char().to_string())).collect::<Vec<_>>().join("|");
        out += &format!("{:<rp$}|{}|\n", row_labels[i], values, rp = left_pad);
    }
    out += &format!("{:>rp$}+{}+\n", "", border, rp = left_pad);
    out
}

#[test]
fn map_as_text_agrees_with_the_formatter() {
    let names = ["A", "B", "C", "D", "E", "F", "G"];
    for n in 0..=7usize {
        let inputs = &names[..n];
        let mut table = TruthTable::new(inputs, &["Q"]);
        for m in 0..(1usize << n) {
            table.set(m, 0, BitValue::from_u8(((m * 7 + n) % 3) as u8));
        }
        for row_bits in 0..=n {
            let format = KMapFormat::split(inputs, row_bits, n - row_bits);
            let map = KMap::from_table(&table, format, None);
            assert_eq!(map.to_string(), drawn_with_the_formatter(&map), "{row_bits} of {n}");
        }
    }
}
