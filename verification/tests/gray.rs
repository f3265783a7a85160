use karny::logic::error::LogicError;
use karny::logic::gray::{
    checked_extract_row_col, checked_format_bits, checked_gray_sequence, extract_row_col, fits,
    format_bits, gray_sequence, gray_to_binary, minterm_in_range,
};

#[test]
fn can_extract_two_ab() {
    let expected = vec![(0, 0), (0, 1), (1, 0), (1, 1)];

    let result: Vec<(u8, u8)> = (0..4).map(|m| extract_row_col(m, 1, 1)).collect();
    assert_eq!(expected, result);
}

#[test]
fn can_extract_three_ab_c() {
    let expected: Vec<(u8, u8)> = vec![
        (0, 0),
        (0, 1),
        (1, 0),
        (1, 1),
        (3, 0),
        (3, 1),
        (2, 0),
        (2, 1),
    ];

    let result: Vec<(u8, u8)> = (0..8).map(|m| extract_row_col(m, 2, 1)).collect();
    assert_eq!(expected, result);
}

#[test]
fn can_extract_three_a_bc() {
    let expected: Vec<(u8, u8)> = vec![
        (0, 0),
        (0, 1),
        (0, 3),
        (0, 2),
        (1, 0),
        (1, 1),
        (1, 3),
        (1, 2),
    ];

    let result: Vec<(u8, u8)> = (0..8).map(|m| extract_row_col(m, 1, 2)).collect();
    assert_eq!(expected, result);
}

#[test]
fn can_extract_four() {
    let expected: Vec<(u8, u8)> = vec![
        (0, 0),
        (0, 1),
        (0, 3),
        (0, 2),
        (1, 0),
        (1, 1),
        (1, 3),
        (1, 2),
        (3, 0),
        (3, 1),
        (3, 3),
        (3, 2),
        (2, 0),
        (2, 1),
        (2, 3),
        (2, 2),
    ];

    let result: Vec<(u8, u8)> = (0..16).map(|m: u8| extract_row_col(m, 2, 2)).collect();

    assert_eq!(expected, result);
}

#[test]
fn gray_sequence_of_three_bits() {
    assert_eq!(gray_sequence(3), vec![0, 1, 3, 2, 6, 7, 5, 4]);
}

#[test]
fn gray_sequence_of_no_bits_is_one_word() {
    assert_eq!(gray_sequence(0), vec![0]);
}

#[test]
fn gray_sequence_has_two_to_the_n_words() {
    for n in 0..=7u8 {
        let seq = gray_sequence(n);
        assert_eq!(seq.len(), 1usize << n);
        for (i, word) in seq.iter().enumerate() {
            let i = i as u8;
            assert_eq!(*word, i ^ (i >> 1));
        }
    }
}

#[test]
fn gray_to_binary_inverts_the_sequence() {
    for n in 0..=7u8 {
        let seq = gray_sequence(n);
        for (i, word) in seq.iter().enumerate() {
            assert_eq!(gray_to_binary(*word) as usize, i);
        }
    }
}

#[test]
fn gray_to_binary_of_known_words() {
    assert_eq!(gray_to_binary(0), 0);
    assert_eq!(gray_to_binary(1), 1);
    assert_eq!(gray_to_binary(3), 2);
    assert_eq!(gray_to_binary(2), 3);
    assert_eq!(gray_to_binary(6), 4);
    assert_eq!(gray_to_binary(4), 7);
    assert_eq!(gray_to_binary(0x80), 0xff);
    assert_eq!(gray_to_binary(0xff), 0xaa);
}

#[test]
fn gray_to_binary_is_a_bijection_on_bytes() {
    let mut seen = vec![false; 256];
    for g in 0..=255u8 {
        let b = gray_to_binary(g);
        assert_eq!(b ^ (b >> 1), g);
        assert!(!seen[b as usize]);
        seen[b as usize] = true;
    }
}

#[test]
fn neighbours_in_the_sequence_differ_in_one_bit() {
    for n in 1..=7u8 {
        let seq = gray_sequence(n);
        let len = seq.len();
        for i in 0..len {
            let diff = seq[i] ^ seq[(i + 1) % len];
            assert_eq!(diff.count_ones(), 1, "n = {n}, i = {i}");
            assert!((diff as usize) < len);
        }
    }
}

#[test]
fn format_bits_pads_with_zeros() {
    assert_eq!(format_bits(5, 4), "0101");
    assert_eq!(format_bits(1, 2), "01");
}

#[test]
fn format_bits_of_other_values() {
    assert_eq!(format_bits(0, 1), "0");
    assert_eq!(format_bits(1, 1), "1");
    assert_eq!(format_bits(6, 3), "110");
    assert_eq!(format_bits(255, 8), "11111111");
    assert_eq!(format_bits(128, 8), "10000000");
    assert_eq!(format_bits(3, 10), "0000000011");
}

#[test]
fn format_bits_agrees_with_the_standard_formatter() {
    for width in 1..=9u8 {
        for value in 0..=255u8 {
            if fits(value, width) {
                let expected = format!("{:0width$b}", value, width = width as usize);
                assert_eq!(format_bits(value, width), expected);
                assert_eq!(expected.len(), width as usize);
            }
        }
    }
}

#[test]
fn fits_tells_whether_a_width_is_enough() {
    assert!(!fits(0, 0));
    assert!(fits(0, 1));
    assert!(fits(1, 1));
    assert!(!fits(2, 1));
    assert!(fits(5, 3));
    assert!(!fits(8, 3));
    assert!(fits(255, 8));
    assert!(!fits(128, 7));
    assert!(fits(255, 200));
}

#[test]
fn checked_format_bits_refuses_a_width_too_small() {
    assert_eq!(checked_format_bits(5, 4), Ok(String::from("0101")));
    assert_eq!(checked_format_bits(5, 2), Err(LogicError::ValueTooWide));
    assert_eq!(checked_format_bits(0, 0), Err(LogicError::ValueTooWide));
}

#[test]
fn checked_gray_sequence_refuses_more_than_seven_bits() {
    assert_eq!(checked_gray_sequence(2), Ok(vec![0, 1, 3, 2]));
    assert_eq!(checked_gray_sequence(7).map(|s| s.len()), Ok(128));
    assert_eq!(checked_gray_sequence(8), Err(LogicError::BitWidth));
    assert_eq!(checked_gray_sequence(255), Err(LogicError::BitWidth));
}

#[test]
fn extract_row_col_worked_examples() {
    // 0110: row field 01 is the word at place 1, column field 10 the word at place 3.
    assert_eq!(extract_row_col(6, 2, 2), (1, 3));
    // 01100: row field 011 is the word at place 2, column field 00 the word at place 0.
    assert_eq!(extract_row_col(12, 3, 2), (2, 0));
    // 11000: row field 110 is the word at place 4.
    assert_eq!(extract_row_col(24, 3, 2), (4, 0));
}

#[test]
fn extract_row_col_without_rows_or_columns() {
    for m in 0..8u8 {
        assert_eq!(extract_row_col(m, 0, 3), (0, gray_to_binary(m)));
        assert_eq!(extract_row_col(m, 3, 0), (gray_to_binary(m), 0));
    }
    assert_eq!(extract_row_col(0, 0, 0), (0, 0));
}

#[test]
fn extract_row_col_with_eight_bits() {
    assert_eq!(extract_row_col(0xff, 0, 8), (0, gray_to_binary(0xff)));
    assert_eq!(extract_row_col(0xff, 8, 0), (gray_to_binary(0xff), 0));
    assert_eq!(extract_row_col(0xa5, 4, 4), (gray_to_binary(0xa), gray_to_binary(0x5)));
}

#[test]
fn extract_row_col_is_a_bijection_onto_the_grid() {
    for n in 0..=8usize {
        for row_bits in 0..=n {
            let col_bits = n - row_bits;
            let rows = 1usize << row_bits;
            let cols = 1usize << col_bits;
            let mut seen = vec![false; rows * cols];
            for m in 0..(1usize << n) {
                let (r, c) = extract_row_col(m as u8, row_bits, col_bits);
                let (r, c) = (r as usize, c as usize);
                assert!(r < rows && c < cols);
                assert!(!seen[r * cols + c]);
                seen[r * cols + c] = true;
            }
            assert!(seen.iter().all(|hit| *hit));
        }
    }
}

#[test]
fn minterm_in_range_tells_minterms_from_wider_values() {
    assert!(minterm_in_range(0, 0, 0));
    assert!(!minterm_in_range(1, 0, 0));
    assert!(minterm_in_range(15, 2, 2));
    assert!(!minterm_in_range(16, 2, 2));
    assert!(minterm_in_range(255, 4, 4));
}

#[test]
fn checked_extract_row_col_refuses_what_lies_outside() {
    assert_eq!(checked_extract_row_col(24, 3, 2), Ok((4, 0)));
    assert_eq!(checked_extract_row_col(0, 5, 4), Err(LogicError::BitWidth));
    assert_eq!(checked_extract_row_col(0, usize::MAX, 1), Err(LogicError::BitWidth));
    assert_eq!(checked_extract_row_col(0, 9, 0), Err(LogicError::BitWidth));
    assert_eq!(checked_extract_row_col(16, 2, 2), Err(LogicError::ValueTooWide));
    assert_eq!(checked_extract_row_col(255, 4, 4), Ok((gray_to_binary(15), gray_to_binary(15))));
}
