//! Gray-code arithmetic on eight-bit values: the reflected binary code, its
//! inverse, fixed-width binary text, and the place of a minterm in a map
//! whose rows and columns are laid out in Gray order.

use vstd::prelude::*;
use vstd::arithmetic::div_mod::*;
use vstd::arithmetic::power2::*;
use vstd::bits::*;
use vstd::string::*;
use crate::logic::error::LogicError;

verus! {

/// The most bits a Gray sequence can have: its length must fit in eight bits.
pub const MAX_SEQUENCE_BITS: u8 = 7;

/// The most bits a minterm can have.
pub const MAX_MINTERM_BITS: usize = 8;

/// The reflected binary Gray code of `i`.
pub open spec fn gray_encode(i: u8) -> u8 {
    i ^ (i >> 1)
}

/// The position of the code word `g` in Gray order: bit `k` of the result is
/// the parity of the bits of `g` from `k` upwards.
pub open spec fn gray_decode(g: u8) -> u8 {
    g ^ (g >> 1) ^ (g >> 2) ^ (g >> 3) ^ (g >> 4) ^ (g >> 5) ^ (g >> 6) ^ (g >> 7)
}

/// The Gray code words of `n` bits, in counting order of their positions.
pub open spec fn gray_sequence_spec(n: nat) -> Seq<u8> {
    Seq::new(pow2(n), |i: int| gray_encode(i as u8))
}

/// Whether `a` and `b` differ in exactly one of their `n` lowest bits and
/// nowhere else.
pub open spec fn differ_in_one_bit(a: u8, b: u8, n: nat) -> bool {
    exists|k: u8| k < n && k < 8 && a ^ b == 1u8 << k
}

/// The powers of two that eight-bit arithmetic meets.
pub proof fn lemma_pow2_small()
    ensures
        pow2(0) == 1,
        pow2(1) == 2,
        pow2(2) == 4,
        pow2(3) == 8,
        pow2(4) == 16,
        pow2(5) == 32,
        pow2(6) == 64,
        pow2(7) == 128,
        pow2(8) == 256,
        forall|k: nat| k >= 8 ==> #[trigger] pow2(k) >= 256,
{
    lemma2_to64();
    assert forall|k: nat| k >= 8 implies #[trigger] pow2(k) >= 256 by {
        if k > 8 {
            lemma_pow2_strictly_increases(8, k);
        }
    }
}

/// Shifting one to the left by `k` places gives the `k`-th power of two.
pub proof fn lemma_one_shl(k: u8)
    requires
        k < 8,
    ensures
        (1u8 << k) as nat == pow2(k as nat),
{
    lemma_pow2_small();
    lemma_u8_shl_is_mul(1u8, k);
}

/// Decodes a Gray code word to its position in Gray order.
pub fn gray_to_binary(g: u8) -> (b: u8)
    ensures
        b == gray_decode(g),
        gray_encode(b) == g,
{
    let ghost g0 = g;
    let mut g = g;
    g ^= g >> 1;
    g ^= g >> 2;
    g ^= g >> 4;
    assert(g == gray_decode(g0) && gray_encode(g) == g0) by (bit_vector)
        requires
            g == ((g0 ^ (g0 >> 1)) ^ ((g0 ^ (g0 >> 1)) >> 2)) ^ (((g0 ^ (g0 >> 1)) ^ ((g0 ^ (g0
                >> 1)) >> 2)) >> 4),
    ;
    g
}

/// Decoding undoes encoding, and encoding undoes decoding.
pub proof fn lemma_gray_inverse(x: u8)
    ensures
        gray_decode(gray_encode(x)) == x,
        gray_encode(gray_decode(x)) == x,
{
    assert(gray_decode(gray_encode(x)) == x && gray_encode(gray_decode(x)) == x) by (bit_vector);
}

/// Neither encoding nor decoding leaves the range of `k`-bit values.
pub proof fn lemma_gray_in_range(x: u8, k: nat)
    requires
        (x as nat) < pow2(k),
    ensures
        (gray_encode(x) as nat) < pow2(k),
        (gray_decode(x) as nat) < pow2(k),
{
    lemma_pow2_small();
    if k < 8 {
        let kk = k as u8;
        lemma_one_shl(kk);
        assert(kk < 8 && x < (1u8 << kk) ==> gray_encode(x) < (1u8 << kk) && gray_decode(x) < (1u8
            << kk)) by (bit_vector);
    }
}

/// The Gray sequence of `n` bits: `2^n` code words, the one at position `i`
/// being `i ^ (i >> 1)`.
pub fn gray_sequence(n: u8) -> (seq: Vec<u8>)
    requires
        n <= MAX_SEQUENCE_BITS,
    ensures
        seq@ == gray_sequence_spec(n as nat),
{
    let size: u8 = 1u8 << n;
    proof {
        lemma_one_shl(n);
    }
    let mut seq: Vec<u8> = Vec::new();
    let mut i: u8 = 0;
    while i < size
        invariant
            i <= size,
            seq@.len() == i,
            forall|j: int| 0 <= j < i ==> seq@[j] == gray_encode(j as u8),
        decreases size - i,
    {
        seq.push(i ^ (i >> 1));
        i += 1;
    }
    assert(seq@ =~= gray_sequence_spec(n as nat));
    seq
}

/// The Gray sequence of `n` bits, or the reason there is none.
pub fn checked_gray_sequence(n: u8) -> (r: Result<Vec<u8>, LogicError>)
    ensures
        n <= MAX_SEQUENCE_BITS ==> r is Ok && r->Ok_0@ == gray_sequence_spec(n as nat),
        n > MAX_SEQUENCE_BITS ==> r == Err::<Vec<u8>, LogicError>(LogicError::BitWidth),
{
    if n > MAX_SEQUENCE_BITS {
        Err(LogicError::BitWidth)
    } else {
        Ok(gray_sequence(n))
    }
}

/// Whether bit `k` of `v` is set, bit 0 being the lowest.
pub open spec fn bit_at(v: nat, k: nat) -> bool {
    (v / pow2(k)) % 2 == 1
}

/// `v` in binary, `width` digits long, highest bit first.
pub open spec fn bit_string(v: nat, width: nat) -> Seq<char> {
    Seq::new(
        width,
        |i: int|
            if bit_at(v, (width - 1 - i) as nat) {
                '1'
            } else {
                '0'
            },
    )
}

/// Whether `width` binary digits are enough to write `v`. Every value, zero
/// included, takes at least one digit.
pub open spec fn fits_in(v: nat, width: nat) -> bool {
    width >= 1 && v < pow2(width)
}

/// Whether `v` fits in `width` digits.
pub fn fits(v: u8, width: u8) -> (b: bool)
    ensures
        b == fits_in(v as nat, width as nat),
{
    proof {
        lemma_pow2_small();
    }
    if width == 0 {
        false
    } else if width >= 8 {
        true
    } else {
        proof {
            lemma_one_shl(width);
        }
        v < (1u8 << width)
    }
}

/// Writes `gray` in binary as exactly `width` digits, zero-padded, highest
/// bit first.
pub fn format_bits(gray: u8, width: u8) -> (s: String)
    requires
        fits_in(gray as nat, width as nat),
    ensures
        s@ == bit_string(gray as nat, width as nat),
{
    let mut s = String::new();
    let mut i: u8 = 0;
    while i < width
        invariant
            i <= width,
            s@.len() == i,
            forall|j: int| 0 <= j < i ==> s@[j] == bit_string(gray as nat, width as nat)[j],
        decreases width - i,
    {
        let k: u8 = width - 1 - i;
        let one: bool = k < 8 && (gray >> k) & 1 == 1;
        proof {
            lemma_pow2_small();
            if k < 8 {
                lemma_u8_shr_is_div(gray, k);
                let q: u8 = gray >> k;
                assert((q & 1 == 1) == (q % 2 == 1)) by (bit_vector);
            } else {
                lemma_basic_div(gray as int, pow2(k as nat) as int);
            }
            assert(one == bit_at(gray as nat, k as nat));
            reveal_strlit("1");
            reveal_strlit("0");
        }
        let ghost before = s@;
        if one {
            s.append("1");
        } else {
            s.append("0");
        }
        assert(s@ =~= before.push(bit_string(gray as nat, width as nat)[i as int]));
        i += 1;
    }
    assert(s@ =~= bit_string(gray as nat, width as nat));
    s
}

/// `gray` in binary as exactly `width` digits, or the reason it cannot be
/// written so.
pub fn checked_format_bits(gray: u8, width: u8) -> (r: Result<String, LogicError>)
    ensures
        fits_in(gray as nat, width as nat) ==> r is Ok && r->Ok_0@ == bit_string(
            gray as nat,
            width as nat,
        ),
        !fits_in(gray as nat, width as nat) ==> r is Err && r->Err_0 == LogicError::ValueTooWide,
{
    if fits(gray, width) {
        Ok(format_bits(gray, width))
    } else {
        Err(LogicError::ValueTooWide)
    }
}

/// The column field of a minterm: its `c` lowest bits.
pub open spec fn col_field(m: u8, c: nat) -> u8 {
    (m as nat % pow2(c)) as u8
}

/// The row field of a minterm: the `r` bits above its `c` lowest.
pub open spec fn row_field(m: u8, r: nat, c: nat) -> u8 {
    ((m as nat / pow2(c)) % pow2(r)) as u8
}

/// The cell of a map with `r` row bits and `c` column bits in which the
/// minterm `m` lies: each field names a Gray code word, and the cell is at
/// the positions of the two words in Gray order.
pub open spec fn cell_of(m: u8, r: nat, c: nat) -> (u8, u8) {
    (gray_decode(row_field(m, r, c)), gray_decode(col_field(m, c)))
}

/// The minterm that lies in the cell at `row` and `col` of a map with `c`
/// column bits.
pub open spec fn minterm_at(row: u8, col: u8, c: nat) -> nat {
    gray_encode(row) as nat * pow2(c) + gray_encode(col) as nat
}

/// Whether `m` is a minterm of a map with `r` row bits and `c` column bits.
pub open spec fn is_minterm(m: u8, r: nat, c: nat) -> bool {
    r + c <= MAX_MINTERM_BITS && (m as nat) < pow2(r + c)
}

/// The mask that keeps the `bits` lowest bits of a value.
fn low_mask(bits: usize) -> (m: u8)
    requires
        bits <= 8,
    ensures
        m as nat == low_bits_mask(bits as nat),
        forall|x: u8| #[trigger] (x & m) as nat == x as nat % pow2(bits as nat),
{
    proof {
        lemma_pow2_small();
    }
    if bits >= 8 {
        assert forall|x: u8| #[trigger] (x & 0xffu8) as nat == x as nat % pow2(bits as nat) by {
            assert(x & 0xffu8 == x) by (bit_vector);
        }
        0xff
    } else {
        let b: u8 = bits as u8;
        proof {
            lemma_one_shl(b);
        }
        let m: u8 = (1u8 << b) - 1;
        proof {
            assert forall|x: u8| #[trigger] (x & m) as nat == x as nat % pow2(bits as nat) by {
                lemma_u8_low_bits_mask_is_mod(x, bits as nat);
            }
        }
        m
    }
}

/// Finds the cell of a Karnaugh map in which a minterm lies.
///
/// The `col_bits` lowest bits of the minterm are its column field and the
/// `row_bits` bits above them its row field. Each field is a Gray code word;
/// the result is the pair of their positions in Gray order, row first. With
/// no bits on an axis, that coordinate is 0.
pub fn extract_row_col(minterm: u8, row_bits: usize, col_bits: usize) -> (cell: (u8, u8))
    requires
        is_minterm(minterm, row_bits as nat, col_bits as nat),
    ensures
        cell == cell_of(minterm, row_bits as nat, col_bits as nat),
        (cell.0 as nat) < pow2(row_bits as nat),
        (cell.1 as nat) < pow2(col_bits as nat),
{
    let col_mask: u8 = low_mask(col_bits);
    let row_mask: u8 = low_mask(row_bits);

    let col_gray: u8 = minterm & col_mask;
    let row_gray: u8 = if col_bits >= 8 {
        0
    } else {
        (minterm >> (col_bits as u8)) & row_mask
    };
    proof {
        lemma_pow2_small();
        lemma_pow2_pos(col_bits as nat);
        lemma_pow2_pos(row_bits as nat);
        lemma_mod_bound(minterm as int, pow2(col_bits as nat) as int);
        assert(col_gray == col_field(minterm, col_bits as nat));
        if col_bits >= 8 {
            assert(row_gray == row_field(minterm, row_bits as nat, col_bits as nat));
        } else {
            lemma_u8_shr_is_div(minterm, col_bits as u8);
            let q: u8 = minterm >> (col_bits as u8);
            lemma_mod_bound(q as int, pow2(row_bits as nat) as int);
            assert(row_gray == row_field(minterm, row_bits as nat, col_bits as nat));
        }
        lemma_gray_in_range(col_gray, col_bits as nat);
        lemma_gray_in_range(row_gray, row_bits as nat);
    }
    let row_idx = gray_to_binary(row_gray);
    let col_idx = gray_to_binary(col_gray);
    (row_idx, col_idx)
}

/// Whether `minterm` is a minterm of a map with `row_bits` row bits and
/// `col_bits` column bits.
pub fn minterm_in_range(minterm: u8, row_bits: usize, col_bits: usize) -> (b: bool)
    requires
        row_bits + col_bits <= MAX_MINTERM_BITS,
    ensures
        b == is_minterm(minterm, row_bits as nat, col_bits as nat),
{
    let total: usize = row_bits + col_bits;
    proof {
        lemma_pow2_small();
    }
    if total >= 8 {
        true
    } else {
        proof {
            lemma_one_shl(total as u8);
        }
        minterm < (1u8 << (total as u8))
    }
}

/// The cell in which a minterm lies, or the reason the arguments name none:
/// `BitWidth` where the two bit counts together exceed eight, `ValueTooWide`
/// where the minterm has a bit set above them.
pub fn checked_extract_row_col(minterm: u8, row_bits: usize, col_bits: usize) -> (r: Result<
    (u8, u8),
    LogicError,
>)
    ensures
        row_bits + col_bits > MAX_MINTERM_BITS ==> r is Err && r->Err_0 == LogicError::BitWidth,
        row_bits + col_bits <= MAX_MINTERM_BITS && !is_minterm(
            minterm,
            row_bits as nat,
            col_bits as nat,
        ) ==> r is Err && r->Err_0 == LogicError::ValueTooWide,
        is_minterm(minterm, row_bits as nat, col_bits as nat) ==> r is Ok && r->Ok_0 == cell_of(
            minterm,
            row_bits as nat,
            col_bits as nat,
        ),
{
    if row_bits > MAX_MINTERM_BITS || col_bits > MAX_MINTERM_BITS - row_bits {
        Err(LogicError::BitWidth)
    } else if !minterm_in_range(minterm, row_bits, col_bits) {
        Err(LogicError::ValueTooWide)
    } else {
        Ok(extract_row_col(minterm, row_bits, col_bits))
    }
}

/// The position that follows `i` in a cycle of `2^n` positions.
pub open spec fn next_position(i: int, n: nat) -> int {
    (i + 1) % (pow2(n) as int)
}

/// Decoding the code word at any position of a Gray sequence gives that
/// position back.
pub proof fn lemma_gray_round_trip(n: nat, i: int)
    requires
        n <= MAX_SEQUENCE_BITS,
        0 <= i < pow2(n),
    ensures
        gray_decode(gray_sequence_spec(n)[i]) == i,
{
    lemma_pow2_small();
    lemma_gray_inverse(i as u8);
}

/// Every code word of a Gray sequence of at least one bit differs from the
/// next in exactly one bit, and so does the last from the first.
pub proof fn lemma_gray_neighbours(n: nat, i: int)
    requires
        1 <= n <= MAX_SEQUENCE_BITS,
        0 <= i < pow2(n),
    ensures
        differ_in_one_bit(
            gray_sequence_spec(n)[i],
            gray_sequence_spec(n)[next_position(i, n)],
            n,
        ),
{
    lemma_pow2_small();
    let nn = n as u8;
    let a = i as u8;
    lemma_one_shl(nn);
    let last: u8 = ((1u8 << nn) - 1) as u8;
    let b: u8 = if a == last {
        0u8
    } else {
        (a + 1) as u8
    };
    assert(b == next_position(i, n)) by {
        if a == last {
            assert((i + 1) % (pow2(n) as int) == 0) by {
                lemma_mod_self_0(pow2(n) as int);
            }
        } else {
            lemma_small_mod((i + 1) as nat, pow2(n));
        }
    }
    let x: u8 = gray_encode(a) ^ gray_encode(b);
    assert((nn > 0 && x == 1) || (nn > 1 && x == 2) || (nn > 2 && x == 4) || (nn > 3 && x == 8) || (
    nn > 4 && x == 16) || (nn > 5 && x == 32) || (nn > 6 && x == 64)) by (bit_vector)
        requires
            1 <= nn <= 7,
            a < (1u8 << nn),
            last == ((1u8 << nn) - 1) as u8,
            b == if a == last {
                0u8
            } else {
                (a + 1) as u8
            },
            x == (a ^ (a >> 1)) ^ (b ^ (b >> 1)),
    ;
    let k: u8 = if x == 1 {
        0
    } else if x == 2 {
        1
    } else if x == 4 {
        2
    } else if x == 8 {
        3
    } else if x == 16 {
        4
    } else if x == 32 {
        5
    } else {
        6
    };
    lemma_one_shl(k);
    assert(k < n && k < 8 && gray_sequence_spec(n)[i] ^ gray_sequence_spec(n)[next_position(i, n)]
        == 1u8 << k);
}

/// A minterm lies in a cell of the grid, and is the minterm of that cell.
pub proof fn lemma_cell_of_minterm(m: u8, r: nat, c: nat)
    requires
        is_minterm(m, r, c),
    ensures
        (cell_of(m, r, c).0 as nat) < pow2(r),
        (cell_of(m, r, c).1 as nat) < pow2(c),
        minterm_at(cell_of(m, r, c).0, cell_of(m, r, c).1, c) == m,
{
    lemma_pow2_small();
    lemma_pow2_pos(c);
    lemma_pow2_pos(r);
    lemma_pow2_adds(c, r);
    let pc = pow2(c) as int;
    let pr = pow2(r) as int;
    lemma_multiply_divide_lt(m as int, pc, pr);
    lemma_mod_bound(m as int, pc);
    lemma_small_mod((m as int / pc) as nat, pr as nat);
    lemma_fundamental_div_mod(m as int, pc);
    let rf = row_field(m, r, c);
    let cf = col_field(m, c);
    assert(rf == m as int / pc);
    assert(cf == m as int % pc);
    lemma_gray_in_range(rf, r);
    lemma_gray_in_range(cf, c);
    lemma_gray_inverse(rf);
    lemma_gray_inverse(cf);
    assert(m as int == pc * (m as int / pc) + m as int % pc);
    assert(pc * (m as int / pc) == (m as int / pc) * pc) by (nonlinear_arith);
}

/// A cell of the grid holds a minterm, and that minterm lies in the cell.
pub proof fn lemma_minterm_of_cell(row: u8, col: u8, r: nat, c: nat)
    requires
        r + c <= MAX_MINTERM_BITS,
        (row as nat) < pow2(r),
        (col as nat) < pow2(c),
    ensures
        minterm_at(row, col, c) < pow2(r + c),
        is_minterm(minterm_at(row, col, c) as u8, r, c),
        cell_of(minterm_at(row, col, c) as u8, r, c) == (row, col),
{
    lemma_pow2_small();
    lemma_pow2_pos(c);
    lemma_pow2_pos(r);
    lemma_pow2_adds(r, c);
    lemma_pow2_adds(c, r);
    let pc = pow2(c) as int;
    let pr = pow2(r) as int;
    lemma_gray_in_range(row, r);
    lemma_gray_in_range(col, c);
    lemma_gray_inverse(row);
    lemma_gray_inverse(col);
    let er = gray_encode(row) as int;
    let ec = gray_encode(col) as int;
    let m = minterm_at(row, col, c) as int;
    assert(m == er * pc + ec);
    assert(er * pc + ec < pr * pc) by (nonlinear_arith)
        requires
            0 <= er < pr,
            0 <= ec < pc,
    ;
    assert(pow2(r + c) <= 256) by {
        if r + c < 8 {
            lemma_pow2_strictly_increases(r + c, 8);
        }
    }
    lemma_fundamental_div_mod_converse(m, pc, er, ec);
    lemma_small_mod(er as nat, pr as nat);
    assert(row_field(m as u8, r, c) == gray_encode(row));
    assert(col_field(m as u8, c) == gray_encode(col));
}

/// Whether some minterm of a map with `r` row bits and `c` column bits lies
/// in the cell at `row` and `col`.
pub open spec fn cell_is_hit(row: u8, col: u8, r: nat, c: nat) -> bool {
    exists|m: u8| #[trigger] is_minterm(m, r, c) && cell_of(m, r, c) == (row, col)
}

/// The minterms of a map with `r` row bits and `c` column bits correspond
/// one to one to the cells of its grid of `2^r` rows and `2^c` columns: every
/// minterm lies in a cell of the grid, no two lie in the same cell, and every
/// cell holds one.
pub proof fn lemma_cells_are_a_bijection(r: nat, c: nat)
    requires
        r + c <= MAX_MINTERM_BITS,
    ensures
        forall|m: u8| #[trigger]
            is_minterm(m, r, c) ==> (cell_of(m, r, c).0 as nat) < pow2(r) && (cell_of(
                m,
                r,
                c,
            ).1 as nat) < pow2(c),
        forall|m1: u8, m2: u8|
            #![trigger cell_of(m1, r, c), cell_of(m2, r, c)]
            is_minterm(m1, r, c) && is_minterm(m2, r, c) && cell_of(m1, r, c) == cell_of(m2, r, c)
                ==> m1 == m2,
        forall|row: u8, col: u8|
            (row as nat) < pow2(r) && (col as nat) < pow2(c) ==> #[trigger] cell_is_hit(
                row,
                col,
                r,
                c,
            ),
{
    assert forall|m: u8| #[trigger] is_minterm(m, r, c) implies (cell_of(m, r, c).0 as nat) < pow2(
        r,
    ) && (cell_of(m, r, c).1 as nat) < pow2(c) by {
        lemma_cell_of_minterm(m, r, c);
    }
    assert forall|m1: u8, m2: u8|
        #![trigger cell_of(m1, r, c), cell_of(m2, r, c)]
        is_minterm(m1, r, c) && is_minterm(m2, r, c) && cell_of(m1, r, c) == cell_of(
            m2,
            r,
            c,
        ) implies m1 == m2 by {
        lemma_cell_of_minterm(m1, r, c);
        lemma_cell_of_minterm(m2, r, c);
    }
    assert forall|row: u8, col: u8|
        (row as nat) < pow2(r) && (col as nat) < pow2(c) implies #[trigger] cell_is_hit(
        row,
        col,
        r,
        c,
    ) by {
        lemma_minterm_of_cell(row, col, r, c);
        let m = minterm_at(row, col, c) as u8;
        assert(is_minterm(m, r, c) && cell_of(m, r, c) == (row, col));
    }
}

} // verus!
