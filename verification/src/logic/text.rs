//! Fixed-width text layout: the vocabulary in which the renderings of tables
//! and maps are specified, and the routines that write it.
//!
//! A text is a sequence of characters. Widths count characters; padding is
//! always made of spaces and is never negative: a text longer than its field
//! is written out whole.

use vstd::prelude::*;
use vstd::string::*;
use vstd::utf8::encode_utf8;

verus! {

/// `n` copies of the character `c`.
pub open spec fn repeated(c: char, n: nat) -> Seq<char> {
    Seq::new(n, |i: int| c)
}

/// The number of fill characters that bring a text of `len` characters up to
/// `width`.
pub open spec fn fill(width: nat, len: nat) -> nat {
    if width > len {
        (width - len) as nat
    } else {
        0
    }
}

/// `s` at the right edge of a field of `width` characters.
pub open spec fn right_aligned(s: Seq<char>, width: nat) -> Seq<char> {
    repeated(' ', fill(width, s.len())) + s
}

/// `s` at the left edge of a field of `width` characters.
pub open spec fn left_aligned(s: Seq<char>, width: nat) -> Seq<char> {
    s + repeated(' ', fill(width, s.len()))
}

/// `s` in the middle of a field of `width` characters; an odd space goes to
/// the right.
pub open spec fn centered(s: Seq<char>, width: nat) -> Seq<char> {
    let gap = fill(width, s.len());
    repeated(' ', gap / 2) + s + repeated(' ', (gap - gap / 2) as nat)
}

/// All the texts of `parts`, one after the other.
pub open spec fn concat(parts: Seq<Seq<char>>) -> Seq<char>
    decreases parts.len(),
{
    if parts.len() == 0 {
        Seq::empty()
    } else {
        concat(parts.drop_last()) + parts.last()
    }
}

/// The number of bytes that the UTF-8 form of a text takes.
pub open spec fn byte_len(s: Seq<char>) -> nat {
    encode_utf8(s).len()
}

/// The larger of two natural numbers.
pub open spec fn larger(a: nat, b: nat) -> nat {
    if a >= b {
        a
    } else {
        b
    }
}

/// One more copy at the end of a run makes the run one longer.
pub proof fn lemma_repeated_push(c: char, n: nat)
    ensures
        repeated(c, n) + seq![c] == repeated(c, n + 1),
        repeated(c, 0) == Seq::<char>::empty(),
{
    assert(repeated(c, n) + seq![c] =~= repeated(c, n + 1));
    assert(repeated(c, 0) =~= Seq::<char>::empty());
}

/// Two runs of the same character, one after the other, are one run.
pub proof fn lemma_repeated_add(c: char, a: nat, b: nat)
    ensures
        repeated(c, a) + repeated(c, b) == repeated(c, a + b),
{
    assert(repeated(c, a) + repeated(c, b) =~= repeated(c, a + b));
}

/// Appends `n` copies of the one character that `unit` holds.
pub(crate) fn push_repeated(out: &mut String, unit: &str, n: usize)
    requires
        unit@.len() == 1,
    ensures
        final(out)@ == old(out)@ + repeated(unit@[0], n as nat),
{
    let mut i: usize = 0;
    proof {
        lemma_repeated_push(unit@[0], 0);
    }
    while i < n
        invariant
            i <= n,
            unit@.len() == 1,
            out@ == old(out)@ + repeated(unit@[0], i as nat),
        decreases n - i,
    {
        out.append(unit);
        proof {
            lemma_repeated_push(unit@[0], i as nat);
            assert(unit@ =~= seq![unit@[0]]);
            assert(out@ =~= old(out)@ + (repeated(unit@[0], i as nat) + seq![unit@[0]]));
        }
        i += 1;
    }
}

/// Appends `n` spaces.
pub(crate) fn push_spaces(out: &mut String, n: usize)
    ensures
        final(out)@ == old(out)@ + repeated(' ', n as nat),
{
    proof {
        reveal_strlit(" ");
    }
    push_repeated(out, " ", n);
}

/// Appends `s`, right-aligned in a field of `width` characters.
pub(crate) fn push_right_aligned(out: &mut String, s: &str, width: usize)
    ensures
        final(out)@ == old(out)@ + right_aligned(s@, width as nat),
{
    let len = s.unicode_len();
    if width > len {
        push_spaces(out, width - len);
    } else {
        proof {
            lemma_repeated_push(' ', 0);
        }
    }
    out.append(s);
    assert(out@ =~= old(out)@ + right_aligned(s@, width as nat));
}

/// Appends `s`, centered in a field of `width` characters.
pub(crate) fn push_centered(out: &mut String, s: &str, width: usize)
    ensures
        final(out)@ == old(out)@ + centered(s@, width as nat),
{
    let len = s.unicode_len();
    let gap: usize = if width > len {
        width - len
    } else {
        0
    };
    let left: usize = gap / 2;
    push_spaces(out, left);
    out.append(s);
    push_spaces(out, gap - left);
    assert(out@ =~= old(out)@ + centered(s@, width as nat));
}

/// The length of `s` in bytes.
pub(crate) fn byte_length(s: &str) -> (n: usize)
    ensures
        n as nat == byte_len(s@),
{
    s.as_bytes().len()
}

/// The separator between two columns of a table: `" | "`.
pub open spec fn bar() -> Seq<char> {
    seq![' ', '|', ' ']
}

/// The separator between the inputs and the outputs of a table: `" || "`.
pub open spec fn double_bar() -> Seq<char> {
    seq![' ', '|', '|', ' ']
}

/// The end of a line.
pub open spec fn newline() -> Seq<char> {
    seq!['\n']
}

/// The texts of `cells` with `sep` between each two.
pub open spec fn joined(cells: Seq<Seq<char>>, sep: Seq<char>) -> Seq<char>
    decreases cells.len(),
{
    if cells.len() == 0 {
        Seq::empty()
    } else if cells.len() == 1 {
        cells[0]
    } else {
        joined(cells.drop_last(), sep) + sep + cells.last()
    }
}

/// Joining one cell more appends it, after a separator unless it is the
/// first.
pub proof fn lemma_joined_step(cells: Seq<Seq<char>>, sep: Seq<char>, i: int)
    requires
        0 <= i < cells.len(),
    ensures
        joined(cells.take(i + 1), sep) == if i == 0 {
            cells[0]
        } else {
            joined(cells.take(i), sep) + sep + cells[i]
        },
{
    assert(cells.take(i + 1).drop_last() =~= cells.take(i));
    assert(cells.take(i + 1).last() == cells[i]);
}

/// Concatenating one part more appends it.
pub proof fn lemma_concat_step(parts: Seq<Seq<char>>, i: int)
    requires
        0 <= i < parts.len(),
    ensures
        concat(parts.take(i + 1)) == concat(parts.take(i)) + parts[i],
{
    assert(parts.take(i + 1).drop_last() =~= parts.take(i));
    assert(parts.take(i + 1).last() == parts[i]);
}

/// Appends `" | "`.
pub(crate) fn push_bar(out: &mut String)
    ensures
        final(out)@ == old(out)@ + bar(),
{
    proof {
        reveal_strlit(" | ");
        assert(" | "@ =~= bar());
    }
    out.append(" | ");
}

/// Appends `" || "`.
pub(crate) fn push_double_bar(out: &mut String)
    ensures
        final(out)@ == old(out)@ + double_bar(),
{
    proof {
        reveal_strlit(" || ");
        assert(" || "@ =~= double_bar());
    }
    out.append(" || ");
}

/// Ends the line.
pub(crate) fn push_newline(out: &mut String)
    ensures
        final(out)@ == old(out)@ + newline(),
{
    proof {
        reveal_strlit("\n");
        assert("\n"@ =~= newline());
    }
    out.append("\n");
}

/// Appends `n` dashes.
pub(crate) fn push_dashes(out: &mut String, n: usize)
    ensures
        final(out)@ == old(out)@ + repeated('-', n as nat),
{
    proof {
        reveal_strlit("-");
    }
    push_repeated(out, "-", n);
}

} // verus!
