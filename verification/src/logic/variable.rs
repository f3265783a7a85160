//! The three-state logic value that fills every cell of a truth table or a
//! Karnaugh map, and the two kinds of variable a table is made of.

use vstd::prelude::*;
use vstd::string::*;
use vstd::std_specs::convert::FromSpecImpl;

verus! {

/// One cell of a truth table or map: a definite `0`, a definite `1`, or a
/// value the function leaves open.
#[derive(Clone, Copy, Debug, PartialEq, Eq, Hash, Structural)]
pub enum BitValue {
    Zero,
    One,
    DontCare,
}

impl BitValue {
    /// The successor of a value in the fixed cycle `Zero`, `One`, `DontCare`,
    /// `Zero`.
    pub open spec fn toggled(self) -> BitValue {
        match self {
            BitValue::Zero => BitValue::One,
            BitValue::One => BitValue::DontCare,
            BitValue::DontCare => BitValue::Zero,
        }
    }

    /// The value that a number stands for: `0`, `1`, and everything else as
    /// don't-care.
    pub open spec fn of_u8(v: u8) -> BitValue {
        if v == 0 {
            BitValue::Zero
        } else if v == 1 {
            BitValue::One
        } else {
            BitValue::DontCare
        }
    }

    /// The character a value is printed as.
    pub open spec fn symbol(self) -> char {
        match self {
            BitValue::Zero => '0',
            BitValue::One => '1',
            BitValue::DontCare => 'x',
        }
    }

    /// Advances the value one step in the cycle.
    pub fn toggle(&mut self)
        ensures
            *final(self) == old(self).toggled(),
    {
        *self = match *self {
            BitValue::Zero => BitValue::One,
            BitValue::One => BitValue::DontCare,
            BitValue::DontCare => BitValue::Zero,
        };
    }

    /// Overwrites the value.
    pub fn set(&mut self, value: BitValue)
        ensures
            *final(self) == value,
    {
        *self = value;
    }

    /// The numeric value, where there is one.
    pub fn as_u8(self) -> (r: Option<u8>)
        ensures
            r == match self {
                BitValue::Zero => Some(0u8),
                BitValue::One => Some(1u8),
                BitValue::DontCare => None::<u8>,
            },
    {
        match self {
            BitValue::Zero => Some(0),
            BitValue::One => Some(1),
            BitValue::DontCare => None,
        }
    }

    /// Reads a number as a value; anything above `1` is don't-care.
    pub fn from_u8(v: u8) -> (r: BitValue)
        ensures
            r == BitValue::of_u8(v),
    {
        match v {
            0 => BitValue::Zero,
            1 => BitValue::One,
            _ => BitValue::DontCare,
        }
    }

    /// The character the value is printed as: `'0'`, `'1'` or `'x'`.
    pub fn to_char(&self) -> (c: char)
        ensures
            c == self.symbol(),
    {
        match self {
            BitValue::Zero => '0',
            BitValue::One => '1',
            BitValue::DontCare => 'x',
        }
    }

    /// The printed form as a string slice of one character.
    pub fn as_str(&self) -> (s: &'static str)
        ensures
            s@ == seq![self.symbol()],
    {
        proof {
            reveal_strlit("0");
            reveal_strlit("1");
            reveal_strlit("x");
        }
        let s = match self {
            BitValue::Zero => "0",
            BitValue::One => "1",
            BitValue::DontCare => "x",
        };
        assert(s@ =~= seq![self.symbol()]);
        s
    }

    /// The printed form as an owned string.
    pub fn to_string(&self) -> (s: String)
        ensures
            s@ == seq![self.symbol()],
    {
        self.as_str().to_owned()
    }
}

impl Default for BitValue {
    /// A fresh cell is unassigned.
    fn default() -> (r: BitValue)
        ensures
            r == BitValue::DontCare,
    {
        BitValue::DontCare
    }
}

impl From<u8> for BitValue {
    fn from(value: u8) -> (r: BitValue) {
        BitValue::from_u8(value)
    }
}

impl FromSpecImpl<u8> for BitValue {
    open spec fn obeys_from_spec() -> bool {
        true
    }

    open spec fn from_spec(v: u8) -> BitValue {
        BitValue::of_u8(v)
    }
}

/// Toggling walks the cycle `Zero`, `One`, `DontCare` in that order, never
/// stands still, and is back at its start after three steps and no sooner.
pub proof fn lemma_toggle_cycle(v: BitValue)
    ensures
        BitValue::Zero.toggled() == BitValue::One,
        BitValue::One.toggled() == BitValue::DontCare,
        BitValue::DontCare.toggled() == BitValue::Zero,
        v.toggled() != v,
        v.toggled().toggled() != v,
        v.toggled().toggled().toggled() == v,
{
}

/// Whether a variable is an input of the function or one of its outputs.
#[derive(Clone, Copy, Debug, PartialEq, Eq, Hash, Structural)]
pub enum VariableKind {
    Input,
    Output,
}

impl VariableKind {
    /// The word a kind is printed as.
    pub open spec fn label(self) -> Seq<char> {
        match self {
            VariableKind::Input => "Input"@,
            VariableKind::Output => "Output"@,
        }
    }

    /// The printed form as a string slice.
    pub fn as_str(&self) -> (s: &'static str)
        ensures
            s@ == self.label(),
    {
        match self {
            VariableKind::Input => "Input",
            VariableKind::Output => "Output",
        }
    }

    /// The printed form as an owned string: `"Input"` or `"Output"`.
    pub fn to_string(&self) -> (s: String)
        ensures
            s@ == self.label(),
    {
        self.as_str().to_owned()
    }
}

impl Default for VariableKind {
    /// A new variable is an input unless told otherwise.
    fn default() -> (r: VariableKind)
        ensures
            r == VariableKind::Input,
    {
        VariableKind::Input
    }
}

} // verus!
