use crate::decimal::{decimal_of, decimal_text, is_digit, parse_decimal, usize_text};
use crate::nuc_code::{code_of_byte, NucCode};
use vstd::prelude::*;
use vstd::string::StringSliceAdditionalSpecFns;

verus! {

/// A deviation from the reference genome: at the 1-based `position` the
/// sequence carries the symbol `to`.
#[derive(Clone, Copy, Debug, PartialEq, Eq, Structural, Hash)]
pub struct NucMutation {
    pub position: usize,
    pub to: NucCode,
}

/// The index of a symbol in the alphabet's order, below 32.
pub open spec fn code_index(c: NucCode) -> u8 {
    match c {
        NucCode::A => 0,
        NucCode::C => 1,
        NucCode::G => 2,
        NucCode::T => 3,
        NucCode::U => 4,
        NucCode::M => 5,
        NucCode::R => 6,
        NucCode::W => 7,
        NucCode::S => 8,
        NucCode::Y => 9,
        NucCode::K => 10,
        NucCode::V => 11,
        NucCode::H => 12,
        NucCode::D => 13,
        NucCode::B => 14,
        NucCode::N => 15,
        NucCode::X => 16,
        NucCode::GAP => 17,
    }
}

/// The symbol with a given index; indices past the alphabet read as `N`.
pub open spec fn code_at_index(i: u8) -> NucCode {
    if i == 0 { NucCode::A }
    else if i == 1 { NucCode::C }
    else if i == 2 { NucCode::G }
    else if i == 3 { NucCode::T }
    else if i == 4 { NucCode::U }
    else if i == 5 { NucCode::M }
    else if i == 6 { NucCode::R }
    else if i == 7 { NucCode::W }
    else if i == 8 { NucCode::S }
    else if i == 9 { NucCode::Y }
    else if i == 10 { NucCode::K }
    else if i == 11 { NucCode::V }
    else if i == 12 { NucCode::H }
    else if i == 13 { NucCode::D }
    else if i == 14 { NucCode::B }
    else if i == 17 { NucCode::GAP }
    else if i == 16 { NucCode::X }
    else { NucCode::N }
}

/// A mutation packed into one integer: its position times 32 plus its symbol's index.
pub open spec fn mutation_key(m: NucMutation) -> u128 {
    (m.position as u128 * 32 + code_index(m.to) as u128) as u128
}

/// The mutation that a packed integer stands for.
pub open spec fn mutation_of_key(k: u128) -> NucMutation {
    NucMutation { position: (k / 32) as usize, to: code_at_index((k % 32) as u8) }
}

/// Packing and unpacking give back the mutation.
pub proof fn lemma_mutation_key_round_trip(m: NucMutation)
    ensures
        mutation_of_key(mutation_key(m)) == m,
{
    let p = m.position as int;
    let c = code_index(m.to) as int;
    assert(p * 32 + c <= u128::MAX) by (nonlinear_arith)
        requires 0 <= p <= usize::MAX, 0 <= c < 32;
    let k = p * 32 + c;
    assert(k / 32 == p && k % 32 == c) by (nonlinear_arith)
        requires k == p * 32 + c, 0 <= c < 32, 0 <= p;
}

/// The mutation that the text `bytes` names: an optional reference symbol, the
/// decimal position, and the new symbol (`C1234A` or `1234A`).
pub open spec fn mutation_of_text(bytes: Seq<u8>) -> Option<NucMutation> {
    if bytes.len() < 2 {
        None
    } else {
        let start: int = if is_digit(bytes[0]) { 0 } else { 1 };
        match (code_of_byte(bytes.last()), decimal_of(bytes.subrange(start, bytes.len() - 1))) {
            (Some(to), Some(position)) => Some(NucMutation { position, to }),
            _ => None,
        }
    }
}

impl NucMutation {
    /// The canonical text: the position in decimal followed by the symbol.
    pub open spec fn text(self) -> Seq<char> {
        decimal_text(self.position as nat).push(self.to.letter())
    }

    pub fn key(&self) -> (r: u128)
        ensures
            r == mutation_key(*self),
    {
        proof {
            assert(self.position as int * 32 + 31 <= u128::MAX) by (nonlinear_arith)
                requires 0 <= self.position as int <= usize::MAX;
        }
        let c: u8 = match self.to {
            NucCode::A => 0,
            NucCode::C => 1,
            NucCode::G => 2,
            NucCode::T => 3,
            NucCode::U => 4,
            NucCode::M => 5,
            NucCode::R => 6,
            NucCode::W => 7,
            NucCode::S => 8,
            NucCode::Y => 9,
            NucCode::K => 10,
            NucCode::V => 11,
            NucCode::H => 12,
            NucCode::D => 13,
            NucCode::B => 14,
            NucCode::N => 15,
            NucCode::X => 16,
            NucCode::GAP => 17,
        };
        self.position as u128 * 32 + c as u128
    }

    pub fn from_key(k: u128) -> (r: NucMutation)
        requires
            k / 32 <= usize::MAX,
        ensures
            r == mutation_of_key(k),
    {
        let i: u8 = (k % 32) as u8;
        let to = if i == 0 { NucCode::A }
            else if i == 1 { NucCode::C }
            else if i == 2 { NucCode::G }
            else if i == 3 { NucCode::T }
            else if i == 4 { NucCode::U }
            else if i == 5 { NucCode::M }
            else if i == 6 { NucCode::R }
            else if i == 7 { NucCode::W }
            else if i == 8 { NucCode::S }
            else if i == 9 { NucCode::Y }
            else if i == 10 { NucCode::K }
            else if i == 11 { NucCode::V }
            else if i == 12 { NucCode::H }
            else if i == 13 { NucCode::D }
            else if i == 14 { NucCode::B }
            else if i == 17 { NucCode::GAP }
            else if i == 16 { NucCode::X }
            else { NucCode::N };
        NucMutation { position: (k / 32) as usize, to }
    }

    /// Reads a mutation from its text form (`C1234A` or `1234A`).
    pub fn from_str(s: &str) -> (r: Option<NucMutation>)
        ensures
            r == mutation_of_text(s.spec_bytes()),
    {
        let bytes = s.as_bytes();
        let n = bytes.len();
        if n < 2 {
            return None;
        }
        let to = match NucCode::from_byte(&bytes[n - 1]) {
            Some(c) => c,
            None => return None,
        };
        let first = bytes[0];
        let start: usize = if 0x30 <= first && first <= 0x39 { 0 } else { 1 };
        match parse_decimal(bytes, start, n - 1) {
            Some(position) => Some(NucMutation { position, to }),
            None => None,
        }
    }

    /// The canonical text of the mutation, e.g. `1234A`.
    pub fn to_string(&self) -> (r: String)
        ensures
            r@ == self.text(),
    {
        let mut s = usize_text(self.position);
        let letter = self.to.to_string();
        s.append(letter.as_str());
        s
    }
}

} // verus!
