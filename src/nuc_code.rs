use vstd::prelude::*;
use vstd::string::StringSliceAdditionalSpecFns;

verus! {

/// One symbol of the nucleotide alphabet: the four canonical bases, uracil,
/// the IUPAC ambiguity codes, `X`, and the gap (deletion) marker `-`.
#[derive(Clone, Copy, Debug, PartialEq, Eq, Structural, Hash)]
pub enum NucCode {
    A,
    C,
    G,
    T,
    U,
    M,
    R,
    W,
    S,
    Y,
    K,
    V,
    H,
    D,
    B,
    N,
    X,
    GAP,
}

/// The symbol that a byte stands for, if it is one of the alphabet's letters.
pub open spec fn code_of_byte(b: u8) -> Option<NucCode> {
    if b == 0x41 { Some(NucCode::A) }
    else if b == 0x43 { Some(NucCode::C) }
    else if b == 0x47 { Some(NucCode::G) }
    else if b == 0x54 { Some(NucCode::T) }
    else if b == 0x55 { Some(NucCode::U) }
    else if b == 0x4D { Some(NucCode::M) }
    else if b == 0x52 { Some(NucCode::R) }
    else if b == 0x57 { Some(NucCode::W) }
    else if b == 0x53 { Some(NucCode::S) }
    else if b == 0x59 { Some(NucCode::Y) }
    else if b == 0x4B { Some(NucCode::K) }
    else if b == 0x56 { Some(NucCode::V) }
    else if b == 0x48 { Some(NucCode::H) }
    else if b == 0x44 { Some(NucCode::D) }
    else if b == 0x42 { Some(NucCode::B) }
    else if b == 0x4E { Some(NucCode::N) }
    else if b == 0x58 { Some(NucCode::X) }
    else if b == 0x2D { Some(NucCode::GAP) }
    else { None }
}

/// The symbol of a byte, where every byte outside the alphabet reads as `N`.
pub open spec fn code_of_byte_lenient(b: u8) -> NucCode {
    match code_of_byte(b) {
        Some(c) => c,
        None => NucCode::N,
    }
}

/// The symbols of a byte string, where every byte is a letter of the alphabet.
pub open spec fn codes_of_bytes(bs: Seq<u8>) -> Seq<NucCode> {
    bs.map_values(|b: u8| code_of_byte(b)->0)
}

/// Whether every byte of the string is a letter of the alphabet.
pub open spec fn all_codes(bs: Seq<u8>) -> bool {
    forall|i: int| 0 <= i < bs.len() ==> (#[trigger] code_of_byte(bs[i])) is Some
}

impl NucCode {
    /// The letter that stands for the symbol in text.
    pub open spec fn letter(self) -> char {
        match self {
            NucCode::A => 'A',
            NucCode::C => 'C',
            NucCode::G => 'G',
            NucCode::T => 'T',
            NucCode::U => 'U',
            NucCode::M => 'M',
            NucCode::R => 'R',
            NucCode::W => 'W',
            NucCode::S => 'S',
            NucCode::Y => 'Y',
            NucCode::K => 'K',
            NucCode::V => 'V',
            NucCode::H => 'H',
            NucCode::D => 'D',
            NucCode::B => 'B',
            NucCode::N => 'N',
            NucCode::X => 'X',
            NucCode::GAP => '-',
        }
    }

    /// Whether the symbol is one of the four canonical bases or the gap.
    pub open spec fn is_called(self) -> bool {
        self == NucCode::A || self == NucCode::C || self == NucCode::G || self == NucCode::T
            || self == NucCode::GAP
    }

    pub fn from_byte(byte: &u8) -> (r: Option<NucCode>)
        ensures
            r == code_of_byte(*byte),
    {
        match *byte {
            0x41 => Some(NucCode::A),
            0x43 => Some(NucCode::C),
            0x47 => Some(NucCode::G),
            0x54 => Some(NucCode::T),
            0x55 => Some(NucCode::U),
            0x4D => Some(NucCode::M),
            0x52 => Some(NucCode::R),
            0x57 => Some(NucCode::W),
            0x53 => Some(NucCode::S),
            0x59 => Some(NucCode::Y),
            0x4B => Some(NucCode::K),
            0x56 => Some(NucCode::V),
            0x48 => Some(NucCode::H),
            0x44 => Some(NucCode::D),
            0x42 => Some(NucCode::B),
            0x4E => Some(NucCode::N),
            0x58 => Some(NucCode::X),
            0x2D => Some(NucCode::GAP),
            _ => None,
        }
    }

    /// Maps every byte outside the alphabet to `N`.
    pub fn from_byte_ignore_weird(byte: &u8) -> (r: NucCode)
        ensures
            r == code_of_byte_lenient(*byte),
    {
        match NucCode::from_byte(byte) {
            Some(c) => c,
            None => NucCode::N,
        }
    }

    pub fn from_seq_bytes(bytes: &[u8]) -> (r: Option<Vec<NucCode>>)
        ensures
            r is Some <==> all_codes(bytes@),
            r matches Some(v) ==> v@ == codes_of_bytes(bytes@),
    {
        let mut result: Vec<NucCode> = Vec::with_capacity(bytes.len());
        let mut i: usize = 0;
        while i < bytes.len()
            invariant
                i <= bytes@.len(),
                result@ == codes_of_bytes(bytes@.subrange(0, i as int)),
                forall|j: int| 0 <= j < i ==> (#[trigger] code_of_byte(bytes@[j])) is Some,
            decreases bytes@.len() - i,
        {
            match NucCode::from_byte(&bytes[i]) {
                Some(c) => result.push(c),
                None => return None,
            }
            proof {
                assert(bytes@.subrange(0, i + 1) == bytes@.subrange(0, i as int).push(bytes@[i as int]));
            }
            i = i + 1;
        }
        proof {
            assert(bytes@.subrange(0, i as int) == bytes@);
        }
        Some(result)
    }

    pub fn from_seq_string(seq: &str) -> (r: Option<Vec<NucCode>>)
        ensures
            r is Some <==> all_codes(seq.spec_bytes()),
            r matches Some(v) ==> v@ == codes_of_bytes(seq.spec_bytes()),
    {
        NucCode::from_seq_bytes(seq.as_bytes())
    }

    /// The symbol's letter as a one-character string.
    pub fn to_string(&self) -> (r: String)
        ensures
            r@ == seq![self.letter()],
    {
        let s: &str = match self {
            NucCode::A => { proof { reveal_strlit("A"); } "A" },
            NucCode::C => { proof { reveal_strlit("C"); } "C" },
            NucCode::G => { proof { reveal_strlit("G"); } "G" },
            NucCode::T => { proof { reveal_strlit("T"); } "T" },
            NucCode::U => { proof { reveal_strlit("U"); } "U" },
            NucCode::M => { proof { reveal_strlit("M"); } "M" },
            NucCode::R => { proof { reveal_strlit("R"); } "R" },
            NucCode::W => { proof { reveal_strlit("W"); } "W" },
            NucCode::S => { proof { reveal_strlit("S"); } "S" },
            NucCode::Y => { proof { reveal_strlit("Y"); } "Y" },
            NucCode::K => { proof { reveal_strlit("K"); } "K" },
            NucCode::V => { proof { reveal_strlit("V"); } "V" },
            NucCode::H => { proof { reveal_strlit("H"); } "H" },
            NucCode::D => { proof { reveal_strlit("D"); } "D" },
            NucCode::B => { proof { reveal_strlit("B"); } "B" },
            NucCode::N => { proof { reveal_strlit("N"); } "N" },
            NucCode::X => { proof { reveal_strlit("X"); } "X" },
            NucCode::GAP => { proof { reveal_strlit("-"); } "-" },
        };
        s.to_owned()
    }
}

} // verus!
