//! The key grammar of the register document: a decimal address, optionally
//! followed by `/` and a one-letter code that says how the value is packed
//! into 16-bit words.

use vstd::prelude::*;
use crate::text::{chars_of, find, find_char, parse_unsigned, unsigned_numeral};

verus! {

/// How an integer is laid out over consecutive registers.
#[derive(Clone, Copy, Debug, PartialEq, Eq, Structural)]
pub enum PackType {
    U16,
    I16,
    U32,
    I32,
    U64,
    I64,
}

/// The pack type that the code letter `c` stands for.
pub open spec fn pack_code(c: char) -> Option<PackType> {
    if c == 'h' {
        Some(PackType::I16)
    } else if c == 'H' {
        Some(PackType::U16)
    } else if c == 'i' {
        Some(PackType::I32)
    } else if c == 'I' {
        Some(PackType::U32)
    } else if c == 'q' {
        Some(PackType::I64)
    } else if c == 'Q' {
        Some(PackType::U64)
    } else {
        None
    }
}

impl PackType {
    /// The number of 16-bit words that a value of this type occupies.
    pub open spec fn width(self) -> nat {
        match self {
            PackType::U16 | PackType::I16 => 1,
            PackType::U32 | PackType::I32 => 2,
            PackType::U64 | PackType::I64 => 4,
        }
    }

    /// Whether values of this type carry a sign.
    pub open spec fn signed(self) -> bool {
        self is I16 || self is I32 || self is I64
    }

    /// The pack type for a code letter given as an ASCII byte.
    pub fn from_char(value: &u8) -> (out: Option<Self>)
        ensures
            out == pack_code(*value as char),
    {
        let b: u8 = *value;
        if b == 104 {
            Some(PackType::I16)
        } else if b == 72 {
            Some(PackType::U16)
        } else if b == 105 {
            Some(PackType::I32)
        } else if b == 73 {
            Some(PackType::U32)
        } else if b == 113 {
            Some(PackType::I64)
        } else if b == 81 {
            Some(PackType::U64)
        } else {
            None
        }
    }

    /// The number of 16-bit words that a value of this type occupies.
    pub fn len(&self) -> (out: usize)
        ensures
            out == self.width(),
    {
        match self {
            PackType::U16 | PackType::I16 => 1,
            PackType::U32 | PackType::I32 => 2,
            PackType::U64 | PackType::I64 => 4,
        }
    }
}

/// A parsed key: the address of the first word and the pack type.
#[derive(Clone, Copy, Debug, PartialEq, Eq, Structural)]
pub struct PackFormat {
    pub address: u16,
    pub pack_type: PackType,
}

/// Why a key was not accepted.
#[derive(Clone, Copy, Debug, PartialEq, Eq, Structural)]
pub enum PackError {
    Unsupported,
}

/// The largest address that a key can name.
pub const MAX_ADDRESS: u64 = 65535;

/// What the key `key` denotes, if it follows the grammar: up to the first `/`
/// an unsigned decimal address of 16 bits, after it exactly one code letter;
/// without a `/` the whole key is the address and the type is `U16`.
pub open spec fn key_format(key: Seq<char>) -> Option<PackFormat> {
    let cut = find_char(key, '/');
    if cut < key.len() {
        let code = key.skip(cut + 1);
        match unsigned_numeral(key.take(cut), MAX_ADDRESS as nat) {
            Some(address) => if code.len() == 1 {
                match pack_code(code[0]) {
                    Some(pack_type) => Some(PackFormat { address: address as u16, pack_type }),
                    None => None,
                }
            } else {
                None
            },
            None => None,
        }
    } else {
        match unsigned_numeral(key, MAX_ADDRESS as nat) {
            Some(address) => Some(PackFormat { address: address as u16, pack_type: PackType::U16 }),
            None => None,
        }
    }
}

/// The byte that encodes `c`, where `c` is an ASCII character.
fn ascii_byte(c: char) -> (out: Option<u8>)
    ensures
        out matches Some(byte) ==> byte as char == c,
        out is None ==> pack_code(c) is None,
{
    let point: u32 = c as u32;
    if point > 127 {
        None
    } else {
        Some(point as u8)
    }
}

impl PackFormat {
    /// Parses a key of the register document.
    pub fn parse(addr: &str) -> (out: Result<Self, PackError>)
        ensures
            out == match key_format(addr@) {
                Some(format) => Ok::<PackFormat, PackError>(format),
                None => Err(PackError::Unsupported),
            },
    {
        let chars = chars_of(addr);
        let cut = find(&chars, '/');
        if cut < chars.len() {
            assert(chars@.subrange(0, cut as int) == chars@.take(cut as int));
            let address = match parse_unsigned(&chars, 0, cut, MAX_ADDRESS) {
                Some(n) => n as u16,
                None => {
                    return Err(PackError::Unsupported);
                },
            };
            if chars.len() - cut != 2 {
                return Err(PackError::Unsupported);
            }
            let code: char = chars[cut + 1];
            assert(chars@.skip(cut + 1)[0] == code);
            match ascii_byte(code) {
                Some(byte) => match PackType::from_char(&byte) {
                    Some(pack_type) => Ok(PackFormat { address, pack_type }),
                    None => Err(PackError::Unsupported),
                },
                None => Err(PackError::Unsupported),
            }
        } else {
            assert(chars@.subrange(0, chars.len() as int) == chars@);
            match parse_unsigned(&chars, 0, chars.len(), MAX_ADDRESS) {
                Some(n) => Ok(PackFormat { address: n as u16, pack_type: PackType::U16 }),
                None => Err(PackError::Unsupported),
            }
        }
    }
}

} // verus!
