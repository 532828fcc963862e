//! The instruction record, the fixed field layout, and the decode relation.

use crate::bits::all_bits;
use crate::bits::bits_of;
use crate::bits::bits_string;
use crate::bits::bits_value;
use crate::bits::is_bit;
use crate::lines::push_char;
use vstd::prelude::*;

verus! {

/// Width in bits of the label field.
pub const LABEL_FMT_SIZE: usize = 8 * 4;

/// Width in bits of the opcode field.
pub const OPCODE_FMT_SIZE: usize = 8;

/// Width in bits of each operand type tag field.
pub const OPTYPE_FMT_SIZE: usize = 4;

/// Width in bits of each operand value field.
pub const OPERAND_FMT_SIZE: usize = 8 * 4;

/// Offset of the label field. The following offsets accumulate the field
/// widths in layout order, so the layout is audited in one place.
pub const LABEL_OFFSET: usize = 0;

/// Offset of the opcode field.
pub const OPCODE_OFFSET: usize = LABEL_OFFSET + LABEL_FMT_SIZE;

/// Offset of the first operand's type tag.
pub const OPTYPE1_OFFSET: usize = OPCODE_OFFSET + OPCODE_FMT_SIZE;

/// Offset of the first operand's value.
pub const OPERAND1_OFFSET: usize = OPTYPE1_OFFSET + OPTYPE_FMT_SIZE;

/// Offset of the second operand's type tag.
pub const OPTYPE2_OFFSET: usize = OPERAND1_OFFSET + OPERAND_FMT_SIZE;

/// Offset of the second operand's value.
pub const OPERAND2_OFFSET: usize = OPTYPE2_OFFSET + OPTYPE_FMT_SIZE;

/// Total width in bits of one instruction line.
pub const LINE_BITS: usize = OPERAND2_OFFSET + OPERAND_FMT_SIZE;

/// One decoded instruction.
///
/// Each 32-bit field is stored as four bytes in textual left-to-right group
/// order: byte `i` comes from the `i`-th 8-character group of the field's
/// text. No byte-order reversal is performed; a producer that wants a
/// little-endian reading must already have arranged the groups that way in
/// the source text.
#[derive(Clone, Copy, Debug, PartialEq, Eq)]
pub struct Binary {
    /// The 32-bit label, as four bytes in group order.
    pub label: [u8; 4],
    /// The 8-bit opcode.
    pub opcode: u8,
    /// The 4-bit type tag of the first operand.
    pub operand_type1: u8,
    /// The 32-bit value of the first operand, as four bytes in group order.
    pub operand1: [u8; 4],
    /// The 4-bit type tag of the second operand.
    pub operand_type2: u8,
    /// The 32-bit value of the second operand, as four bytes in group order.
    pub operand2: [u8; 4],
}

/// The named fields of an instruction line, in layout order.
#[derive(Clone, Copy, Debug, PartialEq, Eq, Structural)]
pub enum Field {
    /// The 32-bit label.
    Label,
    /// The 8-bit opcode.
    Opcode,
    /// The first operand's 4-bit type tag.
    Operand1Type,
    /// The first operand's 32-bit value.
    Operand1,
    /// The second operand's 4-bit type tag.
    Operand2Type,
    /// The second operand's 32-bit value.
    Operand2,
}

/// Why one line could not be decoded.
#[derive(Clone, Copy, Debug, PartialEq, Eq)]
pub enum DecodeError {
    /// After space stripping the line does not hold exactly `LINE_BITS`
    /// characters; `len` is the stripped length found.
    MalformedLineLength {
        /// The stripped length found.
        len: usize,
    },
    /// The character at `offset` (in the stripped line) is neither `'0'` nor
    /// `'1'`; `field` is the field that the offset falls in.
    InvalidBitCharacter {
        /// The field the offending character falls in.
        field: Field,
        /// The offset of the offending character in the stripped line.
        offset: usize,
    },
}

/// A decode failure of one line of a batch, with the line's 1-based number
/// in the input text (counting every newline-separated line, empty ones
/// included).
#[derive(Clone, Copy, Debug, PartialEq, Eq)]
pub struct LineError {
    /// The 1-based line number.
    pub line: usize,
    /// What went wrong on that line.
    pub error: DecodeError,
}

/// The field that a bit offset of an instruction line falls in.
pub open spec fn field_at(off: int) -> Field {
    if off < OPCODE_OFFSET {
        Field::Label
    } else if off < OPTYPE1_OFFSET {
        Field::Opcode
    } else if off < OPERAND1_OFFSET {
        Field::Operand1Type
    } else if off < OPTYPE2_OFFSET {
        Field::Operand1
    } else if off < OPERAND2_OFFSET {
        Field::Operand2Type
    } else {
        Field::Operand2
    }
}

/// The line is well-formed: exactly `LINE_BITS` characters, all bits.
pub open spec fn line_ok(s: Seq<char>) -> bool {
    s.len() == LINE_BITS && all_bits(s)
}

/// `w` holds the four bytes of the 32-bit field of `s` at offset `off`:
/// byte `i` is the MSB-first value of the `i`-th 8-character group.
pub open spec fn word_ok(s: Seq<char>, off: int, w: [u8; 4]) -> bool {
    forall|i: int|
        0 <= i < 4 ==> (#[trigger] w[i]) as nat == bits_value(
            s.subrange(off + 8 * i, off + 8 * i + 8),
        )
}

/// `b` is the record decoded from the well-formed line `s`: every field's
/// integer value equals the MSB-first reading of its text slice, with the
/// 32-bit fields split into four 8-character groups in textual order.
pub open spec fn decoded_ok(s: Seq<char>, b: Binary) -> bool {
    &&& line_ok(s)
    &&& word_ok(s, LABEL_OFFSET as int, b.label)
    &&& b.opcode as nat == bits_value(
        s.subrange(OPCODE_OFFSET as int, OPCODE_OFFSET + OPCODE_FMT_SIZE),
    )
    &&& b.operand_type1 as nat == bits_value(
        s.subrange(OPTYPE1_OFFSET as int, OPTYPE1_OFFSET + OPTYPE_FMT_SIZE),
    )
    &&& word_ok(s, OPERAND1_OFFSET as int, b.operand1)
    &&& b.operand_type2 as nat == bits_value(
        s.subrange(OPTYPE2_OFFSET as int, OPTYPE2_OFFSET + OPTYPE_FMT_SIZE),
    )
    &&& word_ok(s, OPERAND2_OFFSET as int, b.operand2)
}

/// The operand type tags fit their 4-bit fields; every other field is
/// bounded by its storage type already.
pub open spec fn record_valid(b: Binary) -> bool {
    b.operand_type1 < 16 && b.operand_type2 < 16
}

/// The canonical text of a 32-bit field: the four bytes' 8-character
/// groups, concatenated in stored order, each MSB first.
pub open spec fn word_bits(w: [u8; 4]) -> Seq<char> {
    bits_of(w[0] as nat, 8) + bits_of(w[1] as nat, 8) + bits_of(w[2] as nat, 8) + bits_of(
        w[3] as nat,
        8,
    )
}

/// The canonical bit-string of a record: every field's canonical text,
/// concatenated in layout order. Only the low 4 bits of each operand type
/// tag are represented, since that is all its field can carry.
pub open spec fn encode_spec(b: Binary) -> Seq<char> {
    word_bits(b.label) + bits_of(b.opcode as nat, OPCODE_FMT_SIZE as nat) + bits_of(
        b.operand_type1 as nat,
        OPTYPE_FMT_SIZE as nat,
    ) + word_bits(b.operand1) + bits_of(b.operand_type2 as nat, OPTYPE_FMT_SIZE as nat)
        + word_bits(b.operand2)
}

impl Binary {
    /// Encode the record back into its canonical bit-string, as characters.
    pub fn encode(&self) -> (r: Vec<char>)
        ensures
            r@ == encode_spec(*self),
    {
        let mut r: Vec<char> = Vec::new();
        append_word(&mut r, &self.label);
        let mut g = bits_string(self.opcode, OPCODE_FMT_SIZE);
        r.append(&mut g);
        let mut g = bits_string(self.operand_type1, OPTYPE_FMT_SIZE);
        r.append(&mut g);
        append_word(&mut r, &self.operand1);
        let mut g = bits_string(self.operand_type2, OPTYPE_FMT_SIZE);
        r.append(&mut g);
        append_word(&mut r, &self.operand2);
        proof {
            assert(r@ =~= encode_spec(*self));
        }
        r
    }

    /// Encode the record back into its canonical bit-string, as a string.
    pub fn encode_line(&self) -> (r: String)
        ensures
            r@ == encode_spec(*self),
    {
        let v = self.encode();
        let mut s = String::new();
        let mut i: usize = 0;
        while i < v.len()
            invariant
                i <= v@.len(),
                v@ == encode_spec(*self),
                s@ == v@.subrange(0, i as int),
            decreases v@.len() - i,
        {
            push_char(&mut s, v[i]);
            proof {
                assert(v@.subrange(0, i + 1) =~= v@.subrange(0, i as int).push(v@[i as int]));
            }
            i = i + 1;
        }
        proof {
            assert(v@.subrange(0, v@.len() as int) =~= v@);
        }
        s
    }
}

/// Append the canonical text of a 32-bit field.
fn append_word(out: &mut Vec<char>, w: &[u8; 4])
    ensures
        final(out)@ == old(out)@ + word_bits(*w),
{
    let mut g = bits_string(w[0], 8);
    out.append(&mut g);
    let mut g = bits_string(w[1], 8);
    out.append(&mut g);
    let mut g = bits_string(w[2], 8);
    out.append(&mut g);
    let mut g = bits_string(w[3], 8);
    out.append(&mut g);
    proof {
        assert(out@ =~= old(out)@ + word_bits(*w));
    }
}

/// `e` is the error owed for the line `s`: a length error when `s` is not
/// exactly `LINE_BITS` characters long, else a character error naming the
/// first offset holding a non-bit character and the field it falls in.
pub open spec fn line_err(s: Seq<char>, e: DecodeError) -> bool {
    if s.len() != LINE_BITS {
        e == (DecodeError::MalformedLineLength { len: s.len() as usize })
    } else {
        match e {
            DecodeError::InvalidBitCharacter { field, offset } => {
                &&& offset < LINE_BITS
                &&& !is_bit(s[offset as int])
                &&& forall|j: int| 0 <= j < offset ==> is_bit(#[trigger] s[j])
                &&& field == field_at(offset as int)
            },
            _ => false,
        }
    }
}

} // verus!
