//! Properties that hold of the decoder as a whole: decoding is
//! deterministic, tag fields always fit their width, encoding then
//! decoding reproduces a record, and interior spaces are cosmetic.

use crate::bits::all_bits;
use crate::bits::bits_of;
use crate::bits::is_bit;
use crate::bits::lemma_bits_of_all_bits;
use crate::bits::lemma_bits_of_len;
use crate::bits::lemma_bits_value_of_bits_of;
use crate::bits::lemma_bits_value_bound;
use crate::lines::strip_spaces;
use crate::record::Binary;
use crate::record::LABEL_OFFSET;
use crate::record::LINE_BITS;
use crate::record::OPCODE_FMT_SIZE;
use crate::record::OPCODE_OFFSET;
use crate::record::OPERAND1_OFFSET;
use crate::record::OPERAND2_OFFSET;
use crate::record::OPTYPE1_OFFSET;
use crate::record::OPTYPE2_OFFSET;
use crate::record::OPTYPE_FMT_SIZE;
use crate::record::decoded_ok;
use crate::record::encode_spec;
use crate::record::record_valid;
use crate::record::word_bits;
use crate::record::word_ok;
use vstd::arithmetic::power2::lemma2_to64;
use vstd::prelude::*;

verus! {

broadcast use vstd::array::group_array_axioms;

/// Decoding is deterministic: one line decodes to one record only. In
/// particular, decoding the same line twice yields identical records.
pub proof fn lemma_decode_deterministic(s: Seq<char>, b1: Binary, b2: Binary)
    requires
        decoded_ok(s, b1),
        decoded_ok(s, b2),
    ensures
        b1 == b2,
{
    lemma_word_eq(s, LABEL_OFFSET as int, b1.label, b2.label);
    lemma_word_eq(s, OPERAND1_OFFSET as int, b1.operand1, b2.operand1);
    lemma_word_eq(s, OPERAND2_OFFSET as int, b1.operand2, b2.operand2);
}

/// Two byte arrays that both hold the bytes of the same field are equal.
proof fn lemma_word_eq(s: Seq<char>, off: int, w1: [u8; 4], w2: [u8; 4])
    requires
        word_ok(s, off, w1),
        word_ok(s, off, w2),
    ensures
        w1 == w2,
{
    assert forall|i: int| 0 <= i < 4 implies w1[i] == w2[i] by {
        assert(w1[i] as nat == crate::bits::bits_value(s.subrange(off + 8 * i, off + 8 * i + 8)));
        assert(w2[i] as nat == crate::bits::bits_value(s.subrange(off + 8 * i, off + 8 * i + 8)));
    }
    assert(w1 =~= w2);
}

/// A decoded record's operand type tags always fit their 4-bit fields:
/// fixed-width parsing cannot produce a tag above 15.
pub proof fn lemma_decoded_in_range(s: Seq<char>, b: Binary)
    requires
        decoded_ok(s, b),
    ensures
        record_valid(b),
{
    lemma2_to64();
    lemma_bits_value_bound(s.subrange(OPTYPE1_OFFSET as int, OPTYPE1_OFFSET + OPTYPE_FMT_SIZE));
    lemma_bits_value_bound(s.subrange(OPTYPE2_OFFSET as int, OPTYPE2_OFFSET + OPTYPE_FMT_SIZE));
}

/// Round trip: the canonical bit-string of any record whose fields are in
/// range decodes back to that record — to it exactly, since decoding is
/// deterministic.
pub proof fn lemma_round_trip(b: Binary)
    requires
        record_valid(b),
    ensures
        decoded_ok(encode_spec(b), b),
{
    lemma2_to64();
    let s = encode_spec(b);
    let a = word_bits(b.label);
    let p = bits_of(b.opcode as nat, OPCODE_FMT_SIZE as nat);
    let t1 = bits_of(b.operand_type1 as nat, OPTYPE_FMT_SIZE as nat);
    let d = word_bits(b.operand1);
    let t2 = bits_of(b.operand_type2 as nat, OPTYPE_FMT_SIZE as nat);
    let f = word_bits(b.operand2);
    lemma_word_bits_len(b.label);
    lemma_word_bits_len(b.operand1);
    lemma_word_bits_len(b.operand2);
    lemma_bits_of_len(b.opcode as nat, OPCODE_FMT_SIZE as nat);
    lemma_bits_of_len(b.operand_type1 as nat, OPTYPE_FMT_SIZE as nat);
    lemma_bits_of_len(b.operand_type2 as nat, OPTYPE_FMT_SIZE as nat);
    assert(s.len() == LINE_BITS);
    lemma_word_bits_all_bits(b.label);
    lemma_word_bits_all_bits(b.operand1);
    lemma_word_bits_all_bits(b.operand2);
    lemma_bits_of_all_bits(b.opcode as nat, OPCODE_FMT_SIZE as nat);
    lemma_bits_of_all_bits(b.operand_type1 as nat, OPTYPE_FMT_SIZE as nat);
    lemma_bits_of_all_bits(b.operand_type2 as nat, OPTYPE_FMT_SIZE as nat);
    lemma_all_bits_add(a, p);
    lemma_all_bits_add(a + p, t1);
    lemma_all_bits_add(a + p + t1, d);
    lemma_all_bits_add(a + p + t1 + d, t2);
    lemma_all_bits_add(a + p + t1 + d + t2, f);
    let s0 = a + p;
    let s1 = s0 + t1;
    let s2 = s1 + d;
    let s3 = s2 + t2;
    lemma_add_subrange_left(s3, f, 0, 32);
    lemma_add_subrange_left(s2, t2, 0, 32);
    lemma_add_subrange_left(s1, d, 0, 32);
    lemma_add_subrange_left(s0, t1, 0, 32);
    lemma_add_subrange_left(a, p, 0, 32);
    assert(a.subrange(0, 32) =~= a);
    lemma_add_subrange_left(s3, f, 32, 40);
    lemma_add_subrange_left(s2, t2, 32, 40);
    lemma_add_subrange_left(s1, d, 32, 40);
    lemma_add_subrange_left(s0, t1, 32, 40);
    lemma_add_subrange_right(a, p, 0, 8);
    assert(p.subrange(0, 8) =~= p);
    lemma_add_subrange_left(s3, f, 40, 44);
    lemma_add_subrange_left(s2, t2, 40, 44);
    lemma_add_subrange_left(s1, d, 40, 44);
    lemma_add_subrange_right(s0, t1, 0, 4);
    assert(t1.subrange(0, 4) =~= t1);
    lemma_add_subrange_left(s3, f, 44, 76);
    lemma_add_subrange_left(s2, t2, 44, 76);
    lemma_add_subrange_right(s1, d, 0, 32);
    assert(d.subrange(0, 32) =~= d);
    lemma_add_subrange_left(s3, f, 76, 80);
    lemma_add_subrange_right(s2, t2, 0, 4);
    assert(t2.subrange(0, 4) =~= t2);
    lemma_add_subrange_right(s3, f, 0, 32);
    assert(f.subrange(0, 32) =~= f);
    assert(s.subrange(LABEL_OFFSET as int, LABEL_OFFSET + 8 * 4) == a);
    assert(s.subrange(OPCODE_OFFSET as int, OPCODE_OFFSET + OPCODE_FMT_SIZE) == p);
    assert(s.subrange(OPTYPE1_OFFSET as int, OPTYPE1_OFFSET + OPTYPE_FMT_SIZE) == t1);
    assert(s.subrange(OPERAND1_OFFSET as int, OPERAND1_OFFSET + 8 * 4) == d);
    assert(s.subrange(OPTYPE2_OFFSET as int, OPTYPE2_OFFSET + OPTYPE_FMT_SIZE) == t2);
    assert(s.subrange(OPERAND2_OFFSET as int, OPERAND2_OFFSET + 8 * 4) == f);
    lemma_word_round_trip(s, LABEL_OFFSET as int, b.label);
    lemma_word_round_trip(s, OPERAND1_OFFSET as int, b.operand1);
    lemma_word_round_trip(s, OPERAND2_OFFSET as int, b.operand2);
    lemma_bits_value_of_bits_of(b.opcode as nat, OPCODE_FMT_SIZE as nat);
    lemma_bits_value_of_bits_of(b.operand_type1 as nat, OPTYPE_FMT_SIZE as nat);
    lemma_bits_value_of_bits_of(b.operand_type2 as nat, OPTYPE_FMT_SIZE as nat);
}

/// The canonical text of a 32-bit field is 32 characters long.
proof fn lemma_word_bits_len(w: [u8; 4])
    ensures
        word_bits(w).len() == 8 * 4,
{
    lemma_bits_of_len(w[0] as nat, 8);
    lemma_bits_of_len(w[1] as nat, 8);
    lemma_bits_of_len(w[2] as nat, 8);
    lemma_bits_of_len(w[3] as nat, 8);
}

/// The canonical text of a 32-bit field holds bit characters only.
proof fn lemma_word_bits_all_bits(w: [u8; 4])
    ensures
        all_bits(word_bits(w)),
{
    lemma_bits_of_all_bits(w[0] as nat, 8);
    lemma_bits_of_all_bits(w[1] as nat, 8);
    lemma_bits_of_all_bits(w[2] as nat, 8);
    lemma_bits_of_all_bits(w[3] as nat, 8);
    lemma_all_bits_add(bits_of(w[0] as nat, 8), bits_of(w[1] as nat, 8));
    lemma_all_bits_add(
        bits_of(w[0] as nat, 8) + bits_of(w[1] as nat, 8),
        bits_of(w[2] as nat, 8),
    );
    lemma_all_bits_add(
        bits_of(w[0] as nat, 8) + bits_of(w[1] as nat, 8) + bits_of(w[2] as nat, 8),
        bits_of(w[3] as nat, 8),
    );
}

/// Bit characters survive concatenation.
proof fn lemma_all_bits_add(a: Seq<char>, b: Seq<char>)
    requires
        all_bits(a),
        all_bits(b),
    ensures
        all_bits(a + b),
{
    assert forall|i: int| 0 <= i < (a + b).len() implies is_bit(#[trigger] (a + b)[i]) by {
        if i < a.len() {
            assert((a + b)[i] == a[i]);
        } else {
            assert((a + b)[i] == b[i - a.len()]);
        }
    }
}

/// A 32-bit slice of `s` that holds a field's canonical text decodes to
/// the field's bytes.
proof fn lemma_word_round_trip(s: Seq<char>, off: int, w: [u8; 4])
    requires
        0 <= off,
        off + 8 * 4 <= s.len(),
        s.subrange(off, off + 8 * 4) == word_bits(w),
    ensures
        word_ok(s, off, w),
{
    lemma2_to64();
    lemma_bits_of_len(w[0] as nat, 8);
    lemma_bits_of_len(w[1] as nat, 8);
    lemma_bits_of_len(w[2] as nat, 8);
    lemma_bits_of_len(w[3] as nat, 8);
    let g0 = bits_of(w[0] as nat, 8);
    let g1 = bits_of(w[1] as nat, 8);
    let g2 = bits_of(w[2] as nat, 8);
    let g3 = bits_of(w[3] as nat, 8);
    let ww = s.subrange(off, off + 8 * 4);
    lemma_add_subrange_left(g0 + g1 + g2, g3, 0, 8);
    lemma_add_subrange_left(g0 + g1, g2, 0, 8);
    lemma_add_subrange_left(g0, g1, 0, 8);
    assert(g0.subrange(0, 8) =~= g0);
    lemma_add_subrange_left(g0 + g1 + g2, g3, 8, 16);
    lemma_add_subrange_left(g0 + g1, g2, 8, 16);
    lemma_add_subrange_right(g0, g1, 0, 8);
    assert(g1.subrange(0, 8) =~= g1);
    lemma_add_subrange_left(g0 + g1 + g2, g3, 16, 24);
    lemma_add_subrange_right(g0 + g1, g2, 0, 8);
    assert(g2.subrange(0, 8) =~= g2);
    lemma_add_subrange_right(g0 + g1 + g2, g3, 0, 8);
    assert(g3.subrange(0, 8) =~= g3);
    assert(s.subrange(off + 8 * 0, off + 8 * 0 + 8) =~= ww.subrange(0, 8));
    assert(s.subrange(off + 8 * 1, off + 8 * 1 + 8) =~= ww.subrange(8, 16));
    assert(s.subrange(off + 8 * 2, off + 8 * 2 + 8) =~= ww.subrange(16, 24));
    assert(s.subrange(off + 8 * 3, off + 8 * 3 + 8) =~= ww.subrange(24, 32));
    lemma_bits_value_of_bits_of(w[0] as nat, 8);
    lemma_bits_value_of_bits_of(w[1] as nat, 8);
    lemma_bits_value_of_bits_of(w[2] as nat, 8);
    lemma_bits_value_of_bits_of(w[3] as nat, 8);
    assert forall|i: int| 0 <= i < 4 implies (#[trigger] w[i]) as nat == crate::bits::bits_value(
        s.subrange(off + 8 * i, off + 8 * i + 8),
    ) by {
        assert(i == 0 || i == 1 || i == 2 || i == 3);
    }
}

/// The piece of `a + b` that lies within `a` reads as the same piece of
/// `a`.
proof fn lemma_add_subrange_left(a: Seq<char>, b: Seq<char>, from: int, to: int)
    requires
        0 <= from <= to <= a.len(),
    ensures
        (a + b).subrange(from, to) == a.subrange(from, to),
{
    assert((a + b).subrange(from, to) =~= a.subrange(from, to));
}

/// The piece of `a + b` that lies within `b` reads as a piece of `b`.
proof fn lemma_add_subrange_right(a: Seq<char>, b: Seq<char>, from: int, to: int)
    requires
        0 <= from <= to <= b.len(),
    ensures
        (a + b).subrange(a.len() + from, a.len() + to) == b.subrange(from, to),
{
    assert((a + b).subrange(a.len() + from, a.len() + to) =~= b.subrange(from, to));
}

/// Stripping is the identity on a line that holds no spaces.
pub proof fn lemma_strip_spaces_noop(s: Seq<char>)
    requires
        forall|i: int| 0 <= i < s.len() ==> s[i] != ' ',
    ensures
        strip_spaces(s) == s,
    decreases s.len(),
{
    if s.len() == 0 {
        assert(strip_spaces(s) =~= s);
    } else {
        lemma_strip_spaces_noop(s.drop_last());
        assert(strip_spaces(s.drop_last()).push(s.last()) =~= s);
    }
}

/// Interior spaces are cosmetic: a line that strips to a space-free line
/// decodes, after stripping, exactly as that space-free line does.
pub proof fn lemma_spaces_cosmetic(spaced: Seq<char>, plain: Seq<char>, b: Binary)
    requires
        forall|i: int| 0 <= i < plain.len() ==> plain[i] != ' ',
        strip_spaces(spaced) == plain,
    ensures
        decoded_ok(strip_spaces(spaced), b) <==> decoded_ok(strip_spaces(plain), b),
{
    lemma_strip_spaces_noop(plain);
}

} // verus!
