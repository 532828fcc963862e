//! The instruction decoder: single-line decode over the fixed field layout.

use crate::bits::all_bits;
use crate::bits::is_bit;
use crate::bits::parse_bits_u8;
use crate::lines::bad_of;
use crate::lines::batch_ok;
use crate::lines::decodes_of;
use crate::lines::first_bad_line;
use crate::lines::good_of;
use crate::lines::reports_of;
use crate::lines::kept_lines;
use crate::lines::kept_of;
use crate::lines::lemma_kept_of_prefix;
use crate::lines::lemma_split_lines_extend;
use crate::lines::lemma_split_lines_size;
use crate::lines::push_char;
use crate::lines::split_lines;
use crate::lines::strip_spaces;
use crate::record::Binary;
use crate::record::DecodeError;
use crate::record::Field;
use crate::record::LineError;
use crate::record::LABEL_OFFSET;
use crate::record::LINE_BITS;
use crate::record::OPCODE_FMT_SIZE;
use crate::record::OPCODE_OFFSET;
use crate::record::OPERAND1_OFFSET;
use crate::record::OPERAND2_OFFSET;
use crate::record::OPTYPE1_OFFSET;
use crate::record::OPTYPE2_OFFSET;
use crate::record::OPTYPE_FMT_SIZE;
use crate::record::decoded_ok;
use crate::record::field_at;
use crate::record::line_err;
use crate::record::line_ok;
use crate::record::word_ok;
use vstd::prelude::*;
use vstd::string::StrSliceExecFns;

verus! {

/// Decoder over a block of instruction text.
pub struct BinParser<'a> {
    /// The text to decode: one instruction per line.
    pub bin: &'a str,
    /// Unused cursor kept for callers that track a position themselves.
    pub index: usize,
}

impl<'a> BinParser<'a> {
    /// Make a decoder over `bin`.
    pub fn new(bin: &'a str) -> (r: Self)
        ensures
            r.bin@ == bin@,
            r.index == 0,
    {
        Self { bin, index: 0 }
    }

    /// Convert a 32-character bit-string into four bytes: the four
    /// consecutive 8-character groups, each parsed MSB first, stored at
    /// positions 0 to 3 in textual group order. No byte-order reversal is
    /// performed.
    pub fn compile_bin_le_bytes(&self, string: &str) -> (w: [u8; 4])
        requires
            string@.len() == 4 * 8,
            all_bits(string@),
        ensures
            word_ok(string@, 0, w),
    {
        let mut w: [u8; 4] = [0, 0, 0, 0];
        let mut g: usize = 0;
        while g < 4
        invariant
            string@.len() == 4 * 8,
            all_bits(string@),
            g <= 4,
            forall|i: int|
                0 <= i < g ==> (#[trigger] w[i]) as nat == crate::bits::bits_value(
                    string@.subrange(8 * i, 8 * i + 8),
                ),
        decreases 4 - g,
        {
            let group = string.substring_char(8 * g, 8 * g + 8);
            proof {
                assert forall|i: int| 0 <= i < group@.len() implies is_bit(#[trigger] group@[i]) by {
                    assert(group@[i] == string@[8 * (g as int) + i]);
                }
            }
            let b = parse_bits_u8(group);
            w[g] = b;
            g = g + 1;
        }
        w
    }

    /// Decode one whitespace-stripped line.
    ///
    /// Returns the record whose six fields are the MSB-first readings of
    /// the line's fixed-offset slices, or the error owed for the line: a
    /// `MalformedLineLength` when the line is not exactly `LINE_BITS`
    /// characters, else an `InvalidBitCharacter` naming the first non-bit
    /// character's field and offset.
    pub fn compile(&mut self, bin: String) -> (r: Result<Binary, DecodeError>)
        ensures
            *final(self) == *old(self),
            r is Ok <==> line_ok(bin@),
            match r {
                Ok(b) => decoded_ok(bin@, b),
                Err(e) => line_err(bin@, e),
            },
    {
        let line = bin.as_str();
        let n = line.unicode_len();
        if n != LINE_BITS {
            return Err(DecodeError::MalformedLineLength { len: n });
        }
        let mut i: usize = 0;
        while i < LINE_BITS
            invariant
                line@ == bin@,
                line@.len() == LINE_BITS,
                i <= LINE_BITS,
                forall|j: int| 0 <= j < i ==> is_bit(#[trigger] line@[j]),
            decreases LINE_BITS - i,
        {
            let c = line.get_char(i);
            if c != '0' && c != '1' {
                return Err(
                    DecodeError::InvalidBitCharacter { field: field_of_offset(i), offset: i },
                );
            }
            i = i + 1;
        }
        let label = self.compile_bin_le_bytes(
            line.substring_char(LABEL_OFFSET, LABEL_OFFSET + 8 * 4),
        );
        let opcode = parse_bits_u8(
            line.substring_char(OPCODE_OFFSET, OPCODE_OFFSET + OPCODE_FMT_SIZE),
        );
        let operand_type1 = parse_bits_u8(
            line.substring_char(OPTYPE1_OFFSET, OPTYPE1_OFFSET + OPTYPE_FMT_SIZE),
        );
        let operand1 = self.compile_bin_le_bytes(
            line.substring_char(OPERAND1_OFFSET, OPERAND1_OFFSET + 8 * 4),
        );
        let operand_type2 = parse_bits_u8(
            line.substring_char(OPTYPE2_OFFSET, OPTYPE2_OFFSET + OPTYPE_FMT_SIZE),
        );
        let operand2 = self.compile_bin_le_bytes(
            line.substring_char(OPERAND2_OFFSET, OPERAND2_OFFSET + 8 * 4),
        );
        let b = Binary { label, opcode, operand_type1, operand1, operand_type2, operand2 };
        proof {
            lemma_slices_decode(bin@, b);
        }
        Ok(b)
    }

    /// Decode every line of the text, aborting at the first failure.
    ///
    /// The text is split on newlines; empty lines are discarded; every
    /// remaining line is stripped of its spaces and decoded in input order.
    /// On the first line that fails, the error comes back together with the
    /// line's 1-based number (counting every split line, empty ones
    /// included) and nothing else is decoded.
    pub fn compiles(&mut self) -> (r: Result<Vec<Binary>, LineError>)
        ensures
            *final(self) == *old(self),
            r is Ok <==> batch_ok(kept_lines(old(self).bin@)),
            match r {
                Ok(v) => decodes_of(v@, kept_lines(old(self).bin@)),
                Err(e) => first_bad_line(kept_lines(old(self).bin@), e),
            },
    {
        let text: &'a str = self.bin;
        let n = text.unicode_len();
        let mut out: Vec<Binary> = Vec::new();
        let mut cur: String = String::new();
        let mut cur_raw_empty: bool = true;
        let mut done_lines: usize = 0;
        let mut i: usize = 0;
        proof {
            assert(text@.subrange(0, 0) =~= Seq::<char>::empty());
            assert(seq![Seq::<char>::empty()].drop_last() =~= Seq::<Seq<char>>::empty());
        }
        while i < n
            invariant
                *self == *old(self),
                text@ == old(self).bin@,
                n == text@.len(),
                i <= n,
                split_lines(text@.subrange(0, i as int)).len() == done_lines + 1,
                cur@ == strip_spaces(split_lines(text@.subrange(0, i as int)).last()),
                cur_raw_empty == (split_lines(text@.subrange(0, i as int)).last().len() == 0),
                out@.len() == kept_of(split_lines(text@.subrange(0, i as int)).drop_last()).len(),
                forall|k: int|
                    0 <= k < out@.len() ==> decoded_ok(
                        kept_of(split_lines(text@.subrange(0, i as int)).drop_last())[k].1,
                        #[trigger] out@[k],
                    ),
            decreases n - i,
        {
            let ghost pre = text@.subrange(0, i as int);
            let ghost ls = split_lines(pre);
            let ghost pre2 = text@.subrange(0, i + 1);
            let c = text.get_char(i);
            proof {
                assert(pre2.drop_last() =~= pre);
                assert(pre2.last() == text@[i as int]);
                lemma_split_lines_size(pre);
            }
            if c == '\n' {
                proof {
                    assert(split_lines(pre2) == ls.push(Seq::<char>::empty()));
                    assert(ls.push(Seq::<char>::empty()).drop_last() =~= ls);
                }
                if !cur_raw_empty {
                    let ghost curv = cur@;
                    match self.compile(cur) {
                        Ok(b) => {
                            out.push(b);
                            proof {
                                assert(kept_of(ls) == kept_of(ls.drop_last()).push(
                                    (ls.len() as int, strip_spaces(ls.last())),
                                ));
                            }
                        },
                        Err(e) => {
                            let le = LineError { line: done_lines + 1, error: e };
                            proof {
                                assert forall|k: int| 0 <= k < out@.len() implies crate::record::line_ok(
                                    (#[trigger] kept_of(ls.drop_last())[k]).1,
                                ) by {
                                    assert(decoded_ok(kept_of(ls.drop_last())[k].1, out@[k]));
                                }
                                lemma_abort_witness(text@, i + 1, curv, e, le, out@.len() as int);
                            }
                            return Err(le);
                        },
                    }
                    cur = String::new();
                } else {
                    proof {
                        assert(kept_of(ls) == kept_of(ls.drop_last()));
                    }
                    cur = String::new();
                }
                cur_raw_empty = true;
                done_lines = done_lines + 1;
            } else if c == ' ' {
                proof {
                    let ls2 = split_lines(pre2);
                    assert(ls2 == ls.update(ls.len() - 1, ls.last().push(' ')));
                    assert(ls2.drop_last() =~= ls.drop_last());
                    assert(ls2.last() == ls.last().push(' '));
                    assert(ls.last().push(' ').drop_last() =~= ls.last());
                }
                cur_raw_empty = false;
            } else {
                proof {
                    let ls2 = split_lines(pre2);
                    assert(ls2 == ls.update(ls.len() - 1, ls.last().push(c)));
                    assert(ls2.drop_last() =~= ls.drop_last());
                    assert(ls2.last() == ls.last().push(c));
                    assert(ls.last().push(c).drop_last() =~= ls.last());
                }
                push_char(&mut cur, c);
                cur_raw_empty = false;
            }
            i = i + 1;
        }
        let ghost full = text@;
        let ghost ls = split_lines(full);
        proof {
            assert(text@.subrange(0, n as int) =~= full);
            lemma_split_lines_size(full);
        }
        if !cur_raw_empty {
            let ghost curv = cur@;
            match self.compile(cur) {
                Ok(b) => {
                    out.push(b);
                    proof {
                        assert(kept_of(ls) == kept_of(ls.drop_last()).push(
                            (ls.len() as int, strip_spaces(ls.last())),
                        ));
                    }
                },
                Err(e) => {
                    let le = LineError { line: done_lines + 1, error: e };
                    proof {
                        let ks = kept_lines(full);
                        let w = out@.len() as int;
                        assert(kept_of(ls) == kept_of(ls.drop_last()).push(
                            (ls.len() as int, curv),
                        ));
                        assert(ks[w] == (ls.len() as int, curv));
                        assert(!crate::record::line_ok(ks[w].1));
                        assert forall|j: int| 0 <= j < w implies crate::record::line_ok(
                            (#[trigger] ks[j]).1,
                        ) by {
                            assert(ks[j] == kept_of(ls.drop_last())[j]);
                            assert(decoded_ok(kept_of(ls.drop_last())[j].1, out@[j]));
                        }
                        assert(first_bad_line(ks, le));
                    }
                    return Err(le);
                },
            }
        } else {
            proof {
                assert(kept_of(ls) == kept_of(ls.drop_last()));
            }
        }
        proof {
            let ks = kept_lines(full);
            assert forall|k: int| 0 <= k < ks.len() implies crate::record::line_ok(
                (#[trigger] ks[k]).1,
            ) by {
                assert(decoded_ok(ks[k].1, out@[k]));
            }
        }
        Ok(out)
    }

    /// Decode every line of the text, collecting every failure.
    ///
    /// The text is split and stripped exactly as `compiles` does it; every
    /// kept line is decoded. The first vector holds, in input order, the
    /// records of the lines that decoded; the second holds, in input
    /// order, one error per line that did not, each with the line's
    /// 1-based number.
    pub fn compiles_collect(&mut self) -> (r: (Vec<Binary>, Vec<LineError>))
        ensures
            *final(self) == *old(self),
            decodes_of(r.0@, good_of(kept_lines(old(self).bin@))),
            reports_of(r.1@, bad_of(kept_lines(old(self).bin@))),
    {
        let text: &'a str = self.bin;
        let n = text.unicode_len();
        let mut out: Vec<Binary> = Vec::new();
        let mut errs: Vec<LineError> = Vec::new();
        let mut cur: String = String::new();
        let mut cur_raw_empty: bool = true;
        let mut done_lines: usize = 0;
        let mut i: usize = 0;
        proof {
            assert(text@.subrange(0, 0) =~= Seq::<char>::empty());
            assert(seq![Seq::<char>::empty()].drop_last() =~= Seq::<Seq<char>>::empty());
        }
        while i < n
            invariant
                *self == *old(self),
                text@ == old(self).bin@,
                n == text@.len(),
                i <= n,
                split_lines(text@.subrange(0, i as int)).len() == done_lines + 1,
                cur@ == strip_spaces(split_lines(text@.subrange(0, i as int)).last()),
                cur_raw_empty == (split_lines(text@.subrange(0, i as int)).last().len() == 0),
                decodes_of(
                    out@,
                    good_of(kept_of(split_lines(text@.subrange(0, i as int)).drop_last())),
                ),
                reports_of(
                    errs@,
                    bad_of(kept_of(split_lines(text@.subrange(0, i as int)).drop_last())),
                ),
            decreases n - i,
        {
            let ghost pre = text@.subrange(0, i as int);
            let ghost ls = split_lines(pre);
            let ghost pre2 = text@.subrange(0, i + 1);
            let c = text.get_char(i);
            proof {
                assert(pre2.drop_last() =~= pre);
                assert(pre2.last() == text@[i as int]);
                lemma_split_lines_size(pre);
            }
            if c == '\n' {
                proof {
                    assert(split_lines(pre2) == ls.push(Seq::<char>::empty()));
                    assert(ls.push(Seq::<char>::empty()).drop_last() =~= ls);
                }
                if !cur_raw_empty {
                    let ghost curv = cur@;
                    proof {
                        assert(kept_of(ls) == kept_of(ls.drop_last()).push(
                            (ls.len() as int, strip_spaces(ls.last())),
                        ));
                        assert(kept_of(ls).drop_last() =~= kept_of(ls.drop_last()));
                    }
                    match self.compile(cur) {
                        Ok(b) => out.push(b),
                        Err(e) => errs.push(LineError { line: done_lines + 1, error: e }),
                    }
                    cur = String::new();
                } else {
                    proof {
                        assert(kept_of(ls) == kept_of(ls.drop_last()));
                    }
                    cur = String::new();
                }
                cur_raw_empty = true;
                done_lines = done_lines + 1;
            } else if c == ' ' {
                proof {
                    let ls2 = split_lines(pre2);
                    assert(ls2 == ls.update(ls.len() - 1, ls.last().push(' ')));
                    assert(ls2.drop_last() =~= ls.drop_last());
                    assert(ls2.last() == ls.last().push(' '));
                    assert(ls.last().push(' ').drop_last() =~= ls.last());
                }
                cur_raw_empty = false;
            } else {
                proof {
                    let ls2 = split_lines(pre2);
                    assert(ls2 == ls.update(ls.len() - 1, ls.last().push(c)));
                    assert(ls2.drop_last() =~= ls.drop_last());
                    assert(ls2.last() == ls.last().push(c));
                    assert(ls.last().push(c).drop_last() =~= ls.last());
                }
                push_char(&mut cur, c);
                cur_raw_empty = false;
            }
            i = i + 1;
        }
        let ghost full = text@;
        let ghost ls = split_lines(full);
        proof {
            assert(text@.subrange(0, n as int) =~= full);
            lemma_split_lines_size(full);
        }
        if !cur_raw_empty {
            proof {
                assert(kept_of(ls) == kept_of(ls.drop_last()).push(
                    (ls.len() as int, strip_spaces(ls.last())),
                ));
                assert(kept_of(ls).drop_last() =~= kept_of(ls.drop_last()));
            }
            match self.compile(cur) {
                Ok(b) => out.push(b),
                Err(e) => errs.push(LineError { line: done_lines + 1, error: e }),
            }
        } else {
            proof {
                assert(kept_of(ls) == kept_of(ls.drop_last()));
            }
        }
        (out, errs)
    }
}

/// What holds when a batch decode fails on the line that a newline at
/// `upto - 1` just closed: every kept line before it decoded, the failing
/// line's stripped text is `curv`, and `le` carries its number and error.
spec fn mid_failure_state(
    full: Seq<char>,
    upto: int,
    curv: Seq<char>,
    e: DecodeError,
    le: LineError,
    w: int,
) -> bool {
    let ls = split_lines(full.subrange(0, upto - 1));
    &&& 1 <= upto <= full.len()
    &&& full[upto - 1] == '\n'
    &&& kept_of(ls.drop_last()).len() == w
    &&& (forall|k: int|
        0 <= k < w ==> crate::record::line_ok((#[trigger] kept_of(ls.drop_last())[k]).1))
    &&& curv == strip_spaces(ls.last())
    &&& ls.last().len() != 0
    &&& !crate::record::line_ok(curv)
    &&& line_err(curv, e)
    &&& le.line as int == ls.len() as int
    &&& le.error == e
}

/// At such a failure the lines completed so far stand unchanged among the
/// lines of the whole text, so the failing line is the first bad kept line
/// of the whole text.
proof fn lemma_abort_witness(
    full: Seq<char>,
    upto: int,
    curv: Seq<char>,
    e: DecodeError,
    le: LineError,
    w: int,
)
    requires
        mid_failure_state(full, upto, curv, e, le, w),
    ensures
        first_bad_line(kept_lines(full), le),
        !batch_ok(kept_lines(full)),
{
    let pre = full.subrange(0, upto - 1);
    let pre2 = full.subrange(0, upto);
    let ls = split_lines(pre);
    lemma_split_lines_size(pre);
    assert(pre2.drop_last() =~= pre);
    assert(pre2.last() == '\n');
    assert(split_lines(pre2) == ls.push(Seq::<char>::empty()));
    assert(pre2 + full.subrange(upto, full.len() as int) =~= full);
    lemma_split_lines_extend(pre2, full.subrange(upto, full.len() as int));
    let b = split_lines(full);
    assert forall|j: int| 0 <= j < ls.len() implies #[trigger] b[j] == ls[j] by {
        assert(split_lines(pre2)[j] == ls[j]);
        assert(b[j] == split_lines(pre2)[j]);
    }
    lemma_kept_of_prefix(ls, b);
    let kp = kept_of(ls);
    let ks = kept_lines(full);
    assert(kept_of(ls) == kept_of(ls.drop_last()).push((ls.len() as int, curv)));
    assert(kp =~= ks.subrange(0, kp.len() as int));
    assert(ks[w] == kp[w]);
    assert(ks[w] == (ls.len() as int, curv));
    assert forall|j: int| 0 <= j < w implies crate::record::line_ok((#[trigger] ks[j]).1) by {
        assert(ks[j] == kp[j]);
        assert(kp[j] == kept_of(ls.drop_last())[j]);
    }
    assert(!crate::record::line_ok(ks[w].1));
    assert(first_bad_line(ks, le));
}

/// The field that a bit offset of an instruction line falls in.
fn field_of_offset(off: usize) -> (f: Field)
    requires
        off < LINE_BITS,
    ensures
        f == field_at(off as int),
{
    if off < OPCODE_OFFSET {
        Field::Label
    } else if off < OPTYPE1_OFFSET {
        Field::Opcode
    } else if off < OPERAND1_OFFSET {
        Field::Operand1Type
    } else if off < OPTYPE2_OFFSET {
        Field::Operand1
    } else if off < OPERAND2_OFFSET {
        Field::Operand2Type
    } else {
        Field::Operand2
    }
}

/// Values read from a line's slices satisfy the decode relation: a
/// 32-bit field's group `i` within the field slice is the same text as
/// group `i` within the whole line.
proof fn lemma_slices_decode(s: Seq<char>, b: Binary)
    requires
        line_ok(s),
        word_ok(s.subrange(LABEL_OFFSET as int, LABEL_OFFSET + 8 * 4), 0, b.label),
        b.opcode as nat == crate::bits::bits_value(
            s.subrange(OPCODE_OFFSET as int, OPCODE_OFFSET + OPCODE_FMT_SIZE),
        ),
        b.operand_type1 as nat == crate::bits::bits_value(
            s.subrange(OPTYPE1_OFFSET as int, OPTYPE1_OFFSET + OPTYPE_FMT_SIZE),
        ),
        word_ok(s.subrange(OPERAND1_OFFSET as int, OPERAND1_OFFSET + 8 * 4), 0, b.operand1),
        b.operand_type2 as nat == crate::bits::bits_value(
            s.subrange(OPTYPE2_OFFSET as int, OPTYPE2_OFFSET + OPTYPE_FMT_SIZE),
        ),
        word_ok(s.subrange(OPERAND2_OFFSET as int, OPERAND2_OFFSET + 8 * 4), 0, b.operand2),
    ensures
        decoded_ok(s, b),
{
    lemma_word_slice(s, LABEL_OFFSET as int, b.label);
    lemma_word_slice(s, OPERAND1_OFFSET as int, b.operand1);
    lemma_word_slice(s, OPERAND2_OFFSET as int, b.operand2);
}

/// The decode relation of a 32-bit field is the same whether the groups
/// are sliced out of the field's own text or out of the whole line.
proof fn lemma_word_slice(s: Seq<char>, off: int, w: [u8; 4])
    requires
        0 <= off,
        off + 8 * 4 <= s.len(),
        word_ok(s.subrange(off, off + 8 * 4), 0, w),
    ensures
        word_ok(s, off, w),
{
    let field = s.subrange(off, off + 8 * 4);
    assert forall|i: int|
        0 <= i < 4 implies (#[trigger] w[i]) as nat == crate::bits::bits_value(
        s.subrange(off + 8 * i, off + 8 * i + 8),
    ) by {
        assert(field.subrange(8 * i, 8 * i + 8) =~= s.subrange(off + 8 * i, off + 8 * i + 8));
    }
}

} // verus!
