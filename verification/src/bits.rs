//! The bit-string model: which characters count as bits, the MSB-first
//! integer value of a bit-string, and the canonical bit-string of a value.

use vstd::arithmetic::power2::lemma2_to64;
use vstd::arithmetic::power2::pow2;
use vstd::prelude::*;
use vstd::string::StrSliceExecFns;

verus! {

/// A bit character is `'0'` or `'1'`.
pub open spec fn is_bit(c: char) -> bool {
    c == '0' || c == '1'
}

/// The numeric value of one bit character.
pub open spec fn bit_val(c: char) -> nat {
    if c == '1' {
        1
    } else {
        0
    }
}

/// Every character of the string is a bit character.
pub open spec fn all_bits(s: Seq<char>) -> bool {
    forall|i: int| 0 <= i < s.len() ==> is_bit(#[trigger] s[i])
}

/// The unsigned integer a bit-string denotes, most-significant bit first:
/// each character contributes `value = value * 2 + bit`.
pub open spec fn bits_value(s: Seq<char>) -> nat
    decreases s.len(),
{
    if s.len() == 0 {
        0
    } else {
        bits_value(s.drop_last()) * 2 + bit_val(s.last())
    }
}

/// A bit-string of length `w` denotes a value below `pow2(w)`.
pub proof fn lemma_bits_value_bound(s: Seq<char>)
    ensures
        bits_value(s) < pow2(s.len()),
    decreases s.len(),
{
    vstd::arithmetic::power2::lemma_pow2_pos(s.len());
    if s.len() > 0 {
        lemma_bits_value_bound(s.drop_last());
        vstd::arithmetic::power2::lemma_pow2_unfold(s.len());
    }
}

/// The canonical `w`-character bit-string of `v`, most-significant bit
/// first; only the low `w` bits of `v` are represented.
pub open spec fn bits_of(v: nat, w: nat) -> Seq<char>
    decreases w,
{
    if w == 0 {
        Seq::empty()
    } else {
        bits_of(v / 2, (w - 1) as nat).push(
            if v % 2 == 1 {
                '1'
            } else {
                '0'
            },
        )
    }
}

/// The canonical bit-string of `v` has length `w`.
pub proof fn lemma_bits_of_len(v: nat, w: nat)
    ensures
        bits_of(v, w).len() == w,
    decreases w,
{
    if w > 0 {
        lemma_bits_of_len(v / 2, (w - 1) as nat);
    }
}

/// The canonical bit-string of `v` holds bit characters only.
pub proof fn lemma_bits_of_all_bits(v: nat, w: nat)
    ensures
        all_bits(bits_of(v, w)),
    decreases w,
{
    if w > 0 {
        lemma_bits_of_all_bits(v / 2, (w - 1) as nat);
        let inner = bits_of(v / 2, (w - 1) as nat);
        let c = if v % 2 == 1 {
            '1'
        } else {
            '0'
        };
        assert forall|i: int| 0 <= i < inner.push(c).len() implies is_bit(
            #[trigger] inner.push(c)[i],
        ) by {
            if i < inner.len() {
                assert(inner.push(c)[i] == inner[i]);
            }
        }
    }
}

/// Reading the canonical bit-string of a value below `pow2(w)` gives the
/// value back.
pub proof fn lemma_bits_value_of_bits_of(v: nat, w: nat)
    requires
        v < pow2(w),
    ensures
        bits_value(bits_of(v, w)) == v,
    decreases w,
{
    if w == 0 {
        assert(pow2(0) == 1) by {
            lemma2_to64();
        }
    } else {
        vstd::arithmetic::power2::lemma_pow2_unfold(w);
        assert(v / 2 < pow2((w - 1) as nat)) by (nonlinear_arith)
            requires
                v < 2 * pow2((w - 1) as nat),
        ;
        lemma_bits_value_of_bits_of(v / 2, (w - 1) as nat);
        let inner = bits_of(v / 2, (w - 1) as nat);
        let c = if v % 2 == 1 {
            '1'
        } else {
            '0'
        };
        assert(inner.push(c).drop_last() =~= inner);
        assert(inner.push(c).last() == c);
        assert(bits_value(bits_of(v, w)) == (v / 2) * 2 + v % 2);
    }
}

/// Build the canonical `width`-character bit-string of `v`, most
/// significant bit first, by peeling the low bit off first and placing it
/// last.
pub fn bits_string(v: u8, width: usize) -> (r: Vec<char>)
    ensures
        r@ == bits_of(v as nat, width as nat),
    decreases width,
{
    if width == 0 {
        let r: Vec<char> = Vec::new();
        proof {
            assert(r@ =~= bits_of(v as nat, 0));
        }
        r
    } else {
        let mut r = bits_string(v / 2, width - 1);
        r.push(
            if v % 2 == 1 {
                '1'
            } else {
                '0'
            },
        );
        r
    }
}

/// Parse a whole string of at most 8 bit characters as an MSB-first
/// unsigned integer.
pub fn parse_bits_u8(s: &str) -> (r: u8)
    requires
        s@.len() <= 8,
        all_bits(s@),
    ensures
        r == bits_value(s@),
{
    let n = s.unicode_len();
    let mut acc: u8 = 0;
    let mut i: usize = 0;
    proof {
        assert(s@.subrange(0, 0) =~= Seq::<char>::empty());
    }
    while i < n
        invariant
            n == s@.len() <= 8,
            all_bits(s@),
            i <= n,
            acc == bits_value(s@.subrange(0, i as int)),
        decreases n - i,
    {
        let c = s.get_char(i);
        proof {
            lemma_bits_value_bound(s@.subrange(0, i as int));
            lemma2_to64();
            vstd::arithmetic::power2::lemma_pow2_adds(i as nat, (7 - i) as nat);
            vstd::arithmetic::power2::lemma_pow2_pos((7 - i) as nat);
            assert(pow2(i as nat) <= pow2(7)) by (nonlinear_arith)
                requires
                    pow2(7) == pow2(i as nat) * pow2((7 - i) as nat),
                    pow2((7 - i) as nat) >= 1,
                    pow2(i as nat) >= 0,
            ;
            assert(s@.subrange(0, i + 1).drop_last() =~= s@.subrange(0, i as int));
            assert(s@.subrange(0, i + 1).last() == s@[i as int]);
        }
        assert(acc < 128);
        acc = acc * 2 + (if c == '1' {
            1
        } else {
            0
        });
        i = i + 1;
    }
    proof {
        assert(s@.subrange(0, n as int) =~= s@);
    }
    acc
}

} // verus!
