//! The batch model: splitting input text on newlines, stripping cosmetic
//! spaces, and the sequence of lines a batch decode works through.

use crate::record::Binary;
use crate::record::LineError;
use crate::record::decoded_ok;
use crate::record::line_err;
use crate::record::line_ok;
use vstd::prelude::*;

verus! {

/// `s` with every space character removed; the other characters keep
/// their relative order.
pub open spec fn strip_spaces(s: Seq<char>) -> Seq<char>
    decreases s.len(),
{
    if s.len() == 0 {
        Seq::empty()
    } else if s.last() == ' ' {
        strip_spaces(s.drop_last())
    } else {
        strip_spaces(s.drop_last()).push(s.last())
    }
}

/// `s` split on `'\n'`, exactly as `str::split` does it: the separators are
/// not part of any piece, an empty text gives one empty piece, and a
/// trailing newline ends with an empty piece.
pub open spec fn split_lines(s: Seq<char>) -> Seq<Seq<char>>
    decreases s.len(),
{
    if s.len() == 0 {
        seq![Seq::empty()]
    } else if s.last() == '\n' {
        split_lines(s.drop_last()).push(Seq::empty())
    } else {
        let prev = split_lines(s.drop_last());
        prev.update(prev.len() - 1, prev.last().push(s.last()))
    }
}

/// The lines a batch decode works through: the split lines that are
/// non-empty before stripping, each paired with its 1-based position among
/// all split lines and stripped of spaces.
pub open spec fn kept_of(ls: Seq<Seq<char>>) -> Seq<(int, Seq<char>)>
    decreases ls.len(),
{
    if ls.len() == 0 {
        Seq::empty()
    } else if ls.last().len() != 0 {
        kept_of(ls.drop_last()).push((ls.len() as int, strip_spaces(ls.last())))
    } else {
        kept_of(ls.drop_last())
    }
}

/// The kept lines of the text `s`.
pub open spec fn kept_lines(s: Seq<char>) -> Seq<(int, Seq<char>)> {
    kept_of(split_lines(s))
}

/// Every kept line is well-formed.
pub open spec fn batch_ok(ks: Seq<(int, Seq<char>)>) -> bool {
    forall|i: int| 0 <= i < ks.len() ==> line_ok((#[trigger] ks[i]).1)
}

/// `e` reports the first kept line that is not well-formed: its 1-based
/// line number and the error owed for its stripped text, with every kept
/// line before it well-formed.
pub open spec fn first_bad_line(ks: Seq<(int, Seq<char>)>, e: LineError) -> bool {
    exists|i: int|
        {
            &&& 0 <= i < ks.len()
            &&& !line_ok((#[trigger] ks[i]).1)
            &&& (forall|j: int| 0 <= j < i ==> line_ok((#[trigger] ks[j]).1))
            &&& e.line as int == ks[i].0
            &&& line_err(ks[i].1, e.error)
        }
}

/// `v` holds, in order, exactly the records decoded from the lines `ks`.
pub open spec fn decodes_of(v: Seq<Binary>, ks: Seq<(int, Seq<char>)>) -> bool {
    &&& v.len() == ks.len()
    &&& forall|k: int| 0 <= k < v.len() ==> decoded_ok(ks[k].1, #[trigger] v[k])
}

/// `errs` reports, in order, exactly the lines `bad`: each entry carries
/// the line's 1-based number and the error owed for its stripped text.
pub open spec fn reports_of(errs: Seq<LineError>, bad: Seq<(int, Seq<char>)>) -> bool {
    &&& errs.len() == bad.len()
    &&& forall|k: int|
        0 <= k < errs.len() ==> (#[trigger] errs[k]).line as int == bad[k].0 && line_err(
            bad[k].1,
            errs[k].error,
        )
}

/// The kept lines that are well-formed, in order.
pub open spec fn good_of(ks: Seq<(int, Seq<char>)>) -> Seq<(int, Seq<char>)>
    decreases ks.len(),
{
    if ks.len() == 0 {
        Seq::empty()
    } else if line_ok(ks.last().1) {
        good_of(ks.drop_last()).push(ks.last())
    } else {
        good_of(ks.drop_last())
    }
}

/// The kept lines that are not well-formed, in order.
pub open spec fn bad_of(ks: Seq<(int, Seq<char>)>) -> Seq<(int, Seq<char>)>
    decreases ks.len(),
{
    if ks.len() == 0 {
        Seq::empty()
    } else if !line_ok(ks.last().1) {
        bad_of(ks.drop_last()).push(ks.last())
    } else {
        bad_of(ks.drop_last())
    }
}

/// Relies on `String::push`: appends exactly the one character.
#[verifier::external_body]
pub(crate) fn push_char(s: &mut String, c: char)
    ensures
        final(s)@ == old(s)@.push(c),
{
    s.push(c);
}

/// Splitting always yields at least one line, and the count of complete
/// lines plus the length of the last line never exceeds the text length.
pub proof fn lemma_split_lines_size(s: Seq<char>)
    ensures
        split_lines(s).len() >= 1,
        split_lines(s).len() - 1 + split_lines(s).last().len() <= s.len(),
    decreases s.len(),
{
    if s.len() > 0 {
        lemma_split_lines_size(s.drop_last());
    }
}

/// Extending the text never disturbs its complete lines: every line of
/// `s` but the last is a line of `s + t` at the same position.
pub proof fn lemma_split_lines_extend(s: Seq<char>, t: Seq<char>)
    ensures
        split_lines(s + t).len() >= split_lines(s).len(),
        forall|j: int|
            0 <= j < split_lines(s).len() - 1 ==> #[trigger] split_lines(s + t)[j] == split_lines(
                s,
            )[j],
    decreases t.len(),
{
    lemma_split_lines_size(s);
    if t.len() == 0 {
        assert(s + t =~= s);
    } else {
        let u = t.drop_last();
        lemma_split_lines_extend(s, u);
        lemma_split_lines_size(s + u);
        assert((s + t).drop_last() =~= s + u);
        assert((s + t).last() == t.last());
        let m = split_lines(s + u);
        if t.last() == '\n' {
            assert(split_lines(s + t) == m.push(Seq::<char>::empty()));
        } else {
            assert(split_lines(s + t) == m.update(m.len() - 1, m.last().push(t.last())));
        }
    }
}

/// If `b` extends the line list `a` entry for entry, then the kept lines
/// of `a` stand unchanged at the front of the kept lines of `b`.
pub proof fn lemma_kept_of_prefix(a: Seq<Seq<char>>, b: Seq<Seq<char>>)
    requires
        a.len() <= b.len(),
        forall|j: int| 0 <= j < a.len() ==> #[trigger] b[j] == a[j],
    ensures
        kept_of(a).is_prefix_of(kept_of(b)),
    decreases b.len(),
{
    if a.len() == b.len() {
        assert(a =~= b);
        assert(kept_of(a).is_prefix_of(kept_of(a)));
    } else {
        lemma_kept_of_prefix(a, b.drop_last());
        let p = kept_of(a);
        let q = kept_of(b.drop_last());
        let r = kept_of(b);
        assert(p =~= q.subrange(0, p.len() as int));
        if b.last().len() != 0 {
            assert(r == q.push((b.len() as int, strip_spaces(b.last()))));
        } else {
            assert(r == q);
        }
        assert(p =~= r.subrange(0, p.len() as int));
    }
}

} // verus!
