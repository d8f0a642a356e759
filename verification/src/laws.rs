//! Laws of the operation algebra: when two operations made against the
//! same text, each rewritten to follow the other, lead to the same text.

use crate::operation::{lemma_apply_valid, Operation};
use crate::text::{
    char_bytes, char_width, cut_out, insertable, lemma_boundary_local, lemma_char_width, removable,
    splice_in,
};
use vstd::prelude::*;
use vstd::utf8::*;

verus! {

/// Two operations made against the same text do not get in each other's
/// way: two insertions at the same offset insert texts that give the same
/// text in either order, and no text is inserted at an offset from which
/// the other operation removes. An insertion of nothing gets in the way of
/// nothing.
pub open spec fn independent(a: Operation, b: Operation) -> bool {
    if a.is_insert() && b.is_insert() {
        a.start() != b.start() || a.text() + b.text() == b.text() + a.text()
    } else if a.is_insert() {
        a.text().len() == 0 || a.start() < b.start() || a.start() > b.range_end()
    } else if b.is_insert() {
        b.text().len() == 0 || b.start() < a.start() || b.start() > a.range_end()
    } else {
        true
    }
}

/// An operation moved by `d` keeps its kind and its text, and its offsets
/// are those of the operation plus `d`.
pub proof fn lemma_shifted(op: Operation, d: int)
    requires
        op.can_shift(d),
    ensures
        op.shifted(d).start() == op.start() + d,
        op.shifted(d).text() == op.text(),
        op.shifted(d).is_insert() == op.is_insert(),
        !op.is_insert() ==> op.shifted(d).range_end() == op.range_end() + d,
{
}

/// The text that an operation carries is valid UTF-8.
pub proof fn lemma_text_valid(op: Operation)
    ensures
        valid_utf8(op.text()),
{
    match op {
        Operation::InsertChar(_, c) => {
            lemma_char_width(c);
        },
        Operation::RemoveChar(_, c) => {
            lemma_char_width(c);
        },
        Operation::Insert(_, text) => {
            encode_utf8_valid_utf8(text@);
        },
        Operation::Remove(_, _, text) => {
            encode_utf8_valid_utf8(text@);
        },
    }
}

/// Valid text that is not empty does not start with a continuation byte.
pub proof fn lemma_first_byte(t: Seq<u8>)
    requires
        valid_utf8(t),
        t.len() > 0,
    ensures
        !is_continuation_byte(t[0]),
{
    is_char_boundary_start_end_of_seq(t);
    lemma_boundary_local(t, 0);
}

/// What a legal removal says of the text: its range is made of whole
/// characters and holds the text that the removal carries.
pub proof fn lemma_removal_facts(op: Operation, text: Seq<u8>)
    requires
        op.legal(text),
        !op.is_insert(),
    ensures
        removable(text, op.start(), op.range_end()),
        text.subrange(op.start(), op.range_end() + 1) == op.text(),
        op.text().len() == op.range_end() - op.start() + 1,
        op.apply(text) == cut_out(text, op.start(), op.range_end()),
        !is_continuation_byte(text[op.start()]),
        op.range_end() + 1 == text.len() || !is_continuation_byte(text[op.range_end() + 1]),
{
    match op {
        Operation::RemoveChar(_, c) => {
            lemma_char_width(c);
        },
        _ => {},
    }
    lemma_boundary_local(text, op.start());
    lemma_boundary_local(text, op.range_end() + 1);
}

/// What a legal insertion says of the text: its offset is a character
/// boundary.
pub proof fn lemma_insert_facts(op: Operation, text: Seq<u8>)
    requires
        op.legal(text),
        op.is_insert(),
    ensures
        0 <= op.start() <= text.len(),
        op.start() == text.len() || !is_continuation_byte(text[op.start()]),
        op.apply(text) == splice_in(text, op.start(), op.text()),
        valid_utf8(op.text()),
{
    lemma_boundary_local(text, op.start());
    lemma_text_valid(op);
}

/// An insertion is legal at an offset of valid text that is the end of the
/// text or does not hold a continuation byte.
pub proof fn lemma_insert_legal(op: Operation, text: Seq<u8>)
    requires
        op.is_insert(),
        valid_utf8(text),
        0 <= op.start() <= text.len(),
        op.start() == text.len() || !is_continuation_byte(text[op.start()]),
    ensures
        op.legal(text),
{
    lemma_boundary_local(text, op.start());
}

/// A removal is legal on valid text that holds the text of the removal in
/// the range of the removal, between two character boundaries.
pub proof fn lemma_removal_legal(op: Operation, text: Seq<u8>)
    requires
        !op.is_insert(),
        valid_utf8(text),
        0 <= op.start() <= op.range_end() < text.len(),
        text.subrange(op.start(), op.range_end() + 1) == op.text(),
        !is_continuation_byte(text[op.start()]),
        op.range_end() + 1 == text.len() || !is_continuation_byte(text[op.range_end() + 1]),
    ensures
        op.legal(text),
{
    match op {
        Operation::RemoveChar(_, c) => {
            lemma_char_width(c);
        },
        _ => {},
    }
    lemma_boundary_local(text, op.start());
    lemma_boundary_local(text, op.range_end() + 1);
}

/// Every byte of the encoding of a character but the first is a
/// continuation byte.
pub proof fn lemma_char_tail_bytes(c: char, k: int)
    requires
        0 < k < char_width(c),
    ensures
        is_continuation_byte(char_bytes(c)[k]),
{
    lemma_char_width(c);
    encode_utf8_first_scalar(seq![c]);
    assert(seq![c][0] == c);
}

/// Two legal removals of which one survives the other remove different
/// ranges.
pub proof fn lemma_removals_apart(prior: Operation, later: Operation, text: Seq<u8>)
    requires
        prior.legal(text),
        later.legal(text),
        !prior.is_insert(),
        !later.is_insert(),
        prior.rebase_offset(later) is Some,
    ensures
        later.range_end() < prior.start() || prior.range_end() < later.start(),
        prior.rebase_offset(later) == Some(
            if prior.range_end() < later.start() {
                -(prior.text().len() as int)
            } else {
                0
            },
        ),
{
    lemma_removal_facts(prior, text);
    lemma_removal_facts(later, text);
    match later {
        Operation::RemoveChar(idx, c) => {
            let ps = prior.start();
            if idx < ps && ps <= later.range_end() {
                lemma_char_tail_bytes(c, ps - idx);
                assert(text.subrange(idx as int, idx + char_width(c))[ps - idx] == text[ps]);
            }
        },
        _ => {},
    }
}

/// Convergence for two insertions.
proof fn lemma_converge_inserts(a: Operation, b: Operation, text: Seq<u8>)
    requires
        a.legal(text),
        b.legal(text),
        a.is_insert(),
        b.is_insert(),
        a.carry_over(b) is Some,
        b.carry_over(a) is Some,
        independent(a, b),
    ensures
        a.carry_over(b)->0.legal(a.apply(text)),
        b.carry_over(a)->0.legal(b.apply(text)),
        a.carry_over(b)->0.apply(a.apply(text)) == b.carry_over(a)->0.apply(b.apply(text)),
{
    let i = a.start();
    let j = b.start();
    let s = a.text();
    let t = b.text();
    let b1 = a.carry_over(b)->0;
    let a1 = b.carry_over(a)->0;
    let ta = a.apply(text);
    let tb = b.apply(text);
    lemma_insert_facts(a, text);
    lemma_insert_facts(b, text);
    lemma_apply_valid(a, text);
    lemma_apply_valid(b, text);
    lemma_shifted(b, a.rebase_offset(b)->0);
    lemma_shifted(a, b.rebase_offset(a)->0);
    if s.len() > 0 {
        lemma_first_byte(s);
    }
    if t.len() > 0 {
        lemma_first_byte(t);
    }
    if i < j {
        assert(ta[j + s.len()] == text[j] || j == text.len());
        assert(tb[i] == text[i]);
    } else if j < i {
        assert(tb[i + t.len()] == text[i] || i == text.len());
        assert(ta[j] == text[j]);
    } else {
        assert(i < ta.len() ==> ta[i] == if s.len() > 0 { s[0] } else { text[i] });
        assert(i < tb.len() ==> tb[i] == if t.len() > 0 { t[0] } else { text[i] });
    }
    lemma_insert_legal(b1, ta);
    lemma_insert_legal(a1, tb);
    lemma_insert_facts(b1, ta);
    lemma_insert_facts(a1, tb);
    if i == j {
        assert(b1.apply(ta) =~= text.subrange(0, i) + (t + s) + text.subrange(i, text.len() as int));
        assert(a1.apply(tb) =~= text.subrange(0, i) + (s + t) + text.subrange(i, text.len() as int));
    }
    assert(b1.apply(ta) =~= a1.apply(tb));
}

/// Convergence for an insertion before a removal.
proof fn lemma_converge_insert_before_removal(a: Operation, b: Operation, text: Seq<u8>)
    requires
        a.legal(text),
        b.legal(text),
        a.is_insert(),
        !b.is_insert(),
        a.carry_over(b) is Some,
        b.carry_over(a) is Some,
        a.start() < b.start(),
    ensures
        a.carry_over(b)->0.legal(a.apply(text)),
        b.carry_over(a)->0.legal(b.apply(text)),
        a.carry_over(b)->0.apply(a.apply(text)) == b.carry_over(a)->0.apply(b.apply(text)),
{
    let i = a.start();
    let p = b.start();
    let q = b.range_end();
    let s = a.text();
    let t = b.text();
    let b1 = a.carry_over(b)->0;
    let a1 = b.carry_over(a)->0;
    let ta = a.apply(text);
    let tb = b.apply(text);
    lemma_insert_facts(a, text);
    lemma_removal_facts(b, text);
    lemma_apply_valid(a, text);
    lemma_apply_valid(b, text);
    lemma_shifted(b, a.rebase_offset(b)->0);
    lemma_shifted(a, b.rebase_offset(a)->0);
    assert(ta.subrange(p + s.len(), q + s.len() + 1) =~= text.subrange(p, q + 1));
    assert(ta[p + s.len()] == text[p]);
    assert(q + 1 == text.len() || ta[q + s.len() + 1] == text[q + 1]);
    assert(tb[i] == text[i]);
    lemma_removal_legal(b1, ta);
    lemma_insert_legal(a1, tb);
    lemma_removal_facts(b1, ta);
    lemma_insert_facts(a1, tb);
    assert(b1.apply(ta) =~= a1.apply(tb));
}

/// Convergence for an insertion behind a removal.
proof fn lemma_converge_insert_behind_removal(a: Operation, b: Operation, text: Seq<u8>)
    requires
        a.legal(text),
        b.legal(text),
        a.is_insert(),
        !b.is_insert(),
        a.carry_over(b) is Some,
        b.carry_over(a) is Some,
        a.start() > b.range_end(),
    ensures
        a.carry_over(b)->0.legal(a.apply(text)),
        b.carry_over(a)->0.legal(b.apply(text)),
        a.carry_over(b)->0.apply(a.apply(text)) == b.carry_over(a)->0.apply(b.apply(text)),
{
    let i = a.start();
    let p = b.start();
    let q = b.range_end();
    let s = a.text();
    let t = b.text();
    let b1 = a.carry_over(b)->0;
    let a1 = b.carry_over(a)->0;
    let ta = a.apply(text);
    let tb = b.apply(text);
    lemma_insert_facts(a, text);
    lemma_removal_facts(b, text);
    lemma_apply_valid(a, text);
    lemma_apply_valid(b, text);
    lemma_shifted(b, a.rebase_offset(b)->0);
    lemma_shifted(a, b.rebase_offset(a)->0);
    if s.len() > 0 {
        lemma_first_byte(s);
    }
    assert(ta.subrange(p, q + 1) =~= text.subrange(p, q + 1));
    assert(ta[p] == text[p]);
    assert(q + 1 < i ==> ta[q + 1] == text[q + 1]);
    assert(q + 1 == i && s.len() > 0 ==> ta[q + 1] == s[0]);
    assert(q + 1 == i && s.len() == 0 ==> ta =~= text);
    assert(i - t.len() == tb.len() || tb[i - t.len()] == text[i]);
    lemma_removal_legal(b1, ta);
    lemma_insert_legal(a1, tb);
    lemma_removal_facts(b1, ta);
    lemma_insert_facts(a1, tb);
    assert(b1.apply(ta) =~= a1.apply(tb));
}

/// Convergence for an insertion of nothing at an offset from which a
/// removal removes.
proof fn lemma_converge_empty_insert_removal(a: Operation, b: Operation, text: Seq<u8>)
    requires
        a.legal(text),
        b.legal(text),
        a.is_insert(),
        !b.is_insert(),
        a.carry_over(b) is Some,
        b.carry_over(a) is Some,
        b.start() <= a.start() <= b.range_end(),
        a.text().len() == 0,
    ensures
        a.carry_over(b)->0.legal(a.apply(text)),
        b.carry_over(a)->0.legal(b.apply(text)),
        a.carry_over(b)->0.apply(a.apply(text)) == b.carry_over(a)->0.apply(b.apply(text)),
{
    let i = a.start();
    let p = b.start();
    let q = b.range_end();
    let s = a.text();
    let t = b.text();
    let b1 = a.carry_over(b)->0;
    let a1 = b.carry_over(a)->0;
    let ta = a.apply(text);
    let tb = b.apply(text);
    lemma_insert_facts(a, text);
    lemma_removal_facts(b, text);
    lemma_apply_valid(a, text);
    lemma_apply_valid(b, text);
    lemma_shifted(b, a.rebase_offset(b)->0);
    lemma_shifted(a, b.rebase_offset(a)->0);
    assert(ta =~= text);
    assert(tb.len() == p || tb[p] == text[q + 1]);
    lemma_removal_legal(b1, ta);
    lemma_insert_legal(a1, tb);
    lemma_removal_facts(b1, ta);
    lemma_insert_facts(a1, tb);
    assert(b1.apply(ta) =~= a1.apply(tb));
}

/// Convergence for an insertion and a removal.
proof fn lemma_converge_insert_removal(a: Operation, b: Operation, text: Seq<u8>)
    requires
        a.legal(text),
        b.legal(text),
        a.is_insert(),
        !b.is_insert(),
        a.carry_over(b) is Some,
        b.carry_over(a) is Some,
        independent(a, b),
    ensures
        a.carry_over(b)->0.legal(a.apply(text)),
        b.carry_over(a)->0.legal(b.apply(text)),
        a.carry_over(b)->0.apply(a.apply(text)) == b.carry_over(a)->0.apply(b.apply(text)),
{
    if a.start() < b.start() {
        lemma_converge_insert_before_removal(a, b, text);
    } else if a.start() > b.range_end() {
        lemma_converge_insert_behind_removal(a, b, text);
    } else {
        lemma_converge_empty_insert_removal(a, b, text);
    }
}

/// Convergence for two removals of which the first removes before the
/// second.
proof fn lemma_converge_removals(a: Operation, b: Operation, text: Seq<u8>)
    requires
        a.legal(text),
        b.legal(text),
        !a.is_insert(),
        !b.is_insert(),
        a.carry_over(b) is Some,
        b.carry_over(a) is Some,
        a.range_end() < b.start(),
    ensures
        a.carry_over(b)->0.legal(a.apply(text)),
        b.carry_over(a)->0.legal(b.apply(text)),
        a.carry_over(b)->0.apply(a.apply(text)) == b.carry_over(a)->0.apply(b.apply(text)),
{
    let p1 = a.start();
    let q1 = a.range_end();
    let p2 = b.start();
    let q2 = b.range_end();
    let w1 = a.text().len();
    let b1 = a.carry_over(b)->0;
    let a1 = b.carry_over(a)->0;
    let ta = a.apply(text);
    let tb = b.apply(text);
    lemma_removal_facts(a, text);
    lemma_removal_facts(b, text);
    lemma_removals_apart(a, b, text);
    lemma_removals_apart(b, a, text);
    lemma_apply_valid(a, text);
    lemma_apply_valid(b, text);
    lemma_shifted(b, a.rebase_offset(b)->0);
    lemma_shifted(a, b.rebase_offset(a)->0);
    assert(ta.subrange(p2 - w1, q2 - w1 + 1) =~= text.subrange(p2, q2 + 1));
    assert(ta[p2 - w1] == text[p2]);
    assert(q2 + 1 == text.len() || ta[q2 - w1 + 1] == text[q2 + 1]);
    assert(tb.subrange(p1, q1 + 1) =~= text.subrange(p1, q1 + 1));
    assert(tb[p1] == text[p1]);
    assert(q1 + 1 < p2 ==> tb[q1 + 1] == text[q1 + 1]);
    assert(q1 + 1 == p2 ==> tb.len() == p2 || tb[p2] == text[q2 + 1]);
    lemma_removal_legal(b1, ta);
    lemma_removal_legal(a1, tb);
    lemma_removal_facts(b1, ta);
    lemma_removal_facts(a1, tb);
    assert(b1.apply(ta) =~= a1.apply(tb));
}

/// Transform convergence: when two operations are legal on the same text,
/// do not get in each other's way, and each survives being rewritten to
/// follow the other, then each rewritten operation is legal on the text
/// that the other operation makes, and both orders lead to the same text.
pub proof fn lemma_transform_converges(a: Operation, b: Operation, text: Seq<u8>)
    requires
        a.legal(text),
        b.legal(text),
        a.carry_over(b) is Some,
        b.carry_over(a) is Some,
        independent(a, b),
    ensures
        a.carry_over(b)->0.legal(a.apply(text)),
        b.carry_over(a)->0.legal(b.apply(text)),
        a.carry_over(b)->0.apply(a.apply(text)) == b.carry_over(a)->0.apply(b.apply(text)),
{
    if a.is_insert() && b.is_insert() {
        lemma_converge_inserts(a, b, text);
    } else if a.is_insert() {
        lemma_converge_insert_removal(a, b, text);
    } else if b.is_insert() {
        lemma_converge_insert_removal(b, a, text);
    } else {
        lemma_removals_apart(a, b, text);
        if a.range_end() < b.start() {
            lemma_converge_removals(a, b, text);
        } else {
            lemma_converge_removals(b, a, text);
        }
    }
}

} // verus!
