//! Splitting a text into lines.
//!
//! A line ends at a line feed, or at the end of the text. The line feed is
//! not part of the line, and neither is a carriage return that stands
//! directly before it. A text that ends with a line feed has no further,
//! empty line after it.

use vstd::prelude::*;
use vstd::string::StringSliceAdditionalSpecFns;
use vstd::utf8::{
    encode_utf8, encode_utf8_valid_utf8, is_char_boundary,
    is_char_boundary_iff_not_is_continuation_byte, is_char_boundary_start_end_of_seq,
};
use crate::encoding::{
    lemma_ascii_in_scalar, lemma_encode_concat, lemma_encode_injective, lemma_encode_single,
};
use crate::substring::{occurs_at, occurs_in};

verus! {

/// Position of the first line feed of `text`, or the length of `text` where
/// it holds none.
pub open spec fn first_break(text: Seq<char>) -> int
    decreases text.len(),
{
    if text.len() == 0 || text[0] == '\n' {
        0
    } else {
        1 + first_break(text.drop_first())
    }
}

/// `line` without the carriage return at its end, if it has one.
pub open spec fn without_return(line: Seq<char>) -> Seq<char> {
    if line.len() > 0 && line.last() == '\r' {
        line.drop_last()
    } else {
        line
    }
}

/// The first line of a text: what stands before its first line feed, without
/// a carriage return at the end of that; the whole text where it holds no
/// line feed.
pub open spec fn first_line(text: Seq<char>) -> Seq<char> {
    let end = first_break(text);
    if end == text.len() {
        text
    } else {
        without_return(text.take(end))
    }
}

/// What follows the first line and its line feed.
pub open spec fn after_first_line(text: Seq<char>) -> Seq<char> {
    let end = first_break(text);
    if end == text.len() {
        Seq::empty()
    } else {
        text.skip(end + 1)
    }
}

/// The lines of a text, in order.
pub open spec fn lines_of(text: Seq<char>) -> Seq<Seq<char>>
    decreases text.len(),
    via lines_of_decreases
{
    if text.len() == 0 {
        Seq::empty()
    } else {
        seq![first_line(text)] + lines_of(after_first_line(text))
    }
}

#[via_fn]
proof fn lines_of_decreases(text: Seq<char>) {
    lemma_first_break(text);
}

/// `first_break` is the least position that holds a line feed.
pub proof fn lemma_first_break(text: Seq<char>)
    ensures
        0 <= first_break(text) <= text.len(),
        forall|i: int| 0 <= i < first_break(text) ==> text[i] != '\n',
        first_break(text) < text.len() ==> text[first_break(text)] == '\n',
    decreases text.len(),
{
    if text.len() != 0 && text[0] != '\n' {
        let rest = text.drop_first();
        lemma_first_break(rest);
        assert forall|i: int| 0 <= i < first_break(text) implies text[i] != '\n' by {
            if i > 0 {
                assert(text[i] == rest[i - 1]);
            }
        }
    }
}

/// The one position that holds a line feed, or is the end of the text, and
/// has no line feed before it, is `first_break`.
pub proof fn lemma_first_break_is(text: Seq<char>, at: int)
    requires
        0 <= at <= text.len(),
        forall|i: int| 0 <= i < at ==> text[i] != '\n',
        at < text.len() ==> text[at] == '\n',
    ensures
        first_break(text) == at,
{
    lemma_first_break(text);
}

/// A line feed at the end of a text ends its last line and starts no new
/// one: a text that ends in neither a line feed nor a carriage return has
/// the same lines with a line feed after it as without.
pub proof fn lemma_final_break_adds_no_line(text: Seq<char>)
    requires
        text.len() > 0,
        text.last() != '\n',
        text.last() != '\r',
    ensures
        lines_of(text.push('\n')) == lines_of(text),
    decreases text.len(),
{
    let longer = text.push('\n');
    let end = first_break(text);
    lemma_first_break(text);
    assert forall|i: int| 0 <= i < end implies longer[i] != '\n' by {
        assert(longer[i] == text[i]);
    }
    lemma_first_break_is(longer, end);
    assert(longer.take(end) =~= text.take(end));
    if end == text.len() {
        assert(text.take(end) =~= text);
        assert(after_first_line(longer) =~= Seq::<char>::empty());
        assert(after_first_line(text) =~= Seq::<char>::empty());
    } else {
        let rest = text.skip(end + 1);
        assert(rest.len() > 0);
        assert(rest.last() == text.last());
        assert(after_first_line(longer) =~= rest.push('\n'));
        lemma_final_break_adds_no_line(rest);
    }
}

/// No line holds a line feed.
pub proof fn lemma_lines_hold_no_break(text: Seq<char>)
    ensures
        forall|i: int, j: int|
            0 <= i < lines_of(text).len() && 0 <= j < lines_of(text)[i].len() ==> #[trigger] lines_of(
                text,
            )[i][j] != '\n',
    decreases text.len(),
{
    if text.len() > 0 {
        lemma_first_break(text);
        let first = first_line(text);
        let rest = after_first_line(text);
        lemma_lines_hold_no_break(rest);
        assert forall|i: int, j: int|
            0 <= i < lines_of(text).len() && 0 <= j < lines_of(text)[i].len() implies #[trigger] lines_of(
            text,
        )[i][j] != '\n' by {
            if i == 0 {
                assert(lines_of(text)[0] == first);
                assert(first[j] == text[j]);
            } else {
                assert(lines_of(text)[i] == lines_of(rest)[i - 1]);
            }
        }
    }
}

/// Every line is a contiguous part of the text.
pub proof fn lemma_lines_are_parts(text: Seq<char>)
    ensures
        forall|i: int| 0 <= i < lines_of(text).len() ==> occurs_in(#[trigger] lines_of(text)[i], text),
    decreases text.len(),
{
    if text.len() > 0 {
        lemma_first_break(text);
        let end = first_break(text);
        let first = first_line(text);
        let rest = after_first_line(text);
        lemma_lines_are_parts(rest);
        assert forall|i: int| 0 <= i < lines_of(text).len() implies occurs_in(
            #[trigger] lines_of(text)[i],
            text,
        ) by {
            let line = lines_of(text)[i];
            if i == 0 {
                assert(text.subrange(0, first.len() as int) =~= first);
                assert(occurs_at(line, text, 0));
            } else {
                assert(line == lines_of(rest)[i - 1]);
                let at = choose|at: int| occurs_at(line, rest, at);
                assert(text.subrange(end + 1 + at, end + 1 + at + line.len()) =~= rest.subrange(
                    at,
                    at + line.len(),
                ));
                assert(occurs_at(line, text, end + 1 + at));
            }
        }
    }
}

/// The first line feed among the bytes of a text stands where the first line
/// feed of the text is encoded: the bytes before it encode the characters
/// before it, and the bytes after it the characters after it.
proof fn lemma_first_break_in_bytes(text: Seq<char>, at: int)
    requires
        0 <= at <= encode_utf8(text).len(),
        forall|j: int| 0 <= j < at ==> encode_utf8(text)[j] != 0x0A,
        at < encode_utf8(text).len() ==> encode_utf8(text)[at] == 0x0A,
    ensures
        (at == encode_utf8(text).len()) == (first_break(text) == text.len()),
        encode_utf8(text.take(first_break(text))) == encode_utf8(text).take(at),
        first_break(text) < text.len() ==> encode_utf8(text.skip(first_break(text) + 1))
            == encode_utf8(text).skip(at + 1),
    decreases text.len(),
{
    lemma_first_break(text);
    let bytes = encode_utf8(text);
    if text.len() == 0 {
        assert(text.take(0) =~= text);
        assert(bytes.take(at) =~= bytes);
    } else {
        let rest = text.drop_first();
        let head = vstd::utf8::encode_scalar(text[0] as u32);
        lemma_ascii_in_scalar(text[0], '\n');
        assert(bytes =~= head + encode_utf8(rest));
        if text[0] == '\n' {
            assert(head[0] == 0x0A);
            assert(bytes[0] == 0x0A);
            assert(at == 0);
            assert(text.take(0) =~= Seq::<char>::empty());
            assert(bytes.take(0) =~= encode_utf8(Seq::<char>::empty()));
            assert(text.skip(1) =~= rest);
            assert(bytes.skip(1) =~= encode_utf8(rest));
        } else {
            assert forall|j: int| 0 <= j < head.len() implies bytes[j] != 0x0A by {
                assert(bytes[j] == head[j]);
            }
            assert(at >= head.len());
            let shifted = at - head.len();
            assert forall|j: int| 0 <= j < shifted implies encode_utf8(rest)[j] != 0x0A by {
                assert(encode_utf8(rest)[j] == bytes[j + head.len()]);
            }
            if shifted < encode_utf8(rest).len() {
                assert(encode_utf8(rest)[shifted] == bytes[at]);
            }
            lemma_first_break_in_bytes(rest, shifted);
            let end = first_break(rest);
            assert(text.take(end + 1) =~= seq![text[0]] + rest.take(end));
            lemma_encode_concat(seq![text[0]], rest.take(end));
            lemma_encode_single(text[0]);
            assert(bytes.take(at) =~= head + encode_utf8(rest).take(shifted));
            if end < rest.len() {
                assert(text.skip(end + 2) =~= rest.skip(end + 1));
                assert(bytes.skip(at + 1) =~= encode_utf8(rest).skip(shifted + 1));
            }
        }
    }
}

/// The last byte of a text's encoding is a carriage return exactly when the
/// text's last character is one, and the bytes before it then encode the
/// characters before it.
proof fn lemma_return_in_bytes(line: Seq<char>)
    ensures
        (line.len() == 0) == (encode_utf8(line).len() == 0),
        line.len() > 0 ==> (encode_utf8(line).last() == 0x0D) == (line.last() == '\r'),
        line.len() > 0 && line.last() == '\r' ==> encode_utf8(line.drop_last()) == encode_utf8(
            line,
        ).drop_last(),
{
    if line.len() > 0 {
        let last = line.last();
        let tail = vstd::utf8::encode_scalar(last as u32);
        lemma_ascii_in_scalar(last, '\r');
        assert(line =~= line.drop_last() + seq![last]);
        lemma_encode_concat(line.drop_last(), seq![last]);
        lemma_encode_single(last);
        let bytes = encode_utf8(line);
        assert(bytes.last() == tail.last());
        if last == '\r' {
            assert(bytes.drop_last() =~= encode_utf8(line.drop_last()));
        }
    }
}

/// Position of the first line feed among `bytes`, or their number where
/// there is none.
fn first_line_feed(bytes: &[u8]) -> (at: usize)
    ensures
        at <= bytes@.len(),
        forall|j: int| 0 <= j < at ==> bytes@[j] != 0x0A,
        at < bytes@.len() ==> bytes@[at as int] == 0x0A,
{
    let total: usize = bytes.len();
    let mut at: usize = 0;
    while at < total && bytes[at] != 0x0A
        invariant
            at <= total,
            total == bytes@.len(),
            forall|j: int| 0 <= j < at ==> bytes@[j] != 0x0A,
        decreases total - at,
    {
        at += 1;
    }
    at
}

/// `line` without the carriage return at its end, if it has one.
fn trim_return<'a>(line: &'a str) -> (trimmed: &'a str)
    ensures
        trimmed@ == without_return(line@),
{
    let bytes = line.as_bytes();
    let total: usize = bytes.len();
    proof {
        lemma_return_in_bytes(line@);
    }
    if total > 0 && bytes[total - 1] == 0x0D {
        proof {
            encode_utf8_valid_utf8(line@);
            is_char_boundary_iff_not_is_continuation_byte(line.spec_bytes(), total - 1);
        }
        let (kept, _) = line.split_at(total - 1);
        proof {
            assert(kept.spec_bytes() =~= line.spec_bytes().drop_last());
            lemma_encode_injective(kept@, line@.drop_last());
        }
        kept
    } else {
        line
    }
}

/// Splits a text into its first line and what follows that line and its
/// line feed. Both parts borrow from `text`. Of a text that is not empty the
/// second part is shorter than the text; of the empty text both parts are
/// empty.
pub fn split_first_line<'a>(text: &'a str) -> (parts: (&'a str, &'a str))
    ensures
        parts.0@ == first_line(text@),
        parts.1@ == after_first_line(text@),
        text@.len() > 0 ==> parts.1@.len() < text@.len(),
{
    let bytes = text.as_bytes();
    let at: usize = first_line_feed(bytes);
    proof {
        lemma_first_break(text@);
        lemma_first_break_in_bytes(text@, at as int);
        encode_utf8_valid_utf8(text@);
        if at < bytes@.len() {
            is_char_boundary_iff_not_is_continuation_byte(text.spec_bytes(), at as int);
        } else {
            is_char_boundary_start_end_of_seq(text.spec_bytes());
        }
    }
    let (head, tail) = text.split_at(at);
    proof {
        assert(head.spec_bytes() =~= text.spec_bytes().take(at as int));
        lemma_encode_injective(head@, text@.take(first_break(text@)));
    }
    if at == bytes.len() {
        proof {
            assert(text@.take(text@.len() as int) =~= text@);
            assert(tail.spec_bytes().len() == 0);
            lemma_return_in_bytes(tail@);
            assert(tail@ =~= Seq::<char>::empty());
        }
        (head, tail)
    } else {
        proof {
            encode_utf8_valid_utf8(tail@);
            assert(tail.spec_bytes()[0] == 0x0A);
            reveal_with_fuel(is_char_boundary, 2);
            assert(is_char_boundary(tail.spec_bytes(), 1));
        }
        let (_, rest) = tail.split_at(1);
        proof {
            assert(rest.spec_bytes() =~= text.spec_bytes().skip(at + 1));
            lemma_encode_injective(rest@, text@.skip(first_break(text@) + 1));
        }
        (trim_return(head), rest)
    }
}

} // verus!
