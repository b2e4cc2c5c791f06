//! Splitting a text into its lines.

use crate::substring::{has_substring, occurs_at};
use crate::utf8::{lemma_ascii_byte_splits, lemma_ascii_char_is_byte};
use vstd::prelude::*;
use vstd::string::*;
use vstd::utf8::*;

verus! {

/// Number of characters of `text` before its first line feed; the whole
/// length where it has none.
pub open spec fn line_len(text: Seq<char>) -> nat
    decreases text.len(),
{
    if text.len() == 0 || text[0] == '\n' {
        0
    } else {
        1 + line_len(text.drop_first())
    }
}

/// `line` without the carriage return at its end, if it ends in one.
pub open spec fn without_trailing_cr(line: Seq<char>) -> Seq<char> {
    if line.len() > 0 && line.last() == '\r' {
        line.drop_last()
    } else {
        line
    }
}

/// The lines of `text`, in order. A line ends at a line feed, and a carriage
/// return that stands right before that line feed goes with it. What follows
/// the last line feed is a line of its own unless it is empty, so the empty
/// text has no lines and a line feed at the very end adds none.
pub open spec fn lines_of(text: Seq<char>) -> Seq<Seq<char>>
    decreases text.len(),
{
    let n = line_len(text) as int;
    if text.len() == 0 {
        Seq::empty()
    } else if n < text.len() {
        seq![without_trailing_cr(text.take(n))] + lines_of(text.skip(n + 1))
    } else {
        seq![text]
    }
}

/// `line_len` stops at the first line feed and nowhere before it.
pub proof fn lemma_line_len(text: Seq<char>)
    ensures
        line_len(text) <= text.len(),
        forall|k: int| 0 <= k < line_len(text) ==> text[k] != '\n',
        line_len(text) < text.len() ==> text[line_len(text) as int] == '\n',
    decreases text.len(),
{
    if !(text.len() == 0 || text[0] == '\n') {
        let rest = text.drop_first();
        lemma_line_len(rest);
        assert forall|k: int| 0 <= k < line_len(text) implies text[k] != '\n' by {
            if k > 0 {
                assert(text[k] == rest[k - 1]);
            }
        }
    }
}

/// The only index that no line feed precedes, and that holds one unless it is
/// the end of the text, is `line_len`.
pub proof fn lemma_line_len_is(text: Seq<char>, n: int)
    requires
        0 <= n <= text.len(),
        forall|k: int| 0 <= k < n ==> text[k] != '\n',
        n < text.len() ==> text[n] == '\n',
    ensures
        line_len(text) == n,
    decreases text.len(),
{
    if n > 0 {
        let rest = text.drop_first();
        assert forall|k: int| 0 <= k < n - 1 implies rest[k] != '\n' by {
            assert(rest[k] == text[k + 1]);
        }
        lemma_line_len_is(rest, n - 1);
    }
}

/// Every line of a text is a run of characters of that text, as the text
/// spells it, and holds no line feed.
pub proof fn lemma_lines_are_runs(text: Seq<char>)
    ensures
        forall|i: int|
            0 <= i < lines_of(text).len() ==> has_substring(text, #[trigger] lines_of(text)[i])
                && !lines_of(text)[i].contains('\n'),
    decreases text.len(),
{
    let n = line_len(text) as int;
    lemma_line_len(text);
    if text.len() == 0 {
    } else if n < text.len() {
        let first = without_trailing_cr(text.take(n));
        let rest = text.skip(n + 1);
        lemma_lines_are_runs(rest);
        assert forall|i: int| 0 <= i < lines_of(text).len() implies has_substring(
            text,
            #[trigger] lines_of(text)[i],
        ) && !lines_of(text)[i].contains('\n') by {
            let line = lines_of(text)[i];
            if i == 0 {
                assert(text.subrange(0, first.len() as int) =~= first);
                assert(occurs_at(text, first, 0));
                if first.contains('\n') {
                    let k = choose|k: int| 0 <= k < first.len() && first[k] == '\n';
                    assert(first[k] == text[k]);
                }
            } else {
                assert(line == lines_of(rest)[i - 1]);
                let at = choose|at: int| occurs_at(rest, line, at);
                assert(text.subrange(n + 1 + at, n + 1 + at + line.len()) =~= rest.subrange(
                    at,
                    at + line.len(),
                ));
                assert(occurs_at(text, line, n + 1 + at));
            }
        }
    } else {
        assert(text.subrange(0, text.len() as int) =~= text);
        assert(occurs_at(text, text, 0));
    }
}

/// Slices that spell the lines of a text are runs of characters of that text.
proof fn lemma_slices_are_runs(text: Seq<char>, lines: Vec<&str>)
    requires
        lines.deep_view() == lines_of(text),
    ensures
        forall|i: int| 0 <= i < lines.len() ==> has_substring(text, #[trigger] lines[i]@),
{
    lemma_lines_are_runs(text);
    assert forall|i: int| 0 <= i < lines.len() implies has_substring(
        text,
        #[trigger] lines[i]@,
    ) by {
        assert(lines[i]@ == lines.deep_view()[i]);
    }
}

/// Index of the first line feed among `bytes`, or their number where there is none.
fn find_line_feed(bytes: &[u8]) -> (at: usize)
    ensures
        at <= bytes@.len(),
        forall|k: int| 0 <= k < at ==> bytes@[k] != 0x0A,
        at < bytes@.len() ==> bytes@[at as int] == 0x0A,
{
    let mut at: usize = 0;
    while at < bytes.len() && bytes[at] != 0x0A
        invariant
            at <= bytes@.len(),
            forall|k: int| 0 <= k < at ==> bytes@[k] != 0x0A,
        decreases bytes@.len() - at,
    {
        at += 1;
    }
    at
}

/// Drops one carriage return from the end of `line`, if there is one.
fn strip_carriage_return<'a>(line: &'a str) -> (stripped: &'a str)
    ensures
        stripped@ == without_trailing_cr(line@),
{
    let bytes = line.as_bytes();
    let n = bytes.len();
    if n > 0 && bytes[n - 1] == 0x0D {
        proof {
            lemma_ascii_byte_splits(line@, n - 1, '\r');
        }
        let (head, _) = line.split_at(n - 1);
        proof {
            encode_utf8_decode_utf8(head@);
            assert(line@ =~= head@ + seq!['\r']);
        }
        head
    } else {
        proof {
            if line@.len() > 0 && line@.last() == '\r' {
                let last = line@.len() - 1;
                lemma_ascii_char_is_byte(line@, last);
            }
        }
        line
    }
}

/// Splits `text` into its lines. Each line is a slice of `text`; nothing is copied.
pub fn split_lines<'a>(text: &'a str) -> (lines: Vec<&'a str>)
    ensures
        lines.deep_view() == lines_of(text@),
        forall|i: int| 0 <= i < lines.len() ==> has_substring(text@, #[trigger] lines[i]@),
{
    let mut lines: Vec<&'a str> = Vec::new();
    let mut rest: &'a str = text;
    while !rest.is_empty()
        invariant
            lines.deep_view() + lines_of(rest@) == lines_of(text@),
        decreases rest@.len(),
    {
        let ghost done = lines.deep_view();
        let bytes = rest.as_bytes();
        let at = find_line_feed(bytes);
        if at < bytes.len() {
            proof {
                lemma_ascii_byte_splits(rest@, at as int, '\n');
            }
            let (head, tail) = rest.split_at(at);
            let (_, after) = tail.split_at(1);
            let line = strip_carriage_return(head);
            proof {
                let encoded = encode_utf8(rest@);
                encode_utf8_decode_utf8(head@);
                encode_utf8_decode_utf8(after@);
                assert(tail.spec_bytes().subrange(1, tail.spec_bytes().len() as int)
                    =~= encoded.subrange(at + 1, encoded.len() as int));
                assert(rest@ =~= head@ + seq!['\n'] + after@);
                let n = head@.len() as int;
                assert forall|p: int| 0 <= p < n implies rest@[p] != '\n' by {
                    if head@[p] == '\n' {
                        lemma_ascii_char_is_byte(head@, p);
                    }
                }
                lemma_line_len_is(rest@, n);
                assert(rest@.take(n) =~= head@);
                assert(rest@.skip(n + 1) =~= after@);
            }
            lines.push(line);
            rest = after;
            assert(lines.deep_view() + lines_of(rest@) =~= done + (seq![line@] + lines_of(
                rest@,
            )));
        } else {
            proof {
                assert forall|p: int| 0 <= p < rest@.len() implies rest@[p] != '\n' by {
                    if rest@[p] == '\n' {
                        lemma_ascii_char_is_byte(rest@, p);
                    }
                }
                lemma_line_len_is(rest@, rest@.len() as int);
            }
            lines.push(rest);
            proof {
                assert(lines.deep_view() =~= done + lines_of(rest@));
                lemma_slices_are_runs(text@, lines);
            }
            return lines;
        }
    }
    proof {
        lemma_slices_are_runs(text@, lines);
    }
    lines
}

} // verus!
