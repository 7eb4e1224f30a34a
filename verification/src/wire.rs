//! The wire format: chunks, lines, and the envelope that carries a payload.

use vstd::prelude::*;
use vstd::utf8::{
    decode_utf8, decode_utf8_split, encode_utf8_decode_utf8, encode_utf8_valid_utf8,
    is_ascii_chars, is_ascii_chars_encode_utf8,
};
use crate::json::{decode_json_string, json_string_value, text_of};
use crate::utf8::{lemma_ascii_byte, lemma_encode_concat};

verus! {

/// Index of the first newline of `text`, or its length where it has none.
pub open spec fn first_newline(text: Seq<char>) -> int
    decreases text.len(),
{
    if text.len() == 0 || text[0] == '\n' {
        0
    } else {
        1 + first_newline(text.drop_first())
    }
}

/// The lines of a chunk: the pieces between its newlines, in order. A chunk
/// with `n` newlines has `n + 1` lines, some of which may be empty.
pub open spec fn lines_of(chunk: Seq<char>) -> Seq<Seq<char>>
    decreases chunk.len(),
{
    let n = first_newline(chunk);
    if 0 <= n < chunk.len() {
        seq![chunk.take(n)] + lines_of(chunk.skip(n + 1))
    } else {
        seq![chunk]
    }
}

/// The lines put together again, with a newline between each two.
pub open spec fn join_lines(lines: Seq<Seq<char>>) -> Seq<char>
    decreases lines.len(),
{
    if lines.len() == 0 {
        Seq::empty()
    } else if lines.len() == 1 {
        lines[0]
    } else {
        lines[0] + seq!['\n'] + join_lines(lines.drop_first())
    }
}

/// What a line must begin with to be a candidate: the field name, a colon,
/// a space, and the quote that opens the JSON string.
pub const ENVELOPE: &'static str = "data: \"";

/// How many characters of a candidate stand in front of the JSON string:
/// the field name, the colon and the space.
pub const FIELD_LEN: usize = 6;

/// A line is a candidate when it is not empty and begins with the envelope.
pub open spec fn is_candidate(line: Seq<char>) -> bool {
    line.len() > 0 && ENVELOPE@.is_prefix_of(line)
}

/// The payload that a line carries: the JSON string that follows the field
/// name of a candidate, where it decodes.
pub open spec fn line_payload(line: Seq<char>) -> Option<Seq<char>> {
    if is_candidate(line) {
        json_string_value(line.skip(FIELD_LEN as int))
    } else {
        None
    }
}

/// The payloads that a sequence of lines carries, in order.
pub open spec fn payloads_of(lines: Seq<Seq<char>>) -> Seq<Seq<char>>
    decreases lines.len(),
{
    if lines.len() == 0 {
        Seq::empty()
    } else {
        let before = payloads_of(lines.drop_last());
        match line_payload(lines.last()) {
            Some(payload) => before.push(payload),
            None => before,
        }
    }
}

/// The payloads that one chunk carries.
pub open spec fn chunk_payloads(chunk: Seq<char>) -> Seq<Seq<char>> {
    payloads_of(lines_of(chunk))
}

/// The payloads that a sequence of chunks carries: chunk by chunk, and line
/// by line within a chunk.
pub open spec fn stream_payloads(chunks: Seq<Seq<char>>) -> Seq<Seq<char>>
    decreases chunks.len(),
{
    if chunks.len() == 0 {
        Seq::empty()
    } else {
        stream_payloads(chunks.drop_last()) + chunk_payloads(chunks.last())
    }
}

/// The text behind the field name of a candidate line, from the opening
/// quote on. `None` where the line is no candidate.
pub fn candidate_text(line: &str) -> (r: Option<&str>)
    ensures
        match r {
            Some(text) => is_candidate(line@) && text@ == line@.skip(FIELD_LEN as int),
            None => !is_candidate(line@),
        },
{
    let bytes = line.as_bytes();
    let envelope = ENVELOPE.as_bytes();
    proof {
        reveal_strlit("data: \"");
        assert(is_ascii_chars(ENVELOPE@));
        is_ascii_chars_encode_utf8(ENVELOPE@);
        if ENVELOPE@.is_prefix_of(line@) {
            let behind = line@.skip(ENVELOPE@.len() as int);
            assert(line@ =~= ENVELOPE@ + behind);
            lemma_encode_concat(ENVELOPE@, behind);
        }
    }
    if bytes.len() < envelope.len() {
        return None;
    }
    let mut i: usize = 0;
    while i < envelope.len()
        invariant
            0 <= i <= envelope@.len() <= bytes@.len(),
            forall|j: int| 0 <= j < i ==> bytes@[j] == envelope@[j],
            ENVELOPE@.is_prefix_of(line@) ==> forall|j: int|
                0 <= j < envelope@.len() ==> bytes@[j] == envelope@[j],
        decreases envelope@.len() - i,
    {
        if bytes[i] != envelope[i] {
            return None;
        }
        i = i + 1;
    }
    proof {
        encode_utf8_valid_utf8(line@);
        encode_utf8_decode_utf8(line@);
        encode_utf8_decode_utf8(ENVELOPE@);
        lemma_ascii_byte(bytes@, FIELD_LEN as int);
        decode_utf8_split(bytes@, FIELD_LEN + 1);
        decode_utf8_split(bytes@, FIELD_LEN as int);
        assert(bytes@.subrange(0, FIELD_LEN + 1) =~= envelope@);
        assert(ENVELOPE@ =~= line@.subrange(0, ENVELOPE@.len() as int));
    }
    let (_, text) = line.split_at(FIELD_LEN);
    proof {
        encode_utf8_decode_utf8(text@);
        assert(decode_utf8(bytes@.subrange(0, FIELD_LEN as int)).len() == FIELD_LEN);
        assert(text@ =~= line@.skip(FIELD_LEN as int));
    }
    Some(text)
}

/// The payload that `line` carries: the decoded JSON string of a candidate.
/// `None` for a line that is no candidate or whose text does not decode.
pub fn decode_line(line: &str) -> (payload: Option<String>)
    ensures
        text_of(payload) == line_payload(line@),
{
    match candidate_text(line) {
        Some(text) => decode_json_string(text),
        None => None,
    }
}

/// One more line at the end adds its payload, if it carries one.
pub proof fn lemma_payloads_of_push(lines: Seq<Seq<char>>, line: Seq<char>)
    ensures
        payloads_of(lines.push(line)) == match line_payload(line) {
            Some(payload) => payloads_of(lines).push(payload),
            None => payloads_of(lines),
        },
{
    assert(lines.push(line).drop_last() =~= lines);
}

/// `first_newline` is within the text, nothing before it is a newline, and
/// where it lies inside the text it points at a newline.
pub proof fn lemma_first_newline(text: Seq<char>)
    ensures
        0 <= first_newline(text) <= text.len(),
        forall|j: int| 0 <= j < first_newline(text) ==> text[j] != '\n',
        first_newline(text) < text.len() ==> text[first_newline(text)] == '\n',
    decreases text.len(),
{
    if text.len() == 0 || text[0] == '\n' {
    } else {
        let rest = text.drop_first();
        lemma_first_newline(rest);
        assert forall|j: int| 0 <= j < first_newline(text) implies text[j] != '\n' by {
            if j > 0 {
                assert(text[j] == rest[j - 1]);
            }
        }
        if first_newline(text) < text.len() {
            assert(text[first_newline(text)] == rest[first_newline(rest)]);
        }
    }
}

/// The first newline is at `n` where nothing in front of `n` is a newline
/// and `n` is a newline or the end of the text.
pub proof fn lemma_first_newline_is(text: Seq<char>, n: int)
    requires
        0 <= n <= text.len(),
        forall|j: int| 0 <= j < n ==> text[j] != '\n',
        n < text.len() ==> text[n] == '\n',
    ensures
        first_newline(text) == n,
{
    lemma_first_newline(text);
}

/// A text without a newline is one line.
pub proof fn lemma_lines_of_last(text: Seq<char>)
    requires
        !text.contains('\n'),
    ensures
        lines_of(text) == seq![text],
{
    lemma_first_newline(text);
    if first_newline(text) < text.len() {
        assert(text.contains(text[first_newline(text)]));
    }
}

/// A text with a newline is its first line, then the lines of what stands
/// behind the newline.
pub proof fn lemma_lines_of_first(line: Seq<char>, behind: Seq<char>)
    requires
        !line.contains('\n'),
    ensures
        lines_of(line + seq!['\n'] + behind) == seq![line] + lines_of(behind),
{
    let text = line + seq!['\n'] + behind;
    assert forall|j: int| 0 <= j < line.len() implies text[j] != '\n' by {
        assert(line.contains(text[j]));
    }
    lemma_first_newline_is(text, line.len() as int);
    assert(text.take(line.len() as int) =~= line);
    assert(text.skip(line.len() as int + 1) =~= behind);
}

/// The payloads of two runs of lines, one after the other.
pub proof fn lemma_payloads_of_concat(first: Seq<Seq<char>>, second: Seq<Seq<char>>)
    ensures
        payloads_of(first + second) == payloads_of(first) + payloads_of(second),
    decreases second.len(),
{
    if second.len() == 0 {
        assert(first + second =~= first);
        assert(payloads_of(first) + payloads_of(second) =~= payloads_of(first));
    } else {
        let head = second.drop_last();
        lemma_payloads_of_concat(first, head);
        assert(first + second =~= (first + head).push(second.last()));
        lemma_payloads_of_push(first + head, second.last());
        assert(payloads_of(first + second) =~= payloads_of(first) + payloads_of(second));
    }
}

/// The payloads of two runs of chunks, one after the other.
pub proof fn lemma_stream_payloads_concat(first: Seq<Seq<char>>, second: Seq<Seq<char>>)
    ensures
        stream_payloads(first + second) == stream_payloads(first) + stream_payloads(second),
    decreases second.len(),
{
    if second.len() == 0 {
        assert(first + second =~= first);
        assert(stream_payloads(first) + stream_payloads(second) =~= stream_payloads(first));
    } else {
        let head = second.drop_last();
        lemma_stream_payloads_concat(first, head);
        assert((first + second).drop_last() =~= first + head);
        assert(stream_payloads(first + second) =~= stream_payloads(first) + stream_payloads(
            second,
        ));
    }
}

/// Two texts joined by a newline have the lines of the first, then the
/// lines of the second.
pub proof fn lemma_lines_of_join(first: Seq<char>, second: Seq<char>)
    ensures
        lines_of(first + seq!['\n'] + second) == lines_of(first) + lines_of(second),
    decreases first.len(),
{
    let joined = first + seq!['\n'] + second;
    let n = first_newline(first);
    lemma_first_newline(first);
    lemma_first_newline_is(joined, n);
    assert(joined.take(n) =~= first.take(n));
    if n < first.len() {
        let rest = first.skip(n + 1);
        lemma_lines_of_join(rest, second);
        assert(joined.skip(n + 1) =~= rest + seq!['\n'] + second);
        assert(lines_of(joined) =~= lines_of(first) + lines_of(second));
    } else {
        assert(joined.skip(n + 1) =~= second);
        assert(first.take(n) =~= first);
        assert(lines_of(joined) =~= lines_of(first) + lines_of(second));
    }
}

} // verus!
