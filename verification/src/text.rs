//! Executable work on text: whitespace, blank payloads, equality, and
//! cutting a text at its first newline.

use vstd::prelude::*;
use vstd::string::StringSliceAdditionalSpecFns;
use vstd::utf8::{
    encode_utf8, encode_utf8_decode_utf8, encode_utf8_valid_utf8, valid_utf8_split,
};
use crate::filter::{is_blank, is_whitespace};
use crate::utf8::{lemma_ascii_byte, lemma_newline_byte, NEWLINE};

verus! {

/// Whether `c` is a whitespace character.
pub fn is_whitespace_char(c: char) -> (r: bool)
    ensures
        r == is_whitespace(c),
{
    let u: u32 = c as u32;
    (0x09 <= u && u <= 0x0D) || u == 0x20 || u == 0x85 || u == 0xA0 || u == 0x1680 || (0x2000 <= u
        && u <= 0x200A) || u == 0x2028 || u == 0x2029 || u == 0x202F || u == 0x205F || u == 0x3000
}

/// Whether `text` holds nothing but whitespace.
pub fn is_blank_text(text: &str) -> (r: bool)
    ensures
        r == is_blank(text@),
{
    for c in it: text.chars()
        invariant
            it.seq() == text@,
            forall|j: int| 0 <= j < it.index() ==> is_whitespace(#[trigger] text@[j]),
    {
        if !is_whitespace_char(c) {
            return false;
        }
    }
    true
}

/// Whether `a` and `b` hold the same characters. Two texts are equal
/// exactly when their UTF-8 encodings are, so the bytes are compared.
pub fn same_text(a: &str, b: &str) -> (r: bool)
    ensures
        r == (a@ == b@),
{
    let x = a.as_bytes();
    let y = b.as_bytes();
    if x.len() != y.len() {
        return false;
    }
    let mut i: usize = 0;
    while i < x.len()
        invariant
            x@ == a.spec_bytes(),
            y@ == b.spec_bytes(),
            x@.len() == y@.len(),
            0 <= i <= x@.len(),
            forall|j: int| 0 <= j < i ==> x@[j] == y@[j],
        decreases x@.len() - i,
    {
        if x[i] != y[i] {
            return false;
        }
        i = i + 1;
    }
    proof {
        assert(x@ =~= y@);
        encode_utf8_decode_utf8(a@);
        encode_utf8_decode_utf8(b@);
    }
    true
}

/// Cuts `text` at its first newline: the line in front of the newline and
/// the text behind it. `None` where the text holds no newline.
pub fn split_line(text: &str) -> (r: Option<(&str, &str)>)
    ensures
        match r {
            Some((line, behind)) => text@ == line@ + seq!['\n'] + behind@ && !line@.contains('\n'),
            None => !text@.contains('\n'),
        },
{
    let bytes = text.as_bytes();
    let mut at: usize = 0;
    while at < bytes.len() && bytes[at] != NEWLINE
        invariant
            0 <= at <= bytes@.len(),
            forall|j: int| 0 <= j < at ==> bytes@[j] != NEWLINE,
        decreases bytes@.len() - at,
    {
        at = at + 1;
    }
    if at == bytes.len() {
        proof {
            if text@.contains('\n') {
                let k = choose|k: int| 0 <= k < text@.len() && text@[k] == '\n';
                lemma_newline_byte(text@, k);
            }
        }
        return None;
    }
    proof {
        encode_utf8_valid_utf8(text@);
        encode_utf8_decode_utf8(text@);
        lemma_ascii_byte(bytes@, at as int);
        valid_utf8_split(bytes@, at as int);
    }
    let (line, rest) = text.split_at(at);
    proof {
        lemma_ascii_byte(rest.spec_bytes(), 0);
    }
    let (_, behind) = rest.split_at(1);
    proof {
        encode_utf8_decode_utf8(line@);
        encode_utf8_decode_utf8(behind@);
        assert(behind.spec_bytes() =~= bytes@.subrange(at + 1, bytes@.len() as int));
        assert(NEWLINE as char == '\n');
        if line@.contains('\n') {
            let k = choose|k: int| 0 <= k < line@.len() && line@[k] == '\n';
            lemma_newline_byte(line@, k);
            let p = choose|p: int|
                0 <= p < encode_utf8(line@).len() && encode_utf8(line@)[p] == NEWLINE;
            assert(bytes@.subrange(0, at as int)[p] == bytes@[p]);
        }
    }
    Some((line, behind))
}

} // verus!
