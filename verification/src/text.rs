//! Text between the bytes of the file and the strings of the values.

use crate::codec::{lemma_skip_none, lemma_split};
use crate::error::{Expected, ExpectedView, Failure, ParseError};
use crate::lexer::{delimited, find, has_at, is_space, lemma_find_first, skip_spaces, write_bytes};
use vstd::string::StringSliceAdditionalSpecFns;
use vstd::utf8::{decode_utf8, encode_utf8, valid_utf8};

use vstd::prelude::*;

verus! {

/// `core::str::from_utf8` gives the string whose bytes are `bytes`, and gives
/// one exactly where `bytes` are UTF-8.
#[verifier::external_body]
fn checked_utf8(bytes: &[u8]) -> (r: Option<&str>)
    ensures
        r is Some <==> valid_utf8(bytes@),
        r matches Some(s) ==> s.spec_bytes() == bytes@,
{
    match core::str::from_utf8(bytes) {
        Ok(s) => Some(s),
        Err(_) => None,
    }
}

/// The string that `bytes` encode, if they are UTF-8.
pub fn decode(bytes: &[u8]) -> (r: Option<&str>)
    ensures
        r is Some <==> valid_utf8(bytes@),
        r matches Some(s) ==> s@ == decode_utf8(bytes@),
{
    match checked_utf8(bytes) {
        Some(s) => {
            proof {
                vstd::utf8::encode_utf8_decode_utf8(s@);
            }
            Some(s)
        },
        None => None,
    }
}

/// Appends the UTF-8 encoding of `s`.
pub fn write_str(s: &str, out: &mut Vec<u8>)
    ensures
        final(out)@ == old(out)@ + encode_utf8(s@),
{
    write_bytes(s.as_bytes(), out);
}

/// What is left of a text when the whitespace at its start and at its end
/// is taken away, as `str::trim` does it.
pub uninterp spec fn trimmed(text: Seq<char>) -> Seq<char>;

/// `str::trim` gives the text without the whitespace at its start and end.
#[verifier::external_body]
fn trim(text: &str) -> (r: &str)
    ensures
        r@ == trimmed(text@),
{
    text.trim()
}

/// Reading the bytes of `input` from `start` to `end` as text: they have to
/// be UTF-8, and the whitespace around the text is taken away. Places that
/// do not lie in the input, one behind the other, leave it incomplete.
pub open spec fn text_at(input: Seq<u8>, start: int, end: int) -> Result<Seq<char>, Failure> {
    let bytes = input.subrange(start, end);
    if !(0 <= start <= end <= input.len()) {
        Err(Failure::Incomplete)
    } else if valid_utf8(bytes) {
        Ok(trimmed(decode_utf8(bytes)))
    } else {
        Err(Failure::Syntax { expected: ExpectedView::Text, position: start })
    }
}

/// Reads the bytes of `input` from `start` to `end` as text.
pub fn read_text(input: &[u8], start: usize, end: usize) -> (r: Result<String, ParseError>)
    ensures
        match r {
            Ok(s) => text_at(input@, start as int, end as int) == Ok::<Seq<char>, Failure>(s@),
            Err(e) => text_at(input@, start as int, end as int) == Err::<Seq<char>, Failure>(e@),
        },
{
    if start > end || end > input.len() {
        return Err(ParseError::Incomplete);
    }
    match decode(vstd::slice::slice_subrange(input, start, end)) {
        Some(s) => Ok(trim(s).to_owned()),
        None => Err(ParseError::Syntax { expected: Expected::Text, position: start }),
    }
}

/// The text of a block that is there: the opening tag on a line of its own,
/// the text, and the closing tag on a line of its own.
pub open spec fn block_bytes(open: Seq<u8>, text: Seq<char>, close: Seq<u8>) -> Seq<u8> {
    Seq::<u8>::empty() + open + seq![10u8] + encode_utf8(text) + seq![10u8] + close + seq![10u8]
}

/// Writes a block.
pub fn write_block(open: &[u8], text: &str, close: &[u8], out: &mut Vec<u8>)
    ensures
        final(out)@ == old(out)@ + block_bytes(open@, text@, close@),
{
    let ghost base = out@;
    let ghost mut acc = Seq::<u8>::empty();
    assert(out@ =~= base + acc);
    crate::lexer::put_bytes(open, 10, out, Ghost(base), Ghost(acc));
    proof {
        acc = acc + open@ + seq![10u8];
    }
    crate::lexer::put_bytes(text.as_bytes(), 10, out, Ghost(base), Ghost(acc));
    proof {
        acc = acc + encode_utf8(text@) + seq![10u8];
    }
    crate::lexer::put_bytes(close, 10, out, Ghost(base), Ghost(acc));
}

/// The tag `close` stands nowhere in `bytes`.
pub open spec fn free_of(bytes: Seq<u8>, close: Seq<u8>) -> bool {
    forall|i: int| !#[trigger] has_at(bytes, i, close)
}

/// The text reads back from a block that `close` ends: between its line
/// feeds its encoding is read as the text itself, and the closing tag does
/// not stand in it.
pub open spec fn block_text_ok(text: Seq<char>, close: Seq<u8>) -> bool {
    let content = seq![10u8] + encode_utf8(text) + seq![10u8];
    &&& valid_utf8(content)
    &&& trimmed(decode_utf8(content)) == text
    &&& free_of(encode_utf8(text), close)
}

/// The text reads back as extra information in front of the tag `close`:
/// its line is read as the text itself, the closing tag does not stand in
/// it, and it starts with no separator.
pub open spec fn line_text_ok(text: Seq<char>, close: Seq<u8>) -> bool {
    let line = if text.len() == 0 {
        Seq::<u8>::empty()
    } else {
        encode_utf8(text) + seq![10u8]
    };
    &&& valid_utf8(line)
    &&& trimmed(decode_utf8(line)) == text
    &&& free_of(encode_utf8(text), close)
    &&& text.len() > 0 ==> encode_utf8(text).len() > 0 && !is_space(encode_utf8(text)[0])
}

/// No line feed stands in `tag`, and it is not empty.
pub open spec fn one_line(tag: Seq<u8>) -> bool {
    tag.len() > 0 && forall|j: int| 0 <= j < tag.len() ==> #[trigger] tag[j] != 10
}

/// A tag is found behind bytes that are free of it and a line feed.
pub proof fn lemma_find_behind(input: Seq<u8>, start: int, bytes: Seq<u8>, close: Seq<u8>)
    requires
        has_at(input, start, bytes + seq![10u8]),
        has_at(input, start + bytes.len() + 1, close),
        free_of(bytes, close),
        one_line(close),
    ensures
        find(input, start, close) == Some(start + bytes.len() + 1),
{
    let at = start + bytes.len() + 1;
    lemma_split(input, start, bytes, seq![10u8]);
    assert(input[start + bytes.len() + 0] == seq![10u8][0]);
    assert forall|i: int| start <= i < at implies !has_at(input, i, close) by {
        if has_at(input, i, close) {
            if i + close.len() > at - 1 {
                assert(input[i + (at - 1 - i)] == close[at - 1 - i]);
            } else {
                assert(has_at(bytes, i - start, close)) by {
                    assert forall|j: int| 0 <= j < close.len() implies bytes[i - start + j]
                        == #[trigger] close[j] by {
                        assert(input[i + j] == close[j]);
                        assert(input[start + (i - start + j)] == bytes[i - start + j]);
                    }
                }
            }
        }
    }
    lemma_find_first(input, start, at, close);
}

/// A block that stands in the input reads back its text.
pub proof fn lemma_block_reads(input: Seq<u8>, pos: int, open: Seq<u8>, text: Seq<char>, close: Seq<u8>)
    requires
        has_at(input, pos, block_bytes(open, text, close)),
        block_text_ok(text, close),
        one_line(close),
    ensures
        has_at(input, pos, open),
        delimited(input, pos, open, close) matches Ok(((start, at), end)) && text_at(input, start, at)
            == Ok::<Seq<char>, Failure>(text) && end == pos + block_bytes(open, text, close).len() - 1
            && end < input.len() && input[end] == 10,
{
    let bytes = encode_utf8(text);
    let t1 = Seq::<u8>::empty() + open;
    let t2 = t1 + seq![10u8];
    let t3 = t2 + bytes;
    let t4 = t3 + seq![10u8];
    let t5 = t4 + close;
    lemma_split(input, pos, t5, seq![10u8]);
    lemma_split(input, pos, t4, close);
    lemma_split(input, pos, t3, seq![10u8]);
    lemma_split(input, pos, t2, bytes);
    lemma_split(input, pos, t1, seq![10u8]);
    assert(t1 =~= open);
    let start = pos + open.len();
    let at = start + 1 + bytes.len() + 1;
    assert(input[pos + t5.len() + 0] == seq![10u8][0]);
    assert(input[start + 0] == seq![10u8][0]);
    assert(input[pos + t3.len() + 0] == seq![10u8][0]);
    // the content starts with a line feed, which the closing tag does not hold
    assert(has_at(input, start + 1, bytes + seq![10u8])) by {
        assert forall|i: int| 0 <= i < (bytes + seq![10u8]).len() implies input[start + 1 + i]
            == #[trigger] (bytes + seq![10u8])[i] by {
            if i < bytes.len() {
                assert(input[pos + t2.len() + i] == bytes[i]);
            }
        }
    }
    lemma_find_behind(input, start + 1, bytes, close);
    assert(!has_at(input, start, close)) by {
        if has_at(input, start, close) {
            assert(input[start + 0] == close[0]);
        }
    }
    assert(input.subrange(start, at) =~= seq![10u8] + bytes + seq![10u8]);
}

/// Extra information that stands in the input in front of its closing tag
/// reads back its text.
pub proof fn lemma_line_reads(input: Seq<u8>, pos: int, text: Seq<char>, close: Seq<u8>)
    requires
        line_text_ok(text, close),
        one_line(close),
        !is_space(close[0]),
        ({
            let line = if text.len() == 0 {
                Seq::<u8>::empty()
            } else {
                encode_utf8(text) + seq![10u8]
            };
            has_at(input, pos, line) && has_at(input, pos + line.len(), close)
        }),
    ensures
        skip_spaces(input, pos) == pos,
        ({
            let line = if text.len() == 0 {
                Seq::<u8>::empty()
            } else {
                encode_utf8(text) + seq![10u8]
            };
            find(input, pos, close) == Some(pos + line.len()) && text_at(input, pos, pos + line.len())
                == Ok::<Seq<char>, Failure>(text)
        }),
{
    let bytes = encode_utf8(text);
    if text.len() == 0 {
        assert(input[pos + 0] == close[0]);
        lemma_skip_none(input, pos);
        assert(input.subrange(pos, pos) =~= Seq::<u8>::empty());
    } else {
        lemma_split(input, pos, bytes, seq![10u8]);
        assert(input[pos + 0] == bytes[0]);
        lemma_skip_none(input, pos);
        lemma_find_behind(input, pos, bytes, close);
        assert(input.subrange(pos, pos + bytes.len() + 1) =~= bytes + seq![10u8]);
    }
}

/// The text of a block starts with its opening tag.
pub proof fn lemma_block_starts(open: Seq<u8>, text: Seq<char>, close: Seq<u8>)
    requires
        open.len() > 0,
    ensures
        block_bytes(open, text, close).len() > open.len(),
        forall|i: int| 0 <= i < open.len() ==> block_bytes(open, text, close)[i] == #[trigger] open[i],
{
    let t1 = Seq::<u8>::empty() + open;
    let t2 = t1 + seq![10u8];
    let t3 = t2 + encode_utf8(text);
    let t4 = t3 + seq![10u8];
    let t5 = t4 + close;
    let t6 = t5 + seq![10u8];
    assert forall|i: int| 0 <= i < open.len() implies t6[i] == #[trigger] open[i] by {
        assert(t1[i] == open[i]);
        assert(t2[i] == t1[i]);
        assert(t3[i] == t2[i]);
        assert(t4[i] == t3[i]);
        assert(t5[i] == t4[i]);
    }
}

/// Whether two byte strings hold the same bytes.
pub fn same_bytes(a: &[u8], b: &[u8]) -> (r: bool)
    ensures
        r == (a@ == b@),
{
    if a.len() != b.len() {
        return false;
    }
    let mut i: usize = 0;
    while i < a.len()
        invariant
            i <= a.len(),
            a.len() == b.len(),
            forall|j: int| 0 <= j < i ==> a@[j] == b@[j],
        decreases a.len() - i,
    {
        if a[i] != b[i] {
            return false;
        }
        i = i + 1;
    }
    assert(a@ =~= b@);
    true
}

/// Whether the bytes `content` are read as the text `text`.
fn reads_as(content: &[u8], text: &str) -> (r: bool)
    ensures
        r == (valid_utf8(content@) && trimmed(decode_utf8(content@)) == text@),
{
    match decode(content) {
        None => false,
        Some(s) => {
            let t = trim(s);
            proof {
                vstd::utf8::encode_utf8_decode_utf8(t@);
                vstd::utf8::encode_utf8_decode_utf8(text@);
            }
            same_bytes(t.as_bytes(), text.as_bytes())
        },
    }
}

/// Whether the tag `close` stands nowhere in `bytes`.
pub fn is_free_of(bytes: &[u8], close: &[u8]) -> (r: bool)
    ensures
        r == free_of(bytes@, close@),
{
    proof {
        crate::lexer::lemma_find(bytes@, 0, close@);
    }
    match crate::lexer::find_tag(bytes, 0, close) {
        Some(at) => false,
        None => {
            assert forall|i: int| !#[trigger] has_at(bytes@, i, close@) by {
                if i < 0 {
                }
            }
            true
        },
    }
}

/// Whether `text` reads back from a block that `close` ends.
pub fn fits_block(text: &str, close: &[u8]) -> (r: bool)
    ensures
        r == block_text_ok(text@, close@),
{
    let bytes = text.as_bytes();
    let mut content: Vec<u8> = Vec::new();
    content.push(10);
    write_bytes(bytes, &mut content);
    content.push(10);
    assert(content@ =~= seq![10u8] + encode_utf8(text@) + seq![10u8]);
    reads_as(content.as_slice(), text) && is_free_of(bytes, close)
}

/// Whether `text` reads back as extra information in front of the tag `close`.
pub fn fits_line(text: &str, close: &[u8]) -> (r: bool)
    ensures
        r == line_text_ok(text@, close@),
{
    let bytes = text.as_bytes();
    let mut line: Vec<u8> = Vec::new();
    if !text.is_empty() {
        write_bytes(bytes, &mut line);
        line.push(10);
        assert(line@ =~= encode_utf8(text@) + seq![10u8]);
    }
    if !reads_as(line.as_slice(), text) || !is_free_of(bytes, close) {
        return false;
    }
    if text.is_empty() {
        true
    } else {
        bytes.len() > 0 && !(bytes[0] == 32 || bytes[0] == 9 || bytes[0] == 13 || bytes[0] == 10)
    }
}

} // verus!
