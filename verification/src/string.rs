//! Extra slots that keep what a generator added as text.
//!
//! The text is kept without the whitespace around it. A comment and a header
//! may be missing; the extra information of the init block and of an event
//! is empty where there is none.

use crate::{ReadLhe, WriteLhe};
use crate::codec::{Codec, lemma_skip_none, lemma_skip_one, lemma_skip_twice};
use crate::error::{Failure, ParseError, WriteError};
use crate::generic::{
    EVENT_CLOSE, EVENT_OPEN, FILE_CLOSE, INIT_CLOSE, INIT_OPEN, LheFileGeneric, slots_ok,
};
use crate::lexer::{has_at, is_space};
use crate::plain::{
    COMMENT_CLOSE, COMMENT_OPEN, HEADER_CLOSE, HEADER_OPEN, lemma_tags_differ, no_block, optional,
    read_optional, read_rest_until, rest_until,
};
use crate::text::{
    block_bytes, block_text_ok, fits_block, fits_line, lemma_block_reads, lemma_block_starts,
    lemma_line_reads, line_text_ok, one_line, read_text, text_at, write_block, write_str,
};
use vstd::utf8::encode_utf8;

use vstd::prelude::*;

verus! {

/// A file whose extra slots are kept as text.
pub type LheFile = LheFileGeneric<Comment, Header, InitExtra, EventExtra>;

/// The text of extra information: the text and a line feed, or nothing
/// where the text is empty.
pub open spec fn line_bytes(text: Seq<char>) -> Seq<u8> {
    if text.len() == 0 {
        Seq::empty()
    } else {
        encode_utf8(text) + seq![10u8]
    }
}

/// Writes extra information.
pub fn write_line(text: &str, out: &mut Vec<u8>)
    ensures
        final(out)@ == old(out)@ + line_bytes(text@),
{
    if text.is_empty() {
        assert(out@ =~= old(out)@ + Seq::<u8>::empty());
    } else {
        write_str(text, out);
        out.push(10);
        assert(out@ =~= old(out)@ + (encode_utf8(text@) + seq![10u8]));
    }
}

/// The comment of the file, where there is one.
#[derive(Clone, Debug, PartialEq)]
pub struct Comment {
    pub comment: Option<String>,
}

impl View for Comment {
    type V = Option<Seq<char>>;

    open spec fn view(&self) -> Option<Seq<char>> {
        match self.comment {
            Some(s) => Some(s@),
            None => None,
        }
    }
}

impl ReadLhe for Comment {
    /// Where the opening tag stands at `pos`, the text up to the closing
    /// tag; nothing, and `pos` itself, where it does not.
    open spec fn parse(input: Seq<u8>, pos: int) -> Result<(Option<Seq<char>>, int), Failure> {
        match optional(input, pos, COMMENT_OPEN@, COMMENT_CLOSE@) {
            Err(e) => Err(e),
            Ok((None, end)) => Ok((None, end)),
            Ok((Some((start, at)), end)) => match text_at(input, start, at) {
                Err(e) => Err(e),
                Ok(text) => Ok((Some(text), end)),
            },
        }
    }

    fn read_from_lhe(input: &[u8], pos: usize) -> (r: Result<(Comment, usize), ParseError>) {
        match read_optional(input, pos, COMMENT_OPEN.as_slice(), COMMENT_CLOSE.as_slice()) {
            Err(e) => Err(e),
            Ok((None, end)) => Ok((Comment { comment: None }, end)),
            Ok((Some((start, at)), end)) => match read_text(input, start, at) {
                Err(e) => Err(e),
                Ok(text) => Ok((Comment { comment: Some(text) }, end)),
            },
        }
    }
}

impl WriteLhe for Comment {
    open spec fn writable(v: Option<Seq<char>>) -> bool {
        true
    }

    open spec fn lhe_bytes(v: Option<Seq<char>>) -> Seq<u8> {
        match v {
            Some(text) => block_bytes(COMMENT_OPEN@, text, COMMENT_CLOSE@),
            None => Seq::empty(),
        }
    }

    fn write_lhe(&self, out: &mut Vec<u8>) -> (r: Result<(), WriteError>) {
        match &self.comment {
            Some(text) => {
                write_block(COMMENT_OPEN.as_slice(), text.as_str(), COMMENT_CLOSE.as_slice(), out);
            },
            None => {
                assert(out@ =~= old(out)@ + Seq::<u8>::empty());
            },
        }
        Ok(())
    }
}

impl Codec for Comment {
    /// A text that is there reads back from its block.
    open spec fn canonical(v: Option<Seq<char>>) -> bool {
        match v {
            Some(text) => block_text_ok(text, COMMENT_CLOSE@),
            None => true,
        }
    }

    /// No block of the same kind follows.
    open spec fn delimited(input: Seq<u8>, at: int) -> bool {
        no_block(input, at, COMMENT_OPEN@)
    }

    proof fn lemma_round_trip(v: Option<Seq<char>>, input: Seq<u8>, pos: int) {
        match v {
            Some(text) => {
                assert(one_line(COMMENT_CLOSE@));
                lemma_block_reads(input, pos, COMMENT_OPEN@, text, COMMENT_CLOSE@);
                assert(input[pos + 0] == COMMENT_OPEN@[0]);
                lemma_skip_none(input, pos);
                lemma_skip_one(input, pos + Self::lhe_bytes(v).len() - 1);
            },
            None => {
                lemma_skip_twice(input, pos);
            },
        }
    }
}

impl Comment {
    /// Whether the value reads back as itself.
    pub fn is_canonical(&self) -> (r: bool)
        ensures
            r == <Comment as Codec>::canonical(self@),
    {
        match &self.comment {
            Some(text) => fits_block(text.as_str(), COMMENT_CLOSE.as_slice()),
            None => true,
        }
    }
}

/// The header of the file, where there is one.
#[derive(Clone, Debug, PartialEq)]
pub struct Header {
    pub header: Option<String>,
}

impl View for Header {
    type V = Option<Seq<char>>;

    open spec fn view(&self) -> Option<Seq<char>> {
        match self.header {
            Some(s) => Some(s@),
            None => None,
        }
    }
}

impl ReadLhe for Header {
    /// Where the opening tag stands at `pos`, the text up to the closing
    /// tag; nothing, and `pos` itself, where it does not.
    open spec fn parse(input: Seq<u8>, pos: int) -> Result<(Option<Seq<char>>, int), Failure> {
        match optional(input, pos, HEADER_OPEN@, HEADER_CLOSE@) {
            Err(e) => Err(e),
            Ok((None, end)) => Ok((None, end)),
            Ok((Some((start, at)), end)) => match text_at(input, start, at) {
                Err(e) => Err(e),
                Ok(text) => Ok((Some(text), end)),
            },
        }
    }

    fn read_from_lhe(input: &[u8], pos: usize) -> (r: Result<(Header, usize), ParseError>) {
        match read_optional(input, pos, HEADER_OPEN.as_slice(), HEADER_CLOSE.as_slice()) {
            Err(e) => Err(e),
            Ok((None, end)) => Ok((Header { header: None }, end)),
            Ok((Some((start, at)), end)) => match read_text(input, start, at) {
                Err(e) => Err(e),
                Ok(text) => Ok((Header { header: Some(text) }, end)),
            },
        }
    }
}

impl WriteLhe for Header {
    open spec fn writable(v: Option<Seq<char>>) -> bool {
        true
    }

    open spec fn lhe_bytes(v: Option<Seq<char>>) -> Seq<u8> {
        match v {
            Some(text) => block_bytes(HEADER_OPEN@, text, HEADER_CLOSE@),
            None => Seq::empty(),
        }
    }

    fn write_lhe(&self, out: &mut Vec<u8>) -> (r: Result<(), WriteError>) {
        match &self.header {
            Some(text) => {
                write_block(HEADER_OPEN.as_slice(), text.as_str(), HEADER_CLOSE.as_slice(), out);
            },
            None => {
                assert(out@ =~= old(out)@ + Seq::<u8>::empty());
            },
        }
        Ok(())
    }
}

impl Codec for Header {
    /// A text that is there reads back from its block.
    open spec fn canonical(v: Option<Seq<char>>) -> bool {
        match v {
            Some(text) => block_text_ok(text, HEADER_CLOSE@),
            None => true,
        }
    }

    /// No block of the same kind follows.
    open spec fn delimited(input: Seq<u8>, at: int) -> bool {
        no_block(input, at, HEADER_OPEN@)
    }

    proof fn lemma_round_trip(v: Option<Seq<char>>, input: Seq<u8>, pos: int) {
        match v {
            Some(text) => {
                assert(one_line(HEADER_CLOSE@));
                lemma_block_reads(input, pos, HEADER_OPEN@, text, HEADER_CLOSE@);
                assert(input[pos + 0] == HEADER_OPEN@[0]);
                lemma_skip_none(input, pos);
                lemma_skip_one(input, pos + Self::lhe_bytes(v).len() - 1);
            },
            None => {
                lemma_skip_twice(input, pos);
            },
        }
    }
}

impl Header {
    /// Whether the value reads back as itself.
    pub fn is_canonical(&self) -> (r: bool)
        ensures
            r == <Header as Codec>::canonical(self@),
    {
        match &self.header {
            Some(text) => fits_block(text.as_str(), HEADER_CLOSE.as_slice()),
            None => true,
        }
    }
}

/// What the init block holds behind its rows.
#[derive(Clone, Debug, PartialEq)]
pub struct InitExtra(pub String);

impl View for InitExtra {
    type V = Seq<char>;

    open spec fn view(&self) -> Seq<char> {
        self.0@
    }
}

impl ReadLhe for InitExtra {
    /// The text up to the closing tag, which has to follow.
    open spec fn parse(input: Seq<u8>, pos: int) -> Result<(Seq<char>, int), Failure> {
        match rest_until(input, pos, INIT_CLOSE@) {
            Err(e) => Err(e),
            Ok(at) => match text_at(input, pos, at) {
                Err(e) => Err(e),
                Ok(text) => Ok((text, at)),
            },
        }
    }

    fn read_from_lhe(input: &[u8], pos: usize) -> (r: Result<(InitExtra, usize), ParseError>) {
        match read_rest_until(input, pos, INIT_CLOSE.as_slice()) {
            Err(e) => Err(e),
            Ok(at) => match read_text(input, pos, at) {
                Err(e) => Err(e),
                Ok(text) => Ok((InitExtra(text), at)),
            },
        }
    }
}

impl WriteLhe for InitExtra {
    open spec fn writable(v: Seq<char>) -> bool {
        true
    }

    open spec fn lhe_bytes(v: Seq<char>) -> Seq<u8> {
        line_bytes(v)
    }

    fn write_lhe(&self, out: &mut Vec<u8>) -> (r: Result<(), WriteError>) {
        write_line(self.0.as_str(), out);
        Ok(())
    }
}

impl Codec for InitExtra {
    /// The text reads back from its line.
    open spec fn canonical(v: Seq<char>) -> bool {
        line_text_ok(v, INIT_CLOSE@)
    }

    /// The closing tag follows.
    open spec fn delimited(input: Seq<u8>, at: int) -> bool {
        has_at(input, at, INIT_CLOSE@)
    }

    proof fn lemma_round_trip(v: Seq<char>, input: Seq<u8>, pos: int) {
        assert(one_line(INIT_CLOSE@));
        assert(!is_space(INIT_CLOSE@[0]));
        lemma_line_reads(input, pos, v, INIT_CLOSE@);
        assert(input[pos + Self::lhe_bytes(v).len() + 0] == INIT_CLOSE@[0]);
    }
}

impl InitExtra {
    /// Whether the value reads back as itself.
    pub fn is_canonical(&self) -> (r: bool)
        ensures
            r == <InitExtra as Codec>::canonical(self@),
    {
        fits_line(self.0.as_str(), INIT_CLOSE.as_slice())
    }
}

/// What an event holds behind its rows.
#[derive(Clone, Debug, PartialEq)]
pub struct EventExtra(pub String);

impl View for EventExtra {
    type V = Seq<char>;

    open spec fn view(&self) -> Seq<char> {
        self.0@
    }
}

impl ReadLhe for EventExtra {
    /// The text up to the closing tag, which has to follow.
    open spec fn parse(input: Seq<u8>, pos: int) -> Result<(Seq<char>, int), Failure> {
        match rest_until(input, pos, EVENT_CLOSE@) {
            Err(e) => Err(e),
            Ok(at) => match text_at(input, pos, at) {
                Err(e) => Err(e),
                Ok(text) => Ok((text, at)),
            },
        }
    }

    fn read_from_lhe(input: &[u8], pos: usize) -> (r: Result<(EventExtra, usize), ParseError>) {
        match read_rest_until(input, pos, EVENT_CLOSE.as_slice()) {
            Err(e) => Err(e),
            Ok(at) => match read_text(input, pos, at) {
                Err(e) => Err(e),
                Ok(text) => Ok((EventExtra(text), at)),
            },
        }
    }
}

impl WriteLhe for EventExtra {
    open spec fn writable(v: Seq<char>) -> bool {
        true
    }

    open spec fn lhe_bytes(v: Seq<char>) -> Seq<u8> {
        line_bytes(v)
    }

    fn write_lhe(&self, out: &mut Vec<u8>) -> (r: Result<(), WriteError>) {
        write_line(self.0.as_str(), out);
        Ok(())
    }
}

impl Codec for EventExtra {
    /// The text reads back from its line.
    open spec fn canonical(v: Seq<char>) -> bool {
        line_text_ok(v, EVENT_CLOSE@)
    }

    /// The closing tag follows.
    open spec fn delimited(input: Seq<u8>, at: int) -> bool {
        has_at(input, at, EVENT_CLOSE@)
    }

    proof fn lemma_round_trip(v: Seq<char>, input: Seq<u8>, pos: int) {
        assert(one_line(EVENT_CLOSE@));
        assert(!is_space(EVENT_CLOSE@[0]));
        lemma_line_reads(input, pos, v, EVENT_CLOSE@);
        assert(input[pos + Self::lhe_bytes(v).len() + 0] == EVENT_CLOSE@[0]);
    }
}

impl EventExtra {
    /// Whether the value reads back as itself.
    pub fn is_canonical(&self) -> (r: bool)
        ensures
            r == <EventExtra as Codec>::canonical(self@),
    {
        fits_line(self.0.as_str(), EVENT_CLOSE.as_slice())
    }
}

/// The extra slots that keep text grant what a file needs to read back.
pub proof fn lemma_string_slots()
    ensures
        slots_ok::<Comment, Header, InitExtra, EventExtra>(),
{
    assert forall|input: Seq<u8>, at: int| #[trigger] has_at(input, at, INIT_OPEN@) implies Comment::delimited(
        input,
        at,
    ) && Header::delimited(input, at) by {
        lemma_tags_differ(input, at, INIT_OPEN@, COMMENT_OPEN@);
        lemma_tags_differ(input, at, INIT_OPEN@, HEADER_OPEN@);
    }
    assert forall|input: Seq<u8>, at: int| #[trigger] has_at(input, at, EVENT_OPEN@) implies Comment::delimited(
        input,
        at,
    ) && Header::delimited(input, at) by {
        lemma_tags_differ(input, at, EVENT_OPEN@, COMMENT_OPEN@);
        lemma_tags_differ(input, at, EVENT_OPEN@, HEADER_OPEN@);
    }
    assert forall|input: Seq<u8>, at: int| #[trigger] has_at(input, at, FILE_CLOSE@) implies Comment::delimited(
        input,
        at,
    ) && Header::delimited(input, at) by {
        lemma_tags_differ(input, at, FILE_CLOSE@, COMMENT_OPEN@);
        lemma_tags_differ(input, at, FILE_CLOSE@, HEADER_OPEN@);
    }
    assert forall|input: Seq<u8>, at: int, h: Option<Seq<char>>|
        Header::canonical(h) && Header::lhe_bytes(h).len() > 0 && #[trigger] has_at(
            input,
            at,
            Header::lhe_bytes(h),
        ) implies Comment::delimited(input, at) by {
        let text = Header::lhe_bytes(h);
        lemma_block_starts(HEADER_OPEN@, h->0, HEADER_CLOSE@);
        assert(has_at(input, at, HEADER_OPEN@)) by {
            assert forall|i: int| 0 <= i < HEADER_OPEN@.len() implies input[at + i]
                == #[trigger] HEADER_OPEN@[i] by {
                assert(input[at + i] == text[i]);
            }
        }
        lemma_tags_differ(input, at, HEADER_OPEN@, COMMENT_OPEN@);
    }
    assert forall|c: Option<Seq<char>>|
        Comment::canonical(c) && (#[trigger] Comment::lhe_bytes(c)).len() > 0 implies !is_space(
            Comment::lhe_bytes(c)[0],
        ) by {
        lemma_block_starts(COMMENT_OPEN@, c->0, COMMENT_CLOSE@);
    }
    assert forall|h: Option<Seq<char>>|
        Header::canonical(h) && (#[trigger] Header::lhe_bytes(h)).len() > 0 implies !is_space(
            Header::lhe_bytes(h)[0],
        ) by {
        lemma_block_starts(HEADER_OPEN@, h->0, HEADER_CLOSE@);
    }
}

} // verus!
