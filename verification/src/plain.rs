//! Extra slots that read what a generator added and throw it away.
//!
//! With these types a file can be read whatever it holds besides the fixed
//! records. Writing gives the fixed records alone.

use crate::{ReadLhe, WriteLhe};
use crate::codec::{Codec, lemma_skip_none, lemma_skip_twice};
use crate::error::{Failure, ParseError, WriteError};
use crate::generic::{
    EVENT_CLOSE, EVENT_OPEN, FILE_CLOSE, INIT_CLOSE, INIT_OPEN, LheFileGeneric, slots_ok,
};
use crate::lexer::{delimited, find, find_tag, has_at, read_delimited, skip_spaces, starts_with};
use vstd::prelude::*;

verus! {

/// A file whose extra slots are thrown away.
pub type LheFile = LheFileGeneric<Comment, Header, InitExtra, EventExtra>;

/// The tag that opens a comment.
pub const COMMENT_OPEN: [u8; 4] = [60, 33, 45, 45];

/// The tag that closes a comment.
pub const COMMENT_CLOSE: [u8; 3] = [45, 45, 62];

/// The tag that opens the header.
pub const HEADER_OPEN: [u8; 8] = [60, 104, 101, 97, 100, 101, 114, 62];

/// The tag that closes the header.
pub const HEADER_CLOSE: [u8; 9] = [60, 47, 104, 101, 97, 100, 101, 114, 62];

/// Reading a block that may be missing at `pos`: where `open` stands there,
/// what stands between it and the first `close` behind it; nothing, and
/// `pos` itself, where `open` does not stand there.
pub open spec fn optional(input: Seq<u8>, pos: int, open: Seq<u8>, close: Seq<u8>) -> Result<
    (Option<(int, int)>, int),
    Failure,
> {
    if has_at(input, pos, open) {
        match delimited(input, pos, open, close) {
            Err(e) => Err(e),
            Ok((content, end)) => Ok((Some(content), end)),
        }
    } else {
        Ok((None, pos))
    }
}

/// Reads a block that may be missing.
pub fn read_optional(input: &[u8], pos: usize, open: &[u8], close: &[u8]) -> (r: Result<
    (Option<(usize, usize)>, usize),
    ParseError,
>)
    ensures
        match r {
            Ok((Some((start, at)), end)) => optional(input@, pos as int, open@, close@) == Ok::<
                (Option<(int, int)>, int),
                Failure,
            >((Some((start as int, at as int)), end as int)) && pos <= start <= at <= end
                <= input.len(),
            Ok((None, end)) => optional(input@, pos as int, open@, close@) == Ok::<
                (Option<(int, int)>, int),
                Failure,
            >((None, pos as int)) && end == pos,
            Err(e) => optional(input@, pos as int, open@, close@) == Err::<
                (Option<(int, int)>, int),
                Failure,
            >(e@),
        },
{
    if starts_with(input, pos, open) {
        match read_delimited(input, pos, open, close) {
            Err(e) => Err(e),
            Ok((content, end)) => Ok((Some(content), end)),
        }
    } else {
        Ok((None, pos))
    }
}

/// A comment that may stand in the file. What it says is thrown away.
#[derive(Clone, Debug, PartialEq)]
pub struct Comment {}

impl View for Comment {
    type V = ();

    open spec fn view(&self) -> () {
        ()
    }
}

impl ReadLhe for Comment {
    open spec fn parse(input: Seq<u8>, pos: int) -> Result<((), int), Failure> {
        match optional(input, pos, COMMENT_OPEN@, COMMENT_CLOSE@) {
            Err(e) => Err(e),
            Ok((_, end)) => Ok(((), end)),
        }
    }

    fn read_from_lhe(input: &[u8], pos: usize) -> (r: Result<(Comment, usize), ParseError>) {
        match read_optional(input, pos, COMMENT_OPEN.as_slice(), COMMENT_CLOSE.as_slice()) {
            Err(e) => Err(e),
            Ok((_, end)) => Ok((Comment {  }, end)),
        }
    }
}

impl WriteLhe for Comment {
    open spec fn writable(v: ()) -> bool {
        true
    }

    open spec fn lhe_bytes(v: ()) -> Seq<u8> {
        Seq::empty()
    }

    fn write_lhe(&self, out: &mut Vec<u8>) -> (r: Result<(), WriteError>) {
        assert(out@ =~= old(out)@ + Seq::<u8>::empty());
        Ok(())
    }
}

/// A header that may stand in the file. What it says is thrown away.
#[derive(Clone, Debug, PartialEq)]
pub struct Header {}

impl View for Header {
    type V = ();

    open spec fn view(&self) -> () {
        ()
    }
}

impl ReadLhe for Header {
    open spec fn parse(input: Seq<u8>, pos: int) -> Result<((), int), Failure> {
        match optional(input, pos, HEADER_OPEN@, HEADER_CLOSE@) {
            Err(e) => Err(e),
            Ok((_, end)) => Ok(((), end)),
        }
    }

    fn read_from_lhe(input: &[u8], pos: usize) -> (r: Result<(Header, usize), ParseError>) {
        match read_optional(input, pos, HEADER_OPEN.as_slice(), HEADER_CLOSE.as_slice()) {
            Err(e) => Err(e),
            Ok((_, end)) => Ok((Header {  }, end)),
        }
    }
}

impl WriteLhe for Header {
    open spec fn writable(v: ()) -> bool {
        true
    }

    open spec fn lhe_bytes(v: ()) -> Seq<u8> {
        Seq::empty()
    }

    fn write_lhe(&self, out: &mut Vec<u8>) -> (r: Result<(), WriteError>) {
        assert(out@ =~= old(out)@ + Seq::<u8>::empty());
        Ok(())
    }
}

/// Reading everything up to the tag `close`, which has to follow.
pub open spec fn rest_until(input: Seq<u8>, pos: int, close: Seq<u8>) -> Result<int, Failure> {
    match find(input, pos, close) {
        None => Err(Failure::Incomplete),
        Some(at) => Ok(at),
    }
}

/// Reads everything up to the tag `close`.
pub fn read_rest_until(input: &[u8], pos: usize, close: &[u8]) -> (r: Result<usize, ParseError>)
    ensures
        match r {
            Ok(at) => rest_until(input@, pos as int, close@) == Ok::<int, Failure>(at as int) && pos
                <= at <= input.len(),
            Err(e) => rest_until(input@, pos as int, close@) == Err::<int, Failure>(e@),
        },
{
    match find_tag(input, pos, close) {
        None => Err(ParseError::Incomplete),
        Some(at) => Ok(at),
    }
}

/// What the init block holds behind its rows. It is thrown away.
#[derive(Clone, Debug, PartialEq)]
pub struct InitExtra {}

impl View for InitExtra {
    type V = ();

    open spec fn view(&self) -> () {
        ()
    }
}

impl ReadLhe for InitExtra {
    open spec fn parse(input: Seq<u8>, pos: int) -> Result<((), int), Failure> {
        match rest_until(input, pos, INIT_CLOSE@) {
            Err(e) => Err(e),
            Ok(end) => Ok(((), end)),
        }
    }

    fn read_from_lhe(input: &[u8], pos: usize) -> (r: Result<(InitExtra, usize), ParseError>) {
        match read_rest_until(input, pos, INIT_CLOSE.as_slice()) {
            Err(e) => Err(e),
            Ok(end) => Ok((InitExtra {  }, end)),
        }
    }
}

impl WriteLhe for InitExtra {
    open spec fn writable(v: ()) -> bool {
        true
    }

    open spec fn lhe_bytes(v: ()) -> Seq<u8> {
        Seq::empty()
    }

    fn write_lhe(&self, out: &mut Vec<u8>) -> (r: Result<(), WriteError>) {
        assert(out@ =~= old(out)@ + Seq::<u8>::empty());
        Ok(())
    }
}

/// What an event holds behind its rows. It is thrown away.
#[derive(Clone, Debug, PartialEq)]
pub struct EventExtra {}

impl View for EventExtra {
    type V = ();

    open spec fn view(&self) -> () {
        ()
    }
}

impl ReadLhe for EventExtra {
    open spec fn parse(input: Seq<u8>, pos: int) -> Result<((), int), Failure> {
        match rest_until(input, pos, EVENT_CLOSE@) {
            Err(e) => Err(e),
            Ok(end) => Ok(((), end)),
        }
    }

    fn read_from_lhe(input: &[u8], pos: usize) -> (r: Result<(EventExtra, usize), ParseError>) {
        match read_rest_until(input, pos, EVENT_CLOSE.as_slice()) {
            Err(e) => Err(e),
            Ok(end) => Ok((EventExtra {  }, end)),
        }
    }
}

impl WriteLhe for EventExtra {
    open spec fn writable(v: ()) -> bool {
        true
    }

    open spec fn lhe_bytes(v: ()) -> Seq<u8> {
        Seq::empty()
    }

    fn write_lhe(&self, out: &mut Vec<u8>) -> (r: Result<(), WriteError>) {
        assert(out@ =~= old(out)@ + Seq::<u8>::empty());
        Ok(())
    }
}

/// No block with the tag `open` starts at the first place behind `at` that
/// holds no separator.
pub open spec fn no_block(input: Seq<u8>, at: int, open: Seq<u8>) -> bool {
    !has_at(input, skip_spaces(input, at), open)
}

/// The tag `close` stands at the first place behind `at` that holds no
/// separator.
pub open spec fn tag_next(input: Seq<u8>, at: int, close: Seq<u8>) -> bool {
    has_at(input, skip_spaces(input, at), close)
}

impl Codec for Comment {
    open spec fn canonical(v: ()) -> bool {
        true
    }

    /// Nothing is written, so no comment may follow.
    open spec fn delimited(input: Seq<u8>, at: int) -> bool {
        no_block(input, at, COMMENT_OPEN@)
    }

    proof fn lemma_round_trip(v: (), input: Seq<u8>, pos: int) {
        lemma_skip_twice(input, pos);
    }
}

impl Codec for Header {
    open spec fn canonical(v: ()) -> bool {
        true
    }

    /// Nothing is written, so no header may follow.
    open spec fn delimited(input: Seq<u8>, at: int) -> bool {
        no_block(input, at, HEADER_OPEN@)
    }

    proof fn lemma_round_trip(v: (), input: Seq<u8>, pos: int) {
        lemma_skip_twice(input, pos);
    }
}

impl Codec for InitExtra {
    open spec fn canonical(v: ()) -> bool {
        true
    }

    /// Nothing is written, so the closing tag has to follow.
    open spec fn delimited(input: Seq<u8>, at: int) -> bool {
        tag_next(input, at, INIT_CLOSE@)
    }

    proof fn lemma_round_trip(v: (), input: Seq<u8>, pos: int) {
        lemma_skip_twice(input, pos);
    }
}

impl Codec for EventExtra {
    open spec fn canonical(v: ()) -> bool {
        true
    }

    /// Nothing is written, so the closing tag has to follow.
    open spec fn delimited(input: Seq<u8>, at: int) -> bool {
        tag_next(input, at, EVENT_CLOSE@)
    }

    proof fn lemma_round_trip(v: (), input: Seq<u8>, pos: int) {
        lemma_skip_twice(input, pos);
    }
}

/// The first two bytes of the tags that stand in a file tell them apart.
pub proof fn lemma_tags_differ(input: Seq<u8>, at: int, one: Seq<u8>, other: Seq<u8>)
    requires
        has_at(input, at, one),
        one.len() >= 2,
        other.len() >= 2,
        !crate::lexer::is_space(one[0]),
        one[1] != other[1],
    ensures
        no_block(input, at, other),
        tag_next(input, at, one),
{
    assert(input[at + 0] == one[0]);
    assert(input[at + 1] == one[1]);
    lemma_skip_none(input, at);
    if has_at(input, at, other) {
        assert(input[at + 1] == other[1]);
    }
}

/// The extra slots that throw everything away grant what a file needs to
/// read back.
pub proof fn lemma_plain_slots()
    ensures
        slots_ok::<Comment, Header, InitExtra, EventExtra>(),
{
    assert forall|input: Seq<u8>, at: int| #[trigger] has_at(input, at, INIT_OPEN@) implies Comment::delimited(
        input,
        at,
    ) && Header::delimited(input, at) by {
        lemma_tags_differ(input, at, INIT_OPEN@, COMMENT_OPEN@);
        lemma_tags_differ(input, at, INIT_OPEN@, HEADER_OPEN@);
    }
    assert forall|input: Seq<u8>, at: int| #[trigger] has_at(input, at, EVENT_OPEN@) implies Comment::delimited(
        input,
        at,
    ) && Header::delimited(input, at) by {
        lemma_tags_differ(input, at, EVENT_OPEN@, COMMENT_OPEN@);
        lemma_tags_differ(input, at, EVENT_OPEN@, HEADER_OPEN@);
    }
    assert forall|input: Seq<u8>, at: int| #[trigger] has_at(input, at, FILE_CLOSE@) implies Comment::delimited(
        input,
        at,
    ) && Header::delimited(input, at) by {
        lemma_tags_differ(input, at, FILE_CLOSE@, COMMENT_OPEN@);
        lemma_tags_differ(input, at, FILE_CLOSE@, HEADER_OPEN@);
    }
    assert forall|input: Seq<u8>, at: int| #[trigger] has_at(input, at, INIT_CLOSE@) implies InitExtra::delimited(
        input,
        at,
    ) by {
        lemma_tags_differ(input, at, INIT_CLOSE@, COMMENT_OPEN@);
    }
    assert forall|input: Seq<u8>, at: int| #[trigger] has_at(input, at, EVENT_CLOSE@) implies EventExtra::delimited(
        input,
        at,
    ) by {
        lemma_tags_differ(input, at, EVENT_CLOSE@, COMMENT_OPEN@);
    }
}

} // verus!
