//! Blocks that may stand in any order.
//!
//! A group of two or three blocks is read by trying, at each position, the
//! blocks that have not been found yet, in the order of their declaration.
//! The first that reads something is taken, and the search starts again
//! after it. When none reads anything, each block that is still missing has
//! to read as absent, that is to succeed on nothing; else the group fails.
//! The values come out in the order of declaration, whatever the order in
//! the input was.

use crate::ReadLhe;
use crate::error::{Failure, ParseError};
use crate::lexer::{skip_spaces, skip_whitespace};
use vstd::prelude::*;

verus! {

/// The failure of a group: the block that could not be read, by its place in
/// the declaration, and its own failure.
#[derive(Debug, PartialEq, Eq)]
pub struct BlockError {
    pub slot: usize,
    pub error: ParseError,
}

/// A block that is always absent. It stands in the third place where a
/// group has two blocks.
#[derive(Clone, Copy, Debug, PartialEq, Eq)]
pub struct Absent {}

impl View for Absent {
    type V = ();

    open spec fn view(&self) -> () {
        ()
    }
}

impl ReadLhe for Absent {
    open spec fn parse(input: Seq<u8>, pos: int) -> Result<((), int), Failure> {
        Ok(((), pos))
    }

    fn read_from_lhe(input: &[u8], pos: usize) -> (r: Result<(Absent, usize), ParseError>) {
        Ok((Absent {  }, pos))
    }
}

/// The attempt `r`, made at `pos`, read something.
pub open spec fn advances<V>(r: Result<(V, int), Failure>, pos: int) -> bool {
    r matches Ok((_, end)) && end > pos
}

/// One if the block is still missing.
pub open spec fn missing<V>(found: Option<V>) -> nat {
    if found is None {
        1
    } else {
        0
    }
}

/// The value of a block when the search is over: the one that was found,
/// else what the last attempt gave.
pub open spec fn settle<V>(found: Option<V>, last: Result<(V, int), Failure>) -> Result<V, Failure> {
    match found {
        Some(v) => Ok(v),
        None => match last {
            Ok((v, _)) => Ok(v),
            Err(e) => Err(e),
        },
    }
}

/// The search for three blocks from `pos` on, where `a`, `b` and `c` hold
/// the blocks found so far. `pos` holds no separator.
pub open spec fn search3<A: ReadLhe, B: ReadLhe, C: ReadLhe>(
    input: Seq<u8>,
    pos: int,
    a: Option<A::V>,
    b: Option<B::V>,
    c: Option<C::V>,
) -> Result<((A::V, B::V, C::V), int), (int, Failure)>
    decreases missing(a) + missing(b) + missing(c),
{
    let ra = A::parse(input, pos);
    let rb = B::parse(input, pos);
    let rc = C::parse(input, pos);
    if a is None && advances(ra, pos) {
        search3::<A, B, C>(input, skip_spaces(input, ra->Ok_0.1), Some(ra->Ok_0.0), b, c)
    } else if b is None && advances(rb, pos) {
        search3::<A, B, C>(input, skip_spaces(input, rb->Ok_0.1), a, Some(rb->Ok_0.0), c)
    } else if c is None && advances(rc, pos) {
        search3::<A, B, C>(input, skip_spaces(input, rc->Ok_0.1), a, b, Some(rc->Ok_0.0))
    } else {
        match settle(a, ra) {
            Err(e) => Err((0, e)),
            Ok(va) => match settle(b, rb) {
                Err(e) => Err((1, e)),
                Ok(vb) => match settle(c, rc) {
                    Err(e) => Err((2, e)),
                    Ok(vc) => Ok(((va, vb, vc), pos)),
                },
            },
        }
    }
}

/// Reading three blocks in any order at `pos`: their values in the order of
/// declaration and the position after the last block and the separators
/// behind it; or the first block, in that order, that is missing and cannot
/// be absent, with its failure.
pub open spec fn blocks3<A: ReadLhe, B: ReadLhe, C: ReadLhe>(input: Seq<u8>, pos: int) -> Result<
    ((A::V, B::V, C::V), int),
    (int, Failure),
> {
    search3::<A, B, C>(input, skip_spaces(input, pos), None, None, None)
}

/// Reading two blocks in any order at `pos`.
pub open spec fn blocks2<A: ReadLhe, B: ReadLhe>(input: Seq<u8>, pos: int) -> Result<
    ((A::V, B::V), int),
    (int, Failure),
> {
    match blocks3::<A, B, Absent>(input, pos) {
        Ok(((a, b, _), end)) => Ok(((a, b), end)),
        Err(e) => Err(e),
    }
}

/// The view of a block that may have been found.
pub open spec fn found_view<T: View>(found: Option<T>) -> Option<T::V> {
    match found {
        Some(v) => Some(v@),
        None => None,
    }
}

/// What a group read returns, in mathematical form.
pub open spec fn group_outcome<T, V>(r: Result<(T, usize), BlockError>, view: spec_fn(T) -> V) -> Result<
    (V, int),
    (int, Failure),
> {
    match r {
        Ok((v, end)) => Ok((view(v), end as int)),
        Err(e) => Err((e.slot as int, e.error@)),
    }
}

/// One attempt at a block that is still missing.
fn attempt<T: ReadLhe>(input: &[u8], pos: usize, found: &Option<T>) -> (r: Option<
    Result<(T, usize), ParseError>,
>)
    ensures
        r is None <==> found is Some,
        r matches Some(got) ==> crate::error::outcome(got) == T::parse(input@, pos as int) && (got matches Ok(
            (_, end),
        ) ==> pos <= end && (pos <= input.len() ==> end <= input.len())),
{
    if found.is_none() {
        Some(T::read_from_lhe(input, pos))
    } else {
        None
    }
}

/// The value of a block when the search is over.
fn settled<T: ReadLhe>(found: Option<T>, last: Option<Result<(T, usize), ParseError>>) -> (r: Result<
    T,
    ParseError,
>)
    requires
        last is None <==> found is Some,
    ensures
        match r {
            Ok(v) => Ok::<T::V, Failure>(v@),
            Err(e) => Err::<T::V, Failure>(e@),
        } == settle(
            found_view(found),
            match last {
                Some(got) => crate::error::outcome(got),
                None => Err(Failure::Incomplete),
            },
        ),
{
    match found {
        Some(v) => Ok(v),
        None => match last {
            Some(Ok((v, _))) => Ok(v),
            Some(Err(e)) => Err(e),
            None => Err(ParseError::Incomplete),
        },
    }
}

/// Goes on with the search for three blocks from `pos`, which holds no
/// separator.
fn search<A: ReadLhe, B: ReadLhe, C: ReadLhe>(
    input: &[u8],
    pos: usize,
    a: Option<A>,
    b: Option<B>,
    c: Option<C>,
) -> (r: Result<((A, B, C), usize), BlockError>)
    ensures
        group_outcome(r, |v: (A, B, C)| (v.0@, v.1@, v.2@)) == search3::<A, B, C>(
            input@,
            pos as int,
            found_view(a),
            found_view(b),
            found_view(c),
        ),
        r matches Ok((_, end)) ==> pos <= end && (pos <= input.len() ==> end <= input.len()),
    decreases missing(a) + missing(b) + missing(c),
{
    let ra = match attempt::<A>(input, pos, &a) {
        Some(Ok((v, end))) => {
            if end > pos {
                return search::<A, B, C>(input, skip_whitespace(input, end), Some(v), b, c);
            }
            Some(Ok((v, end)))
        },
        other => other,
    };
    let rb = match attempt::<B>(input, pos, &b) {
        Some(Ok((v, end))) => {
            if end > pos {
                return search::<A, B, C>(input, skip_whitespace(input, end), a, Some(v), c);
            }
            Some(Ok((v, end)))
        },
        other => other,
    };
    let rc = match attempt::<C>(input, pos, &c) {
        Some(Ok((v, end))) => {
            if end > pos {
                return search::<A, B, C>(input, skip_whitespace(input, end), a, b, Some(v));
            }
            Some(Ok((v, end)))
        },
        other => other,
    };
    let va = match settled(a, ra) {
        Ok(v) => v,
        Err(error) => return Err(BlockError { slot: 0, error }),
    };
    let vb = match settled(b, rb) {
        Ok(v) => v,
        Err(error) => return Err(BlockError { slot: 1, error }),
    };
    let vc = match settled(c, rc) {
        Ok(v) => v,
        Err(error) => return Err(BlockError { slot: 2, error }),
    };
    Ok(((va, vb, vc), pos))
}

/// Reads three blocks that may stand in any order.
pub fn permutation3<A: ReadLhe, B: ReadLhe, C: ReadLhe>(input: &[u8], pos: usize) -> (r: Result<
    ((A, B, C), usize),
    BlockError,
>)
    ensures
        group_outcome(r, |v: (A, B, C)| (v.0@, v.1@, v.2@)) == blocks3::<A, B, C>(input@, pos as int),
        r matches Ok((_, end)) ==> pos <= end && (pos <= input.len() ==> end <= input.len()),
{
    search::<A, B, C>(input, skip_whitespace(input, pos), None, None, None)
}

/// Reads two blocks that may stand in any order.
pub fn permutation2<A: ReadLhe, B: ReadLhe>(input: &[u8], pos: usize) -> (r: Result<
    ((A, B), usize),
    BlockError,
>)
    ensures
        group_outcome(r, |v: (A, B)| (v.0@, v.1@)) == blocks2::<A, B>(input@, pos as int),
        r matches Ok((_, end)) ==> pos <= end && (pos <= input.len() ==> end <= input.len()),
{
    match permutation3::<A, B, Absent>(input, pos) {
        Ok(((a, b, _), end)) => Ok(((a, b), end)),
        Err(e) => Err(e),
    }
}

/// The blocks found so far, with the block in place `slot` found as well.
pub open spec fn with_block<A, B, C>(
    slot: int,
    found: (Option<A>, Option<B>, Option<C>),
    all: (A, B, C),
) -> (Option<A>, Option<B>, Option<C>) {
    if slot == 0 {
        (Some(all.0), found.1, found.2)
    } else if slot == 1 {
        (found.0, Some(all.1), found.2)
    } else {
        (found.0, found.1, Some(all.2))
    }
}

/// The block in place `slot` is still missing.
pub open spec fn is_missing<A, B, C>(slot: int, found: (Option<A>, Option<B>, Option<C>)) -> bool {
    if slot == 0 {
        found.0 is None
    } else if slot == 1 {
        found.1 is None
    } else {
        found.2 is None
    }
}

/// The block in place `slot` reads its value of `all` at `pos` and ends at `end`.
pub open spec fn block_reads<A: ReadLhe, B: ReadLhe, C: ReadLhe>(
    slot: int,
    input: Seq<u8>,
    pos: int,
    all: (A::V, B::V, C::V),
    end: int,
) -> bool {
    if slot == 0 {
        A::parse(input, pos) == Ok::<(A::V, int), Failure>((all.0, end))
    } else if slot == 1 {
        B::parse(input, pos) == Ok::<(B::V, int), Failure>((all.1, end))
    } else {
        C::parse(input, pos) == Ok::<(C::V, int), Failure>((all.2, end))
    }
}

/// The block in place `slot` reads nothing at `pos`: it fails or takes no byte.
pub open spec fn block_idle<A: ReadLhe, B: ReadLhe, C: ReadLhe>(slot: int, input: Seq<u8>, pos: int) -> bool {
    if slot == 0 {
        !advances(A::parse(input, pos), pos)
    } else if slot == 1 {
        !advances(B::parse(input, pos), pos)
    } else {
        !advances(C::parse(input, pos), pos)
    }
}

/// No block that is still missing and is declared before place `slot` reads
/// anything at `pos`.
pub open spec fn earlier_idle<A: ReadLhe, B: ReadLhe, C: ReadLhe>(
    slot: int,
    input: Seq<u8>,
    pos: int,
    found: (Option<A::V>, Option<B::V>, Option<C::V>),
) -> bool {
    forall|j: int| 0 <= j < slot && is_missing(j, found) ==> #[trigger] block_idle::<A, B, C>(j, input, pos)
}

/// One step of the search: the first missing block that reads something is
/// taken, and the search goes on behind it and the separators that follow.
pub proof fn lemma_search_takes<A: ReadLhe, B: ReadLhe, C: ReadLhe>(
    slot: int,
    input: Seq<u8>,
    pos: int,
    found: (Option<A::V>, Option<B::V>, Option<C::V>),
    all: (A::V, B::V, C::V),
    end: int,
)
    requires
        0 <= slot < 3,
        is_missing(slot, found),
        block_reads::<A, B, C>(slot, input, pos, all, end),
        end > pos,
        earlier_idle::<A, B, C>(slot, input, pos, found),
    ensures
        search3::<A, B, C>(input, pos, found.0, found.1, found.2) == search3::<A, B, C>(
            input,
            skip_spaces(input, end),
            with_block(slot, found, all).0,
            with_block(slot, found, all).1,
            with_block(slot, found, all).2,
        ),
{
    if slot >= 1 && found.0 is None {
        assert(block_idle::<A, B, C>(0, input, pos));
    }
    if slot >= 2 && found.1 is None {
        assert(block_idle::<A, B, C>(1, input, pos));
    }
}

/// The end of the search: where every block has been found, the values
/// come out in the order of declaration.
pub proof fn lemma_search_done<A: ReadLhe, B: ReadLhe, C: ReadLhe>(
    input: Seq<u8>,
    pos: int,
    all: (A::V, B::V, C::V),
)
    ensures
        search3::<A, B, C>(input, pos, Some(all.0), Some(all.1), Some(all.2)) == Ok::<
            ((A::V, B::V, C::V), int),
            (int, Failure),
        >((all, pos)),
{
}

/// The end of the search: where each missing block reads as absent, that
/// is gives its value of `all` and takes no byte, the values come out in
/// the order of declaration.
pub proof fn lemma_search_settles<A: ReadLhe, B: ReadLhe, C: ReadLhe>(
    input: Seq<u8>,
    pos: int,
    found: (Option<A::V>, Option<B::V>, Option<C::V>),
    all: (A::V, B::V, C::V),
)
    requires
        found.0 matches Some(a) ==> a == all.0,
        found.1 matches Some(b) ==> b == all.1,
        found.2 matches Some(c) ==> c == all.2,
        found.0 is None ==> (A::parse(input, pos) matches Ok((v, end)) && v == all.0 && end <= pos),
        found.1 is None ==> (B::parse(input, pos) matches Ok((v, end)) && v == all.1 && end <= pos),
        found.2 is None ==> (C::parse(input, pos) matches Ok((v, end)) && v == all.2 && end <= pos),
    ensures
        search3::<A, B, C>(input, pos, found.0, found.1, found.2) == Ok::<
            ((A::V, B::V, C::V), int),
            (int, Failure),
        >((all, pos)),
{
}

/// Three blocks stand in the input from `pos` on: the block in place
/// `first` at the start, the one in place `second` behind it, the remaining
/// one behind that. Each reads its value of `all` where it stands and takes
/// at least one byte; `ends` are the places where they end. No block that
/// is declared before the one that stands at a place, and is still missing
/// there, reads anything at that place.
pub open spec fn in_order<A: ReadLhe, B: ReadLhe, C: ReadLhe>(
    input: Seq<u8>,
    pos: int,
    all: (A::V, B::V, C::V),
    first: int,
    second: int,
    ends: (int, int, int),
) -> bool {
    let third = 3 - first - second;
    let none = (None::<A::V>, None::<B::V>, None::<C::V>);
    let one = with_block(first, none, all);
    let start = skip_spaces(input, pos);
    &&& 0 <= first < 3
    &&& 0 <= second < 3
    &&& first != second
    &&& block_reads::<A, B, C>(first, input, start, all, ends.0)
    &&& ends.0 > start
    &&& earlier_idle::<A, B, C>(first, input, start, none)
    &&& block_reads::<A, B, C>(second, input, skip_spaces(input, ends.0), all, ends.1)
    &&& ends.1 > skip_spaces(input, ends.0)
    &&& earlier_idle::<A, B, C>(second, input, skip_spaces(input, ends.0), one)
    &&& block_reads::<A, B, C>(third, input, skip_spaces(input, ends.1), all, ends.2)
    &&& ends.2 > skip_spaces(input, ends.1)
}

/// Three blocks that stand in the input are read whatever their order, and
/// their values come out in the order of declaration.
pub proof fn lemma_any_order<A: ReadLhe, B: ReadLhe, C: ReadLhe>(
    input: Seq<u8>,
    pos: int,
    all: (A::V, B::V, C::V),
    first: int,
    second: int,
    ends: (int, int, int),
)
    requires
        in_order::<A, B, C>(input, pos, all, first, second, ends),
    ensures
        blocks3::<A, B, C>(input, pos) == Ok::<((A::V, B::V, C::V), int), (int, Failure)>(
            (all, skip_spaces(input, ends.2)),
        ),
{
    let third = 3 - first - second;
    let none = (None::<A::V>, None::<B::V>, None::<C::V>);
    let one = with_block(first, none, all);
    let two = with_block(second, one, all);
    let start = skip_spaces(input, pos);
    lemma_search_takes::<A, B, C>(first, input, start, none, all, ends.0);
    lemma_search_takes::<A, B, C>(second, input, skip_spaces(input, ends.0), one, all, ends.1);
    assert(earlier_idle::<A, B, C>(third, input, skip_spaces(input, ends.1), two)) by {
        assert forall|j: int| 0 <= j < third && is_missing(j, two) implies #[trigger] block_idle::<
            A,
            B,
            C,
        >(j, input, skip_spaces(input, ends.1)) by {
            assert(j == first || j == second);
        }
    }
    lemma_search_takes::<A, B, C>(third, input, skip_spaces(input, ends.1), two, all, ends.2);
    lemma_search_done::<A, B, C>(input, skip_spaces(input, ends.2), all);
}

/// Two inputs that hold the same three blocks, each in an order of its own,
/// read as the same values.
pub proof fn lemma_order_is_free<A: ReadLhe, B: ReadLhe, C: ReadLhe>(
    all: (A::V, B::V, C::V),
    one: Seq<u8>,
    pos_one: int,
    first_one: int,
    second_one: int,
    ends_one: (int, int, int),
    other: Seq<u8>,
    pos_other: int,
    first_other: int,
    second_other: int,
    ends_other: (int, int, int),
)
    requires
        in_order::<A, B, C>(one, pos_one, all, first_one, second_one, ends_one),
        in_order::<A, B, C>(other, pos_other, all, first_other, second_other, ends_other),
    ensures
        blocks3::<A, B, C>(one, pos_one) is Ok,
        blocks3::<A, B, C>(other, pos_other) is Ok,
        blocks3::<A, B, C>(one, pos_one)->Ok_0.0 == blocks3::<A, B, C>(other, pos_other)->Ok_0.0,
        blocks3::<A, B, C>(one, pos_one)->Ok_0.0 == all,
{
    lemma_any_order::<A, B, C>(one, pos_one, all, first_one, second_one, ends_one);
    lemma_any_order::<A, B, C>(other, pos_other, all, first_other, second_other, ends_other);
}

} // verus!
