//! Reading gives back what was written.
//!
//! A type whose values read back as themselves says so by implementing
//! [`Codec`]: it names the values for which this holds and what has to
//! follow their text, and proves it.

use crate::{ReadLhe, WriteLhe};
use crate::block::{
    Absent, advances, block_idle, blocks2, blocks3, earlier_idle, lemma_search_done,
    lemma_search_settles, lemma_search_takes, with_block,
};
use crate::error::{Failure, IntWidth};
use crate::lexer::{
    decimal, decimal_digits, digits_end, has_at, is_decimal_digit, is_float_token, is_space,
    lemma_decimal_digits, lemma_float_field, lemma_float_token_bounds, lemma_int_field,
    lemma_skip_spaces_bounds, sign_len, skip_spaces, tag, ws_float, ws_int, ws_tag,
};
use crate::rows::{all_canonical, lemma_list_round_trip, repeat, rows_bytes};
use vstd::prelude::*;

verus! {

/// Reading from `pos` on, where the text of `v` stands, gives `v` back, and
/// the read ends behind the text: what lies between the end of the read and
/// the end of the text are separators and nothing else.
pub open spec fn reads_back<T: ReadLhe + WriteLhe>(input: Seq<u8>, pos: int, v: T::V) -> bool {
    let after = pos + T::lhe_bytes(v).len();
    T::parse(input, skip_spaces(input, pos)) matches Ok((w, end)) && w == v && skip_spaces(input, end)
        == skip_spaces(input, after)
}

/// A type whose values read back as themselves.
pub trait Codec: ReadLhe + WriteLhe {
    /// The values that read back as themselves.
    spec fn canonical(v: Self::V) -> bool;

    /// What has to hold of the input behind the text of a value, which ends
    /// at `at`, for the value to read back.
    spec fn delimited(input: Seq<u8>, at: int) -> bool;

    /// Where the text of a canonical value stands in an input, and what
    /// follows delimits it, reading gives the value back.
    proof fn lemma_round_trip(v: Self::V, input: Seq<u8>, pos: int)
        requires
            Self::canonical(v),
            has_at(input, pos, Self::lhe_bytes(v)),
            Self::delimited(input, pos + Self::lhe_bytes(v).len()),
        ensures
            reads_back::<Self>(input, pos, v),
    ;
}

/// A type that is read as a field: the read ends behind the separators that
/// follow the value.
pub trait Field: Codec {
    /// A read that gives a value ends at a place that holds no separator.
    proof fn lemma_field_end(input: Seq<u8>, pos: int)
        ensures
            Self::parse(input, pos) matches Ok((_, end)) ==> skip_spaces(input, end) == end,
    ;
}

/// What stands in the input stands there piece by piece.
pub proof fn lemma_split(input: Seq<u8>, pos: int, a: Seq<u8>, b: Seq<u8>)
    requires
        has_at(input, pos, a + b),
    ensures
        has_at(input, pos, a),
        has_at(input, pos + a.len(), b),
{
    assert forall|i: int| 0 <= i < a.len() implies input[pos + i] == #[trigger] a[i] by {
        assert((a + b)[i] == a[i]);
    }
    assert forall|i: int| 0 <= i < b.len() implies input[pos + a.len() + i] == #[trigger] b[i] by {
        assert((a + b)[a.len() + i] == b[i]);
        assert(input[pos + (a.len() + i)] == (a + b)[a.len() + i]);
    }
}

/// Pieces that stand in the input one behind the other stand there as a whole.
pub proof fn lemma_join(input: Seq<u8>, pos: int, a: Seq<u8>, b: Seq<u8>)
    requires
        has_at(input, pos, a),
        has_at(input, pos + a.len(), b),
    ensures
        has_at(input, pos, a + b),
{
    assert forall|i: int| 0 <= i < (a + b).len() implies input[pos + i] == #[trigger] (a + b)[i] by {
        if i < a.len() {
            assert(input[pos + i] == a[i]);
        } else {
            assert(input[pos + a.len() + (i - a.len())] == b[i - a.len()]);
        }
    }
}

/// Skipping separators stops at or before any later place that holds none.
pub proof fn lemma_skip_stops(input: Seq<u8>, pos: int, stop: int)
    requires
        pos <= stop,
        stop < 0 || stop >= input.len() || !is_space(input[stop]),
    ensures
        skip_spaces(input, pos) <= stop,
    decreases stop - pos,
{
    if pos < stop && 0 <= pos < input.len() && is_space(input[pos]) {
        lemma_skip_stops(input, pos + 1, stop);
    }
}

/// No separator is skipped where none stands.
pub proof fn lemma_skip_none(input: Seq<u8>, pos: int)
    requires
        pos < 0 || pos >= input.len() || !is_space(input[pos]),
    ensures
        skip_spaces(input, pos) == pos,
{
}

/// A separator is skipped.
pub proof fn lemma_skip_one(input: Seq<u8>, pos: int)
    requires
        0 <= pos < input.len(),
        is_space(input[pos]),
    ensures
        skip_spaces(input, pos) == skip_spaces(input, pos + 1),
{
}

/// Skipping separators twice is skipping them once.
pub proof fn lemma_skip_twice(input: Seq<u8>, pos: int)
    ensures
        skip_spaces(input, skip_spaces(input, pos)) == skip_spaces(input, pos),
    decreases input.len() - pos,
{
    if 0 <= pos < input.len() && is_space(input[pos]) {
        lemma_skip_twice(input, pos + 1);
    }
}

/// From a place between `from` and the next place that holds no separator,
/// the same place is found.
pub proof fn lemma_skip_between(input: Seq<u8>, from: int, mid: int)
    requires
        from <= mid <= skip_spaces(input, from),
    ensures
        skip_spaces(input, mid) == skip_spaces(input, from),
    decreases mid - from,
{
    if from < mid {
        if 0 <= from < input.len() && is_space(input[from]) {
            lemma_skip_between(input, from + 1, mid);
        }
    }
}

/// The decimal form of a number starts with a byte that is no separator.
pub proof fn lemma_decimal_first(v: int)
    ensures
        decimal(v).len() >= 1,
        !is_space(decimal(v)[0]),
{
    let magnitude = (if v < 0 { -v } else { v }) as nat;
    lemma_decimal_digits(magnitude);
    if v >= 0 {
        assert(is_decimal_digit(decimal_digits(magnitude)[0]));
    }
}

/// A floating-point literal starts with a byte that is no separator.
pub proof fn lemma_float_first(text: Seq<u8>)
    requires
        is_float_token(text),
    ensures
        text.len() >= 1,
        !is_space(text[0]),
{
    lemma_float_token_bounds(text, 0);
    let first = sign_len(text, 0, true);
    if first == 0 {
        if digits_end(text, 0) > 0 {
        } else if 0 < text.len() && text[0] == 46 {
        } else {
            assert(crate::lexer::infinity()[0] == 73);
            assert(crate::lexer::neg_infinity()[0] == 45);
            assert(crate::lexer::nan()[0] == 78);
        }
    }
}

/// An integer whose decimal form stands at `at`, the first place behind
/// `from` that holds no separator, is read from `from`, where a separator
/// follows it.
pub proof fn lemma_int_step(input: Seq<u8>, from: int, at: int, v: int, width: IntWidth)
    requires
        skip_spaces(input, from) == at,
        width.holds(v),
        has_at(input, at, decimal(v)),
        at + decimal(v).len() < input.len(),
        is_space(input[at + decimal(v).len()]),
    ensures
        ws_int(input, from, width) == Ok::<(int, int), Failure>(
            (v, skip_spaces(input, at + decimal(v).len() + 1)),
        ),
{
    lemma_int_field(input, from, v, width);
}

/// A literal that stands at `at`, the first place behind `from` that holds
/// no separator, is read from `from`, where a separator follows it.
pub proof fn lemma_float_step(input: Seq<u8>, from: int, at: int, text: Seq<u8>)
    requires
        skip_spaces(input, from) == at,
        is_float_token(text),
        has_at(input, at, text),
        at + text.len() < input.len(),
        is_space(input[at + text.len()]),
    ensures
        ws_float(input, from) == Ok::<(Seq<u8>, int), Failure>(
            (text, skip_spaces(input, at + text.len() + 1)),
        ),
{
    lemma_float_field(input, from, text);
}

/// `text` stands in `input` at `pos`. The same as `has_at`, kept apart so
/// that long proofs can carry it along unopened.
#[verifier::opaque]
pub open spec fn stands(input: Seq<u8>, pos: int, text: Seq<u8>) -> bool {
    has_at(input, pos, text)
}

/// What stands in the input can be carried along unopened.
pub proof fn lemma_stands(input: Seq<u8>, pos: int, text: Seq<u8>)
    ensures
        stands(input, pos, text) == has_at(input, pos, text),
{
    reveal(stands);
}

/// What stands in the input stands there piece by piece.
pub proof fn lemma_stands_split(input: Seq<u8>, pos: int, a: Seq<u8>, b: Seq<u8>)
    requires
        stands(input, pos, a + b),
    ensures
        stands(input, pos, a),
        stands(input, pos + a.len(), b),
{
    reveal(stands);
    lemma_split(input, pos, a, b);
}

/// Pieces that stand in the input one behind the other stand there as a whole.
pub proof fn lemma_stands_join(input: Seq<u8>, pos: int, a: Seq<u8>, b: Seq<u8>)
    requires
        stands(input, pos, a),
        stands(input, pos + a.len(), b),
    ensures
        stands(input, pos, a + b),
{
    reveal(stands);
    lemma_join(input, pos, a, b);
}

/// The place of a piece that stands behind `before` and in front of the
/// separator `sep`, and what is known of the input there.
proof fn lemma_piece(input: Seq<u8>, pos: int, before: Seq<u8>, piece: Seq<u8>, sep: u8)
    requires
        stands(input, pos, before + piece + seq![sep]),
        is_space(sep),
        piece.len() > 0,
        !is_space(piece[0]),
    ensures
        stands(input, pos, before),
        has_at(input, pos + before.len(), piece),
        skip_spaces(input, pos + before.len()) == pos + before.len(),
        pos + before.len() + piece.len() < input.len(),
        is_space(input[pos + before.len() + piece.len()]),
        skip_spaces(input, pos + before.len() + piece.len()) == skip_spaces(
            input,
            pos + before.len() + piece.len() + 1,
        ),
{
    reveal(stands);
    lemma_split(input, pos, before + piece, seq![sep]);
    lemma_split(input, pos, before, piece);
    let a = pos + before.len();
    let b = a + piece.len();
    assert(input[b + 0] == seq![sep][0]);
    assert(input[a + 0] == piece[0]);
}

/// A tag that stands behind `before` and in front of a separator is read
/// from the end of `before`.
pub proof fn lemma_tag_piece(input: Seq<u8>, pos: int, before: Seq<u8>, t: Seq<u8>, sep: u8)
    requires
        stands(input, pos, before + t + seq![sep]),
        is_space(sep),
        t.len() > 0,
        !is_space(t[0]),
    ensures
        stands(input, pos, before),
        ws_tag(input, skip_spaces(input, pos + before.len()), t) == Ok::<int, Failure>(
            skip_spaces(input, pos + (before + t + seq![sep]).len()),
        ),
{
    lemma_piece(input, pos, before, t, sep);
    lemma_skip_twice(input, pos + before.len());
}

/// An integer whose decimal form stands behind `before` and in front of a
/// separator is read from the end of `before`.
pub proof fn lemma_int_piece(
    input: Seq<u8>,
    pos: int,
    before: Seq<u8>,
    v: int,
    width: IntWidth,
    sep: u8,
)
    requires
        stands(input, pos, before + decimal(v) + seq![sep]),
        is_space(sep),
        width.holds(v),
    ensures
        stands(input, pos, before),
        ws_int(input, skip_spaces(input, pos + before.len()), width) == Ok::<(int, int), Failure>(
            (v, skip_spaces(input, pos + (before + decimal(v) + seq![sep]).len())),
        ),
{
    lemma_decimal_first(v);
    lemma_piece(input, pos, before, decimal(v), sep);
    lemma_skip_twice(input, pos + before.len());
    lemma_int_step(input, skip_spaces(input, pos + before.len()), pos + before.len(), v, width);
}

/// A literal that stands behind `before` and in front of a separator is read
/// from the end of `before`.
pub proof fn lemma_float_piece(input: Seq<u8>, pos: int, before: Seq<u8>, text: Seq<u8>, sep: u8)
    requires
        stands(input, pos, before + text + seq![sep]),
        is_space(sep),
        is_float_token(text),
    ensures
        stands(input, pos, before),
        ws_float(input, skip_spaces(input, pos + before.len())) == Ok::<(Seq<u8>, int), Failure>(
            (text, skip_spaces(input, pos + (before + text + seq![sep]).len())),
        ),
{
    lemma_float_first(text);
    lemma_piece(input, pos, before, text, sep);
    lemma_skip_twice(input, pos + before.len());
    lemma_float_step(input, skip_spaces(input, pos + before.len()), pos + before.len(), text);
}

/// The texts of the items of `T` start with a space, and a separator
/// behind the text of an item delimits it.
pub open spec fn spaced<T: Codec>() -> bool {
    &&& forall|v: T::V| (#[trigger] T::lhe_bytes(v)).len() > 0 && T::lhe_bytes(v)[0] == 32
    &&& forall|text: Seq<u8>, at: int|
        0 <= at < text.len() && is_space(text[at]) ==> #[trigger] T::delimited(text, at)
}

/// A list that stands behind `before` and in front of the separator `sep`
/// is read from any place between the end of `before` and the list.
pub proof fn lemma_list_piece<T: Field>(
    input: Seq<u8>,
    pos: int,
    before: Seq<u8>,
    items: Seq<T::V>,
    rest: Seq<u8>,
    from: int,
)
    requires
        stands(input, pos, before + rows_bytes::<T>(items) + rest),
        rest.len() > 0,
        is_space(rest[0]),
        all_canonical::<T>(items),
        spaced::<T>(),
        skip_spaces(input, from) == skip_spaces(input, pos + before.len()),
        items.len() > 0 || from == skip_spaces(input, pos + before.len()),
    ensures
        stands(input, pos, before),
        repeat::<T>(input, from, items.len()) == Ok::<(Seq<T::V>, int), Failure>(
            (items, skip_spaces(input, pos + (before + rows_bytes::<T>(items)).len())),
        ),
        pos + before.len() < input.len(),
        is_space(input[pos + before.len()]),
{
    let text = rows_bytes::<T>(items);
    reveal(stands);
    lemma_split(input, pos, before + text, rest);
    lemma_split(input, pos, before, text);
    let at = pos + before.len();
    assert(input[at + text.len() + 0] == rest[0]);
    lemma_list_round_trip::<T>(items, input, at, from);
}

/// An integer and a list behind it, which stand behind `before` and in
/// front of a separator, are read from the end of `before`.
pub proof fn lemma_int_list<T: Field>(
    input: Seq<u8>,
    pos: int,
    before: Seq<u8>,
    v: int,
    width: IntWidth,
    items: Seq<T::V>,
    rest: Seq<u8>,
)
    requires
        stands(input, pos, before + decimal(v) + rows_bytes::<T>(items) + rest),
        rest.len() > 0,
        is_space(rest[0]),
        all_canonical::<T>(items),
        spaced::<T>(),
        width.holds(v),
    ensures
        stands(input, pos, before),
        ws_int(input, skip_spaces(input, pos + before.len()), width) matches Ok((n, next)) && n == v
            && repeat::<T>(input, next, items.len()) == Ok::<(Seq<T::V>, int), Failure>(
            (items, skip_spaces(input, pos + (before + decimal(v) + rows_bytes::<T>(items)).len())),
        ),
        pos + (before + decimal(v) + rows_bytes::<T>(items)).len() < input.len(),
        is_space(input[pos + (before + decimal(v) + rows_bytes::<T>(items)).len()]),
{
    let number = decimal(v);
    let at = pos + before.len();
    let list_at = at + number.len();
    lemma_skip_twice(input, list_at);
    assert((before + number).len() == before.len() + number.len());
    lemma_list_piece::<T>(input, pos, before + number, items, rest, skip_spaces(input, list_at));
    lemma_decimal_first(v);
    reveal(stands);
    lemma_split(input, pos, before + number + rows_bytes::<T>(items), rest);
    assert(input[pos + (before + number + rows_bytes::<T>(items)).len() + 0] == rest[0]);
    lemma_split(input, pos, before, number);
    assert(input[at + 0] == number[0]);
    lemma_skip_none(input, at);
    lemma_skip_twice(input, at);
    lemma_int_step(input, skip_spaces(input, at), at, v, width);
    lemma_skip_one(input, list_at);
}

/// The block reads `v` at `at`, takes at least one byte, and the first place
/// behind it that holds no separator is `next`.
pub open spec fn reads_present<T: ReadLhe>(v: T::V, input: Seq<u8>, at: int, next: int) -> bool {
    T::parse(input, at) matches Ok((w, end)) && w == v && end > at && skip_spaces(input, end) == next
}

/// The block reads `v` at `at` and takes no byte.
pub open spec fn reads_absent<T: ReadLhe>(v: T::V, input: Seq<u8>, at: int) -> bool {
    T::parse(input, at) matches Ok((w, end)) && w == v && end <= at
}

/// A value with a text reads where its text stands, and takes at least one byte.
pub proof fn lemma_block_present<T: Codec>(v: T::V, input: Seq<u8>, at: int)
    requires
        T::canonical(v),
        stands(input, at, T::lhe_bytes(v)),
        T::delimited(input, at + T::lhe_bytes(v).len()),
        T::lhe_bytes(v).len() > 0,
        !is_space(T::lhe_bytes(v)[0]),
    ensures
        T::parse(input, at) matches Ok((w, end)) && w == v && end > at && skip_spaces(input, end)
            == skip_spaces(input, at + T::lhe_bytes(v).len()),
        skip_spaces(input, at) == at,
{
    lemma_stands(input, at, T::lhe_bytes(v));
    assert(input[at + 0] == T::lhe_bytes(v)[0]);
    lemma_skip_none(input, at);
    T::lemma_round_trip(v, input, at);
    let end = T::parse(input, at)->Ok_0.1;
    lemma_skip_spaces_bounds(input, at + T::lhe_bytes(v).len());
    if end <= at {
        lemma_skip_stops(input, end, at);
    }
}

/// A value without a text reads as itself wherever what stands there
/// delimits it, and takes no byte.
pub proof fn lemma_block_absent<T: Codec>(v: T::V, input: Seq<u8>, at: int)
    requires
        T::canonical(v),
        T::lhe_bytes(v).len() == 0,
        T::delimited(input, at),
        0 <= at <= input.len(),
        skip_spaces(input, at) == at,
    ensures
        T::parse(input, at) matches Ok((w, end)) && w == v && end <= at,
{
    T::lemma_round_trip(v, input, at);
    let end = T::parse(input, at)->Ok_0.1;
    lemma_skip_spaces_bounds(input, end);
}

/// Two blocks that are written in the order of their declaration read back.
pub proof fn lemma_pair_in_order<A: Codec, B: Codec>(a: A::V, b: B::V, input: Seq<u8>, pos: int)
    requires
        A::canonical(a),
        B::canonical(b),
        stands(input, pos, A::lhe_bytes(a) + B::lhe_bytes(b)),
        A::lhe_bytes(a).len() > 0 && !is_space(A::lhe_bytes(a)[0]),
        B::lhe_bytes(b).len() > 0 && !is_space(B::lhe_bytes(b)[0]),
        A::delimited(input, pos + A::lhe_bytes(a).len()),
        B::delimited(input, pos + A::lhe_bytes(a).len() + B::lhe_bytes(b).len()),
    ensures
        blocks2::<A, B>(input, skip_spaces(input, pos)) == Ok::<((A::V, B::V), int), (int, Failure)>(
            ((a, b), skip_spaces(input, pos + (A::lhe_bytes(a) + B::lhe_bytes(b)).len())),
        ),
{
    let ta = A::lhe_bytes(a);
    let tb = B::lhe_bytes(b);
    let at_b = pos + ta.len();
    let all = (a, b, ());
    let none = (None::<A::V>, None::<B::V>, None::<()>);
    lemma_stands_split(input, pos, ta, tb);
    lemma_block_present::<A>(a, input, pos);
    lemma_block_present::<B>(b, input, at_b);
    lemma_skip_twice(input, pos);
    let end_a = A::parse(input, pos)->Ok_0.1;
    let end_b = B::parse(input, at_b)->Ok_0.1;
    let one = with_block(0, none, all);
    let two = with_block(1, one, all);
    assert(earlier_idle::<A, B, Absent>(0, input, pos, none));
    lemma_search_takes::<A, B, Absent>(0, input, pos, none, all, end_a);
    assert(earlier_idle::<A, B, Absent>(1, input, at_b, one));
    lemma_search_takes::<A, B, Absent>(1, input, at_b, one, all, end_b);
    lemma_search_settles::<A, B, Absent>(input, skip_spaces(input, end_b), two, all);
}

/// Two blocks that are written against the order of their declaration read
/// back, where the block that is declared first reads nothing at the start
/// of the other.
pub proof fn lemma_pair_reversed<A: Codec, B: Codec>(a: A::V, b: B::V, input: Seq<u8>, pos: int)
    requires
        A::canonical(a),
        B::canonical(b),
        stands(input, pos, B::lhe_bytes(b) + A::lhe_bytes(a)),
        A::lhe_bytes(a).len() > 0 && !is_space(A::lhe_bytes(a)[0]),
        B::lhe_bytes(b).len() > 0 && !is_space(B::lhe_bytes(b)[0]),
        B::delimited(input, pos + B::lhe_bytes(b).len()),
        A::delimited(input, pos + B::lhe_bytes(b).len() + A::lhe_bytes(a).len()),
        !advances(A::parse(input, pos), pos),
    ensures
        blocks2::<A, B>(input, skip_spaces(input, pos)) == Ok::<((A::V, B::V), int), (int, Failure)>(
            ((a, b), skip_spaces(input, pos + (B::lhe_bytes(b) + A::lhe_bytes(a)).len())),
        ),
{
    let ta = A::lhe_bytes(a);
    let tb = B::lhe_bytes(b);
    let at_a = pos + tb.len();
    let all = (a, b, ());
    let none = (None::<A::V>, None::<B::V>, None::<()>);
    lemma_stands_split(input, pos, tb, ta);
    lemma_block_present::<B>(b, input, pos);
    lemma_block_present::<A>(a, input, at_a);
    lemma_skip_twice(input, pos);
    let end_b = B::parse(input, pos)->Ok_0.1;
    let end_a = A::parse(input, at_a)->Ok_0.1;
    let one = with_block(1, none, all);
    let two = with_block(0, one, all);
    assert(earlier_idle::<A, B, Absent>(1, input, pos, none)) by {
        assert(block_idle::<A, B, Absent>(0, input, pos));
    }
    lemma_search_takes::<A, B, Absent>(1, input, pos, none, all, end_b);
    assert(earlier_idle::<A, B, Absent>(0, input, at_a, one));
    lemma_search_takes::<A, B, Absent>(0, input, at_a, one, all, end_a);
    lemma_search_settles::<A, B, Absent>(input, skip_spaces(input, end_a), two, all);
}

/// Three blocks that are written in the order of their declaration read back.
pub proof fn lemma_trio_in_order<A: Codec, B: Codec, C: Codec>(
    a: A::V,
    b: B::V,
    c: C::V,
    input: Seq<u8>,
    pos: int,
)
    requires
        A::canonical(a),
        B::canonical(b),
        C::canonical(c),
        stands(input, pos, A::lhe_bytes(a) + B::lhe_bytes(b) + C::lhe_bytes(c)),
        A::lhe_bytes(a).len() > 0 && !is_space(A::lhe_bytes(a)[0]),
        B::lhe_bytes(b).len() > 0 && !is_space(B::lhe_bytes(b)[0]),
        C::lhe_bytes(c).len() > 0 && !is_space(C::lhe_bytes(c)[0]),
        A::delimited(input, pos + A::lhe_bytes(a).len()),
        B::delimited(input, pos + A::lhe_bytes(a).len() + B::lhe_bytes(b).len()),
        C::delimited(
            input,
            pos + A::lhe_bytes(a).len() + B::lhe_bytes(b).len() + C::lhe_bytes(c).len(),
        ),
    ensures
        blocks3::<A, B, C>(input, skip_spaces(input, pos)) == Ok::<
            ((A::V, B::V, C::V), int),
            (int, Failure),
        >(
            (
                (a, b, c),
                skip_spaces(input, pos + (A::lhe_bytes(a) + B::lhe_bytes(b) + C::lhe_bytes(c)).len()),
            ),
        ),
{
    let ta = A::lhe_bytes(a);
    let tb = B::lhe_bytes(b);
    let tc = C::lhe_bytes(c);
    let at_b = pos + ta.len();
    let at_c = at_b + tb.len();
    let all = (a, b, c);
    let none = (None::<A::V>, None::<B::V>, None::<C::V>);
    lemma_stands_split(input, pos, ta + tb, tc);
    lemma_stands_split(input, pos, ta, tb);
    lemma_block_present::<A>(a, input, pos);
    lemma_block_present::<B>(b, input, at_b);
    lemma_block_present::<C>(c, input, at_c);
    lemma_skip_twice(input, pos);
    let end_a = A::parse(input, pos)->Ok_0.1;
    let end_b = B::parse(input, at_b)->Ok_0.1;
    let end_c = C::parse(input, at_c)->Ok_0.1;
    let one = with_block(0, none, all);
    let two = with_block(1, one, all);
    assert(earlier_idle::<A, B, C>(0, input, pos, none));
    lemma_search_takes::<A, B, C>(0, input, pos, none, all, end_a);
    assert(earlier_idle::<A, B, C>(1, input, at_b, one));
    lemma_search_takes::<A, B, C>(1, input, at_b, one, all, end_b);
    assert(earlier_idle::<A, B, C>(2, input, at_c, two));
    lemma_search_takes::<A, B, C>(2, input, at_c, two, all, end_c);
    lemma_search_done::<A, B, C>(input, skip_spaces(input, end_c), all);
}

/// An integer and three lists behind it, which stand behind `before` and
/// in front of a line feed, are read one after the other from the end of
/// `before`.
pub proof fn lemma_int_lists<A: Field, B: Field, C: Field>(
    input: Seq<u8>,
    pos: int,
    before: Seq<u8>,
    v: int,
    width: IntWidth,
    first: Seq<A::V>,
    second: Seq<B::V>,
    third: Seq<C::V>,
)
    requires
        stands(
            input,
            pos,
            before + decimal(v) + rows_bytes::<A>(first) + rows_bytes::<B>(second) + rows_bytes::<C>(
                third,
            ) + seq![10u8],
        ),
        all_canonical::<A>(first),
        all_canonical::<B>(second),
        all_canonical::<C>(third),
        spaced::<A>(),
        spaced::<B>(),
        spaced::<C>(),
        width.holds(v),
    ensures
        stands(input, pos, before),
        ({
            let whole = before + decimal(v) + rows_bytes::<A>(first) + rows_bytes::<B>(second)
                + rows_bytes::<C>(third);
            &&& ws_int(input, skip_spaces(input, pos + before.len()), width) matches Ok((n, q1))
            &&& n == v
            &&& repeat::<A>(input, q1, first.len()) matches Ok((a, q2))
            &&& a == first
            &&& repeat::<B>(input, q2, second.len()) matches Ok((b, q3))
            &&& b == second
            &&& repeat::<C>(input, q3, third.len()) == Ok::<(Seq<C::V>, int), Failure>(
                (third, skip_spaces(input, pos + whole.len() + 1)),
            )
            &&& q3 == skip_spaces(input, pos + whole.len() - rows_bytes::<C>(third).len())
        }),
{
    let number = decimal(v);
    let ta = rows_bytes::<A>(first);
    let tb = rows_bytes::<B>(second);
    let tc = rows_bytes::<C>(third);
    let y0 = before + number;
    let y1 = y0 + ta;
    let y2 = y1 + tb;
    let y3 = y2 + tc;
    lemma_skip_twice(input, pos + y2.len());
    lemma_list_piece::<C>(input, pos, y2, third, seq![10u8], skip_spaces(input, pos + y2.len()));
    lemma_stands_split(input, pos, y1, tb);
    lemma_stands_split(input, pos, y0, ta);
    lemma_stands_split(input, pos, before, number);
    reveal(stands);
    lemma_split(input, pos, y3, seq![10u8]);
    assert(input[pos + y3.len() + 0] == seq![10u8][0]);
    lemma_skip_one(input, pos + y3.len());
    lemma_skip_twice(input, pos + y1.len());
    lemma_skip_twice(input, pos + y0.len());
    lemma_list_round_trip::<B>(second, input, pos + y1.len(), skip_spaces(input, pos + y1.len()));
    lemma_list_round_trip::<A>(first, input, pos + y0.len(), skip_spaces(input, pos + y0.len()));
    lemma_decimal_first(v);
    assert(input[pos + before.len() + 0] == number[0]);
    lemma_skip_none(input, pos + before.len());
    lemma_skip_twice(input, pos + before.len());
    lemma_int_step(input, skip_spaces(input, pos + before.len()), pos + before.len(), v, width);
    lemma_skip_one(input, pos + y0.len());
}

} // verus!
