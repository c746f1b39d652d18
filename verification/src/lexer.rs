//! The tokens of the format: whitespace, literal tags, integer and
//! floating-point literals.
//!
//! Every function here works on the whole input and a position in it, so
//! that failures can name the byte at which they occurred.

use crate::error::{Expected, ExpectedView, Failure, IntWidth, ParseError, scalar_outcome};
use vstd::prelude::*;

verus! {

/// `nom::is_digit` tells the ten ASCII digits from every other byte.
pub assume_specification[ nom::is_digit ](chr: u8) -> (r: bool)
    ensures
        r == is_decimal_digit(chr),
;

/// The bytes that separate tokens: space, tab, carriage return, line feed.
pub open spec fn is_space(b: u8) -> bool {
    b == 32 || b == 9 || b == 13 || b == 10
}

/// The ASCII digits.
pub open spec fn is_decimal_digit(b: u8) -> bool {
    48 <= b <= 57
}

/// The first position at or after `pos` that holds no separator.
pub open spec fn skip_spaces(input: Seq<u8>, pos: int) -> int
    decreases input.len() - pos,
{
    if 0 <= pos < input.len() && is_space(input[pos]) {
        skip_spaces(input, pos + 1)
    } else {
        pos
    }
}

/// The first position at or after `pos` that holds no digit.
pub open spec fn digits_end(input: Seq<u8>, pos: int) -> int
    decreases input.len() - pos,
{
    if 0 <= pos < input.len() && is_decimal_digit(input[pos]) {
        digits_end(input, pos + 1)
    } else {
        pos
    }
}

/// `piece` stands in `input` at `pos`.
pub open spec fn has_at(input: Seq<u8>, pos: int, piece: Seq<u8>) -> bool {
    &&& 0 <= pos
    &&& pos + piece.len() <= input.len()
    &&& forall|i: int| 0 <= i < piece.len() ==> input[pos + i] == #[trigger] piece[i]
}

/// The input ends at or after `pos` before `piece` is complete, and agrees
/// with `piece` as far as it goes.
pub open spec fn cut_short(input: Seq<u8>, pos: int, piece: Seq<u8>) -> bool {
    &&& 0 <= pos
    &&& pos + piece.len() > input.len()
    &&& forall|i: int| 0 <= i < piece.len() && pos + i < input.len() ==> input[pos + i] == #[trigger] piece[i]
}

/// Reading the literal `tag` at `pos`: the position after it, `Incomplete`
/// where the input ends inside it, a syntax error at `pos` otherwise.
pub open spec fn tag(input: Seq<u8>, pos: int, tag: Seq<u8>) -> Result<int, Failure> {
    if has_at(input, pos, tag) {
        Ok(pos + tag.len())
    } else if cut_short(input, pos, tag) {
        Err(Failure::Incomplete)
    } else {
        Err(Failure::Syntax { expected: ExpectedView::Tag(tag), position: pos })
    }
}

/// Reading `tag` with the separators before and after it.
pub open spec fn ws_tag(input: Seq<u8>, pos: int, t: Seq<u8>) -> Result<int, Failure> {
    match tag(input, skip_spaces(input, pos), t) {
        Ok(end) => Ok(skip_spaces(input, end)),
        Err(e) => Err(e),
    }
}

/// Skipping separators never goes back, nor beyond the end of the input.
pub proof fn lemma_skip_spaces_bounds(input: Seq<u8>, pos: int)
    ensures
        pos <= skip_spaces(input, pos),
        pos <= input.len() ==> skip_spaces(input, pos) <= input.len(),
    decreases input.len() - pos,
{
    if 0 <= pos < input.len() && is_space(input[pos]) {
        lemma_skip_spaces_bounds(input, pos + 1);
    }
}

/// A run of digits never ends before it starts, nor beyond the end of the input.
pub proof fn lemma_digits_end_bounds(input: Seq<u8>, pos: int)
    ensures
        pos <= digits_end(input, pos),
        pos <= input.len() ==> digits_end(input, pos) <= input.len(),
    decreases input.len() - pos,
{
    if 0 <= pos < input.len() && is_decimal_digit(input[pos]) {
        lemma_digits_end_bounds(input, pos + 1);
    }
}

/// Skips the separators that stand at `pos`.
pub fn skip_whitespace(input: &[u8], pos: usize) -> (end: usize)
    ensures
        end == skip_spaces(input@, pos as int),
        pos <= end,
        pos <= input.len() ==> end <= input.len(),
{
    let mut i: usize = pos;
    while i < input.len() && (input[i] == 32 || input[i] == 9 || input[i] == 13 || input[i] == 10)
        invariant
            pos <= i,
            pos <= input.len() ==> i <= input.len(),
            skip_spaces(input@, i as int) == skip_spaces(input@, pos as int),
        decreases input.len() - i,
    {
        i = i + 1;
    }
    i
}

/// Skips the digits that stand at `pos`.
pub fn skip_digits(input: &[u8], pos: usize) -> (end: usize)
    ensures
        end == digits_end(input@, pos as int),
        pos <= end,
        pos <= input.len() ==> end <= input.len(),
{
    let mut i: usize = pos;
    while i < input.len() && nom::is_digit(input[i])
        invariant
            pos <= i,
            pos <= input.len() ==> i <= input.len(),
            digits_end(input@, i as int) == digits_end(input@, pos as int),
        decreases input.len() - i,
    {
        i = i + 1;
    }
    i
}

/// Whether `tag` stands at `pos`.
pub fn starts_with(input: &[u8], pos: usize, tag: &[u8]) -> (r: bool)
    ensures
        r == has_at(input@, pos as int, tag@),
{
    if pos > input.len() || tag.len() > input.len() - pos {
        return false;
    }
    let mut i: usize = 0;
    while i < tag.len()
        invariant
            i <= tag.len(),
            pos + tag.len() <= input.len(),
            forall|j: int| 0 <= j < i ==> input@[pos + j] == #[trigger] tag@[j],
        decreases tag.len() - i,
    {
        if input[pos + i] != tag[i] {
            return false;
        }
        i = i + 1;
    }
    true
}

/// Reads the literal `tag` at `pos`.
pub fn read_tag(input: &[u8], pos: usize, tag: &[u8]) -> (r: Result<usize, ParseError>)
    ensures
        match r {
            Ok(end) => self::tag(input@, pos as int, tag@) == Ok::<int, Failure>(end as int),
            Err(e) => self::tag(input@, pos as int, tag@) == Err::<int, Failure>(e@),
        },
        r matches Ok(end) ==> pos <= end <= input.len(),
{
    let mut i: usize = 0;
    while i < tag.len()
        invariant
            i <= tag.len(),
            pos + i <= usize::MAX,
            pos + i <= input.len() || i == 0,
            forall|j: int| 0 <= j < i ==> pos + j < input.len() && input@[pos + j] == #[trigger] tag@[j],
        decreases tag.len() - i,
    {
        if pos >= input.len() || i >= input.len() - pos {
            return Err(ParseError::Incomplete);
        }
        if input[pos + i] != tag[i] {
            let t = vstd::slice::slice_to_vec(tag);
            return Err(ParseError::Syntax { expected: Expected::Tag(t), position: pos });
        }
        i = i + 1;
    }
    if pos > input.len() {
        return Err(ParseError::Incomplete);
    }
    Ok(pos + i)
}

/// Reads `tag` with the separators before and after it.
pub fn read_ws_tag(input: &[u8], pos: usize, tag: &[u8]) -> (r: Result<usize, ParseError>)
    ensures
        match r {
            Ok(end) => ws_tag(input@, pos as int, tag@) == Ok::<int, Failure>(end as int),
            Err(e) => ws_tag(input@, pos as int, tag@) == Err::<int, Failure>(e@),
        },
        r matches Ok(end) ==> pos <= end <= input.len(),
{
    let start = skip_whitespace(input, pos);
    match read_tag(input, start, tag) {
        Ok(end) => Ok(skip_whitespace(input, end)),
        Err(e) => Err(e),
    }
}

/// The length of the sign that stands at `pos`: one for `+`, one for `-`
/// where a minus is admitted, zero otherwise.
pub open spec fn sign_len(input: Seq<u8>, pos: int, minus: bool) -> int {
    if 0 <= pos < input.len() && (input[pos] == 43 || (minus && input[pos] == 45)) {
        1
    } else {
        0
    }
}

/// The end of the integer literal that starts at `pos`, if one does: an
/// optional sign and at least one digit.
pub open spec fn int_token_end(input: Seq<u8>, pos: int, minus: bool) -> Option<int> {
    let first = pos + sign_len(input, pos, minus);
    let end = digits_end(input, first);
    if end > first {
        Some(end)
    } else {
        None
    }
}

/// The number that a run of digits denotes.
pub open spec fn digits_value(digits: Seq<u8>) -> nat
    decreases digits.len(),
{
    if digits.len() == 0 {
        0
    } else {
        (digits_value(digits.drop_last()) * 10 + (digits.last() - 48)) as nat
    }
}

/// The number that the integer literal in `input` from `pos` to `end` denotes.
pub open spec fn int_token_value(input: Seq<u8>, pos: int, end: int, minus: bool) -> int {
    let first = pos + sign_len(input, pos, minus);
    let magnitude = digits_value(input.subrange(first, end));
    if first > pos && input[pos] == 45 {
        -magnitude
    } else {
        magnitude as int
    }
}

/// The construct that a failed integer read of `width` reports.
pub open spec fn int_expected(width: IntWidth) -> ExpectedView {
    if width.signed() {
        ExpectedView::Integer
    } else {
        ExpectedView::Unsigned
    }
}

/// Reading an integer of `width` at `pos`: its value and the position after
/// the literal. No literal at `pos` is a syntax error (`Incomplete` at the
/// end of the input); a literal whose value the width cannot hold is a range
/// error that carries the literal.
pub open spec fn parse_int(input: Seq<u8>, pos: int, width: IntWidth) -> Result<(int, int), Failure> {
    match int_token_end(input, pos, width.signed()) {
        None => if pos >= input.len() {
            Err(Failure::Incomplete)
        } else {
            Err(Failure::Syntax { expected: int_expected(width), position: pos })
        },
        Some(end) => {
            let v = int_token_value(input, pos, end, width.signed());
            if width.holds(v) {
                Ok((v, end))
            } else {
                Err(Failure::Range { width, literal: input.subrange(pos, end) })
            }
        },
    }
}

/// Reading an integer with the separators before and after it.
pub open spec fn ws_int(input: Seq<u8>, pos: int, width: IntWidth) -> Result<(int, int), Failure> {
    match parse_int(input, skip_spaces(input, pos), width) {
        Ok((v, end)) => Ok((v, skip_spaces(input, end))),
        Err(e) => Err(e),
    }
}

/// What the library's integer reads hand back before the width is applied.
pub struct RawInt {
    /// Whether the literal starts with a minus sign.
    pub negative: bool,
    /// The number the digits denote, where it is below 2^64.
    pub magnitude: u64,
    /// Whether the digits denote 2^64 or more.
    pub overflow: bool,
    /// The position after the literal.
    pub end: usize,
}

/// Recognises the integer literal at `pos` and computes what its digits denote.
pub fn read_raw_int(input: &[u8], pos: usize, minus: bool) -> (r: Option<RawInt>)
    ensures
        match r {
            None => int_token_end(input@, pos as int, minus) is None,
            Some(raw) => {
                let first = pos + sign_len(input@, pos as int, minus);
                let digits = input@.subrange(first, raw.end as int);
                &&& int_token_end(input@, pos as int, minus) == Some(raw.end as int)
                &&& pos < raw.end <= input.len()
                &&& raw.negative == (first > pos && input@[pos as int] == 45)
                &&& raw.overflow == (digits_value(digits) > u64::MAX)
                &&& !raw.overflow ==> raw.magnitude == digits_value(digits)
            },
        },
{
    if pos >= input.len() {
        return None;
    }
    let negative = minus && input[pos] == 45;
    let first: usize = if input[pos] == 43 || negative {
        pos + 1
    } else {
        pos
    };
    let end = skip_digits(input, first);
    if end == first {
        return None;
    }
    let mut magnitude: u64 = 0;
    let mut overflow = false;
    let mut i: usize = first;
    proof {
        assert(input@.subrange(first as int, first as int) =~= Seq::<u8>::empty());
    }
    while i < end
        invariant
            first <= i <= end <= input.len(),
            end == digits_end(input@, first as int),
            digits_end(input@, i as int) == end,
            overflow == (digits_value(input@.subrange(first as int, i as int)) > u64::MAX),
            !overflow ==> magnitude == digits_value(input@.subrange(first as int, i as int)),
        decreases end - i,
    {
        let d: u64 = (input[i] - 48) as u64;
        proof {
            let longer = input@.subrange(first as int, i + 1);
            assert(longer.drop_last() =~= input@.subrange(first as int, i as int));
            assert(longer.last() == input@[i as int]);
        }
        if !overflow {
            if magnitude > (u64::MAX - d) / 10 {
                overflow = true;
            } else {
                magnitude = magnitude * 10 + d;
            }
        }
        i = i + 1;
    }
    Some(RawInt { negative, magnitude, overflow, end })
}

/// Whether a literal of `width` may carry a minus sign.
pub fn admits_minus(width: IntWidth) -> (r: bool)
    ensures
        r == width.signed(),
{
    match width {
        IntWidth::I8 | IntWidth::I16 | IntWidth::I32 | IntWidth::I64 => true,
        _ => false,
    }
}

/// The largest magnitude that `width` holds on the side of the given sign.
fn magnitude_limit(width: IntWidth, negative: bool) -> (r: u64)
    ensures
        r == if negative { -width.min() } else { width.max() },
{
    match width {
        IntWidth::I8 => if negative { 0x80 } else { 0x7f },
        IntWidth::I16 => if negative { 0x8000 } else { 0x7fff },
        IntWidth::I32 => if negative { 0x8000_0000 } else { 0x7fff_ffff },
        IntWidth::I64 => if negative { 0x8000_0000_0000_0000 } else { 0x7fff_ffff_ffff_ffff },
        IntWidth::U8 => if negative { 0 } else { 0xff },
        IntWidth::U16 => if negative { 0 } else { 0xffff },
        IntWidth::U32 => if negative { 0 } else { 0xffff_ffff },
        IntWidth::U64 => if negative { 0 } else { 0xffff_ffff_ffff_ffff },
    }
}

/// Reads an integer literal of `width` at `pos`.
pub fn read_integer(input: &[u8], pos: usize, width: IntWidth) -> (r: Result<(i128, usize), ParseError>)
    ensures
        scalar_outcome(r) == match parse_int(input@, pos as int, width) {
            Ok((v, end)) => Ok::<(i128, int), Failure>((v as i128, end)),
            Err(e) => Err(e),
        },
        r matches Ok((v, end)) ==> width.holds(v as int) && pos < end <= input.len(),
{
    let minus = admits_minus(width);
    match read_raw_int(input, pos, minus) {
        None => {
            if pos >= input.len() {
                Err(ParseError::Incomplete)
            } else if minus {
                Err(ParseError::Syntax { expected: Expected::Integer, position: pos })
            } else {
                Err(ParseError::Syntax { expected: Expected::Unsigned, position: pos })
            }
        },
        Some(raw) => {
            if raw.overflow || raw.magnitude > magnitude_limit(width, raw.negative) {
                let literal = vstd::slice::slice_to_vec(vstd::slice::slice_subrange(input, pos, raw.end));
                Err(ParseError::Range { width, literal })
            } else if raw.negative {
                Ok((-(raw.magnitude as i128), raw.end))
            } else {
                Ok((raw.magnitude as i128, raw.end))
            }
        },
    }
}

/// Reads an integer literal of `width` with the separators before and after it.
pub fn read_ws_integer(input: &[u8], pos: usize, width: IntWidth) -> (r: Result<(i128, usize), ParseError>)
    ensures
        scalar_outcome(r) == match ws_int(input@, pos as int, width) {
            Ok((v, end)) => Ok::<(i128, int), Failure>((v as i128, end)),
            Err(e) => Err(e),
        },
        r matches Ok((v, end)) ==> width.holds(v as int) && pos < end <= input.len(),
{
    let start = skip_whitespace(input, pos);
    match read_integer(input, start, width) {
        Ok((v, end)) => Ok((v, skip_whitespace(input, end))),
        Err(e) => Err(e),
    }
}

/// Reads a signed 8-bit integer literal at `pos`.
pub fn parse_i8(input: &[u8], pos: usize) -> (r: Result<(i8, usize), ParseError>)
    ensures
        match r {
            Ok((v, end)) => parse_int(input@, pos as int, IntWidth::I8) == Ok::<(int, int), Failure>((v as int, end as int)),
            Err(e) => parse_int(input@, pos as int, IntWidth::I8) == Err::<(int, int), Failure>(e@),
        },
        r matches Ok((_, end)) ==> pos < end <= input.len(),
{
    match read_integer(input, pos, IntWidth::I8) {
        Ok((v, end)) => Ok((v as i8, end)),
        Err(e) => Err(e),
    }
}

/// Reads a signed 16-bit integer literal at `pos`.
pub fn parse_i16(input: &[u8], pos: usize) -> (r: Result<(i16, usize), ParseError>)
    ensures
        match r {
            Ok((v, end)) => parse_int(input@, pos as int, IntWidth::I16) == Ok::<(int, int), Failure>((v as int, end as int)),
            Err(e) => parse_int(input@, pos as int, IntWidth::I16) == Err::<(int, int), Failure>(e@),
        },
        r matches Ok((_, end)) ==> pos < end <= input.len(),
{
    match read_integer(input, pos, IntWidth::I16) {
        Ok((v, end)) => Ok((v as i16, end)),
        Err(e) => Err(e),
    }
}

/// Reads a signed 32-bit integer literal at `pos`.
pub fn parse_i32(input: &[u8], pos: usize) -> (r: Result<(i32, usize), ParseError>)
    ensures
        match r {
            Ok((v, end)) => parse_int(input@, pos as int, IntWidth::I32) == Ok::<(int, int), Failure>((v as int, end as int)),
            Err(e) => parse_int(input@, pos as int, IntWidth::I32) == Err::<(int, int), Failure>(e@),
        },
        r matches Ok((_, end)) ==> pos < end <= input.len(),
{
    match read_integer(input, pos, IntWidth::I32) {
        Ok((v, end)) => Ok((v as i32, end)),
        Err(e) => Err(e),
    }
}

/// Reads a signed 64-bit integer literal at `pos`.
pub fn parse_i64(input: &[u8], pos: usize) -> (r: Result<(i64, usize), ParseError>)
    ensures
        match r {
            Ok((v, end)) => parse_int(input@, pos as int, IntWidth::I64) == Ok::<(int, int), Failure>((v as int, end as int)),
            Err(e) => parse_int(input@, pos as int, IntWidth::I64) == Err::<(int, int), Failure>(e@),
        },
        r matches Ok((_, end)) ==> pos < end <= input.len(),
{
    match read_integer(input, pos, IntWidth::I64) {
        Ok((v, end)) => Ok((v as i64, end)),
        Err(e) => Err(e),
    }
}

/// Reads a unsigned 8-bit integer literal at `pos`.
pub fn parse_u8(input: &[u8], pos: usize) -> (r: Result<(u8, usize), ParseError>)
    ensures
        match r {
            Ok((v, end)) => parse_int(input@, pos as int, IntWidth::U8) == Ok::<(int, int), Failure>((v as int, end as int)),
            Err(e) => parse_int(input@, pos as int, IntWidth::U8) == Err::<(int, int), Failure>(e@),
        },
        r matches Ok((_, end)) ==> pos < end <= input.len(),
{
    match read_integer(input, pos, IntWidth::U8) {
        Ok((v, end)) => Ok((v as u8, end)),
        Err(e) => Err(e),
    }
}

/// Reads a unsigned 16-bit integer literal at `pos`.
pub fn parse_u16(input: &[u8], pos: usize) -> (r: Result<(u16, usize), ParseError>)
    ensures
        match r {
            Ok((v, end)) => parse_int(input@, pos as int, IntWidth::U16) == Ok::<(int, int), Failure>((v as int, end as int)),
            Err(e) => parse_int(input@, pos as int, IntWidth::U16) == Err::<(int, int), Failure>(e@),
        },
        r matches Ok((_, end)) ==> pos < end <= input.len(),
{
    match read_integer(input, pos, IntWidth::U16) {
        Ok((v, end)) => Ok((v as u16, end)),
        Err(e) => Err(e),
    }
}

/// Reads a unsigned 32-bit integer literal at `pos`.
pub fn parse_u32(input: &[u8], pos: usize) -> (r: Result<(u32, usize), ParseError>)
    ensures
        match r {
            Ok((v, end)) => parse_int(input@, pos as int, IntWidth::U32) == Ok::<(int, int), Failure>((v as int, end as int)),
            Err(e) => parse_int(input@, pos as int, IntWidth::U32) == Err::<(int, int), Failure>(e@),
        },
        r matches Ok((_, end)) ==> pos < end <= input.len(),
{
    match read_integer(input, pos, IntWidth::U32) {
        Ok((v, end)) => Ok((v as u32, end)),
        Err(e) => Err(e),
    }
}

/// Reads a unsigned 64-bit integer literal at `pos`.
pub fn parse_u64(input: &[u8], pos: usize) -> (r: Result<(u64, usize), ParseError>)
    ensures
        match r {
            Ok((v, end)) => parse_int(input@, pos as int, IntWidth::U64) == Ok::<(int, int), Failure>((v as int, end as int)),
            Err(e) => parse_int(input@, pos as int, IntWidth::U64) == Err::<(int, int), Failure>(e@),
        },
        r matches Ok((_, end)) ==> pos < end <= input.len(),
{
    match read_integer(input, pos, IntWidth::U64) {
        Ok((v, end)) => Ok((v as u64, end)),
        Err(e) => Err(e),
    }
}

/// Reads a signed 8-bit integer field: the literal with the separators around it.
pub fn ws_i8(input: &[u8], pos: usize) -> (r: Result<(i8, usize), ParseError>)
    ensures
        match r {
            Ok((v, end)) => ws_int(input@, pos as int, IntWidth::I8) == Ok::<(int, int), Failure>((v as int, end as int)),
            Err(e) => ws_int(input@, pos as int, IntWidth::I8) == Err::<(int, int), Failure>(e@),
        },
        r matches Ok((_, end)) ==> pos < end <= input.len(),
{
    match read_ws_integer(input, pos, IntWidth::I8) {
        Ok((v, end)) => Ok((v as i8, end)),
        Err(e) => Err(e),
    }
}

/// Reads a signed 64-bit integer field: the literal with the separators around it.
pub fn ws_i64(input: &[u8], pos: usize) -> (r: Result<(i64, usize), ParseError>)
    ensures
        match r {
            Ok((v, end)) => ws_int(input@, pos as int, IntWidth::I64) == Ok::<(int, int), Failure>((v as int, end as int)),
            Err(e) => ws_int(input@, pos as int, IntWidth::I64) == Err::<(int, int), Failure>(e@),
        },
        r matches Ok((_, end)) ==> pos < end <= input.len(),
{
    match read_ws_integer(input, pos, IntWidth::I64) {
        Ok((v, end)) => Ok((v as i64, end)),
        Err(e) => Err(e),
    }
}

/// Reads a unsigned 8-bit integer field: the literal with the separators around it.
pub fn ws_u8(input: &[u8], pos: usize) -> (r: Result<(u8, usize), ParseError>)
    ensures
        match r {
            Ok((v, end)) => ws_int(input@, pos as int, IntWidth::U8) == Ok::<(int, int), Failure>((v as int, end as int)),
            Err(e) => ws_int(input@, pos as int, IntWidth::U8) == Err::<(int, int), Failure>(e@),
        },
        r matches Ok((_, end)) ==> pos < end <= input.len(),
{
    match read_ws_integer(input, pos, IntWidth::U8) {
        Ok((v, end)) => Ok((v as u8, end)),
        Err(e) => Err(e),
    }
}

/// Reads a unsigned 64-bit integer field: the literal with the separators around it.
pub fn ws_u64(input: &[u8], pos: usize) -> (r: Result<(u64, usize), ParseError>)
    ensures
        match r {
            Ok((v, end)) => ws_int(input@, pos as int, IntWidth::U64) == Ok::<(int, int), Failure>((v as int, end as int)),
            Err(e) => ws_int(input@, pos as int, IntWidth::U64) == Err::<(int, int), Failure>(e@),
        },
        r matches Ok((_, end)) ==> pos < end <= input.len(),
{
    match read_ws_integer(input, pos, IntWidth::U64) {
        Ok((v, end)) => Ok((v as u64, end)),
        Err(e) => Err(e),
    }
}

/// The end of the exponent that starts at `pos`: `e` or `E`, an optional
/// sign and at least one digit. Where none stands there, `pos` itself.
pub open spec fn exponent_end(input: Seq<u8>, pos: int) -> int {
    if 0 <= pos < input.len() && (input[pos] == 101 || input[pos] == 69) {
        let first = pos + 1 + sign_len(input, pos + 1, true);
        let end = digits_end(input, first);
        if end > first {
            end
        } else {
            pos
        }
    } else {
        pos
    }
}

/// The token `Infinity`.
pub open spec fn infinity() -> Seq<u8> {
    seq![73u8, 110u8, 102u8, 105u8, 110u8, 105u8, 116u8, 121u8]
}

/// The token `-Infinity`.
pub open spec fn neg_infinity() -> Seq<u8> {
    seq![45u8, 73u8, 110u8, 102u8, 105u8, 110u8, 105u8, 116u8, 121u8]
}

/// The token `NaN`.
pub open spec fn nan() -> Seq<u8> {
    seq![78u8, 97u8, 78u8]
}

/// The end of the floating-point literal that starts at `pos`, if one does.
///
/// After an optional sign stands either at least one digit, then optionally a
/// dot and any number of digits; or a dot and at least one digit. An exponent
/// may follow both. Failing these, one of the tokens `Infinity`, `-Infinity`
/// and `NaN` is taken.
pub open spec fn float_token_end(input: Seq<u8>, pos: int) -> Option<int> {
    let first = pos + sign_len(input, pos, true);
    let int_end = digits_end(input, first);
    if int_end > first {
        let frac_end = if int_end < input.len() && input[int_end] == 46 {
            digits_end(input, int_end + 1)
        } else {
            int_end
        };
        Some(exponent_end(input, frac_end))
    } else if 0 <= first < input.len() && input[first] == 46 && digits_end(input, first + 1) > first
        + 1 {
        Some(exponent_end(input, digits_end(input, first + 1)))
    } else if has_at(input, pos, infinity()) {
        Some(pos + 8)
    } else if has_at(input, pos, neg_infinity()) {
        Some(pos + 9)
    } else if has_at(input, pos, nan()) {
        Some(pos + 3)
    } else {
        None
    }
}

/// `text` is exactly one floating-point literal.
pub open spec fn is_float_token(text: Seq<u8>) -> bool {
    float_token_end(text, 0) == Some(text.len() as int)
}

/// Reading a floating-point literal at `pos`: its text and the position after it.
pub open spec fn float_at(input: Seq<u8>, pos: int) -> Result<(Seq<u8>, int), Failure> {
    match float_token_end(input, pos) {
        Some(end) => Ok((input.subrange(pos, end), end)),
        None => if pos >= input.len() {
            Err(Failure::Incomplete)
        } else {
            Err(Failure::Syntax { expected: ExpectedView::Float, position: pos })
        },
    }
}

/// Reading a floating-point literal with the separators before and after it.
pub open spec fn ws_float(input: Seq<u8>, pos: int) -> Result<(Seq<u8>, int), Failure> {
    match float_at(input, skip_spaces(input, pos)) {
        Ok((v, end)) => Ok((v, skip_spaces(input, end))),
        Err(e) => Err(e),
    }
}

/// The bytes of `a` from `pa` and of `b` from `pb` are the same for `n` places.
pub open spec fn agree(a: Seq<u8>, pa: int, b: Seq<u8>, pb: int, n: int) -> bool {
    &&& 0 <= pa && pa + n <= a.len()
    &&& 0 <= pb && pb + n <= b.len()
    &&& forall|i: int| 0 <= i < n ==> #[trigger] a[pa + i] == b[pb + i]
}

/// A run of digits ends at or before any later place that holds no digit.
pub proof fn lemma_digits_end_stops(input: Seq<u8>, pos: int, stop: int)
    requires
        pos <= stop,
        stop >= input.len() || stop < 0 || !is_decimal_digit(input[stop]),
    ensures
        digits_end(input, pos) <= stop,
    decreases stop - pos,
{
    if 0 <= pos < input.len() && is_decimal_digit(input[pos]) {
        lemma_digits_end_stops(input, pos + 1, stop);
    }
}

/// Where two inputs agree for `n` places, their runs of digits are equally
/// long, unless both run through all `n` places.
pub proof fn lemma_digits_end_agree(a: Seq<u8>, pa: int, b: Seq<u8>, pb: int, n: int)
    requires
        0 <= n,
        agree(a, pa, b, pb, n),
    ensures
        digits_end(a, pa) - pa < n ==> digits_end(b, pb) - pb == digits_end(a, pa) - pa,
        digits_end(a, pa) - pa >= n ==> digits_end(b, pb) - pb >= n,
    decreases n,
{
    lemma_digits_end_bounds(a, pa);
    lemma_digits_end_bounds(b, pb);
    if n > 0 {
        assert(a[pa + 0] == b[pb + 0]);
        if is_decimal_digit(a[pa]) {
            assert forall|i: int| 0 <= i < n - 1 implies #[trigger] a[pa + 1 + i] == b[pb + 1 + i] by {
                assert(a[pa + (i + 1)] == b[pb + (i + 1)]);
            }
            lemma_digits_end_agree(a, pa + 1, b, pb + 1, n - 1);
        }
    }
}

/// No byte that could lengthen a floating-point literal stands at `pos`.
pub open spec fn ends_float(input: Seq<u8>, pos: int) -> bool {
    pos < 0 || pos >= input.len() || !(is_decimal_digit(input[pos]) || input[pos] == 46 || input[pos] == 101
        || input[pos] == 69)
}

/// No digit stands at `pos`.
pub open spec fn ends_digits(input: Seq<u8>, pos: int) -> bool {
    pos < 0 || pos >= input.len() || !is_decimal_digit(input[pos])
}

/// A run of digits inside a window on which two inputs agree is the same
/// run in both, where the second input holds no digit after the window.
pub proof fn lemma_run_agree(a: Seq<u8>, pa: int, b: Seq<u8>, pb: int, n: int, p: int)
    requires
        agree(a, pa, b, pb, n),
        0 <= p <= n,
        ends_digits(b, pb + n),
        digits_end(a, pa + p) <= pa + n,
    ensures
        digits_end(b, pb + p) - pb == digits_end(a, pa + p) - pa,
{
    assert forall|i: int| 0 <= i < n - p implies #[trigger] a[pa + p + i] == b[pb + p + i] by {
        assert(a[pa + (p + i)] == b[pb + (p + i)]);
    }
    lemma_digits_end_agree(a, pa + p, b, pb + p, n - p);
    lemma_digits_end_stops(b, pb + p, pb + n);
    lemma_digits_end_bounds(a, pa + p);
}

/// An exponent never ends before it starts.
pub proof fn lemma_exponent_end_bounds(input: Seq<u8>, pos: int)
    ensures
        pos <= exponent_end(input, pos),
        pos <= input.len() ==> exponent_end(input, pos) <= input.len(),
{
    if 0 <= pos < input.len() {
        let first = pos + 1 + sign_len(input, pos + 1, true);
        lemma_digits_end_bounds(input, first);
    }
}

/// A literal that is found takes at least one byte and ends inside the input.
pub proof fn lemma_float_token_bounds(input: Seq<u8>, pos: int)
    requires
        float_token_end(input, pos) is Some,
    ensures
        0 <= pos < float_token_end(input, pos)->0 <= input.len(),
{
    let first = pos + sign_len(input, pos, true);
    let int_end = digits_end(input, first);
    lemma_digits_end_bounds(input, first);
    if int_end > first {
        lemma_digits_end_bounds(input, int_end + 1);
        let frac_end = if int_end < input.len() && input[int_end] == 46 {
            digits_end(input, int_end + 1)
        } else {
            int_end
        };
        lemma_exponent_end_bounds(input, frac_end);
    } else if 0 <= first < input.len() && input[first] == 46 && digits_end(input, first + 1) > first
        + 1 {
        lemma_digits_end_bounds(input, first + 1);
        lemma_exponent_end_bounds(input, digits_end(input, first + 1));
    }
}

/// An exponent inside a window on which two inputs agree is the same in both,
/// where nothing that could lengthen it follows the window in the second.
proof fn lemma_exponent_agree(a: Seq<u8>, pa: int, b: Seq<u8>, pb: int, n: int, p: int)
    requires
        agree(a, pa, b, pb, n),
        0 <= p <= n,
        ends_float(b, pb + n),
        exponent_end(a, pa + p) == pa + n,
    ensures
        exponent_end(b, pb + p) == pb + n,
{
    if p < n {
        assert(a[pa + p] == b[pb + p]);
        let sa = sign_len(a, pa + p + 1, true);
        let fa = pa + p + 1 + sa;
        lemma_digits_end_bounds(a, fa);
        assert(p + 1 + sa < n);
        assert(a[pa + (p + 1)] == b[pb + (p + 1)]);
        assert(sa == sign_len(b, pb + p + 1, true));
        lemma_run_agree(a, pa, b, pb, n, p + 1 + sa);
    }
}

/// A literal that ends a window on which two inputs agree is a literal of
/// the second input too, where nothing that could lengthen it follows there.
pub proof fn lemma_float_token_agree(a: Seq<u8>, pa: int, b: Seq<u8>, pb: int, n: int)
    requires
        agree(a, pa, b, pb, n),
        float_token_end(a, pa) == Some(pa + n),
        ends_float(b, pb + n),
    ensures
        float_token_end(b, pb) == Some(pb + n),
{
    lemma_float_token_bounds(a, pa);
    assert(a[pa + 0] == b[pb + 0]);
    let s = sign_len(a, pa, true);
    assert(s == sign_len(b, pb, true));
    let fa = pa + s;
    let fb = pb + s;
    let ia = digits_end(a, fa);
    lemma_digits_end_bounds(a, fa);
    if ia > fa {
        let frac_a = if ia < a.len() && a[ia] == 46 {
            digits_end(a, ia + 1)
        } else {
            ia
        };
        lemma_digits_end_bounds(a, ia + 1);
        lemma_exponent_end_bounds(a, frac_a);
        lemma_run_agree(a, pa, b, pb, n, s);
        let ib = digits_end(b, fb);
        assert(ib - pb == ia - pa);
        if ia - pa < n {
            assert(a[pa + (ia - pa)] == b[pb + (ia - pa)]);
        }
        if ia < a.len() && a[ia] == 46 {
            lemma_run_agree(a, pa, b, pb, n, ia + 1 - pa);
        }
        lemma_exponent_agree(a, pa, b, pb, n, frac_a - pa);
    } else if 0 <= fa < a.len() && a[fa] == 46 && digits_end(a, fa + 1) > fa + 1 {
        lemma_digits_end_bounds(a, fa + 1);
        lemma_exponent_end_bounds(a, digits_end(a, fa + 1));
        assert(a[pa + s] == b[pb + s]);
        lemma_run_agree(a, pa, b, pb, n, s + 1);
        lemma_exponent_agree(a, pa, b, pb, n, digits_end(a, fa + 1) - pa);
    } else {
        if s < n {
            assert(a[pa + s] == b[pb + s]);
            if s + 1 < n {
                assert(a[pa + (s + 1)] == b[pb + (s + 1)]);
            }
        }
        assert(has_at(a, pa, infinity()) ==> has_at(b, pb, infinity())) by {
            if has_at(a, pa, infinity()) {
                assert forall|i: int| 0 <= i < 8 implies b[pb + i] == #[trigger] infinity()[i] by {
                    assert(a[pa + i] == b[pb + i]);
                }
            }
        }
        assert(has_at(a, pa, neg_infinity()) ==> has_at(b, pb, neg_infinity())) by {
            if has_at(a, pa, neg_infinity()) {
                assert forall|i: int| 0 <= i < 9 implies b[pb + i] == #[trigger] neg_infinity()[i] by {
                    assert(a[pa + i] == b[pb + i]);
                }
            }
        }
        assert(has_at(a, pa, nan()) ==> has_at(b, pb, nan())) by {
            if has_at(a, pa, nan()) {
                assert forall|i: int| 0 <= i < 3 implies b[pb + i] == #[trigger] nan()[i] by {
                    assert(a[pa + i] == b[pb + i]);
                }
            }
        }
        // the first bytes of the three tokens tell them apart
        assert(infinity()[0] == 73 && neg_infinity()[0] == 45 && neg_infinity()[1] == 73 && nan()[0] == 78);
        lemma_digits_end_bounds(b, fb);
        lemma_digits_end_bounds(b, fb + 1);
    }
}

/// The end of the exponent at `pos`, or `pos` where none stands there.
fn skip_exponent(input: &[u8], pos: usize) -> (end: usize)
    requires
        pos <= input.len(),
    ensures
        end == exponent_end(input@, pos as int),
        pos <= end <= input.len(),
{
    if pos < input.len() && (input[pos] == 101 || input[pos] == 69) {
        let after = pos + 1;
        let first: usize = if after < input.len() && (input[after] == 43 || input[after] == 45) {
            after + 1
        } else {
            after
        };
        let end = skip_digits(input, first);
        if end > first {
            end
        } else {
            pos
        }
    } else {
        pos
    }
}

/// The token `Infinity`.
pub const INFINITY: [u8; 8] = [73, 110, 102, 105, 110, 105, 116, 121];

/// The token `-Infinity`.
pub const NEG_INFINITY: [u8; 9] = [45, 73, 110, 102, 105, 110, 105, 116, 121];

/// The token `NaN`.
pub const NAN: [u8; 3] = [78, 97, 78];

/// Recognises the floating-point literal at `pos`.
pub fn float_end(input: &[u8], pos: usize) -> (r: Option<usize>)
    ensures
        match r {
            Some(end) => float_token_end(input@, pos as int) == Some(end as int) && pos < end
                <= input.len(),
            None => float_token_end(input@, pos as int) is None,
        },
{
    if pos >= input.len() {
        return None;
    }
    let first: usize = if input[pos] == 43 || input[pos] == 45 {
        pos + 1
    } else {
        pos
    };
    let int_end = skip_digits(input, first);
    if int_end > first {
        let frac_end = if int_end < input.len() && input[int_end] == 46 {
            skip_digits(input, int_end + 1)
        } else {
            int_end
        };
        return Some(skip_exponent(input, frac_end));
    }
    if first < input.len() && input[first] == 46 {
        let frac_end = skip_digits(input, first + 1);
        if frac_end > first + 1 {
            return Some(skip_exponent(input, frac_end));
        }
    }
    assert(INFINITY@ =~= infinity());
    assert(NEG_INFINITY@ =~= neg_infinity());
    assert(NAN@ =~= nan());
    if starts_with(input, pos, INFINITY.as_slice()) {
        Some(pos + 8)
    } else if starts_with(input, pos, NEG_INFINITY.as_slice()) {
        Some(pos + 9)
    } else if starts_with(input, pos, NAN.as_slice()) {
        Some(pos + 3)
    } else {
        None
    }
}

/// The decimal digits of `n`, without leading zeros.
pub open spec fn decimal_digits(n: nat) -> Seq<u8>
    decreases n,
{
    if n < 10 {
        seq![(48 + n) as u8]
    } else {
        decimal_digits(n / 10).push((48 + n % 10) as u8)
    }
}

/// The decimal form of `v`: its digits, after a minus sign where it is negative.
pub open spec fn decimal(v: int) -> Seq<u8> {
    if v < 0 {
        seq![45u8] + decimal_digits((-v) as nat)
    } else {
        decimal_digits(v as nat)
    }
}

/// Appends the decimal digits of `v`.
pub fn write_u64(v: u64, out: &mut Vec<u8>)
    ensures
        final(out)@ == old(out)@ + decimal(v as int),
    decreases v,
{
    if v >= 10 {
        write_u64(v / 10, out);
    }
    out.push(48 + (v % 10) as u8);
    proof {
        if v >= 10 {
            assert(final(out)@ =~= old(out)@ + decimal_digits((v / 10) as nat).push((48 + v % 10) as u8));
        } else {
            assert(final(out)@ =~= old(out)@ + seq![(48 + v) as u8]);
        }
    }
}

/// Appends the decimal form of `v`.
pub fn write_i64(v: i64, out: &mut Vec<u8>)
    ensures
        final(out)@ == old(out)@ + decimal(v as int),
{
    if v < 0 {
        out.push(45);
        let ghost mid = out@;
        let magnitude: u64 = if v == i64::MIN {
            0x8000_0000_0000_0000
        } else {
            (-v) as u64
        };
        write_u64(magnitude, out);
        proof {
            assert(mid =~= old(out)@ + seq![45u8]);
            assert(final(out)@ =~= old(out)@ + (seq![45u8] + decimal_digits((-v) as nat)));
        }
    } else {
        write_u64(v as u64, out);
    }
}

/// Appends `bytes`.
pub fn write_bytes(bytes: &[u8], out: &mut Vec<u8>)
    ensures
        final(out)@ == old(out)@ + bytes@,
{
    out.extend_from_slice(bytes);
    assert(final(out)@ =~= old(out)@ + bytes@);
}

/// Appends `bytes` and the separator `sep` to a text that is being built:
/// `base` is what `out` held before the text, `acc` the text so far.
pub fn put_bytes(bytes: &[u8], sep: u8, out: &mut Vec<u8>, Ghost(base): Ghost<Seq<u8>>, Ghost(acc): Ghost<Seq<u8>>)
    requires
        old(out)@ == base + acc,
    ensures
        final(out)@ == base + (acc + bytes@ + seq![sep]),
{
    write_bytes(bytes, out);
    out.push(sep);
    assert(final(out)@ =~= base + (acc + bytes@ + seq![sep]));
}

/// Appends the decimal form of `v` and the separator `sep` to a text that is
/// being built.
pub fn put_i64(v: i64, sep: u8, out: &mut Vec<u8>, Ghost(base): Ghost<Seq<u8>>, Ghost(acc): Ghost<Seq<u8>>)
    requires
        old(out)@ == base + acc,
    ensures
        final(out)@ == base + (acc + decimal(v as int) + seq![sep]),
{
    write_i64(v, out);
    out.push(sep);
    assert(final(out)@ =~= base + (acc + decimal(v as int) + seq![sep]));
}

/// Appends the decimal form of `v` and the separator `sep` to a text that is
/// being built.
pub fn put_u64(v: u64, sep: u8, out: &mut Vec<u8>, Ghost(base): Ghost<Seq<u8>>, Ghost(acc): Ghost<Seq<u8>>)
    requires
        old(out)@ == base + acc,
    ensures
        final(out)@ == base + (acc + decimal(v as int) + seq![sep]),
{
    write_u64(v, out);
    out.push(sep);
    assert(final(out)@ =~= base + (acc + decimal(v as int) + seq![sep]));
}

/// The first position at or after `pos` at which `pattern` stands.
pub open spec fn find(input: Seq<u8>, pos: int, pattern: Seq<u8>) -> Option<int>
    decreases input.len() - pos,
{
    if has_at(input, pos, pattern) {
        Some(pos)
    } else if pos >= input.len() {
        None
    } else {
        find(input, pos + 1, pattern)
    }
}

/// Where `find` gives a position, the pattern stands there and nowhere
/// between `pos` and there; where it gives none, the pattern stands nowhere
/// from `pos` on.
pub proof fn lemma_find(input: Seq<u8>, pos: int, pattern: Seq<u8>)
    requires
        0 <= pos,
    ensures
        match find(input, pos, pattern) {
            Some(at) => pos <= at && at + pattern.len() <= input.len() && has_at(input, at, pattern)
                && forall|i: int| pos <= i < at ==> !has_at(input, i, pattern),
            None => forall|i: int| pos <= i ==> !has_at(input, i, pattern),
        },
    decreases input.len() - pos,
{
    if has_at(input, pos, pattern) {
    } else if pos >= input.len() {
        assert forall|i: int| pos <= i implies !has_at(input, i, pattern) by {
            if has_at(input, i, pattern) {
                assert(i + pattern.len() <= input.len());
                assert(i == pos && pattern.len() == 0);
            }
        }
    } else {
        lemma_find(input, pos + 1, pattern);
    }
}

/// Looks for `pattern` from `pos` on.
pub fn find_tag(input: &[u8], pos: usize, pattern: &[u8]) -> (r: Option<usize>)
    ensures
        match r {
            Some(at) => find(input@, pos as int, pattern@) == Some(at as int) && pos <= at && at
                + pattern.len() <= input.len(),
            None => find(input@, pos as int, pattern@) is None,
        },
{
    let mut i: usize = pos;
    loop
        invariant
            pos <= i,
            find(input@, i as int, pattern@) == find(input@, pos as int, pattern@),
        decreases input.len() - i,
    {
        if starts_with(input, i, pattern) {
            return Some(i);
        }
        if i >= input.len() {
            return None;
        }
        i = i + 1;
    }
}

/// Reading what stands between the tags `open` and `close` at `pos`: the
/// places where it starts and ends, and the position after `close`. The
/// first `close` behind `open` ends it; where none follows, the input is
/// incomplete.
pub open spec fn delimited(input: Seq<u8>, pos: int, open: Seq<u8>, close: Seq<u8>) -> Result<
    ((int, int), int),
    Failure,
> {
    match tag(input, pos, open) {
        Err(e) => Err(e),
        Ok(start) => match find(input, start, close) {
            None => Err(Failure::Incomplete),
            Some(at) => Ok(((start, at), at + close.len())),
        },
    }
}

/// Reads what stands between the tags `open` and `close`.
pub fn read_delimited(input: &[u8], pos: usize, open: &[u8], close: &[u8]) -> (r: Result<
    ((usize, usize), usize),
    ParseError,
>)
    ensures
        match r {
            Ok(((start, at), end)) => delimited(input@, pos as int, open@, close@) == Ok::<
                ((int, int), int),
                Failure,
            >(((start as int, at as int), end as int)) && pos <= start <= at <= end <= input.len(),
            Err(e) => delimited(input@, pos as int, open@, close@) == Err::<((int, int), int), Failure>(
                e@,
            ),
        },
{
    let start = match read_tag(input, pos, open) {
        Ok(p) => p,
        Err(e) => return Err(e),
    };
    match find_tag(input, start, close) {
        None => Err(ParseError::Incomplete),
        Some(at) => Ok(((start, at), at + close.len())),
    }
}

/// Appending to what was appended is appending the whole.
pub proof fn lemma_appended(base: Seq<u8>, acc: Seq<u8>, piece: Seq<u8>)
    ensures
        (base + acc) + piece == base + (acc + piece),
{
    assert((base + acc) + piece =~= base + (acc + piece));
}

/// Takes back what was appended to `out` since it held `base`.
pub fn undo(out: &mut Vec<u8>, start: usize, Ghost(base): Ghost<Seq<u8>>, Ghost(acc): Ghost<Seq<u8>>)
    requires
        old(out)@ == base + acc,
        start == base.len(),
    ensures
        final(out)@ == base,
{
    out.truncate(start);
    assert(final(out)@ =~= base);
}

/// Appends `bytes` to a text that is being built.
pub fn add_bytes(bytes: &[u8], out: &mut Vec<u8>, Ghost(base): Ghost<Seq<u8>>, Ghost(acc): Ghost<Seq<u8>>)
    requires
        old(out)@ == base + acc,
    ensures
        final(out)@ == base + (acc + bytes@),
{
    write_bytes(bytes, out);
    proof {
        lemma_appended(base, acc, bytes@);
    }
}

/// Appends the byte `b` to a text that is being built.
pub fn add_byte(b: u8, out: &mut Vec<u8>, Ghost(base): Ghost<Seq<u8>>, Ghost(acc): Ghost<Seq<u8>>)
    requires
        old(out)@ == base + acc,
    ensures
        final(out)@ == base + (acc + seq![b]),
{
    out.push(b);
    assert(final(out)@ =~= base + (acc + seq![b]));
}

/// Appends the decimal form of `v` to a text that is being built.
pub fn add_u64(v: u64, out: &mut Vec<u8>, Ghost(base): Ghost<Seq<u8>>, Ghost(acc): Ghost<Seq<u8>>)
    requires
        old(out)@ == base + acc,
    ensures
        final(out)@ == base + (acc + decimal(v as int)),
{
    write_u64(v, out);
    proof {
        lemma_appended(base, acc, decimal(v as int));
    }
}

/// Appends the decimal form of `v` to a text that is being built.
pub fn add_i64(v: i64, out: &mut Vec<u8>, Ghost(base): Ghost<Seq<u8>>, Ghost(acc): Ghost<Seq<u8>>)
    requires
        old(out)@ == base + acc,
    ensures
        final(out)@ == base + (acc + decimal(v as int)),
{
    write_i64(v, out);
    proof {
        lemma_appended(base, acc, decimal(v as int));
    }
}

/// Every byte of `text` is a digit.
pub open spec fn all_digits(text: Seq<u8>) -> bool {
    forall|i: int| 0 <= i < text.len() ==> is_decimal_digit(#[trigger] text[i])
}

/// The decimal digits of a number are digits, at least one, and denote the number.
pub proof fn lemma_decimal_digits(n: nat)
    ensures
        decimal_digits(n).len() >= 1,
        all_digits(decimal_digits(n)),
        digits_value(decimal_digits(n)) == n,
    decreases n,
{
    if n < 10 {
        let t = decimal_digits(n);
        assert(t.drop_last() =~= Seq::<u8>::empty());
        assert(digits_value(t.drop_last()) == 0);
    } else {
        lemma_decimal_digits(n / 10);
        let t = decimal_digits(n);
        assert(t.drop_last() =~= decimal_digits(n / 10));
    }
}

/// A run of digits that stands in the input and is followed by no digit is
/// the run that is found there.
pub proof fn lemma_digits_found(input: Seq<u8>, pos: int, digits: Seq<u8>)
    requires
        has_at(input, pos, digits),
        all_digits(digits),
        ends_digits(input, pos + digits.len()),
    ensures
        digits_end(input, pos) == pos + digits.len(),
    decreases digits.len(),
{
    if digits.len() > 0 {
        assert(input[pos + 0] == digits[0]);
        let rest = digits.subrange(1, digits.len() as int);
        assert forall|i: int| 0 <= i < rest.len() implies input[pos + 1 + i] == #[trigger] rest[i] by {
            assert(input[pos + (i + 1)] == digits[i + 1]);
        }
        assert(all_digits(rest)) by {
            assert forall|i: int| 0 <= i < rest.len() implies is_decimal_digit(#[trigger] rest[i]) by {
                assert(rest[i] == digits[i + 1]);
            }
        }
        lemma_digits_found(input, pos + 1, rest);
    }
}

/// Reading gives back the integer whose decimal form stands in the input,
/// where no digit follows it and the width holds it.
pub proof fn lemma_int_round_trip(input: Seq<u8>, pos: int, v: int, width: IntWidth)
    requires
        width.holds(v),
        has_at(input, pos, decimal(v)),
        ends_digits(input, pos + decimal(v).len()),
    ensures
        parse_int(input, pos, width) == Ok::<(int, int), Failure>((v, pos + decimal(v).len())),
{
    let magnitude = (if v < 0 { -v } else { v }) as nat;
    let digits = decimal_digits(magnitude);
    lemma_decimal_digits(magnitude);
    let sign: int = if v < 0 { 1 } else { 0 };
    assert(decimal(v).len() == sign + digits.len());
    assert(input[pos + 0] == decimal(v)[0]);
    if v < 0 {
        assert(decimal(v)[0] == 45);
        assert(width.signed());
    } else {
        assert(decimal(v) == digits);
        assert(is_decimal_digit(digits[0]));
    }
    assert(sign_len(input, pos, width.signed()) == sign);
    assert forall|i: int| 0 <= i < digits.len() implies input[pos + sign + i] == #[trigger] digits[i] by {
        assert(input[pos + (sign + i)] == decimal(v)[sign + i]);
    }
    lemma_digits_found(input, pos + sign, digits);
    assert(input.subrange(pos + sign, pos + sign + digits.len()) =~= digits);
}

/// Reading a field gives back the integer whose decimal form stands at the
/// first place that holds no separator, where a separator follows it.
pub proof fn lemma_int_field(input: Seq<u8>, pos: int, v: int, width: IntWidth)
    requires
        width.holds(v),
        has_at(input, skip_spaces(input, pos), decimal(v)),
        ends_digits(input, skip_spaces(input, pos) + decimal(v).len()),
    ensures
        ws_int(input, pos, width) == Ok::<(int, int), Failure>(
            (v, skip_spaces(input, skip_spaces(input, pos) + decimal(v).len())),
        ),
{
    lemma_int_round_trip(input, skip_spaces(input, pos), v, width);
}

/// Reading gives back the literal that stands in the input, where nothing
/// that could lengthen it follows.
pub proof fn lemma_float_round_trip(input: Seq<u8>, pos: int, text: Seq<u8>)
    requires
        is_float_token(text),
        has_at(input, pos, text),
        ends_float(input, pos + text.len()),
    ensures
        float_at(input, pos) == Ok::<(Seq<u8>, int), Failure>((text, pos + text.len())),
{
    assert(agree(text, 0, input, pos, text.len() as int)) by {
        assert forall|i: int| 0 <= i < text.len() implies #[trigger] text[0 + i] == input[pos + i] by {
            assert(input[pos + i] == text[i]);
        }
    }
    lemma_float_token_agree(text, 0, input, pos, text.len() as int);
    assert(input.subrange(pos, pos + text.len()) =~= text);
}

/// Reading a field gives back the literal that stands at the first place
/// that holds no separator, where nothing that could lengthen it follows.
pub proof fn lemma_float_field(input: Seq<u8>, pos: int, text: Seq<u8>)
    requires
        is_float_token(text),
        has_at(input, skip_spaces(input, pos), text),
        ends_float(input, skip_spaces(input, pos) + text.len()),
    ensures
        ws_float(input, pos) == Ok::<(Seq<u8>, int), Failure>(
            (text, skip_spaces(input, skip_spaces(input, pos) + text.len())),
        ),
{
    lemma_float_round_trip(input, skip_spaces(input, pos), text);
}

/// A pattern that stands at `at`, and nowhere between `pos` and `at`, is
/// found at `at`.
pub proof fn lemma_find_first(input: Seq<u8>, pos: int, at: int, pattern: Seq<u8>)
    requires
        0 <= pos <= at,
        has_at(input, at, pattern),
        forall|i: int| pos <= i < at ==> !has_at(input, i, pattern),
    ensures
        find(input, pos, pattern) == Some(at),
    decreases at - pos,
{
    if pos < at {
        assert(!has_at(input, pos, pattern));
        lemma_find_first(input, pos + 1, at, pattern);
    }
}

} // verus!
