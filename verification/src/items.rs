//! Single fields and pairs of fields as items of a list on one line.
//!
//! An item is read as a field, with the separators around it. It is written
//! with one space before it, so that a list follows what stands before it
//! on the line.

use crate::{ReadLhe, WriteLhe};
use crate::codec::{
    Codec, Field, lemma_decimal_first, lemma_float_first, lemma_skip_none, lemma_skip_one,
    lemma_skip_twice, lemma_split, spaced,
};
use crate::error::{Failure, IntWidth, ParseError, WriteError};
use crate::float::{Float, ws_float_field};
use crate::lexer::{
    decimal, ends_digits, ends_float, is_float_token, lemma_float_round_trip, lemma_int_round_trip,
    skip_spaces, write_bytes, write_i64, ws_float, ws_i64, ws_i8, ws_int,
};
use vstd::prelude::*;

verus! {

impl ReadLhe for Float {
    open spec fn parse(input: Seq<u8>, pos: int) -> Result<(Seq<u8>, int), Failure> {
        ws_float(input, pos)
    }

    fn read_from_lhe(input: &[u8], pos: usize) -> (r: Result<(Float, usize), ParseError>) {
        ws_float_field(input, pos)
    }
}

impl WriteLhe for Float {
    open spec fn writable(v: Seq<u8>) -> bool {
        true
    }

    open spec fn lhe_bytes(v: Seq<u8>) -> Seq<u8> {
        seq![32u8] + v
    }

    fn write_lhe(&self, out: &mut Vec<u8>) -> (r: Result<(), WriteError>) {
        out.push(32);
        write_bytes(self.as_bytes(), out);
        assert(out@ =~= old(out)@ + (seq![32u8] + self@));
        Ok(())
    }
}

impl ReadLhe for i64 {
    open spec fn parse(input: Seq<u8>, pos: int) -> Result<(i64, int), Failure> {
        match ws_int(input, pos, IntWidth::I64) {
            Err(e) => Err(e),
            Ok((v, end)) => Ok((v as i64, end)),
        }
    }

    fn read_from_lhe(input: &[u8], pos: usize) -> (r: Result<(i64, usize), ParseError>) {
        ws_i64(input, pos)
    }
}

impl WriteLhe for i64 {
    open spec fn writable(v: i64) -> bool {
        true
    }

    open spec fn lhe_bytes(v: i64) -> Seq<u8> {
        seq![32u8] + decimal(v as int)
    }

    fn write_lhe(&self, out: &mut Vec<u8>) -> (r: Result<(), WriteError>) {
        out.push(32);
        write_i64(*self, out);
        assert(out@ =~= old(out)@ + (seq![32u8] + decimal(*self as int)));
        Ok(())
    }
}

impl ReadLhe for i8 {
    open spec fn parse(input: Seq<u8>, pos: int) -> Result<(i8, int), Failure> {
        match ws_int(input, pos, IntWidth::I8) {
            Err(e) => Err(e),
            Ok((v, end)) => Ok((v as i8, end)),
        }
    }

    fn read_from_lhe(input: &[u8], pos: usize) -> (r: Result<(i8, usize), ParseError>) {
        ws_i8(input, pos)
    }
}

impl WriteLhe for i8 {
    open spec fn writable(v: i8) -> bool {
        true
    }

    open spec fn lhe_bytes(v: i8) -> Seq<u8> {
        seq![32u8] + decimal(v as int)
    }

    fn write_lhe(&self, out: &mut Vec<u8>) -> (r: Result<(), WriteError>) {
        out.push(32);
        write_i64(*self as i64, out);
        assert(out@ =~= old(out)@ + (seq![32u8] + decimal(*self as int)));
        Ok(())
    }
}

impl ReadLhe for (i64, i64) {
    open spec fn parse(input: Seq<u8>, pos: int) -> Result<((i64, i64), int), Failure> {
        match ws_int(input, pos, IntWidth::I64) {
            Err(e) => Err(e),
            Ok((a, q1)) => match ws_int(input, q1, IntWidth::I64) {
                Err(e) => Err(e),
                Ok((b, q2)) => Ok(((a as i64, b as i64), q2)),
            },
        }
    }

    fn read_from_lhe(input: &[u8], pos: usize) -> (r: Result<((i64, i64), usize), ParseError>) {
        let (a, p) = match ws_i64(input, pos) {
            Ok(x) => x,
            Err(e) => return Err(e),
        };
        let (b, p) = match ws_i64(input, p) {
            Ok(x) => x,
            Err(e) => return Err(e),
        };
        Ok(((a, b), p))
    }
}

impl WriteLhe for (i64, i64) {
    open spec fn writable(v: (i64, i64)) -> bool {
        true
    }

    open spec fn lhe_bytes(v: (i64, i64)) -> Seq<u8> {
        seq![32u8] + decimal(v.0 as int) + seq![32u8] + decimal(v.1 as int)
    }

    fn write_lhe(&self, out: &mut Vec<u8>) -> (r: Result<(), WriteError>) {
        out.push(32);
        write_i64(self.0, out);
        out.push(32);
        write_i64(self.1, out);
        assert(out@ =~= old(out)@ + (seq![32u8] + decimal(self.0 as int) + seq![32u8] + decimal(
            self.1 as int,
        )));
        Ok(())
    }
}

impl ReadLhe for (i8, i8) {
    open spec fn parse(input: Seq<u8>, pos: int) -> Result<((i8, i8), int), Failure> {
        match ws_int(input, pos, IntWidth::I8) {
            Err(e) => Err(e),
            Ok((a, q1)) => match ws_int(input, q1, IntWidth::I8) {
                Err(e) => Err(e),
                Ok((b, q2)) => Ok(((a as i8, b as i8), q2)),
            },
        }
    }

    fn read_from_lhe(input: &[u8], pos: usize) -> (r: Result<((i8, i8), usize), ParseError>) {
        let (a, p) = match ws_i8(input, pos) {
            Ok(x) => x,
            Err(e) => return Err(e),
        };
        let (b, p) = match ws_i8(input, p) {
            Ok(x) => x,
            Err(e) => return Err(e),
        };
        Ok(((a, b), p))
    }
}

impl WriteLhe for (i8, i8) {
    open spec fn writable(v: (i8, i8)) -> bool {
        true
    }

    open spec fn lhe_bytes(v: (i8, i8)) -> Seq<u8> {
        seq![32u8] + decimal(v.0 as int) + seq![32u8] + decimal(v.1 as int)
    }

    fn write_lhe(&self, out: &mut Vec<u8>) -> (r: Result<(), WriteError>) {
        out.push(32);
        write_i64(self.0 as i64, out);
        out.push(32);
        write_i64(self.1 as i64, out);
        assert(out@ =~= old(out)@ + (seq![32u8] + decimal(self.0 as int) + seq![32u8] + decimal(
            self.1 as int,
        )));
        Ok(())
    }
}

impl Codec for Float {
    open spec fn canonical(v: Seq<u8>) -> bool {
        is_float_token(v)
    }

    /// Nothing that could lengthen the literal follows.
    open spec fn delimited(input: Seq<u8>, at: int) -> bool {
        ends_float(input, at)
    }

    proof fn lemma_round_trip(v: Seq<u8>, input: Seq<u8>, pos: int) {
        lemma_split(input, pos, seq![32u8], v);
        assert(input[pos + 0] == seq![32u8][0]);
        lemma_skip_one(input, pos);
        lemma_float_first(v);
        assert(input[pos + 1 + 0] == v[0]);
        lemma_skip_none(input, pos + 1);
        lemma_float_round_trip(input, pos + 1, v);
        lemma_skip_twice(input, pos + 1 + v.len());
    }
}

impl Field for Float {
    proof fn lemma_field_end(input: Seq<u8>, pos: int) {
        match crate::lexer::float_at(input, skip_spaces(input, pos)) {
            Ok((_, end)) => lemma_skip_twice(input, end),
            Err(_) => {},
        }
    }
}

impl Codec for i64 {
    open spec fn canonical(v: i64) -> bool {
        true
    }

    /// No digit follows.
    open spec fn delimited(input: Seq<u8>, at: int) -> bool {
        ends_digits(input, at)
    }

    proof fn lemma_round_trip(v: i64, input: Seq<u8>, pos: int) {
        lemma_split(input, pos, seq![32u8], decimal(v as int));
        assert(input[pos + 0] == seq![32u8][0]);
        lemma_skip_one(input, pos);
        lemma_decimal_first(v as int);
        assert(input[pos + 1 + 0] == decimal(v as int)[0]);
        lemma_skip_none(input, pos + 1);
        lemma_int_round_trip(input, pos + 1, v as int, IntWidth::I64);
        lemma_skip_twice(input, pos + 1 + decimal(v as int).len());
    }
}

impl Field for i64 {
    proof fn lemma_field_end(input: Seq<u8>, pos: int) {
        match crate::lexer::parse_int(input, skip_spaces(input, pos), IntWidth::I64) {
            Ok((_, end)) => lemma_skip_twice(input, end),
            Err(_) => {},
        }
    }
}

impl Codec for i8 {
    open spec fn canonical(v: i8) -> bool {
        true
    }

    /// No digit follows.
    open spec fn delimited(input: Seq<u8>, at: int) -> bool {
        ends_digits(input, at)
    }

    proof fn lemma_round_trip(v: i8, input: Seq<u8>, pos: int) {
        lemma_split(input, pos, seq![32u8], decimal(v as int));
        assert(input[pos + 0] == seq![32u8][0]);
        lemma_skip_one(input, pos);
        lemma_decimal_first(v as int);
        assert(input[pos + 1 + 0] == decimal(v as int)[0]);
        lemma_skip_none(input, pos + 1);
        lemma_int_round_trip(input, pos + 1, v as int, IntWidth::I8);
        lemma_skip_twice(input, pos + 1 + decimal(v as int).len());
    }
}

impl Field for i8 {
    proof fn lemma_field_end(input: Seq<u8>, pos: int) {
        match crate::lexer::parse_int(input, skip_spaces(input, pos), IntWidth::I8) {
            Ok((_, end)) => lemma_skip_twice(input, end),
            Err(_) => {},
        }
    }
}

impl Codec for (i64, i64) {
    open spec fn canonical(v: (i64, i64)) -> bool {
        true
    }

    /// No digit follows.
    open spec fn delimited(input: Seq<u8>, at: int) -> bool {
        ends_digits(input, at)
    }

    proof fn lemma_round_trip(v: (i64, i64), input: Seq<u8>, pos: int) {
        let a = decimal(v.0 as int);
        let b = decimal(v.1 as int);
        lemma_split(input, pos, seq![32u8] + a + seq![32u8], b);
        lemma_split(input, pos, seq![32u8] + a, seq![32u8]);
        lemma_split(input, pos, seq![32u8], a);
        assert(input[pos + 0] == seq![32u8][0]);
        lemma_skip_one(input, pos);
        lemma_decimal_first(v.0 as int);
        assert(input[pos + 1 + 0] == a[0]);
        lemma_skip_none(input, pos + 1);
        lemma_int_round_trip(input, pos + 1, v.0 as int, IntWidth::I64);
        let mid = pos + 1 + a.len();
        assert(input[mid + 0] == seq![32u8][0]);
        lemma_skip_one(input, mid);
        lemma_decimal_first(v.1 as int);
        assert(input[mid + 1 + 0] == b[0]);
        lemma_skip_none(input, mid + 1);
        lemma_skip_twice(input, mid);
        lemma_int_round_trip(input, mid + 1, v.1 as int, IntWidth::I64);
        lemma_skip_twice(input, mid + 1 + b.len());
    }
}

impl Field for (i64, i64) {
    proof fn lemma_field_end(input: Seq<u8>, pos: int) {
        match ws_int(input, pos, IntWidth::I64) {
            Ok((_, q1)) => match crate::lexer::parse_int(input, skip_spaces(input, q1), IntWidth::I64) {
                Ok((_, end)) => lemma_skip_twice(input, end),
                Err(_) => {},
            },
            Err(_) => {},
        }
    }
}

impl Codec for (i8, i8) {
    open spec fn canonical(v: (i8, i8)) -> bool {
        true
    }

    /// No digit follows.
    open spec fn delimited(input: Seq<u8>, at: int) -> bool {
        ends_digits(input, at)
    }

    proof fn lemma_round_trip(v: (i8, i8), input: Seq<u8>, pos: int) {
        let a = decimal(v.0 as int);
        let b = decimal(v.1 as int);
        lemma_split(input, pos, seq![32u8] + a + seq![32u8], b);
        lemma_split(input, pos, seq![32u8] + a, seq![32u8]);
        lemma_split(input, pos, seq![32u8], a);
        assert(input[pos + 0] == seq![32u8][0]);
        lemma_skip_one(input, pos);
        lemma_decimal_first(v.0 as int);
        assert(input[pos + 1 + 0] == a[0]);
        lemma_skip_none(input, pos + 1);
        lemma_int_round_trip(input, pos + 1, v.0 as int, IntWidth::I8);
        let mid = pos + 1 + a.len();
        assert(input[mid + 0] == seq![32u8][0]);
        lemma_skip_one(input, mid);
        lemma_decimal_first(v.1 as int);
        assert(input[mid + 1 + 0] == b[0]);
        lemma_skip_none(input, mid + 1);
        lemma_skip_twice(input, mid);
        lemma_int_round_trip(input, mid + 1, v.1 as int, IntWidth::I8);
        lemma_skip_twice(input, mid + 1 + b.len());
    }
}

impl Field for (i8, i8) {
    proof fn lemma_field_end(input: Seq<u8>, pos: int) {
        match ws_int(input, pos, IntWidth::I8) {
            Ok((_, q1)) => match crate::lexer::parse_int(input, skip_spaces(input, q1), IntWidth::I8) {
                Ok((_, end)) => lemma_skip_twice(input, end),
                Err(_) => {},
            },
            Err(_) => {},
        }
    }
}

/// The items of a list are written with a space before them and are
/// delimited by a separator.
pub proof fn lemma_items_spaced()
    ensures
        spaced::<Float>(),
        spaced::<i64>(),
        spaced::<i8>(),
        spaced::<(i64, i64)>(),
        spaced::<(i8, i8)>(),
{
}

} // verus!
