//! Floating-point fields, kept as the literals that stand in the file.
//!
//! The format's numbers are decimal text. Which binary number a literal
//! denotes is for the platform's conversion to say; this library reads,
//! carries and writes the literal itself, and guarantees its grammar.

use crate::error::{Expected, outcome, ParseError};
use crate::lexer::{
    agree, float_at, float_end, float_token_end, INFINITY, infinity, is_float_token,
    lemma_float_token_agree, lemma_float_token_bounds, nan, NAN, neg_infinity, NEG_INFINITY,
    skip_whitespace, starts_with, ws_float,
};
use vstd::prelude::*;

verus! {

/// A floating-point literal of the format.
#[derive(Debug, PartialEq, Eq)]
pub struct Float {
    text: Vec<u8>,
}

/// The classes of floating-point literals.
#[derive(Clone, Copy, Debug, PartialEq, Eq, Structural)]
pub enum FloatKind {
    /// A decimal number.
    Finite,
    /// The token `Infinity`.
    Infinity,
    /// The token `-Infinity`.
    NegInfinity,
    /// The token `NaN`.
    NaN,
}

/// The class of the literal `text`.
pub open spec fn kind_of(text: Seq<u8>) -> FloatKind {
    if text == infinity() {
        FloatKind::Infinity
    } else if text == neg_infinity() {
        FloatKind::NegInfinity
    } else if text == nan() {
        FloatKind::NaN
    } else {
        FloatKind::Finite
    }
}

/// The literal `0.0`.
pub open spec fn zero_text() -> Seq<u8> {
    seq![48u8, 46u8, 48u8]
}

impl View for Float {
    type V = Seq<u8>;

    closed spec fn view(&self) -> Seq<u8> {
        self.text@
    }
}

impl Float {
    #[verifier::type_invariant]
    spec fn well_formed(self) -> bool {
        is_float_token(self.text@)
    }

    /// The literal that `bytes` spell, if they spell exactly one.
    pub fn from_token(bytes: &[u8]) -> (r: Option<Float>)
        ensures
            r is Some <==> is_float_token(bytes@),
            r matches Some(f) ==> f@ == bytes@,
    {
        match float_end(bytes, 0) {
            Some(end) => {
                if end == bytes.len() {
                    let text = vstd::slice::slice_to_vec(bytes);
                    Some(Float { text })
                } else {
                    None
                }
            },
            None => None,
        }
    }

    /// The literal `0.0`.
    pub fn zero() -> (r: Float)
        ensures
            r@ == zero_text(),
    {
        let mut text: Vec<u8> = Vec::new();
        text.push(48);
        text.push(46);
        text.push(48);
        proof {
            assert(text@ =~= zero_text());
            reveal_with_fuel(crate::lexer::digits_end, 3);
            assert(is_float_token(text@));
        }
        Float { text }
    }

    /// The bytes of the literal.
    pub fn as_bytes(&self) -> (r: &[u8])
        ensures
            r@ == self@,
            is_float_token(self@),
    {
        proof {
            use_type_invariant(self);
        }
        self.text.as_slice()
    }

    /// A literal with the same text.
    pub fn duplicate(&self) -> (r: Float)
        ensures
            r@ == self@,
    {
        proof {
            use_type_invariant(self);
        }
        let text = vstd::slice::slice_to_vec(self.text.as_slice());
        Float { text }
    }

    /// The class of the literal.
    pub fn kind(&self) -> (r: FloatKind)
        ensures
            r == kind_of(self@),
    {
        let bytes = self.text.as_slice();
        assert(INFINITY@ =~= infinity());
        assert(NEG_INFINITY@ =~= neg_infinity());
        assert(NAN@ =~= nan());
        if bytes.len() == 8 && starts_with(bytes, 0, INFINITY.as_slice()) {
            assert(bytes@ =~= infinity());
            FloatKind::Infinity
        } else if bytes.len() == 9 && starts_with(bytes, 0, NEG_INFINITY.as_slice()) {
            assert(bytes@ =~= neg_infinity());
            FloatKind::NegInfinity
        } else if bytes.len() == 3 && starts_with(bytes, 0, NAN.as_slice()) {
            assert(bytes@ =~= nan());
            FloatKind::NaN
        } else {
            FloatKind::Finite
        }
    }

    /// Whether the literal is the token `NaN`.
    pub fn is_nan(&self) -> (r: bool)
        ensures
            r == (self@ == nan()),
    {
        match self.kind() {
            FloatKind::NaN => true,
            _ => false,
        }
    }
}

impl Clone for Float {
    fn clone(&self) -> (r: Float)
        ensures
            r@ == self@,
    {
        self.duplicate()
    }
}

/// The text of a literal that is found is itself a literal.
pub proof fn lemma_float_text(input: Seq<u8>, pos: int)
    requires
        float_token_end(input, pos) is Some,
    ensures
        is_float_token(input.subrange(pos, float_token_end(input, pos)->0)),
{
    lemma_float_token_bounds(input, pos);
    let end = float_token_end(input, pos)->0;
    let text = input.subrange(pos, end);
    assert(agree(input, pos, text, 0, end - pos));
    lemma_float_token_agree(input, pos, text, 0, end - pos);
}

/// Reads a floating-point literal at `pos`.
pub fn parse_float(input: &[u8], pos: usize) -> (r: Result<(Float, usize), ParseError>)
    ensures
        outcome(r) == float_at(input@, pos as int),
        r matches Ok((_, end)) ==> pos < end <= input.len(),
{
    match float_end(input, pos) {
        Some(end) => {
            let text = vstd::slice::slice_to_vec(vstd::slice::slice_subrange(input, pos, end));
            proof {
                lemma_float_text(input@, pos as int);
            }
            Ok((Float { text }, end))
        },
        None => {
            if pos >= input.len() {
                Err(ParseError::Incomplete)
            } else {
                Err(ParseError::Syntax { expected: Expected::Float, position: pos })
            }
        },
    }
}

/// Reads a floating-point field: the literal with the separators around it.
pub fn ws_float_field(input: &[u8], pos: usize) -> (r: Result<(Float, usize), ParseError>)
    ensures
        outcome(r) == ws_float(input@, pos as int),
        r matches Ok((_, end)) ==> pos < end <= input.len(),
{
    let start = skip_whitespace(input, pos);
    match parse_float(input, start) {
        Ok((v, end)) => Ok((v, skip_whitespace(input, end))),
        Err(e) => Err(e),
    }
}

} // verus!
