//! What reading and writing can fail with.

use vstd::prelude::*;

verus! {

/// The fixed-width integer types a literal can be read into.
#[derive(Clone, Copy, Debug, PartialEq, Eq, Structural)]
pub enum IntWidth {
    I8,
    I16,
    I32,
    I64,
    U8,
    U16,
    U32,
    U64,
}

impl IntWidth {
    /// Whether a literal of this width may carry a minus sign.
    pub open spec fn signed(self) -> bool {
        self is I8 || self is I16 || self is I32 || self is I64
    }

    /// The smallest value of the width.
    pub open spec fn min(self) -> int {
        match self {
            IntWidth::I8 => -0x80,
            IntWidth::I16 => -0x8000,
            IntWidth::I32 => -0x8000_0000,
            IntWidth::I64 => -0x8000_0000_0000_0000,
            _ => 0,
        }
    }

    /// The largest value of the width.
    pub open spec fn max(self) -> int {
        match self {
            IntWidth::I8 => 0x7f,
            IntWidth::I16 => 0x7fff,
            IntWidth::I32 => 0x7fff_ffff,
            IntWidth::I64 => 0x7fff_ffff_ffff_ffff,
            IntWidth::U8 => 0xff,
            IntWidth::U16 => 0xffff,
            IntWidth::U32 => 0xffff_ffff,
            IntWidth::U64 => 0xffff_ffff_ffff_ffff,
        }
    }

    /// Whether `v` can be held in the width.
    pub open spec fn holds(self, v: int) -> bool {
        self.min() <= v <= self.max()
    }
}

/// The construct that was looked for where a syntax error is reported.
#[derive(Debug, PartialEq, Eq)]
pub enum Expected {
    /// A literal tag or keyword, given by its bytes.
    Tag(Vec<u8>),
    /// A signed integer literal.
    Integer,
    /// An integer literal that admits no minus sign.
    Unsigned,
    /// A floating-point literal.
    Float,
    /// One of the flags `T` and `F`.
    Flag,
    /// Text in UTF-8.
    Text,
    /// As many rows as the count field announced.
    Count,
}

/// The mathematical form of [`Expected`].
pub ghost enum ExpectedView {
    Tag(Seq<u8>),
    Integer,
    Unsigned,
    Float,
    Flag,
    Text,
    Count,
}

impl View for Expected {
    type V = ExpectedView;

    open spec fn view(&self) -> ExpectedView {
        match self {
            Expected::Tag(t) => ExpectedView::Tag(t@),
            Expected::Integer => ExpectedView::Integer,
            Expected::Unsigned => ExpectedView::Unsigned,
            Expected::Float => ExpectedView::Float,
            Expected::Flag => ExpectedView::Flag,
            Expected::Text => ExpectedView::Text,
            Expected::Count => ExpectedView::Count,
        }
    }
}

/// Why a read gave no value.
#[derive(Debug, PartialEq, Eq)]
pub enum ParseError {
    /// The expected construct does not stand at `position`.
    Syntax { expected: Expected, position: usize },
    /// The integer literal is well formed but its value does not fit the width.
    Range { width: IntWidth, literal: Vec<u8> },
    /// The input ended where more was required.
    Incomplete,
    /// An extra slot failed to read; its own failure is kept as it was.
    Extension(Box<ParseError>),
}

/// The mathematical form of [`ParseError`].
pub ghost enum Failure {
    Syntax { expected: ExpectedView, position: int },
    Range { width: IntWidth, literal: Seq<u8> },
    Incomplete,
    Extension(Box<Failure>),
}

impl View for ParseError {
    type V = Failure;

    open spec fn view(&self) -> Failure
        decreases self,
    {
        match self {
            ParseError::Syntax { expected, position } => Failure::Syntax {
                expected: expected@,
                position: *position as int,
            },
            ParseError::Range { width, literal } => Failure::Range {
                width: *width,
                literal: literal@,
            },
            ParseError::Incomplete => Failure::Incomplete,
            ParseError::Extension(inner) => Failure::Extension(Box::new((**inner)@)),
        }
    }
}

/// Why a value was not written.
#[derive(Clone, Copy, Debug, PartialEq, Eq, Structural)]
pub enum WriteError {
    /// The version holds a double quote, which would end the attribute early.
    QuoteInVersion,
}

/// What a read returns, in mathematical form: the value's view and the
/// position after it, or the failure's view.
pub open spec fn outcome<T: View>(r: Result<(T, usize), ParseError>) -> Result<(T::V, int), Failure> {
    match r {
        Ok((v, end)) => Ok((v@, end as int)),
        Err(e) => Err(e@),
    }
}

/// The failure of a scalar read, in mathematical form.
pub open spec fn scalar_outcome<T>(r: Result<(T, usize), ParseError>) -> Result<(T, int), Failure> {
    match r {
        Ok((v, end)) => Ok((v, end as int)),
        Err(e) => Err(e@),
    }
}

} // verus!
