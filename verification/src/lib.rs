//! Reading and writing Les Houches Event files.
//!
//! A file is a sequence of whitespace-separated fields inside a skeleton of
//! tags. The fixed records are read and written here; what a generator adds
//! to the init block and to each event is left to the types that fill the
//! extra slots of [`generic::LheFileGeneric`].
//!
//! Numbers with a fraction are kept as the literals that stand in the file,
//! see [`Float`]: the crate guarantees their grammar and leaves it to its
//! user which binary number a literal denotes.
//!
//! Every function states what it returns, and Verus proves it. Beyond the
//! single functions the crate proves:
//!
//! - a file that is written and read again is the same file
//!   ([`generic::lemma_file_round_trip`], [`generic::lemma_file_alone`]),
//!   and so is every part of it ([`codec::Codec`]);
//! - the number of rows that is written is the number of rows that is read
//!   ([`generic::init_line_reads`], [`generic::lemma_init_count`] and their
//!   like for events);
//! - blocks that may stand in any order give the same values in every order
//!   ([`block::lemma_any_order`], [`block::lemma_order_is_free`]);
//! - integer and floating-point literals read back
//!   ([`lexer::lemma_int_round_trip`], [`lexer::lemma_float_round_trip`]);
//! - a version with a double quote is never written
//!   ([`generic::write_opening_file_tag`]).

use crate::codec::{Codec, lemma_float_piece, lemma_int_piece, lemma_skip_twice, lemma_stands};
use crate::float::ws_float_field;
use crate::lexer::{decimal, is_float_token, put_bytes, put_i64, ws_float, ws_i64, ws_int};
use vstd::prelude::*;

pub mod block;
pub mod codec;
pub mod error;
pub mod float;
pub mod generic;
pub mod helac;
pub mod items;
pub mod lexer;
pub mod plain;
pub mod rows;
pub mod string;
pub mod text;

pub use error::{Expected, ExpectedView, Failure, IntWidth, outcome, ParseError, WriteError};
pub use float::{Float, FloatKind};

verus! {

/// The identifier of a particle species in the scheme of the Particle Data Group.
pub type PdgId = i64;

/// A type that can be read from the text of a file.
pub trait ReadLhe: Sized + View {
    /// What reading at `pos` yields: the value and the position after it, or
    /// the failure.
    spec fn parse(input: Seq<u8>, pos: int) -> Result<(Self::V, int), Failure>;

    /// Reads a value at `pos`.
    fn read_from_lhe(input: &[u8], pos: usize) -> (r: Result<(Self, usize), ParseError>)
        ensures
            outcome(r) == Self::parse(input@, pos as int),
            r matches Ok((_, end)) ==> pos <= end && (pos <= input.len() ==> end <= input.len()),
    ;
}

/// A type that can be written as the text of a file.
pub trait WriteLhe: View {
    /// Whether the value can be written at all.
    spec fn writable(v: Self::V) -> bool;

    /// The text of the value.
    spec fn lhe_bytes(v: Self::V) -> Seq<u8>;

    /// Appends the text of the value to `out`, or leaves `out` as it was
    /// where the value cannot be written.
    fn write_lhe(&self, out: &mut Vec<u8>) -> (r: Result<(), WriteError>)
        ensures
            r is Ok <==> Self::writable(self@),
            r is Ok ==> final(out)@ == old(out)@ + Self::lhe_bytes(self@),
            r is Err ==> final(out)@ == old(out)@,
    ;
}

/// One row of the init block: what is known of one process.
#[derive(Clone, Debug, PartialEq)]
pub struct ProcInfo {
    /// The cross section.
    pub xsect: Float,
    /// The error of the cross section.
    pub xsect_err: Float,
    /// The largest weight of an event of the process.
    pub maximum_weight: Float,
    /// The number that the events name the process by.
    pub process_id: i64,
}

/// The mathematical form of [`ProcInfo`].
pub ghost struct ProcInfoView {
    pub xsect: Seq<u8>,
    pub xsect_err: Seq<u8>,
    pub maximum_weight: Seq<u8>,
    pub process_id: i64,
}

impl View for ProcInfo {
    type V = ProcInfoView;

    open spec fn view(&self) -> ProcInfoView {
        ProcInfoView {
            xsect: self.xsect@,
            xsect_err: self.xsect_err@,
            maximum_weight: self.maximum_weight@,
            process_id: self.process_id,
        }
    }
}

/// Reading the fields of the record one after the other at `pos`, each with
/// the separators around it.
#[verifier::opaque]
pub open spec fn proc_info_at(input: Seq<u8>, pos: int) -> Result<(ProcInfoView, int), Failure> {
    match ws_float(input, pos) {
    Err(e) => Err(e),
    Ok((xsect, q1)) => match ws_float(input, q1) {
    Err(e) => Err(e),
    Ok((xsect_err, q2)) => match ws_float(input, q2) {
    Err(e) => Err(e),
    Ok((maximum_weight, q3)) => match ws_int(input, q3, IntWidth::I64) {
    Err(e) => Err(e),
    Ok((process_id, q4)) => Ok((
        ProcInfoView {
            xsect,
            xsect_err,
            maximum_weight,
            process_id: process_id as i64,
        },
        q4,
    ))
    }}}}
}

impl ReadLhe for ProcInfo {
    open spec fn parse(input: Seq<u8>, pos: int) -> Result<(ProcInfoView, int), Failure> {
        proc_info_at(input, pos)
    }

    fn read_from_lhe(input: &[u8], pos: usize) -> (r: Result<(ProcInfo, usize), ParseError>) {
        proof {
            reveal(proc_info_at);
        }
        let p = pos;
        let (xsect, p) = match ws_float_field(input, p) {
            Ok(x) => x,
            Err(e) => return Err(e),
        };
        let (xsect_err, p) = match ws_float_field(input, p) {
            Ok(x) => x,
            Err(e) => return Err(e),
        };
        let (maximum_weight, p) = match ws_float_field(input, p) {
            Ok(x) => x,
            Err(e) => return Err(e),
        };
        let (process_id, p) = match ws_i64(input, p) {
            Ok(x) => x,
            Err(e) => return Err(e),
        };
        Ok((
            ProcInfo {
                xsect,
                xsect_err,
                maximum_weight,
                process_id,
            },
            p,
        ))
    }
}

/// The text of the record: its fields on one line, a space between them.
#[verifier::opaque]
pub open spec fn proc_info_bytes(v: ProcInfoView) -> Seq<u8> {
    Seq::<u8>::empty()
        + v.xsect
        + seq![32u8]
        + v.xsect_err
        + seq![32u8]
        + v.maximum_weight
        + seq![32u8]
        + decimal(v.process_id as int)
        + seq![10u8]
}

impl WriteLhe for ProcInfo {
    open spec fn writable(v: ProcInfoView) -> bool {
        true
    }

    open spec fn lhe_bytes(v: ProcInfoView) -> Seq<u8> {
        proc_info_bytes(v)
    }

    fn write_lhe(&self, out: &mut Vec<u8>) -> (r: Result<(), WriteError>) {
        proof {
            reveal(proc_info_bytes);
        }
        let ghost base = out@;
        let ghost mut acc = Seq::<u8>::empty();
        assert(out@ =~= base + acc);
        put_bytes(self.xsect.as_bytes(), 32, out, Ghost(base), Ghost(acc));
        proof {
            acc = acc + self.xsect@ + seq![32u8];
        }
        put_bytes(self.xsect_err.as_bytes(), 32, out, Ghost(base), Ghost(acc));
        proof {
            acc = acc + self.xsect_err@ + seq![32u8];
        }
        put_bytes(self.maximum_weight.as_bytes(), 32, out, Ghost(base), Ghost(acc));
        proof {
            acc = acc + self.maximum_weight@ + seq![32u8];
        }
        put_i64(self.process_id, 10, out, Ghost(base), Ghost(acc));
        proof {
            acc = acc + decimal(self.process_id as int) + seq![10u8];
        }
        assert(acc =~= Self::lhe_bytes(self@));
        Ok(())
    }
}

impl Codec for ProcInfo {
    /// Every floating-point field holds a literal.
    open spec fn canonical(v: ProcInfoView) -> bool {
        &&& is_float_token(v.xsect)
        &&& is_float_token(v.xsect_err)
        &&& is_float_token(v.maximum_weight)
    }

    /// The text ends its last field itself.
    open spec fn delimited(input: Seq<u8>, at: int) -> bool {
        true
    }

    proof fn lemma_round_trip(v: ProcInfoView, input: Seq<u8>, pos: int) {
        reveal(proc_info_at);
        reveal(proc_info_bytes);
        let t0 = Seq::<u8>::empty();
        let t1 = t0 + v.xsect + seq![32u8];
        let t2 = t1 + v.xsect_err + seq![32u8];
        let t3 = t2 + v.maximum_weight + seq![32u8];
        let t4 = t3 + decimal(v.process_id as int) + seq![10u8];
        assert(Self::lhe_bytes(v) == t4);
        lemma_stands(input, pos, t4);
        lemma_int_piece(input, pos, t3, v.process_id as int, IntWidth::I64, 10);
        lemma_float_piece(input, pos, t2, v.maximum_weight, 32);
        lemma_float_piece(input, pos, t1, v.xsect_err, 32);
        lemma_float_piece(input, pos, t0, v.xsect, 32);
        lemma_skip_twice(input, pos + t4.len());
    }
}

/// The energy and the three components of the momentum of a particle.
#[derive(Clone, Debug, PartialEq)]
pub struct FourMomentum {
    pub e: Float,
    pub px: Float,
    pub py: Float,
    pub pz: Float,
}

/// The mathematical form of [`FourMomentum`].
pub ghost struct FourMomentumView {
    pub e: Seq<u8>,
    pub px: Seq<u8>,
    pub py: Seq<u8>,
    pub pz: Seq<u8>,
}

impl View for FourMomentum {
    type V = FourMomentumView;

    open spec fn view(&self) -> FourMomentumView {
        FourMomentumView { e: self.e@, px: self.px@, py: self.py@, pz: self.pz@ }
    }
}

/// One row of an event: a particle.
#[derive(Clone, Debug, PartialEq)]
pub struct Particle {
    /// The species.
    pub pdg_id: PdgId,
    /// The status code.
    pub status: i64,
    /// The row of the first mother.
    pub mother_1_id: i64,
    /// The row of the second mother.
    pub mother_2_id: i64,
    /// The colour line.
    pub color_1: i64,
    /// The anticolour line.
    pub color_2: i64,
    /// The four-momentum.
    pub momentum: FourMomentum,
    /// The mass.
    pub mass: Float,
    /// The proper lifetime.
    pub proper_lifetime: Float,
    /// The spin.
    pub spin: Float,
}

/// The mathematical form of [`Particle`].
pub ghost struct ParticleView {
    pub pdg_id: i64,
    pub status: i64,
    pub mother_1_id: i64,
    pub mother_2_id: i64,
    pub color_1: i64,
    pub color_2: i64,
    pub momentum: FourMomentumView,
    pub mass: Seq<u8>,
    pub proper_lifetime: Seq<u8>,
    pub spin: Seq<u8>,
}

impl View for Particle {
    type V = ParticleView;

    open spec fn view(&self) -> ParticleView {
        ParticleView {
            pdg_id: self.pdg_id,
            status: self.status,
            mother_1_id: self.mother_1_id,
            mother_2_id: self.mother_2_id,
            color_1: self.color_1,
            color_2: self.color_2,
            momentum: self.momentum@,
            mass: self.mass@,
            proper_lifetime: self.proper_lifetime@,
            spin: self.spin@,
        }
    }
}

/// Reading the fields of the record one after the other at `pos`, each with
/// the separators around it.
#[verifier::opaque]
pub open spec fn particle_at(input: Seq<u8>, pos: int) -> Result<(ParticleView, int), Failure> {
    match ws_int(input, pos, IntWidth::I64) {
    Err(e) => Err(e),
    Ok((pdg_id, q1)) => match ws_int(input, q1, IntWidth::I64) {
    Err(e) => Err(e),
    Ok((status, q2)) => match ws_int(input, q2, IntWidth::I64) {
    Err(e) => Err(e),
    Ok((mother_1_id, q3)) => match ws_int(input, q3, IntWidth::I64) {
    Err(e) => Err(e),
    Ok((mother_2_id, q4)) => match ws_int(input, q4, IntWidth::I64) {
    Err(e) => Err(e),
    Ok((color_1, q5)) => match ws_int(input, q5, IntWidth::I64) {
    Err(e) => Err(e),
    Ok((color_2, q6)) => match ws_float(input, q6) {
    Err(e) => Err(e),
    Ok((px, q7)) => match ws_float(input, q7) {
    Err(e) => Err(e),
    Ok((py, q8)) => match ws_float(input, q8) {
    Err(e) => Err(e),
    Ok((pz, q9)) => match ws_float(input, q9) {
    Err(e) => Err(e),
    Ok((e, q10)) => match ws_float(input, q10) {
    Err(e) => Err(e),
    Ok((mass, q11)) => match ws_float(input, q11) {
    Err(e) => Err(e),
    Ok((proper_lifetime, q12)) => match ws_float(input, q12) {
    Err(e) => Err(e),
    Ok((spin, q13)) => Ok((
        ParticleView {
            pdg_id: pdg_id as i64,
            status: status as i64,
            mother_1_id: mother_1_id as i64,
            mother_2_id: mother_2_id as i64,
            color_1: color_1 as i64,
            color_2: color_2 as i64,
            momentum: FourMomentumView { e, px, py, pz },
            mass,
            proper_lifetime,
            spin,
        },
        q13,
    ))
    }}}}}}}}}}}}}
}

impl ReadLhe for Particle {
    open spec fn parse(input: Seq<u8>, pos: int) -> Result<(ParticleView, int), Failure> {
        particle_at(input, pos)
    }

    fn read_from_lhe(input: &[u8], pos: usize) -> (r: Result<(Particle, usize), ParseError>) {
        proof {
            reveal(particle_at);
        }
        let p = pos;
        let (pdg_id, p) = match ws_i64(input, p) {
            Ok(x) => x,
            Err(e) => return Err(e),
        };
        let (status, p) = match ws_i64(input, p) {
            Ok(x) => x,
            Err(e) => return Err(e),
        };
        let (mother_1_id, p) = match ws_i64(input, p) {
            Ok(x) => x,
            Err(e) => return Err(e),
        };
        let (mother_2_id, p) = match ws_i64(input, p) {
            Ok(x) => x,
            Err(e) => return Err(e),
        };
        let (color_1, p) = match ws_i64(input, p) {
            Ok(x) => x,
            Err(e) => return Err(e),
        };
        let (color_2, p) = match ws_i64(input, p) {
            Ok(x) => x,
            Err(e) => return Err(e),
        };
        let (px, p) = match ws_float_field(input, p) {
            Ok(x) => x,
            Err(e) => return Err(e),
        };
        let (py, p) = match ws_float_field(input, p) {
            Ok(x) => x,
            Err(e) => return Err(e),
        };
        let (pz, p) = match ws_float_field(input, p) {
            Ok(x) => x,
            Err(e) => return Err(e),
        };
        let (e, p) = match ws_float_field(input, p) {
            Ok(x) => x,
            Err(e) => return Err(e),
        };
        let (mass, p) = match ws_float_field(input, p) {
            Ok(x) => x,
            Err(e) => return Err(e),
        };
        let (proper_lifetime, p) = match ws_float_field(input, p) {
            Ok(x) => x,
            Err(e) => return Err(e),
        };
        let (spin, p) = match ws_float_field(input, p) {
            Ok(x) => x,
            Err(e) => return Err(e),
        };
        Ok((
            Particle {
                pdg_id,
                status,
                mother_1_id,
                mother_2_id,
                color_1,
                color_2,
                momentum: FourMomentum { e, px, py, pz },
                mass,
                proper_lifetime,
                spin,
            },
            p,
        ))
    }
}

/// The text of the record: its fields on one line, a space between them.
#[verifier::opaque]
pub open spec fn particle_bytes(v: ParticleView) -> Seq<u8> {
    Seq::<u8>::empty()
        + decimal(v.pdg_id as int)
        + seq![32u8]
        + decimal(v.status as int)
        + seq![32u8]
        + decimal(v.mother_1_id as int)
        + seq![32u8]
        + decimal(v.mother_2_id as int)
        + seq![32u8]
        + decimal(v.color_1 as int)
        + seq![32u8]
        + decimal(v.color_2 as int)
        + seq![32u8]
        + v.momentum.px
        + seq![32u8]
        + v.momentum.py
        + seq![32u8]
        + v.momentum.pz
        + seq![32u8]
        + v.momentum.e
        + seq![32u8]
        + v.mass
        + seq![32u8]
        + v.proper_lifetime
        + seq![32u8]
        + v.spin
        + seq![10u8]
}

impl WriteLhe for Particle {
    open spec fn writable(v: ParticleView) -> bool {
        true
    }

    open spec fn lhe_bytes(v: ParticleView) -> Seq<u8> {
        particle_bytes(v)
    }

    fn write_lhe(&self, out: &mut Vec<u8>) -> (r: Result<(), WriteError>) {
        proof {
            reveal(particle_bytes);
        }
        let ghost base = out@;
        let ghost mut acc = Seq::<u8>::empty();
        assert(out@ =~= base + acc);
        put_i64(self.pdg_id, 32, out, Ghost(base), Ghost(acc));
        proof {
            acc = acc + decimal(self.pdg_id as int) + seq![32u8];
        }
        put_i64(self.status, 32, out, Ghost(base), Ghost(acc));
        proof {
            acc = acc + decimal(self.status as int) + seq![32u8];
        }
        put_i64(self.mother_1_id, 32, out, Ghost(base), Ghost(acc));
        proof {
            acc = acc + decimal(self.mother_1_id as int) + seq![32u8];
        }
        put_i64(self.mother_2_id, 32, out, Ghost(base), Ghost(acc));
        proof {
            acc = acc + decimal(self.mother_2_id as int) + seq![32u8];
        }
        put_i64(self.color_1, 32, out, Ghost(base), Ghost(acc));
        proof {
            acc = acc + decimal(self.color_1 as int) + seq![32u8];
        }
        put_i64(self.color_2, 32, out, Ghost(base), Ghost(acc));
        proof {
            acc = acc + decimal(self.color_2 as int) + seq![32u8];
        }
        put_bytes(self.momentum.px.as_bytes(), 32, out, Ghost(base), Ghost(acc));
        proof {
            acc = acc + self.momentum.px@ + seq![32u8];
        }
        put_bytes(self.momentum.py.as_bytes(), 32, out, Ghost(base), Ghost(acc));
        proof {
            acc = acc + self.momentum.py@ + seq![32u8];
        }
        put_bytes(self.momentum.pz.as_bytes(), 32, out, Ghost(base), Ghost(acc));
        proof {
            acc = acc + self.momentum.pz@ + seq![32u8];
        }
        put_bytes(self.momentum.e.as_bytes(), 32, out, Ghost(base), Ghost(acc));
        proof {
            acc = acc + self.momentum.e@ + seq![32u8];
        }
        put_bytes(self.mass.as_bytes(), 32, out, Ghost(base), Ghost(acc));
        proof {
            acc = acc + self.mass@ + seq![32u8];
        }
        put_bytes(self.proper_lifetime.as_bytes(), 32, out, Ghost(base), Ghost(acc));
        proof {
            acc = acc + self.proper_lifetime@ + seq![32u8];
        }
        put_bytes(self.spin.as_bytes(), 10, out, Ghost(base), Ghost(acc));
        proof {
            acc = acc + self.spin@ + seq![10u8];
        }
        assert(acc =~= Self::lhe_bytes(self@));
        Ok(())
    }
}

impl Codec for Particle {
    /// Every floating-point field holds a literal.
    open spec fn canonical(v: ParticleView) -> bool {
        &&& is_float_token(v.momentum.px)
        &&& is_float_token(v.momentum.py)
        &&& is_float_token(v.momentum.pz)
        &&& is_float_token(v.momentum.e)
        &&& is_float_token(v.mass)
        &&& is_float_token(v.proper_lifetime)
        &&& is_float_token(v.spin)
    }

    /// The text ends its last field itself.
    open spec fn delimited(input: Seq<u8>, at: int) -> bool {
        true
    }

    proof fn lemma_round_trip(v: ParticleView, input: Seq<u8>, pos: int) {
        reveal(particle_at);
        reveal(particle_bytes);
        let t0 = Seq::<u8>::empty();
        let t1 = t0 + decimal(v.pdg_id as int) + seq![32u8];
        let t2 = t1 + decimal(v.status as int) + seq![32u8];
        let t3 = t2 + decimal(v.mother_1_id as int) + seq![32u8];
        let t4 = t3 + decimal(v.mother_2_id as int) + seq![32u8];
        let t5 = t4 + decimal(v.color_1 as int) + seq![32u8];
        let t6 = t5 + decimal(v.color_2 as int) + seq![32u8];
        let t7 = t6 + v.momentum.px + seq![32u8];
        let t8 = t7 + v.momentum.py + seq![32u8];
        let t9 = t8 + v.momentum.pz + seq![32u8];
        let t10 = t9 + v.momentum.e + seq![32u8];
        let t11 = t10 + v.mass + seq![32u8];
        let t12 = t11 + v.proper_lifetime + seq![32u8];
        let t13 = t12 + v.spin + seq![10u8];
        assert(Self::lhe_bytes(v) == t13);
        lemma_stands(input, pos, t13);
        lemma_float_piece(input, pos, t12, v.spin, 10);
        lemma_float_piece(input, pos, t11, v.proper_lifetime, 32);
        lemma_float_piece(input, pos, t10, v.mass, 32);
        lemma_float_piece(input, pos, t9, v.momentum.e, 32);
        lemma_float_piece(input, pos, t8, v.momentum.pz, 32);
        lemma_float_piece(input, pos, t7, v.momentum.py, 32);
        lemma_float_piece(input, pos, t6, v.momentum.px, 32);
        lemma_int_piece(input, pos, t5, v.color_2 as int, IntWidth::I64, 32);
        lemma_int_piece(input, pos, t4, v.color_1 as int, IntWidth::I64, 32);
        lemma_int_piece(input, pos, t3, v.mother_2_id as int, IntWidth::I64, 32);
        lemma_int_piece(input, pos, t2, v.mother_1_id as int, IntWidth::I64, 32);
        lemma_int_piece(input, pos, t1, v.status as int, IntWidth::I64, 32);
        lemma_int_piece(input, pos, t0, v.pdg_id as int, IntWidth::I64, 32);
        lemma_skip_twice(input, pos + t13.len());
    }
}

} // verus!
