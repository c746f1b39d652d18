//! The file, its init block and its events, whatever fills the extra slots.

use crate::{Particle, ParticleView, PdgId, ProcInfo, ProcInfoView, ReadLhe, WriteLhe};
use crate::block::{
    block_idle, blocks3, earlier_idle, lemma_search_done, lemma_search_settles, lemma_search_takes,
    permutation3, with_block,
};
use crate::codec::{
    Codec, Field, lemma_block_absent, lemma_block_present, lemma_float_piece, lemma_int_piece,
    lemma_skip_none, lemma_skip_one, lemma_skip_twice, lemma_split, lemma_stands,
    lemma_stands_join, lemma_stands_split, lemma_tag_piece, reads_absent, reads_back,
    reads_present, stands,
};
use crate::error::{Expected, ExpectedView, Failure, IntWidth, outcome, ParseError, WriteError};
use crate::float::{Float, ws_float_field};
use crate::lexer::{
    decimal, find, find_tag, has_at, is_float_token, is_space, lemma_appended,
    lemma_skip_spaces_bounds, put_bytes, put_i64, put_u64, read_tag, read_ws_tag, skip_spaces,
    skip_whitespace, starts_with, tag, undo, write_bytes, ws_float, ws_i64, ws_int, ws_tag, ws_u64,
};
use crate::rows::{
    all_canonical, all_writable, lemma_rows_round_trip, read_rows, repeat, rows_bytes, views,
    write_rows,
};
use crate::text::{decode, write_str};
use vstd::utf8::{decode_utf8, encode_utf8, valid_utf8};

use vstd::prelude::*;

verus! {

/// The tag that opens the init block.
pub const INIT_OPEN: [u8; 6] = [60, 105, 110, 105, 116, 62];

/// The tag that closes the init block.
pub const INIT_CLOSE: [u8; 7] = [60, 47, 105, 110, 105, 116, 62];

/// The tag that opens an event.
pub const EVENT_OPEN: [u8; 7] = [60, 101, 118, 101, 110, 116, 62];

/// The tag that closes an event.
pub const EVENT_CLOSE: [u8; 8] = [60, 47, 101, 118, 101, 110, 116, 62];

/// The start of the tag that opens the file.
pub const FILE_OPEN: [u8; 17] = [60, 76, 101, 115, 72, 111, 117, 99, 104, 101, 115, 69, 118, 101, 110, 116, 115];

/// The name of the version attribute, with its equals sign.
pub const VERSION: [u8; 8] = [118, 101, 114, 115, 105, 111, 110, 61];

/// The double quote that stands before and after the version.
pub const QUOTE: [u8; 1] = [34];

/// The end of the tag that opens the file.
pub const ANGLE: [u8; 1] = [62];

/// The tag that closes the file.
pub const FILE_CLOSE: [u8; 19] = [60, 47, 76, 101, 115, 72, 111, 117, 99, 104, 101, 115, 69, 118, 101, 110, 116, 115, 62];

/// Reading what fills an extra slot at `pos`, with the separators before and
/// after it. A failure of the slot is handed on as it is, marked as the
/// slot's own.
pub open spec fn extra_at<E: ReadLhe>(input: Seq<u8>, pos: int) -> Result<(E::V, int), Failure> {
    match E::parse(input, skip_spaces(input, pos)) {
        Ok((v, end)) => Ok((v, skip_spaces(input, end))),
        Err(e) => Err(Failure::Extension(Box::new(e))),
    }
}

/// Reads what fills an extra slot.
pub fn read_extra<E: ReadLhe>(input: &[u8], pos: usize) -> (r: Result<(E, usize), ParseError>)
    ensures
        outcome(r) == extra_at::<E>(input@, pos as int),
        r matches Ok((_, end)) ==> pos <= end && (pos <= input.len() ==> end <= input.len()),
{
    let start = skip_whitespace(input, pos);
    match E::read_from_lhe(input, start) {
        Ok((v, end)) => Ok((v, skip_whitespace(input, end))),
        Err(e) => Err(ParseError::Extension(Box::new(e))),
    }
}

/// Reading the number of particles of an event at `pos`: an integer field
/// that may carry a sign and must not be negative.
pub open spec fn count_at(input: Seq<u8>, pos: int) -> Result<(int, int), Failure> {
    match ws_int(input, pos, IntWidth::I64) {
        Err(e) => Err(e),
        Ok((n, end)) => if n < 0 {
            Err(Failure::Syntax { expected: ExpectedView::Count, position: skip_spaces(input, pos) })
        } else {
            Ok((n, end))
        },
    }
}

/// Reads the number of particles of an event.
pub fn read_count(input: &[u8], pos: usize) -> (r: Result<(u64, usize), ParseError>)
    ensures
        match r {
            Ok((n, end)) => count_at(input@, pos as int) == Ok::<(int, int), Failure>((n as int, end as int)),
            Err(e) => count_at(input@, pos as int) == Err::<(int, int), Failure>(e@),
        },
        r matches Ok((_, end)) ==> pos < end <= input.len(),
{
    match ws_i64(input, pos) {
        Err(e) => Err(e),
        Ok((n, end)) => {
            if n < 0 {
                Err(ParseError::Syntax { expected: Expected::Count, position: skip_whitespace(input, pos) })
            } else {
                Ok((n as u64, end))
            }
        },
    }
}

/// The init block: the beams, the processes, and what the generator adds.
#[derive(Clone, Debug, PartialEq)]
pub struct InitGeneric<InitExtra> {
    pub beam_1_id: PdgId,
    pub beam_2_id: PdgId,
    pub beam_1_energy: Float,
    pub beam_2_energy: Float,
    pub beam_1_pdf_group_id: i64,
    pub beam_2_pdf_group_id: i64,
    pub beam_1_pdf_id: i64,
    pub beam_2_pdf_id: i64,
    pub weighting_strategy: i64,
    pub process_info: Vec<ProcInfo>,
    pub extra: InitExtra,
}

/// The mathematical form of [`InitGeneric`].
pub ghost struct InitView<E> {
    pub beam_1_id: i64,
    pub beam_2_id: i64,
    pub beam_1_energy: Seq<u8>,
    pub beam_2_energy: Seq<u8>,
    pub beam_1_pdf_group_id: i64,
    pub beam_2_pdf_group_id: i64,
    pub beam_1_pdf_id: i64,
    pub beam_2_pdf_id: i64,
    pub weighting_strategy: i64,
    pub process_info: Seq<ProcInfoView>,
    pub extra: E,
}

impl<E: View> View for InitGeneric<E> {
    type V = InitView<E::V>;

    open spec fn view(&self) -> InitView<E::V> {
        InitView {
            beam_1_id: self.beam_1_id,
            beam_2_id: self.beam_2_id,
            beam_1_energy: self.beam_1_energy@,
            beam_2_energy: self.beam_2_energy@,
            beam_1_pdf_group_id: self.beam_1_pdf_group_id,
            beam_2_pdf_group_id: self.beam_2_pdf_group_id,
            beam_1_pdf_id: self.beam_1_pdf_id,
            beam_2_pdf_id: self.beam_2_pdf_id,
            weighting_strategy: self.weighting_strategy,
            process_info: views(self.process_info@),
            extra: self.extra@,
        }
    }
}

/// The fields of the first line of the init block, but for the number of
/// processes.
pub ghost struct InitHead {
    pub beam_1_id: i64,
    pub beam_2_id: i64,
    pub beam_1_energy: Seq<u8>,
    pub beam_2_energy: Seq<u8>,
    pub beam_1_pdf_group_id: i64,
    pub beam_2_pdf_group_id: i64,
    pub beam_1_pdf_id: i64,
    pub beam_2_pdf_id: i64,
    pub weighting_strategy: i64,
}

impl InitHead {
    /// The init block with these fields, the given rows and the given extra slot.
    pub open spec fn with<E>(self, process_info: Seq<ProcInfoView>, extra: E) -> InitView<E> {
        InitView {
            beam_1_id: self.beam_1_id,
            beam_2_id: self.beam_2_id,
            beam_1_energy: self.beam_1_energy,
            beam_2_energy: self.beam_2_energy,
            beam_1_pdf_group_id: self.beam_1_pdf_group_id,
            beam_2_pdf_group_id: self.beam_2_pdf_group_id,
            beam_1_pdf_id: self.beam_1_pdf_id,
            beam_2_pdf_id: self.beam_2_pdf_id,
            weighting_strategy: self.weighting_strategy,
            process_info,
            extra,
        }
    }
}

/// The fields of the first line of `v`.
pub open spec fn init_head_of<E>(v: InitView<E>) -> InitHead {
    InitHead {
        beam_1_id: v.beam_1_id,
        beam_2_id: v.beam_2_id,
        beam_1_energy: v.beam_1_energy,
        beam_2_energy: v.beam_2_energy,
        beam_1_pdf_group_id: v.beam_1_pdf_group_id,
        beam_2_pdf_group_id: v.beam_2_pdf_group_id,
        beam_1_pdf_id: v.beam_1_pdf_id,
        beam_2_pdf_id: v.beam_2_pdf_id,
        weighting_strategy: v.weighting_strategy,
    }
}

/// Reading the opening tag and the first line of the init block at `pos`:
/// the nine fields of the beams and the number of processes.
#[verifier::opaque]
pub open spec fn init_head_at(input: Seq<u8>, pos: int) -> Result<((InitHead, nat), int), Failure> {
    match ws_tag(input, pos, INIT_OPEN@) {
    Err(e) => Err(e),
    Ok(q1) => match ws_int(input, q1, IntWidth::I64) {
    Err(e) => Err(e),
    Ok((beam_1_id, q2)) => match ws_int(input, q2, IntWidth::I64) {
    Err(e) => Err(e),
    Ok((beam_2_id, q3)) => match ws_float(input, q3) {
    Err(e) => Err(e),
    Ok((beam_1_energy, q4)) => match ws_float(input, q4) {
    Err(e) => Err(e),
    Ok((beam_2_energy, q5)) => match ws_int(input, q5, IntWidth::I64) {
    Err(e) => Err(e),
    Ok((beam_1_pdf_group_id, q6)) => match ws_int(input, q6, IntWidth::I64) {
    Err(e) => Err(e),
    Ok((beam_2_pdf_group_id, q7)) => match ws_int(input, q7, IntWidth::I64) {
    Err(e) => Err(e),
    Ok((beam_1_pdf_id, q8)) => match ws_int(input, q8, IntWidth::I64) {
    Err(e) => Err(e),
    Ok((beam_2_pdf_id, q9)) => match ws_int(input, q9, IntWidth::I64) {
    Err(e) => Err(e),
    Ok((weighting_strategy, q10)) => match ws_int(input, q10, IntWidth::U64) {
    Err(e) => Err(e),
    Ok((n_processes, q11)) => Ok((
        (
            InitHead {
                beam_1_id: beam_1_id as i64,
                beam_2_id: beam_2_id as i64,
                beam_1_energy,
                beam_2_energy,
                beam_1_pdf_group_id: beam_1_pdf_group_id as i64,
                beam_2_pdf_group_id: beam_2_pdf_group_id as i64,
                beam_1_pdf_id: beam_1_pdf_id as i64,
                beam_2_pdf_id: beam_2_pdf_id as i64,
                weighting_strategy: weighting_strategy as i64,
            },
            n_processes as nat,
        ),
        q11,
    ))
    }}}}}}}}}}}
}

/// Reading the init block at `pos`: the opening tag and the first line, as many
/// rows as the line says, the extra slot, and the closing tag.
#[verifier::opaque]
pub open spec fn init_at<E: ReadLhe>(input: Seq<u8>, pos: int) -> Result<(InitView<E::V>, int), Failure> {
    match init_head_at(input, pos) {
        Err(e) => Err(e),
        Ok(((head, n), q1)) => match repeat::<ProcInfo>(input, q1, n) {
            Err(e) => Err(e),
            Ok((process_info, q2)) => match extra_at::<E>(input, q2) {
                Err(e) => Err(e),
                Ok((extra, q3)) => match ws_tag(input, q3, INIT_CLOSE@) {
                    Err(e) => Err(e),
                    Ok(q4) => Ok((head.with(process_info, extra), q4)),
                },
            },
        },
    }
}

impl<E: ReadLhe> ReadLhe for InitGeneric<E> {
    /// The opening tag, the ten fields of the first line, as many rows as
    /// the last of them says, the extra slot, and the closing tag.
    open spec fn parse(input: Seq<u8>, pos: int) -> Result<(InitView<E::V>, int), Failure> {
        init_at::<E>(input, pos)
    }

    fn read_from_lhe(input: &[u8], pos: usize) -> (r: Result<(InitGeneric<E>, usize), ParseError>) {
        proof {
            reveal(init_at);
            reveal(init_head_at);
        }
        let p = pos;
        let p = match read_ws_tag(input, p, INIT_OPEN.as_slice()) {
            Ok(p) => p,
            Err(e) => return Err(e),
        };
        let (beam_1_id, p) = match ws_i64(input, p) {
            Ok(x) => x,
            Err(e) => return Err(e),
        };
        let (beam_2_id, p) = match ws_i64(input, p) {
            Ok(x) => x,
            Err(e) => return Err(e),
        };
        let (beam_1_energy, p) = match ws_float_field(input, p) {
            Ok(x) => x,
            Err(e) => return Err(e),
        };
        let (beam_2_energy, p) = match ws_float_field(input, p) {
            Ok(x) => x,
            Err(e) => return Err(e),
        };
        let (beam_1_pdf_group_id, p) = match ws_i64(input, p) {
            Ok(x) => x,
            Err(e) => return Err(e),
        };
        let (beam_2_pdf_group_id, p) = match ws_i64(input, p) {
            Ok(x) => x,
            Err(e) => return Err(e),
        };
        let (beam_1_pdf_id, p) = match ws_i64(input, p) {
            Ok(x) => x,
            Err(e) => return Err(e),
        };
        let (beam_2_pdf_id, p) = match ws_i64(input, p) {
            Ok(x) => x,
            Err(e) => return Err(e),
        };
        let (weighting_strategy, p) = match ws_i64(input, p) {
            Ok(x) => x,
            Err(e) => return Err(e),
        };
        let (n_processes, p) = match ws_u64(input, p) {
            Ok(x) => x,
            Err(e) => return Err(e),
        };
        let (process_info, p) = match read_rows::<ProcInfo>(input, p, n_processes) {
            Ok(x) => x,
            Err(e) => return Err(e),
        };
        let (extra, p) = match read_extra::<E>(input, p) {
            Ok(x) => x,
            Err(e) => return Err(e),
        };
        let p = match read_ws_tag(input, p, INIT_CLOSE.as_slice()) {
            Ok(p) => p,
            Err(e) => return Err(e),
        };
        Ok((
            InitGeneric {
                beam_1_id,
                beam_2_id,
                beam_1_energy,
                beam_2_energy,
                beam_1_pdf_group_id,
                beam_2_pdf_group_id,
                beam_1_pdf_id,
                beam_2_pdf_id,
                weighting_strategy,
                process_info,
                extra,
            },
            p,
        ))
    }
}

/// The first line of the init block: the nine fields of the beams and the
/// number of processes.
pub open spec fn init_line<E>(v: InitView<E>) -> Seq<u8> {
    Seq::<u8>::empty() + INIT_OPEN@ + seq![10u8] + decimal(v.beam_1_id as int) + seq![32u8] + decimal(
        v.beam_2_id as int,
    ) + seq![32u8] + v.beam_1_energy + seq![32u8] + v.beam_2_energy + seq![32u8] + decimal(
        v.beam_1_pdf_group_id as int,
    ) + seq![32u8] + decimal(v.beam_2_pdf_group_id as int) + seq![32u8] + decimal(
        v.beam_1_pdf_id as int,
    ) + seq![32u8] + decimal(v.beam_2_pdf_id as int) + seq![32u8] + decimal(
        v.weighting_strategy as int,
    ) + seq![32u8] + decimal(v.process_info.len() as int) + seq![10u8]
}

/// The text of an init block: the first line, the rows, the extra slot and the
/// closing tag. The number that the first line gives is the number of rows.
#[verifier::opaque]
pub open spec fn init_bytes<E: WriteLhe>(v: InitView<E::V>) -> Seq<u8> {
    init_line(v) + rows_bytes::<ProcInfo>(v.process_info) + E::lhe_bytes(v.extra) + (INIT_CLOSE@
            + seq![10u8])
}

impl<E: WriteLhe> WriteLhe for InitGeneric<E> {
    open spec fn writable(v: InitView<E::V>) -> bool {
        E::writable(v.extra)
    }

    open spec fn lhe_bytes(v: InitView<E::V>) -> Seq<u8> {
        init_bytes::<E>(v)
    }

    fn write_lhe(&self, out: &mut Vec<u8>) -> (r: Result<(), WriteError>) {
        proof {
            reveal(init_bytes);
        }
        let start = out.len();
        let ghost base = out@;
        let ghost mut acc = Seq::<u8>::empty();
        assert(out@ =~= base + acc);
        put_bytes(INIT_OPEN.as_slice(), 10, out, Ghost(base), Ghost(acc));
        proof {
            acc = acc + INIT_OPEN@ + seq![10u8];
        }
        put_i64(self.beam_1_id, 32, out, Ghost(base), Ghost(acc));
        proof {
            acc = acc + decimal(self.beam_1_id as int) + seq![32u8];
        }
        put_i64(self.beam_2_id, 32, out, Ghost(base), Ghost(acc));
        proof {
            acc = acc + decimal(self.beam_2_id as int) + seq![32u8];
        }
        put_bytes(self.beam_1_energy.as_bytes(), 32, out, Ghost(base), Ghost(acc));
        proof {
            acc = acc + self.beam_1_energy@ + seq![32u8];
        }
        put_bytes(self.beam_2_energy.as_bytes(), 32, out, Ghost(base), Ghost(acc));
        proof {
            acc = acc + self.beam_2_energy@ + seq![32u8];
        }
        put_i64(self.beam_1_pdf_group_id, 32, out, Ghost(base), Ghost(acc));
        proof {
            acc = acc + decimal(self.beam_1_pdf_group_id as int) + seq![32u8];
        }
        put_i64(self.beam_2_pdf_group_id, 32, out, Ghost(base), Ghost(acc));
        proof {
            acc = acc + decimal(self.beam_2_pdf_group_id as int) + seq![32u8];
        }
        put_i64(self.beam_1_pdf_id, 32, out, Ghost(base), Ghost(acc));
        proof {
            acc = acc + decimal(self.beam_1_pdf_id as int) + seq![32u8];
        }
        put_i64(self.beam_2_pdf_id, 32, out, Ghost(base), Ghost(acc));
        proof {
            acc = acc + decimal(self.beam_2_pdf_id as int) + seq![32u8];
        }
        put_i64(self.weighting_strategy, 32, out, Ghost(base), Ghost(acc));
        proof {
            acc = acc + decimal(self.weighting_strategy as int) + seq![32u8];
        }
        put_u64(self.process_info.len() as u64, 10, out, Ghost(base), Ghost(acc));
        proof {
            acc = acc + decimal(self.process_info.len() as int) + seq![10u8];
            assert(acc == init_line(self@));
        }
        let rows = write_rows::<ProcInfo>(&self.process_info, out);
        assert(rows is Ok);
        let ghost with_rows = out@;
        match self.extra.write_lhe(out) {
            Err(e) => {
                out.truncate(start);
                assert(out@ =~= base);
                return Err(e);
            },
            Ok(()) => {},
        }
        let ghost with_extra = out@;
        crate::lexer::write_bytes(INIT_CLOSE.as_slice(), out);
        out.push(10);
        proof {
            assert(out@ =~= with_extra + (INIT_CLOSE@ + seq![10u8]));
            assert(out@ =~= base + Self::lhe_bytes(self@));
        }
        Ok(())
    }
}

/// Rows whose text ends itself read back where their text stands.
pub proof fn lemma_rows_stand<T: Codec>(items: Seq<T::V>, input: Seq<u8>, pos: int)
    requires
        all_canonical::<T>(items),
        stands(input, pos, rows_bytes::<T>(items)),
        forall|text: Seq<u8>, at: int| T::delimited(text, at),
    ensures
        repeat::<T>(input, skip_spaces(input, pos), items.len()) matches Ok((w, end)) && w == items
            && skip_spaces(input, end) == skip_spaces(input, pos + rows_bytes::<T>(items).len()),
{
    lemma_stands(input, pos, rows_bytes::<T>(items));
    lemma_skip_twice(input, pos);
    lemma_rows_round_trip::<T>(items, input, pos, skip_spaces(input, pos));
}

/// Whatever text ends with the tag `close` delimits the values of `E`.
pub open spec fn closed_by<E: Codec>(close: Seq<u8>) -> bool {
    forall|input: Seq<u8>, at: int| #[trigger] has_at(input, at, close) ==> E::delimited(input, at)
}

/// The text of what fills an extra slot stands at `pos`, behind it the tag
/// `close` and a line feed: the slot reads back, and the tag after it.
pub proof fn lemma_extra_round_trip<E: Codec>(
    v: E::V,
    close: Seq<u8>,
    input: Seq<u8>,
    pos: int,
    from: int,
)
    requires
        E::canonical(v),
        closed_by::<E>(close),
        close.len() > 0,
        !is_space(close[0]),
        stands(input, pos, E::lhe_bytes(v) + (close + seq![10u8])),
        skip_spaces(input, from) == skip_spaces(input, pos),
    ensures
        extra_at::<E>(input, from) matches Ok((w, end)) && w == v && ws_tag(input, end, close) == Ok::<
            int,
            Failure,
        >(skip_spaces(input, pos + (E::lhe_bytes(v) + (close + seq![10u8])).len())),
{
    let text = E::lhe_bytes(v);
    let at = pos + text.len();
    lemma_stands(input, pos, text + (close + seq![10u8]));
    lemma_split(input, pos, text, close + seq![10u8]);
    lemma_split(input, at, close, seq![10u8]);
    assert(E::delimited(input, at));
    E::lemma_round_trip(v, input, pos);
    let end = E::parse(input, skip_spaces(input, pos))->Ok_0.1;
    assert(input[at + 0] == close[0]);
    lemma_skip_none(input, at);
    lemma_skip_twice(input, end);
    assert(input[at + close.len() + 0] == seq![10u8][0]);
    lemma_skip_one(input, at + close.len());
}

/// The values of an init block are fit to read back: the energies hold
/// literals, the rows and the extra slot read back, and the number of rows
/// fits its field.
pub open spec fn init_values_ok<E: Codec>(v: InitView<E::V>) -> bool {
    &&& is_float_token(v.beam_1_energy)
    &&& is_float_token(v.beam_2_energy)
    &&& all_canonical::<ProcInfo>(v.process_info)
    &&& v.process_info.len() <= u64::MAX
    &&& E::canonical(v.extra)
}

/// The init blocks that read back as themselves: their values are fit, and
/// the tag that closes the block delimits the extra slot.
#[verifier::opaque]
pub open spec fn init_canonical<E: Codec>(v: InitView<E::V>) -> bool {
    &&& init_values_ok::<E>(v)
    &&& closed_by::<E>(INIT_CLOSE@)
}

impl<E: Codec> Codec for InitGeneric<E> {
    open spec fn canonical(v: InitView<E::V>) -> bool {
        init_canonical::<E>(v)
    }

    /// The closing tag ends the text.
    open spec fn delimited(input: Seq<u8>, at: int) -> bool {
        true
    }

    proof fn lemma_round_trip(v: InitView<E::V>, input: Seq<u8>, pos: int) {
        reveal(init_at);
        reveal(init_bytes);
        reveal(init_canonical);
        let line = init_line(v);
        let rows = rows_bytes::<ProcInfo>(v.process_info);
        let extra = E::lhe_bytes(v.extra);
        let close = INIT_CLOSE@ + seq![10u8];
        lemma_stands(input, pos, line + rows + extra + close);
        lemma_stands_split(input, pos, line + rows + extra, close);
        lemma_stands_split(input, pos, line + rows, extra);
        lemma_stands_split(input, pos, line, rows);
        lemma_stands_join(input, pos + line.len() + rows.len(), extra, close);
        init_line_reads(v, input, pos);
        lemma_rows_stand::<ProcInfo>(v.process_info, input, pos + line.len());
        let after_rows = repeat::<ProcInfo>(
            input,
            skip_spaces(input, pos + line.len()),
            v.process_info.len(),
        )->Ok_0.1;
        assert(!is_space(INIT_CLOSE@[0]));
        lemma_extra_round_trip::<E>(
            v.extra,
            INIT_CLOSE@,
            input,
            pos + line.len() + rows.len(),
            after_rows,
        );
        lemma_skip_twice(input, pos + Self::lhe_bytes(v).len());
        assert(init_head_of(v).with(v.process_info, v.extra) == v);
    }
}

/// Count invariant of the init block: the first line that is written reads
/// back, and the number of processes that it gives is the number of rows.
pub proof fn init_line_reads<E>(v: InitView<E>, input: Seq<u8>, pos: int)
    requires
        stands(input, pos, init_line(v)),
        is_float_token(v.beam_1_energy),
        is_float_token(v.beam_2_energy),
        v.process_info.len() <= u64::MAX,
    ensures
        init_head_at(input, skip_spaces(input, pos)) == Ok::<((InitHead, nat), int), Failure>(
            ((init_head_of(v), v.process_info.len()), skip_spaces(input, pos + init_line(v).len())),
        ),
{
    reveal(init_head_at);
        let t0 = Seq::<u8>::empty();
        let t1 = t0 + INIT_OPEN@ + seq![10u8];
        let t2 = t1 + decimal(v.beam_1_id as int) + seq![32u8];
        let t3 = t2 + decimal(v.beam_2_id as int) + seq![32u8];
        let t4 = t3 + v.beam_1_energy + seq![32u8];
        let t5 = t4 + v.beam_2_energy + seq![32u8];
        let t6 = t5 + decimal(v.beam_1_pdf_group_id as int) + seq![32u8];
        let t7 = t6 + decimal(v.beam_2_pdf_group_id as int) + seq![32u8];
        let t8 = t7 + decimal(v.beam_1_pdf_id as int) + seq![32u8];
        let t9 = t8 + decimal(v.beam_2_pdf_id as int) + seq![32u8];
        let t10 = t9 + decimal(v.weighting_strategy as int) + seq![32u8];
        let t11 = t10 + decimal(v.process_info.len() as int) + seq![10u8];
    assert(init_line(v) == t11);
        lemma_int_piece(input, pos, t10, v.process_info.len() as int, IntWidth::U64, 10);
        lemma_int_piece(input, pos, t9, v.weighting_strategy as int, IntWidth::I64, 32);
        lemma_int_piece(input, pos, t8, v.beam_2_pdf_id as int, IntWidth::I64, 32);
        lemma_int_piece(input, pos, t7, v.beam_1_pdf_id as int, IntWidth::I64, 32);
        lemma_int_piece(input, pos, t6, v.beam_2_pdf_group_id as int, IntWidth::I64, 32);
        lemma_int_piece(input, pos, t5, v.beam_1_pdf_group_id as int, IntWidth::I64, 32);
        lemma_float_piece(input, pos, t4, v.beam_2_energy, 32);
        lemma_float_piece(input, pos, t3, v.beam_1_energy, 32);
        lemma_int_piece(input, pos, t2, v.beam_2_id as int, IntWidth::I64, 32);
        lemma_int_piece(input, pos, t1, v.beam_1_id as int, IntWidth::I64, 32);
        assert(!is_space(INIT_OPEN@[0]));
        lemma_tag_piece(input, pos, t0, INIT_OPEN@, 10);
}

/// An event: its weights, its particles, and what the generator adds.
#[derive(Clone, Debug, PartialEq)]
pub struct EventGeneric<EventExtra> {
    pub process_id: i64,
    pub weight: Float,
    pub scale: Float,
    pub alpha_ew: Float,
    pub alpha_qcd: Float,
    pub particles: Vec<Particle>,
    pub extra: EventExtra,
}

/// The mathematical form of [`EventGeneric`].
pub ghost struct EventView<E> {
    pub process_id: i64,
    pub weight: Seq<u8>,
    pub scale: Seq<u8>,
    pub alpha_ew: Seq<u8>,
    pub alpha_qcd: Seq<u8>,
    pub particles: Seq<ParticleView>,
    pub extra: E,
}

impl<E: View> View for EventGeneric<E> {
    type V = EventView<E::V>;

    open spec fn view(&self) -> EventView<E::V> {
        EventView {
            process_id: self.process_id,
            weight: self.weight@,
            scale: self.scale@,
            alpha_ew: self.alpha_ew@,
            alpha_qcd: self.alpha_qcd@,
            particles: views(self.particles@),
            extra: self.extra@,
        }
    }
}

/// The fields of the first line of an event, but for the number of particles.
pub ghost struct EventHead {
    pub process_id: i64,
    pub weight: Seq<u8>,
    pub scale: Seq<u8>,
    pub alpha_ew: Seq<u8>,
    pub alpha_qcd: Seq<u8>,
}

impl EventHead {
    /// The event with these fields, the given rows and the given extra slot.
    pub open spec fn with<E>(self, particles: Seq<ParticleView>, extra: E) -> EventView<E> {
        EventView {
            process_id: self.process_id,
            weight: self.weight,
            scale: self.scale,
            alpha_ew: self.alpha_ew,
            alpha_qcd: self.alpha_qcd,
            particles,
            extra,
        }
    }
}

/// The fields of the first line of `v`.
pub open spec fn event_head_of<E>(v: EventView<E>) -> EventHead {
    EventHead {
        process_id: v.process_id,
        weight: v.weight,
        scale: v.scale,
        alpha_ew: v.alpha_ew,
        alpha_qcd: v.alpha_qcd,
    }
}

/// Reading the opening tag and the first line of an event at `pos`: the
/// number of particles and the five fields of the event.
#[verifier::opaque]
pub open spec fn event_head_at(input: Seq<u8>, pos: int) -> Result<((EventHead, nat), int), Failure> {
    match ws_tag(input, pos, EVENT_OPEN@) {
    Err(e) => Err(e),
    Ok(q1) => match count_at(input, q1) {
    Err(e) => Err(e),
    Ok((n_particles, q2)) => match ws_int(input, q2, IntWidth::I64) {
    Err(e) => Err(e),
    Ok((process_id, q3)) => match ws_float(input, q3) {
    Err(e) => Err(e),
    Ok((weight, q4)) => match ws_float(input, q4) {
    Err(e) => Err(e),
    Ok((scale, q5)) => match ws_float(input, q5) {
    Err(e) => Err(e),
    Ok((alpha_ew, q6)) => match ws_float(input, q6) {
    Err(e) => Err(e),
    Ok((alpha_qcd, q7)) => Ok((
        (
            EventHead {
                process_id: process_id as i64,
                weight,
                scale,
                alpha_ew,
                alpha_qcd,
            },
            n_particles as nat,
        ),
        q7,
    ))
    }}}}}}}
}

/// Reading an event at `pos`: the opening tag and the first line, as many
/// rows as the line says, the extra slot, and the closing tag.
#[verifier::opaque]
pub open spec fn event_at<E: ReadLhe>(input: Seq<u8>, pos: int) -> Result<(EventView<E::V>, int), Failure> {
    match event_head_at(input, pos) {
        Err(e) => Err(e),
        Ok(((head, n), q1)) => match repeat::<Particle>(input, q1, n) {
            Err(e) => Err(e),
            Ok((particles, q2)) => match extra_at::<E>(input, q2) {
                Err(e) => Err(e),
                Ok((extra, q3)) => match ws_tag(input, q3, EVENT_CLOSE@) {
                    Err(e) => Err(e),
                    Ok(q4) => Ok((head.with(particles, extra), q4)),
                },
            },
        },
    }
}

impl<E: ReadLhe> ReadLhe for EventGeneric<E> {
    /// The opening tag, the six fields of the first line, as many rows as
    /// the first of them says, the extra slot, and the closing tag.
    open spec fn parse(input: Seq<u8>, pos: int) -> Result<(EventView<E::V>, int), Failure> {
        event_at::<E>(input, pos)
    }

    fn read_from_lhe(input: &[u8], pos: usize) -> (r: Result<(EventGeneric<E>, usize), ParseError>)
        ensures
            r matches Ok((_, end)) ==> pos < end,
    {
        proof {
            reveal(event_at);
            reveal(event_head_at);
        }
        let p = pos;
        let p = match read_ws_tag(input, p, EVENT_OPEN.as_slice()) {
            Ok(p) => p,
            Err(e) => return Err(e),
        };
        let (n_particles, p) = match read_count(input, p) {
            Ok(x) => x,
            Err(e) => return Err(e),
        };
        let (process_id, p) = match ws_i64(input, p) {
            Ok(x) => x,
            Err(e) => return Err(e),
        };
        let (weight, p) = match ws_float_field(input, p) {
            Ok(x) => x,
            Err(e) => return Err(e),
        };
        let (scale, p) = match ws_float_field(input, p) {
            Ok(x) => x,
            Err(e) => return Err(e),
        };
        let (alpha_ew, p) = match ws_float_field(input, p) {
            Ok(x) => x,
            Err(e) => return Err(e),
        };
        let (alpha_qcd, p) = match ws_float_field(input, p) {
            Ok(x) => x,
            Err(e) => return Err(e),
        };
        let (particles, p) = match read_rows::<Particle>(input, p, n_particles) {
            Ok(x) => x,
            Err(e) => return Err(e),
        };
        let (extra, p) = match read_extra::<E>(input, p) {
            Ok(x) => x,
            Err(e) => return Err(e),
        };
        let p = match read_ws_tag(input, p, EVENT_CLOSE.as_slice()) {
            Ok(p) => p,
            Err(e) => return Err(e),
        };
        Ok((EventGeneric { process_id, weight, scale, alpha_ew, alpha_qcd, particles, extra }, p))
    }
}

impl<E: Codec> Field for InitGeneric<E> {
    proof fn lemma_field_end(input: Seq<u8>, pos: int) {
        reveal(init_at);
        match InitGeneric::<E>::parse(input, pos) {
            Ok((_, end)) => {
                let q3 = extra_at::<E>(
                    input,
                    repeat::<ProcInfo>(
                        input,
                        init_head_at(input, pos)->Ok_0.1,
                        init_head_at(input, pos)->Ok_0.0.1,
                    )->Ok_0.1,
                )->Ok_0.1;
                lemma_skip_twice(input, skip_spaces(input, q3) + INIT_CLOSE@.len());
            },
            Err(_) => {},
        }
    }
}

/// The first line of an event: the number of particles and the five fields
/// of the event.
pub open spec fn event_line<E>(v: EventView<E>) -> Seq<u8> {
    Seq::<u8>::empty() + EVENT_OPEN@ + seq![10u8] + decimal(v.particles.len() as int) + seq![32u8]
        + decimal(v.process_id as int) + seq![32u8] + v.weight + seq![32u8] + v.scale + seq![32u8]
        + v.alpha_ew + seq![32u8] + v.alpha_qcd + seq![10u8]
}

/// The text of an event: the first line, the rows, the extra slot and the
/// closing tag. The number that the first line gives is the number of rows.
#[verifier::opaque]
pub open spec fn event_bytes<E: WriteLhe>(v: EventView<E::V>) -> Seq<u8> {
    event_line(v) + rows_bytes::<Particle>(v.particles) + E::lhe_bytes(v.extra) + (EVENT_CLOSE@
            + seq![10u8])
}

impl<E: WriteLhe> WriteLhe for EventGeneric<E> {
    open spec fn writable(v: EventView<E::V>) -> bool {
        E::writable(v.extra)
    }

    open spec fn lhe_bytes(v: EventView<E::V>) -> Seq<u8> {
        event_bytes::<E>(v)
    }

    fn write_lhe(&self, out: &mut Vec<u8>) -> (r: Result<(), WriteError>) {
        proof {
            reveal(event_bytes);
        }
        let start = out.len();
        let ghost base = out@;
        let ghost mut acc = Seq::<u8>::empty();
        assert(out@ =~= base + acc);
        put_bytes(EVENT_OPEN.as_slice(), 10, out, Ghost(base), Ghost(acc));
        proof {
            acc = acc + EVENT_OPEN@ + seq![10u8];
        }
        put_u64(self.particles.len() as u64, 32, out, Ghost(base), Ghost(acc));
        proof {
            acc = acc + decimal(self.particles.len() as int) + seq![32u8];
        }
        put_i64(self.process_id, 32, out, Ghost(base), Ghost(acc));
        proof {
            acc = acc + decimal(self.process_id as int) + seq![32u8];
        }
        put_bytes(self.weight.as_bytes(), 32, out, Ghost(base), Ghost(acc));
        proof {
            acc = acc + self.weight@ + seq![32u8];
        }
        put_bytes(self.scale.as_bytes(), 32, out, Ghost(base), Ghost(acc));
        proof {
            acc = acc + self.scale@ + seq![32u8];
        }
        put_bytes(self.alpha_ew.as_bytes(), 32, out, Ghost(base), Ghost(acc));
        proof {
            acc = acc + self.alpha_ew@ + seq![32u8];
        }
        put_bytes(self.alpha_qcd.as_bytes(), 10, out, Ghost(base), Ghost(acc));
        proof {
            acc = acc + self.alpha_qcd@ + seq![10u8];
            assert(acc == event_line(self@));
        }
        let rows = write_rows::<Particle>(&self.particles, out);
        assert(rows is Ok);
        match self.extra.write_lhe(out) {
            Err(e) => {
                out.truncate(start);
                assert(out@ =~= base);
                return Err(e);
            },
            Ok(()) => {},
        }
        let ghost with_extra = out@;
        crate::lexer::write_bytes(EVENT_CLOSE.as_slice(), out);
        out.push(10);
        proof {
            assert(out@ =~= with_extra + (EVENT_CLOSE@ + seq![10u8]));
            assert(out@ =~= base + Self::lhe_bytes(self@));
        }
        Ok(())
    }
}

/// The values of an event are fit to read back: the weights hold literals,
/// the rows and the extra slot read back, and the number of rows fits its
/// field.
pub open spec fn event_values_ok<E: Codec>(v: EventView<E::V>) -> bool {
    &&& is_float_token(v.weight)
    &&& is_float_token(v.scale)
    &&& is_float_token(v.alpha_ew)
    &&& is_float_token(v.alpha_qcd)
    &&& all_canonical::<Particle>(v.particles)
    &&& v.particles.len() <= i64::MAX
    &&& E::canonical(v.extra)
}

/// The events that read back as themselves: their values are fit, and the
/// tag that closes the event delimits the extra slot.
#[verifier::opaque]
pub open spec fn event_canonical<E: Codec>(v: EventView<E::V>) -> bool {
    &&& event_values_ok::<E>(v)
    &&& closed_by::<E>(EVENT_CLOSE@)
}

impl<E: Codec> Codec for EventGeneric<E> {
    open spec fn canonical(v: EventView<E::V>) -> bool {
        event_canonical::<E>(v)
    }

    /// The closing tag ends the text.
    open spec fn delimited(input: Seq<u8>, at: int) -> bool {
        true
    }

    proof fn lemma_round_trip(v: EventView<E::V>, input: Seq<u8>, pos: int) {
        reveal(event_at);
        reveal(event_bytes);
        reveal(event_canonical);
        let line = event_line(v);
        let rows = rows_bytes::<Particle>(v.particles);
        let extra = E::lhe_bytes(v.extra);
        let close = EVENT_CLOSE@ + seq![10u8];
        lemma_stands(input, pos, line + rows + extra + close);
        lemma_stands_split(input, pos, line + rows + extra, close);
        lemma_stands_split(input, pos, line + rows, extra);
        lemma_stands_split(input, pos, line, rows);
        lemma_stands_join(input, pos + line.len() + rows.len(), extra, close);
        event_line_reads(v, input, pos);
        lemma_rows_stand::<Particle>(v.particles, input, pos + line.len());
        let after_rows = repeat::<Particle>(
            input,
            skip_spaces(input, pos + line.len()),
            v.particles.len(),
        )->Ok_0.1;
        assert(!is_space(EVENT_CLOSE@[0]));
        lemma_extra_round_trip::<E>(
            v.extra,
            EVENT_CLOSE@,
            input,
            pos + line.len() + rows.len(),
            after_rows,
        );
        lemma_skip_twice(input, pos + Self::lhe_bytes(v).len());
        assert(event_head_of(v).with(v.particles, v.extra) == v);
    }
}

/// Count invariant of an event: the first line that is written reads back,
/// and the number of particles that it gives is the number of rows.
pub proof fn event_line_reads<E>(v: EventView<E>, input: Seq<u8>, pos: int)
    requires
        stands(input, pos, event_line(v)),
        is_float_token(v.weight),
        is_float_token(v.scale),
        is_float_token(v.alpha_ew),
        is_float_token(v.alpha_qcd),
        v.particles.len() <= i64::MAX,
    ensures
        event_head_at(input, skip_spaces(input, pos)) == Ok::<((EventHead, nat), int), Failure>(
            ((event_head_of(v), v.particles.len()), skip_spaces(input, pos + event_line(v).len())),
        ),
{
    reveal(event_head_at);
        let t0 = Seq::<u8>::empty();
        let t1 = t0 + EVENT_OPEN@ + seq![10u8];
        let t2 = t1 + decimal(v.particles.len() as int) + seq![32u8];
        let t3 = t2 + decimal(v.process_id as int) + seq![32u8];
        let t4 = t3 + v.weight + seq![32u8];
        let t5 = t4 + v.scale + seq![32u8];
        let t6 = t5 + v.alpha_ew + seq![32u8];
        let t7 = t6 + v.alpha_qcd + seq![10u8];
    assert(event_line(v) == t7);
        lemma_float_piece(input, pos, t6, v.alpha_qcd, 10);
        lemma_float_piece(input, pos, t5, v.alpha_ew, 32);
        lemma_float_piece(input, pos, t4, v.scale, 32);
        lemma_float_piece(input, pos, t3, v.weight, 32);
        lemma_int_piece(input, pos, t2, v.process_id as int, IntWidth::I64, 32);
        lemma_int_piece(input, pos, t1, v.particles.len() as int, IntWidth::I64, 32);
        assert(!is_space(EVENT_OPEN@[0]));
        lemma_tag_piece(input, pos, t0, EVENT_OPEN@, 10);
}

impl<E: Codec> Field for EventGeneric<E> {
    proof fn lemma_field_end(input: Seq<u8>, pos: int) {
        reveal(event_at);
        match EventGeneric::<E>::parse(input, pos) {
            Ok((_, end)) => {
                let q3 = extra_at::<E>(
                    input,
                    repeat::<Particle>(
                        input,
                        event_head_at(input, pos)->Ok_0.1,
                        event_head_at(input, pos)->Ok_0.0.1,
                    )->Ok_0.1,
                )->Ok_0.1;
                lemma_skip_twice(input, skip_spaces(input, q3) + EVENT_CLOSE@.len());
            },
            Err(_) => {},
        }
    }
}

/// A whole file.
#[derive(Clone, Debug, PartialEq)]
pub struct LheFileGeneric<Comment, Header, InitExtra, EventExtra> {
    /// The version of the format. It must not hold a double quote.
    pub version: String,
    pub comment: Comment,
    pub header: Header,
    pub init: InitGeneric<InitExtra>,
    pub events: Vec<EventGeneric<EventExtra>>,
}

/// The mathematical form of [`LheFileGeneric`].
pub ghost struct FileView<C, H, I, E> {
    pub version: Seq<char>,
    pub comment: C,
    pub header: H,
    pub init: InitView<I>,
    pub events: Seq<EventView<E>>,
}

impl<C: View, H: View, I: View, E: View> View for LheFileGeneric<C, H, I, E> {
    type V = FileView<C::V, H::V, I::V, E::V>;

    open spec fn view(&self) -> FileView<C::V, H::V, I::V, E::V> {
        FileView {
            version: self.version@,
            comment: self.comment@,
            header: self.header@,
            init: self.init@,
            events: views(self.events@),
        }
    }
}

/// Reading the version at `pos`, the place after the opening quote: the
/// text up to the next quote, and the position after that quote.
pub open spec fn version_at(input: Seq<u8>, pos: int) -> Result<(Seq<char>, int), Failure> {
    match find(input, pos, QUOTE@) {
        None => Err(Failure::Incomplete),
        Some(quote) => {
            let bytes = input.subrange(pos, quote);
            if valid_utf8(bytes) {
                Ok((decode_utf8(bytes), quote + 1))
            } else {
                Err(Failure::Syntax { expected: ExpectedView::Text, position: pos })
            }
        },
    }
}

/// Reading the tag that opens the file at `pos`: the version and the
/// position after the tag and the separators behind it.
pub open spec fn opening_at(input: Seq<u8>, pos: int) -> Result<(Seq<char>, int), Failure> {
    match ws_tag(input, pos, FILE_OPEN@) {
        Err(e) => Err(e),
        Ok(q1) => match ws_tag(input, q1, VERSION@) {
            Err(e) => Err(e),
            Ok(q2) => match tag(input, q2, QUOTE@) {
                Err(e) => Err(e),
                Ok(q3) => match version_at(input, q3) {
                    Err(e) => Err(e),
                    Ok((version, q4)) => match ws_tag(input, q4, ANGLE@) {
                        Err(e) => Err(e),
                        Ok(q5) => Ok((version, q5)),
                    },
                },
            },
        }
    }
}

/// Reading the comment, the header and the init block, which may stand in
/// any order. A failure of the comment or of the header is marked as the
/// failure of an extra slot.
pub open spec fn trio_at<C: ReadLhe, H: ReadLhe, I: ReadLhe>(input: Seq<u8>, pos: int) -> Result<
    ((C::V, H::V, InitView<I::V>), int),
    Failure,
> {
    match blocks3::<C, H, InitGeneric<I>>(input, pos) {
        Ok(found) => Ok(found),
        Err((slot, e)) => if slot == 2 {
            Err(e)
        } else {
            Err(Failure::Extension(Box::new(e)))
        },
    }
}

/// Reading events from `pos` on for as long as the tag that opens an event
/// stands there, after the events `done`. `pos` holds no separator.
pub open spec fn events_from<E: ReadLhe>(input: Seq<u8>, pos: int, done: Seq<EventView<E::V>>) -> Result<
    (Seq<EventView<E::V>>, int),
    Failure,
>
    decreases input.len() - pos,
{
    if has_at(input, pos, EVENT_OPEN@) {
        match EventGeneric::<E>::parse(input, pos) {
            Err(e) => Err(e),
            Ok((event, end)) => if pos < end <= input.len() {
                events_from::<E>(input, end, done.push(event))
            } else {
                // an event takes at least its tag and ends inside the input
                Err(Failure::Incomplete)
            },
        }
    } else {
        Ok((done, pos))
    }
}

/// Reads one more event where the tag that opens one stands at `pos`.
fn next_event<E: ReadLhe>(input: &[u8], pos: usize, Ghost(done): Ghost<Seq<EventView<E::V>>>) -> (r: Result<
    Option<(EventGeneric<E>, usize)>,
    ParseError,
>)
    ensures
        match r {
            Ok(Some((event, end))) => events_from::<E>(input@, pos as int, done) == events_from::<E>(
                input@,
                end as int,
                done.push(event@),
            ) && pos < end <= input.len(),
            Ok(None) => events_from::<E>(input@, pos as int, done) == Ok::<
                (Seq<EventView<E::V>>, int),
                Failure,
            >((done, pos as int)),
            Err(e) => events_from::<E>(input@, pos as int, done) == Err::<
                (Seq<EventView<E::V>>, int),
                Failure,
            >(e@),
        },
{
    if starts_with(input, pos, EVENT_OPEN.as_slice()) {
        match EventGeneric::<E>::read_from_lhe(input, pos) {
            Err(e) => Err(e),
            Ok((event, end)) => Ok(Some((event, end))),
        }
    } else {
        Ok(None)
    }
}

/// Reads events for as long as the tag that opens one is found.
pub fn read_events<E: ReadLhe>(input: &[u8], pos: usize) -> (r: Result<
    (Vec<EventGeneric<E>>, usize),
    ParseError,
>)
    ensures
        crate::rows::rows_outcome(r) == events_from::<E>(input@, pos as int, Seq::empty()),
        r matches Ok((_, end)) ==> pos <= end && (pos <= input.len() ==> end <= input.len()),
{
    let mut events: Vec<EventGeneric<E>> = Vec::new();
    let mut p = pos;
    assert(views(events@) =~= Seq::<EventView<E::V>>::empty());
    loop
        invariant
            pos <= p,
            pos <= input.len() ==> p <= input.len(),
            events_from::<E>(input@, p as int, views(events@)) == events_from::<E>(
                input@,
                pos as int,
                Seq::empty(),
            ),
        decreases input.len() - p,
    {
        match next_event::<E>(input, p, Ghost(views(events@))) {
            Err(e) => {
                return Err(e);
            },
            Ok(None) => {
                return Ok((events, p));
            },
            Ok(Some((event, end))) => {
                proof {
                    assert(views(events@.push(event)) =~= views(events@).push(event@));
                }
                events.push(event);
                p = end;
            },
        }
    }
}

/// Reading a file at `pos`: the opening tag with the version; the comment,
/// the header and the init block in any order; the events in the order of
/// the file; the closing tag.
#[verifier::opaque]
pub open spec fn file_at<C: ReadLhe, H: ReadLhe, I: ReadLhe, E: ReadLhe>(input: Seq<u8>, pos: int) -> Result<
    (FileView<C::V, H::V, I::V, E::V>, int),
    Failure,
> {
    match opening_at(input, pos) {
        Err(e) => Err(e),
        Ok((version, q1)) => match trio_at::<C, H, I>(input, q1) {
            Err(e) => Err(e),
            Ok(((comment, header, init), q2)) => match events_from::<E>(input, q2, Seq::empty()) {
                Err(e) => Err(e),
                Ok((events, q3)) => match ws_tag(input, q3, FILE_CLOSE@) {
                    Err(e) => Err(e),
                    Ok(q4) => Ok((FileView { version, comment, header, init, events }, q4)),
                },
            },
        },
    }
}

impl<C: ReadLhe, H: ReadLhe, I: ReadLhe, E: ReadLhe> ReadLhe for LheFileGeneric<C, H, I, E> {
    open spec fn parse(input: Seq<u8>, pos: int) -> Result<
        (FileView<C::V, H::V, I::V, E::V>, int),
        Failure,
    > {
        file_at::<C, H, I, E>(input, pos)
    }

    fn read_from_lhe(input: &[u8], pos: usize) -> (r: Result<
        (LheFileGeneric<C, H, I, E>, usize),
        ParseError,
    >) {
        proof {
            reveal(file_at);
        }
        let p = match read_ws_tag(input, pos, FILE_OPEN.as_slice()) {
            Ok(p) => p,
            Err(e) => return Err(e),
        };
        let p = match read_ws_tag(input, p, VERSION.as_slice()) {
            Ok(p) => p,
            Err(e) => return Err(e),
        };
        let p = match read_tag(input, p, QUOTE.as_slice()) {
            Ok(p) => p,
            Err(e) => return Err(e),
        };
        let quote = match find_tag(input, p, QUOTE.as_slice()) {
            Some(q) => q,
            None => return Err(ParseError::Incomplete),
        };
        let version = match decode(vstd::slice::slice_subrange(input, p, quote)) {
            Some(s) => s.to_owned(),
            None => return Err(ParseError::Syntax { expected: Expected::Text, position: p }),
        };
        let p = match read_ws_tag(input, quote + 1, ANGLE.as_slice()) {
            Ok(p) => p,
            Err(e) => return Err(e),
        };
        let ((comment, header, init), p) = match permutation3::<C, H, InitGeneric<I>>(input, p) {
            Ok(found) => found,
            Err(e) => {
                if e.slot == 2 {
                    return Err(e.error);
                } else {
                    return Err(ParseError::Extension(Box::new(e.error)));
                }
            },
        };
        let (events, p) = match read_events::<E>(input, p) {
            Ok(x) => x,
            Err(e) => return Err(e),
        };
        let p = match read_ws_tag(input, p, FILE_CLOSE.as_slice()) {
            Ok(p) => p,
            Err(e) => return Err(e),
        };
        Ok((LheFileGeneric { version, comment, header, init, events }, p))
    }
}

/// The tag that opens a file of the given version.
pub open spec fn opening_bytes(version: Seq<char>) -> Seq<u8> {
    FILE_OPEN@ + seq![32u8] + VERSION@ + QUOTE@ + encode_utf8(version) + QUOTE@ + ANGLE@ + seq![10u8]
}

/// The tag that closes a file.
pub open spec fn closing_bytes() -> Seq<u8> {
    FILE_CLOSE@ + seq![10u8]
}

/// A version can be written where its text holds no double quote.
pub open spec fn version_ok(version: Seq<char>) -> bool {
    !encode_utf8(version).contains(34u8)
}

/// Whether `bytes` hold the byte `b`.
pub fn contains_byte(bytes: &[u8], b: u8) -> (r: bool)
    ensures
        r == bytes@.contains(b),
{
    let mut i: usize = 0;
    while i < bytes.len()
        invariant
            i <= bytes.len(),
            forall|j: int| 0 <= j < i ==> bytes@[j] != b,
        decreases bytes.len() - i,
    {
        if bytes[i] == b {
            return true;
        }
        i = i + 1;
    }
    false
}

/// Writes the tag that opens a file of the given version. A version that
/// holds a double quote is refused, and nothing is written.
pub fn write_opening_file_tag(writer: &mut Vec<u8>, version: &str) -> (r: Result<(), WriteError>)
    ensures
        r is Ok <==> version_ok(version@),
        r is Ok ==> final(writer)@ == old(writer)@ + opening_bytes(version@),
        r is Err ==> final(writer)@ == old(writer)@,
{
    if contains_byte(version.as_bytes(), 34) {
        return Err(WriteError::QuoteInVersion);
    }
    write_bytes(FILE_OPEN.as_slice(), writer);
    writer.push(32);
    write_bytes(VERSION.as_slice(), writer);
    write_bytes(QUOTE.as_slice(), writer);
    write_str(version, writer);
    write_bytes(QUOTE.as_slice(), writer);
    write_bytes(ANGLE.as_slice(), writer);
    writer.push(10);
    assert(final(writer)@ =~= old(writer)@ + opening_bytes(version@));
    Ok(())
}

/// Writes the tag that closes a file.
pub fn write_closing_file_tag(writer: &mut Vec<u8>)
    ensures
        final(writer)@ == old(writer)@ + closing_bytes(),
{
    write_bytes(FILE_CLOSE.as_slice(), writer);
    writer.push(10);
    assert(final(writer)@ =~= old(writer)@ + closing_bytes());
}

/// The text of a file: the opening tag, the comment, the header, the init
/// block, the events and the closing tag.
#[verifier::opaque]
pub open spec fn file_bytes<C: WriteLhe, H: WriteLhe, I: WriteLhe, E: WriteLhe>(
    v: FileView<C::V, H::V, I::V, E::V>,
) -> Seq<u8> {
    opening_bytes(v.version) + C::lhe_bytes(v.comment) + H::lhe_bytes(v.header) + InitGeneric::<
        I,
    >::lhe_bytes(v.init) + rows_bytes::<EventGeneric<E>>(v.events) + closing_bytes()
}

impl<C: WriteLhe, H: WriteLhe, I: WriteLhe, E: WriteLhe> WriteLhe for LheFileGeneric<C, H, I, E> {
    /// A file can be written where its version holds no double quote and
    /// every extra slot can be written.
    open spec fn writable(v: FileView<C::V, H::V, I::V, E::V>) -> bool {
        &&& version_ok(v.version)
        &&& C::writable(v.comment)
        &&& H::writable(v.header)
        &&& InitGeneric::<I>::writable(v.init)
        &&& all_writable::<EventGeneric<E>>(v.events)
    }

    open spec fn lhe_bytes(v: FileView<C::V, H::V, I::V, E::V>) -> Seq<u8> {
        file_bytes::<C, H, I, E>(v)
    }

    fn write_lhe(&self, out: &mut Vec<u8>) -> (r: Result<(), WriteError>) {
        proof {
            reveal(file_bytes);
        }
        let start = out.len();
        let ghost base = out@;
        match write_opening_file_tag(out, self.version.as_str()) {
            Err(e) => return Err(e),
            Ok(()) => {},
        }
        let ghost mut acc = opening_bytes(self.version@);
        match self.comment.write_lhe(out) {
            Err(e) => {
                undo(out, start, Ghost(base), Ghost(acc));
                return Err(e);
            },
            Ok(()) => {},
        }
        proof {
            lemma_appended(base, acc, C::lhe_bytes(self.comment@));
            acc = acc + C::lhe_bytes(self.comment@);
        }
        match self.header.write_lhe(out) {
            Err(e) => {
                undo(out, start, Ghost(base), Ghost(acc));
                return Err(e);
            },
            Ok(()) => {},
        }
        proof {
            lemma_appended(base, acc, H::lhe_bytes(self.header@));
            acc = acc + H::lhe_bytes(self.header@);
        }
        match self.init.write_lhe(out) {
            Err(e) => {
                undo(out, start, Ghost(base), Ghost(acc));
                return Err(e);
            },
            Ok(()) => {},
        }
        proof {
            lemma_appended(base, acc, InitGeneric::<I>::lhe_bytes(self.init@));
            acc = acc + InitGeneric::<I>::lhe_bytes(self.init@);
        }
        match write_rows::<EventGeneric<E>>(&self.events, out) {
            Err(e) => {
                undo(out, start, Ghost(base), Ghost(acc));
                return Err(e);
            },
            Ok(()) => {},
        }
        proof {
            lemma_appended(base, acc, rows_bytes::<EventGeneric<E>>(views(self.events@)));
            acc = acc + rows_bytes::<EventGeneric<E>>(views(self.events@));
        }
        write_closing_file_tag(out);
        proof {
            lemma_appended(base, acc, closing_bytes());
        }
        Ok(())
    }
}

/// The tag that opens a file reads back its version.
pub proof fn lemma_opening(version: Seq<char>, input: Seq<u8>, pos: int)
    requires
        stands(input, pos, opening_bytes(version)),
        version_ok(version),
    ensures
        opening_at(input, skip_spaces(input, pos)) == Ok::<(Seq<char>, int), Failure>(
            (version, skip_spaces(input, pos + opening_bytes(version).len())),
        ),
{
    let text = encode_utf8(version);
    let t1 = FILE_OPEN@ + seq![32u8];
    let t2 = t1 + VERSION@;
    let t3 = t2 + QUOTE@;
    let t4 = t3 + text;
    let t5 = t4 + QUOTE@;
    let t6 = t5 + ANGLE@;
    assert(opening_bytes(version) == t6 + seq![10u8]);
    lemma_stands(input, pos, t6 + seq![10u8]);
    lemma_split(input, pos, t6, seq![10u8]);
    lemma_split(input, pos, t5, ANGLE@);
    lemma_split(input, pos, t4, QUOTE@);
    lemma_split(input, pos, t3, text);
    lemma_split(input, pos, t2, QUOTE@);
    lemma_split(input, pos, t1, VERSION@);
    lemma_split(input, pos, FILE_OPEN@, seq![32u8]);
    // the tag and the name of the attribute
    assert(input[pos + 0] == FILE_OPEN@[0]);
    lemma_skip_none(input, pos);
    assert(input[pos + FILE_OPEN@.len() + 0] == seq![32u8][0]);
    lemma_skip_one(input, pos + FILE_OPEN@.len());
    assert(input[pos + t1.len() + 0] == VERSION@[0]);
    lemma_skip_none(input, pos + t1.len());
    assert(input[pos + t2.len() + 0] == QUOTE@[0]);
    lemma_skip_none(input, pos + t2.len());
    // the version ends at the first quote behind it
    let start = pos + t3.len();
    let quote = pos + t4.len();
    assert forall|i: int| start <= i < quote implies !has_at(input, i, QUOTE@) by {
        if has_at(input, i, QUOTE@) {
            assert(input[i + 0] == QUOTE@[0]);
            assert(input[start + (i - start)] == text[i - start]);
            assert(text.contains(34u8));
        }
    }
    crate::lexer::lemma_find_first(input, start, quote, QUOTE@);
    assert(input.subrange(start, quote) =~= text);
    vstd::utf8::encode_utf8_valid_utf8(version);
    vstd::utf8::encode_utf8_decode_utf8(version);
    // the end of the tag
    assert(input[pos + t5.len() + 0] == ANGLE@[0]);
    lemma_skip_none(input, pos + t5.len());
    assert(input[pos + t6.len() + 0] == seq![10u8][0]);
    lemma_skip_one(input, pos + t6.len());
}

/// An opening angle stands at `at`.
pub open spec fn angle_at(input: Seq<u8>, at: int) -> bool {
    0 <= at < input.len() && input[at] == 60
}

/// The text of an event starts with the tag that opens it.
pub proof fn lemma_event_starts<E: WriteLhe>(v: EventView<E::V>, input: Seq<u8>, at: int)
    requires
        stands(input, at, EventGeneric::<E>::lhe_bytes(v)),
    ensures
        has_at(input, at, EVENT_OPEN@),
        angle_at(input, at),
        EventGeneric::<E>::lhe_bytes(v).len() > 0,
{
    reveal(event_bytes);
    let text = EventGeneric::<E>::lhe_bytes(v);
    lemma_stands(input, at, text);
    assert forall|i: int| 0 <= i < EVENT_OPEN@.len() implies input[at + i] == #[trigger] EVENT_OPEN@[i] by {
        assert(text[i] == EVENT_OPEN@[i]);
    }
    assert(input[at + 0] == EVENT_OPEN@[0]);
}

/// The text of an init block starts with the tag that opens it.
pub proof fn lemma_init_starts<E: WriteLhe>(v: InitView<E::V>, input: Seq<u8>, at: int)
    requires
        stands(input, at, InitGeneric::<E>::lhe_bytes(v)),
    ensures
        has_at(input, at, INIT_OPEN@),
        angle_at(input, at),
        InitGeneric::<E>::lhe_bytes(v).len() > 0,
{
    reveal(init_bytes);
    let text = InitGeneric::<E>::lhe_bytes(v);
    lemma_stands(input, at, text);
    assert forall|i: int| 0 <= i < INIT_OPEN@.len() implies input[at + i] == #[trigger] INIT_OPEN@[i] by {
        assert(text[i] == INIT_OPEN@[i]);
    }
    assert(input[at + 0] == INIT_OPEN@[0]);
}

/// Where the tag that closes the file stands, no event starts.
pub proof fn lemma_file_ends(input: Seq<u8>, at: int)
    requires
        stands(input, at, FILE_CLOSE@),
    ensures
        !has_at(input, at, EVENT_OPEN@),
        angle_at(input, at),
        skip_spaces(input, at) == at,
{
    lemma_stands(input, at, FILE_CLOSE@);
    assert(input[at + 1] == FILE_CLOSE@[1]);
    assert(input[at + 0] == FILE_CLOSE@[0]);
    assert(EVENT_OPEN@[1] != FILE_CLOSE@[1]);
    if has_at(input, at, EVENT_OPEN@) {
        assert(input[at + 1] == EVENT_OPEN@[1]);
    }
}

/// An event whose text stands at `at`, in front of an opening angle, is
/// read there, and the read ends with the text.
pub proof fn lemma_event_once<E: Codec>(v: EventView<E::V>, input: Seq<u8>, at: int)
    requires
        EventGeneric::<E>::canonical(v),
        stands(input, at, EventGeneric::<E>::lhe_bytes(v)),
        angle_at(input, at + EventGeneric::<E>::lhe_bytes(v).len()),
    ensures
        has_at(input, at, EVENT_OPEN@),
        EventGeneric::<E>::parse(input, at) == Ok::<(EventView<E::V>, int), Failure>(
            (v, at + EventGeneric::<E>::lhe_bytes(v).len()),
        ),
        at < at + EventGeneric::<E>::lhe_bytes(v).len() <= input.len(),
{
    lemma_event_starts::<E>(v, input, at);
    lemma_skip_none(input, at);
    lemma_stands(input, at, EventGeneric::<E>::lhe_bytes(v));
    EventGeneric::<E>::lemma_round_trip(v, input, at);
    EventGeneric::<E>::lemma_field_end(input, at);
    lemma_skip_none(input, at + EventGeneric::<E>::lhe_bytes(v).len());
}

/// The text of the first rows is the start of the text of all, and behind
/// it stands the text of the next.
pub proof fn lemma_rows_prefix_stands<T: WriteLhe>(items: Seq<T::V>, k: int, input: Seq<u8>, pos: int)
    requires
        stands(input, pos, rows_bytes::<T>(items)),
        0 <= k < items.len(),
    ensures
        stands(input, pos + crate::rows::rows_len::<T>(items, k), T::lhe_bytes(items[k])),
        crate::rows::rows_len::<T>(items, k + 1) == crate::rows::rows_len::<T>(items, k) + T::lhe_bytes(
            items[k],
        ).len(),
{
    lemma_stands(input, pos, rows_bytes::<T>(items));
    crate::rows::lemma_rows_prefix::<T>(items, k, input, pos);
    lemma_stands(input, pos + crate::rows::rows_len::<T>(items, k), T::lhe_bytes(items[k]));
}

/// One step of reading events: an event that is read at `pos` is taken.
pub proof fn lemma_events_step<E: ReadLhe>(
    input: Seq<u8>,
    pos: int,
    done: Seq<EventView<E::V>>,
    v: EventView<E::V>,
    end: int,
)
    requires
        has_at(input, pos, EVENT_OPEN@),
        EventGeneric::<E>::parse(input, pos) == Ok::<(EventView<E::V>, int), Failure>((v, end)),
        pos < end <= input.len(),
    ensures
        events_from::<E>(input, pos, done) == events_from::<E>(input, end, done.push(v)),
{
}

/// The end of reading events: no event starts at `pos`.
pub proof fn lemma_events_end<E: ReadLhe>(input: Seq<u8>, pos: int, done: Seq<EventView<E::V>>)
    requires
        !has_at(input, pos, EVENT_OPEN@),
    ensures
        events_from::<E>(input, pos, done) == Ok::<(Seq<EventView<E::V>>, int), Failure>((done, pos)),
{
}

/// Reading the rest of the events gives them back, where the first `k` have
/// been read; behind the events stands the tag that closes the file.
pub proof fn lemma_events_from<E: Codec>(events: Seq<EventView<E::V>>, k: int, input: Seq<u8>, pos: int)
    requires
        all_canonical::<EventGeneric<E>>(events),
        stands(input, pos, rows_bytes::<EventGeneric<E>>(events)),
        stands(input, pos + rows_bytes::<EventGeneric<E>>(events).len(), FILE_CLOSE@),
        0 <= k <= events.len(),
    ensures
        events_from::<E>(
            input,
            pos + crate::rows::rows_len::<EventGeneric<E>>(events, k),
            events.subrange(0, k),
        ) == Ok::<(Seq<EventView<E::V>>, int), Failure>(
            (events, pos + rows_bytes::<EventGeneric<E>>(events).len()),
        ),
    decreases events.len() - k,
{
    let from = pos + crate::rows::rows_len::<EventGeneric<E>>(events, k);
    if k == events.len() {
        assert(events.subrange(0, k) =~= events);
        assert(events_from::<E>(input, from, events) == Ok::<(Seq<EventView<E::V>>, int), Failure>(
            (events, from),
        )) by {
            lemma_file_ends(input, from);
            lemma_events_end::<E>(input, from, events);
        }
    } else {
        let v = events[k];
        let done = events.subrange(0, k);
        lemma_rows_prefix_stands::<EventGeneric<E>>(events, k, input, pos);
        let after = from + EventGeneric::<E>::lhe_bytes(v).len();
        assert(angle_at(input, after)) by {
            if k + 1 < events.len() {
                lemma_rows_prefix_stands::<EventGeneric<E>>(events, k + 1, input, pos);
                lemma_event_starts::<E>(events[k + 1], input, after);
            } else {
                assert(events.subrange(0, k + 1) =~= events);
                lemma_file_ends(input, after);
            }
        }
        assert(events_from::<E>(input, from, done) == events_from::<E>(input, after, done.push(v))) by {
            assert(EventGeneric::<E>::canonical(v));
            lemma_event_once::<E>(v, input, from);
            lemma_events_step::<E>(input, from, done, v, after);
        }
        assert(done.push(v) =~= events.subrange(0, k + 1));
        lemma_events_from::<E>(events, k + 1, input, pos);
    }
}

/// What the types of the comment and of the header have to grant for a file
/// to read back: a value of theirs without a text is delimited by the tags
/// that open the init block and an event and by the tag that closes the
/// file; a comment is delimited by the text of a header; and a text of
/// theirs starts with no separator.
pub open spec fn trio_codec<C: Codec, H: Codec>() -> bool {
    &&& closed_by::<C>(INIT_OPEN@)
    &&& closed_by::<C>(EVENT_OPEN@)
    &&& closed_by::<C>(FILE_CLOSE@)
    &&& closed_by::<H>(INIT_OPEN@)
    &&& closed_by::<H>(EVENT_OPEN@)
    &&& closed_by::<H>(FILE_CLOSE@)
    &&& forall|input: Seq<u8>, at: int, h: H::V|
        H::canonical(h) && H::lhe_bytes(h).len() > 0 && #[trigger] has_at(input, at, H::lhe_bytes(h))
            ==> C::delimited(input, at)
    &&& forall|c: C::V|
        C::canonical(c) && (#[trigger] C::lhe_bytes(c)).len() > 0 ==> !is_space(C::lhe_bytes(c)[0])
    &&& forall|h: H::V|
        H::canonical(h) && (#[trigger] H::lhe_bytes(h)).len() > 0 ==> !is_space(H::lhe_bytes(h)[0])
}

/// The search for the comment, the header and the init block, where it is
/// known how each of them reads: the comment at `pos`, the header at `at_h`
/// and the init block at `at_i`, each where it has a text; and as absent,
/// where it has none, at every place where another block or the end stands.
pub proof fn lemma_trio_search<C: ReadLhe, H: ReadLhe, I: ReadLhe>(
    all: (C::V, H::V, InitView<I::V>),
    input: Seq<u8>,
    pos: int,
    at_h: int,
    at_i: int,
    end: int,
    c_text: bool,
    h_text: bool,
)
    requires
        skip_spaces(input, pos) == pos,
        reads_present::<InitGeneric<I>>(all.2, input, at_i, end),
        c_text ==> reads_present::<C>(all.0, input, pos, at_h),
        !c_text ==> at_h == pos && reads_absent::<C>(all.0, input, at_h) && reads_absent::<C>(
            all.0,
            input,
            at_i,
        ) && reads_absent::<C>(all.0, input, end),
        h_text ==> reads_present::<H>(all.1, input, at_h, at_i),
        !h_text ==> at_i == at_h && reads_absent::<H>(all.1, input, at_i) && reads_absent::<H>(
            all.1,
            input,
            end,
        ),
    ensures
        blocks3::<C, H, InitGeneric<I>>(input, pos) == Ok::<
            ((C::V, H::V, InitView<I::V>), int),
            (int, Failure),
        >((all, end)),
{
    let none = (None::<C::V>, None::<H::V>, None::<InitView<I::V>>);
    let end_i = InitGeneric::<I>::parse(input, at_i)->Ok_0.1;
    if c_text {
        let end_c = C::parse(input, pos)->Ok_0.1;
        let one = with_block(0, none, all);
        assert(earlier_idle::<C, H, InitGeneric<I>>(0, input, pos, none));
        lemma_search_takes::<C, H, InitGeneric<I>>(0, input, pos, none, all, end_c);
        if h_text {
            let end_h = H::parse(input, at_h)->Ok_0.1;
            let two = with_block(1, one, all);
            assert(earlier_idle::<C, H, InitGeneric<I>>(1, input, at_h, one));
            lemma_search_takes::<C, H, InitGeneric<I>>(1, input, at_h, one, all, end_h);
            assert(earlier_idle::<C, H, InitGeneric<I>>(2, input, at_i, two));
            lemma_search_takes::<C, H, InitGeneric<I>>(2, input, at_i, two, all, end_i);
            lemma_search_done::<C, H, InitGeneric<I>>(input, end, all);
        } else {
            assert(earlier_idle::<C, H, InitGeneric<I>>(2, input, at_i, one)) by {
                assert(block_idle::<C, H, InitGeneric<I>>(1, input, at_i));
            }
            lemma_search_takes::<C, H, InitGeneric<I>>(2, input, at_i, one, all, end_i);
            lemma_search_settles::<C, H, InitGeneric<I>>(input, end, with_block(2, one, all), all);
        }
    } else {
        if h_text {
            let end_h = H::parse(input, at_h)->Ok_0.1;
            let one = with_block(1, none, all);
            assert(earlier_idle::<C, H, InitGeneric<I>>(1, input, at_h, none)) by {
                assert(block_idle::<C, H, InitGeneric<I>>(0, input, at_h));
            }
            lemma_search_takes::<C, H, InitGeneric<I>>(1, input, at_h, none, all, end_h);
            assert(earlier_idle::<C, H, InitGeneric<I>>(2, input, at_i, one)) by {
                assert(block_idle::<C, H, InitGeneric<I>>(0, input, at_i));
            }
            lemma_search_takes::<C, H, InitGeneric<I>>(2, input, at_i, one, all, end_i);
            lemma_search_settles::<C, H, InitGeneric<I>>(input, end, with_block(2, one, all), all);
        } else {
            assert(earlier_idle::<C, H, InitGeneric<I>>(2, input, at_i, none)) by {
                assert(block_idle::<C, H, InitGeneric<I>>(0, input, at_i));
                assert(block_idle::<C, H, InitGeneric<I>>(1, input, at_i));
            }
            lemma_search_takes::<C, H, InitGeneric<I>>(2, input, at_i, none, all, end_i);
            lemma_search_settles::<C, H, InitGeneric<I>>(input, end, with_block(2, none, all), all);
        }
    }
}

/// How a comment or a header reads in a file: where it has a text, at the
/// place of its text; where it has none, as absent at the place `at_i` of
/// the init block and at the place `end` behind it.
pub proof fn lemma_trio_block<T: Codec>(v: T::V, input: Seq<u8>, at: int, at_i: int, end: int)
    requires
        T::canonical(v),
        stands(input, at, T::lhe_bytes(v)),
        T::delimited(input, at + T::lhe_bytes(v).len()),
        T::lhe_bytes(v).len() > 0 ==> !is_space(T::lhe_bytes(v)[0]),
        T::delimited(input, at_i),
        T::delimited(input, end),
        0 <= at <= input.len(),
        0 <= at_i <= input.len(),
        0 <= end <= input.len(),
        skip_spaces(input, at + T::lhe_bytes(v).len()) == at + T::lhe_bytes(v).len(),
        skip_spaces(input, at_i) == at_i,
        skip_spaces(input, end) == end,
    ensures
        T::lhe_bytes(v).len() > 0 ==> reads_present::<T>(v, input, at, at + T::lhe_bytes(v).len())
            && skip_spaces(input, at) == at,
        T::lhe_bytes(v).len() == 0 ==> reads_absent::<T>(v, input, at) && reads_absent::<T>(
            v,
            input,
            at_i,
        ) && reads_absent::<T>(v, input, end),
{
    if T::lhe_bytes(v).len() > 0 {
        lemma_block_present::<T>(v, input, at);
        lemma_stands(input, at, T::lhe_bytes(v));
        assert(input[at + 0] == T::lhe_bytes(v)[0]);
        lemma_skip_none(input, at);
    } else {
        lemma_block_absent::<T>(v, input, at);
        lemma_block_absent::<T>(v, input, at_i);
        lemma_block_absent::<T>(v, input, end);
    }
}

/// The init block reads where its text stands, in front of an opening angle.
pub proof fn lemma_init_once<I: Codec>(init: InitView<I::V>, input: Seq<u8>, at: int)
    requires
        InitGeneric::<I>::canonical(init),
        stands(input, at, InitGeneric::<I>::lhe_bytes(init)),
        angle_at(input, at + InitGeneric::<I>::lhe_bytes(init).len()),
    ensures
        reads_present::<InitGeneric<I>>(init, input, at, at + InitGeneric::<I>::lhe_bytes(init).len()),
        has_at(input, at, INIT_OPEN@),
        skip_spaces(input, at) == at,
        skip_spaces(input, at + InitGeneric::<I>::lhe_bytes(init).len()) == at + InitGeneric::<
            I,
        >::lhe_bytes(init).len(),
{
    lemma_init_starts::<I>(init, input, at);
    lemma_skip_none(input, at);
    lemma_stands(input, at, InitGeneric::<I>::lhe_bytes(init));
    InitGeneric::<I>::lemma_round_trip(init, input, at);
    InitGeneric::<I>::lemma_field_end(input, at);
    lemma_skip_none(input, at + InitGeneric::<I>::lhe_bytes(init).len());
}

/// The comment, the header and the init block read back where their texts
/// stand one behind the other, in front of an event or of the end of the file.
pub proof fn lemma_trio<C: Codec, H: Codec, I: Codec>(
    c: C::V,
    h: H::V,
    init: InitView<I::V>,
    input: Seq<u8>,
    pos: int,
)
    requires
        C::canonical(c),
        H::canonical(h),
        InitGeneric::<I>::canonical(init),
        trio_codec::<C, H>(),
        stands(input, pos, C::lhe_bytes(c) + H::lhe_bytes(h) + InitGeneric::<I>::lhe_bytes(init)),
        ({
            let end = pos + (C::lhe_bytes(c) + H::lhe_bytes(h) + InitGeneric::<I>::lhe_bytes(init)).len();
            has_at(input, end, EVENT_OPEN@) || has_at(input, end, FILE_CLOSE@)
        }),
    ensures
        trio_at::<C, H, I>(input, skip_spaces(input, pos)) == Ok::<
            ((C::V, H::V, InitView<I::V>), int),
            Failure,
        >(
            (
                (c, h, init),
                pos + (C::lhe_bytes(c) + H::lhe_bytes(h) + InitGeneric::<I>::lhe_bytes(init)).len(),
            ),
        ),
{
    let tc = C::lhe_bytes(c);
    let th = H::lhe_bytes(h);
    let ti = InitGeneric::<I>::lhe_bytes(init);
    let at_h = pos + tc.len();
    let at_i = at_h + th.len();
    let end = at_i + ti.len();
    lemma_stands_split(input, pos, tc + th, ti);
    lemma_stands_split(input, pos, tc, th);
    assert(angle_at(input, end) && C::delimited(input, end) && H::delimited(input, end)) by {
        if has_at(input, end, EVENT_OPEN@) {
            assert(input[end + 0] == EVENT_OPEN@[0]);
        } else {
            assert(input[end + 0] == FILE_CLOSE@[0]);
        }
    }
    lemma_skip_none(input, end);
    lemma_init_once::<I>(init, input, at_i);
    assert(C::delimited(input, at_i) && H::delimited(input, at_i));
    assert(C::delimited(input, at_h)) by {
        if th.len() > 0 {
            lemma_stands(input, at_h, th);
        }
    }
    assert(0 <= pos && end <= input.len()) by {
        lemma_stands(input, pos, tc);
        lemma_stands(input, at_i, ti);
    }
    assert(skip_spaces(input, at_h) == at_h) by {
        if th.len() > 0 {
            lemma_stands(input, at_h, th);
            assert(input[at_h + 0] == th[0]);
            lemma_skip_none(input, at_h);
        }
    }
    lemma_trio_block::<H>(h, input, at_h, at_i, end);
    lemma_trio_block::<C>(c, input, pos, at_i, end);
    assert(skip_spaces(input, pos) == pos);
    lemma_trio_search::<C, H, I>((c, h, init), input, pos, at_h, at_i, end, tc.len() > 0, th.len() > 0);
}

/// The files that read back as themselves: the version holds no double
/// quote; the comment, the header, the init block and every event read
/// back; and the types of the comment and of the header grant what the
/// search for the blocks needs.
#[verifier::opaque]
pub open spec fn file_canonical<C: Codec, H: Codec, I: Codec, E: Codec>(
    v: FileView<C::V, H::V, I::V, E::V>,
) -> bool {
    &&& version_ok(v.version)
    &&& C::canonical(v.comment)
    &&& H::canonical(v.header)
    &&& InitGeneric::<I>::canonical(v.init)
    &&& all_canonical::<EventGeneric<E>>(v.events)
    &&& trio_codec::<C, H>()
}

/// Behind the init block of a file stands an event or the end of the file.
proof fn lemma_behind_init<E: WriteLhe>(events: Seq<EventView<E::V>>, input: Seq<u8>, at: int)
    requires
        stands(input, at, rows_bytes::<EventGeneric<E>>(events)),
        stands(input, at + rows_bytes::<EventGeneric<E>>(events).len(), FILE_CLOSE@),
    ensures
        has_at(input, at, EVENT_OPEN@) || has_at(input, at, FILE_CLOSE@),
        crate::rows::rows_len::<EventGeneric<E>>(events, 0) == 0,
{
    assert(events.subrange(0, 0) =~= Seq::<EventView<E::V>>::empty());
    if events.len() > 0 {
        lemma_rows_prefix_stands::<EventGeneric<E>>(events, 0, input, at);
        lemma_event_starts::<E>(events[0], input, at);
    } else {
        lemma_stands(input, at, FILE_CLOSE@);
    }
}

/// The tag that closes a file is read where it stands.
proof fn lemma_closing(input: Seq<u8>, at: int)
    requires
        stands(input, at, closing_bytes()),
    ensures
        stands(input, at, FILE_CLOSE@),
        ws_tag(input, at, FILE_CLOSE@) == Ok::<int, Failure>(
            skip_spaces(input, at + closing_bytes().len()),
        ),
{
    lemma_stands_split(input, at, FILE_CLOSE@, seq![10u8]);
    lemma_file_ends(input, at);
    lemma_stands(input, at, FILE_CLOSE@);
    lemma_stands(input, at + FILE_CLOSE@.len(), seq![10u8]);
    assert(input[at + FILE_CLOSE@.len() + 0] == seq![10u8][0]);
    lemma_skip_one(input, at + FILE_CLOSE@.len());
}

impl<C: Codec, H: Codec, I: Codec, E: Codec> Codec for LheFileGeneric<C, H, I, E> {
    open spec fn canonical(v: FileView<C::V, H::V, I::V, E::V>) -> bool {
        file_canonical::<C, H, I, E>(v)
    }

    /// The closing tag ends the text.
    open spec fn delimited(input: Seq<u8>, at: int) -> bool {
        true
    }

    proof fn lemma_round_trip(v: FileView<C::V, H::V, I::V, E::V>, input: Seq<u8>, pos: int) {
        reveal(file_canonical);
        reveal(file_at);
        reveal(file_bytes);
        let open = opening_bytes(v.version);
        let tc = C::lhe_bytes(v.comment);
        let th = H::lhe_bytes(v.header);
        let ti = InitGeneric::<I>::lhe_bytes(v.init);
        let te = rows_bytes::<EventGeneric<E>>(v.events);
        let close = closing_bytes();
        let at_c = pos + open.len();
        let at_h = at_c + tc.len();
        let at_i = at_h + th.len();
        let at_e = at_i + ti.len();
        let at_k = at_e + te.len();
        lemma_stands(input, pos, open + tc + th + ti + te + close);
        lemma_stands_split(input, pos, open + tc + th + ti + te, close);
        lemma_stands_split(input, pos, open + tc + th + ti, te);
        lemma_stands_split(input, pos, open + tc + th, ti);
        lemma_stands_split(input, pos, open + tc, th);
        lemma_stands_split(input, pos, open, tc);
        lemma_stands_join(input, at_c, tc, th);
        lemma_stands_join(input, at_c, tc + th, ti);
        lemma_opening(v.version, input, pos);
        lemma_closing(input, at_k);
        lemma_behind_init::<E>(v.events, input, at_e);
        lemma_trio::<C, H, I>(v.comment, v.header, v.init, input, at_c);
        lemma_events_from::<E>(v.events, 0, input, at_e);
        assert(v.events.subrange(0, 0) =~= Seq::<EventView<E::V>>::empty());
        lemma_skip_twice(input, pos + Self::lhe_bytes(v).len());
    }
}

/// The values of a file are fit to read back: the version holds no double
/// quote, and the comment, the header, the init block and every event hold
/// values that are fit.
pub open spec fn file_values_ok<C: Codec, H: Codec, I: Codec, E: Codec>(
    v: FileView<C::V, H::V, I::V, E::V>,
) -> bool {
    &&& version_ok(v.version)
    &&& C::canonical(v.comment)
    &&& H::canonical(v.header)
    &&& init_values_ok::<I>(v.init)
    &&& forall|i: int| 0 <= i < v.events.len() ==> event_values_ok::<E>(#[trigger] v.events[i])
}

/// The types that fill the four slots of a file grant what reading back
/// needs: the closing tags delimit the extra slots, and the comment and the
/// header get along with the blocks around them.
pub open spec fn slots_ok<C: Codec, H: Codec, I: Codec, E: Codec>() -> bool {
    &&& trio_codec::<C, H>()
    &&& closed_by::<I>(INIT_CLOSE@)
    &&& closed_by::<E>(EVENT_CLOSE@)
}

/// Round trip: a file whose values are fit, written and read again, gives
/// the same file. Wherever the text of the file stands in an input, reading
/// there gives the file back, and the read ends behind the text.
pub proof fn lemma_file_round_trip<C: Codec, H: Codec, I: Codec, E: Codec>(
    v: FileView<C::V, H::V, I::V, E::V>,
    input: Seq<u8>,
    pos: int,
)
    requires
        file_values_ok::<C, H, I, E>(v),
        slots_ok::<C, H, I, E>(),
        has_at(input, pos, LheFileGeneric::<C, H, I, E>::lhe_bytes(v)),
    ensures
        reads_back::<LheFileGeneric<C, H, I, E>>(input, pos, v),
{
    assert(file_canonical::<C, H, I, E>(v)) by {
        reveal(file_canonical);
        reveal(init_canonical);
        reveal(event_canonical);
        assert forall|i: int| 0 <= i < v.events.len() implies EventGeneric::<E>::canonical(
            #[trigger] v.events[i],
        ) by {
            assert(event_values_ok::<E>(v.events[i]));
        }
    }
    LheFileGeneric::<C, H, I, E>::lemma_round_trip(v, input, pos);
}

/// The text of a file starts with an opening angle.
pub proof fn lemma_file_starts<C: WriteLhe, H: WriteLhe, I: WriteLhe, E: WriteLhe>(
    v: FileView<C::V, H::V, I::V, E::V>,
    input: Seq<u8>,
    pos: int,
)
    requires
        stands(input, pos, LheFileGeneric::<C, H, I, E>::lhe_bytes(v)),
    ensures
        angle_at(input, pos),
{
    reveal(file_bytes);
    let open = opening_bytes(v.version);
    let tc = C::lhe_bytes(v.comment);
    let th = H::lhe_bytes(v.header);
    let ti = InitGeneric::<I>::lhe_bytes(v.init);
    let te = rows_bytes::<EventGeneric<E>>(v.events);
    lemma_stands_split(input, pos, open + tc + th + ti + te, closing_bytes());
    lemma_stands_split(input, pos, open + tc + th + ti, te);
    lemma_stands_split(input, pos, open + tc + th, ti);
    lemma_stands_split(input, pos, open + tc, th);
    lemma_stands_split(input, pos, open, tc);
    lemma_stands(input, pos, open);
    assert(input[pos + 0] == open[0]);
    assert(open[0] == FILE_OPEN@[0]);
}

/// The read of a file ends at a place that holds no separator, inside the input.
pub proof fn lemma_file_end<C: ReadLhe, H: ReadLhe, I: ReadLhe, E: ReadLhe>(input: Seq<u8>, pos: int)
    ensures
        LheFileGeneric::<C, H, I, E>::parse(input, pos) matches Ok((_, end)) ==> skip_spaces(input, end)
            == end && end <= input.len(),
{
    reveal(file_at);
    match opening_at(input, pos) {
        Err(e) => {},
        Ok((version, q1)) => match trio_at::<C, H, I>(input, q1) {
            Err(e) => {},
            Ok((found, q2)) => match events_from::<E>(input, q2, Seq::empty()) {
                Err(e) => {},
                Ok((events, q3)) => {
                    let at = skip_spaces(input, q3);
                    lemma_skip_twice(input, at + FILE_CLOSE@.len());
                    lemma_skip_spaces_bounds(input, at + FILE_CLOSE@.len());
                },
            },
        },
    }
}

/// A file written alone reads back from its first byte, and the read takes
/// all of the text.
pub proof fn lemma_file_alone<C: Codec, H: Codec, I: Codec, E: Codec>(v: FileView<C::V, H::V, I::V, E::V>)
    requires
        file_values_ok::<C, H, I, E>(v),
        slots_ok::<C, H, I, E>(),
    ensures
        LheFileGeneric::<C, H, I, E>::parse(LheFileGeneric::<C, H, I, E>::lhe_bytes(v), 0) == Ok::<
            (FileView<C::V, H::V, I::V, E::V>, int),
            Failure,
        >((v, LheFileGeneric::<C, H, I, E>::lhe_bytes(v).len() as int)),
{
    let text = LheFileGeneric::<C, H, I, E>::lhe_bytes(v);
    assert(has_at(text, 0, text)) by {
        assert forall|i: int| 0 <= i < text.len() implies text[0 + i] == #[trigger] text[i] by {}
    }
    assert(skip_spaces(text, 0) == 0) by {
        lemma_stands(text, 0, text);
        lemma_file_starts::<C, H, I, E>(v, text, 0);
        lemma_skip_none(text, 0);
    }
    assert(reads_back::<LheFileGeneric<C, H, I, E>>(text, 0, v)) by {
        lemma_file_round_trip::<C, H, I, E>(v, text, 0);
    }
    lemma_skip_none(text, text.len() as int);
    lemma_file_end::<C, H, I, E>(text, 0);
}

/// Count invariant of the init block: as many rows are read as the first
/// line says.
pub proof fn lemma_init_count<E: ReadLhe>(input: Seq<u8>, pos: int)
    ensures
        InitGeneric::<E>::parse(input, pos) matches Ok((v, _)) ==> (init_head_at(input, pos) matches Ok(
            ((_, n), _),
        ) && v.process_info.len() == n),
{
    reveal(init_at);
    match init_head_at(input, pos) {
        Err(e) => {},
        Ok(((head, n), q1)) => {
            crate::rows::lemma_rows_count::<ProcInfo>(input, q1, n, Seq::empty());
        },
    }
}

/// Count invariant of an event: as many rows are read as the first line says.
pub proof fn lemma_event_count<E: ReadLhe>(input: Seq<u8>, pos: int)
    ensures
        EventGeneric::<E>::parse(input, pos) matches Ok((v, _)) ==> (event_head_at(input, pos) matches Ok(
            ((_, n), _),
        ) && v.particles.len() == n),
{
    reveal(event_at);
    match event_head_at(input, pos) {
        Err(e) => {},
        Ok(((head, n), q1)) => {
            crate::rows::lemma_rows_count::<Particle>(input, q1, n, Seq::empty());
        },
    }
}

} // verus!
