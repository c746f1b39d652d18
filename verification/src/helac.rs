//! Extra slots for the files of HELAC-NLO.
//!
//! The generator writes one line per kind of information, each starting with
//! a hash sign and a keyword. The lines of one slot may stand in any order.

use crate::{PdgId, ReadLhe, WriteLhe};
use crate::block::{blocks2, blocks3, permutation2, permutation3};
use crate::codec::{
    Codec, lemma_float_piece, lemma_int_list, lemma_int_lists, lemma_int_piece,
    lemma_pair_in_order, lemma_pair_reversed, lemma_skip_one, lemma_skip_twice, lemma_stands,
    lemma_stands_split, lemma_tag_piece, lemma_trio_in_order, stands,
};
use crate::error::{Expected, ExpectedView, Failure, IntWidth, ParseError, WriteError};
use crate::float::{Float, ws_float_field, zero_text};
use crate::generic::{LheFileGeneric, slots_ok};
use crate::items::lemma_items_spaced;
use crate::lexer::{
    add_byte, add_i64, add_u64, decimal, delimited, has_at, is_float_token, is_space,
    lemma_appended, put_bytes, put_i64, put_u64, read_delimited, read_ws_tag, skip_spaces,
    skip_whitespace, ws_float, ws_i64, ws_i8, ws_int, ws_tag, ws_u64, ws_u8,
};
use crate::plain::{COMMENT_CLOSE, COMMENT_OPEN};
use crate::rows::{all_canonical, read_rows, repeat, rows_bytes, views, write_rows};
use crate::text::{
    block_bytes, block_text_ok, lemma_block_reads, lemma_block_starts, one_line, read_text,
    text_at, write_block,
};
use vstd::prelude::*;

verus! {

/// A file of real emissions and subtraction terms.
pub type LheFileRS = LheFileGeneric<Comment, Header, InitExtraRS, EventExtraRS>;

/// A file of the integrated dipoles.
pub type LheFileI = LheFileGeneric<Comment, Header, PdfSum, EventExtraI>;

/// A file of the K and P operators.
pub type LheFileKP = LheFileGeneric<Comment, Header, PdfSumKP, EventExtraKP>;

/// A file at one loop.
pub type LheFile1loop = LheFileGeneric<Comment, Header, InitExtra1loop, EventExtra1loop>;

/// The sign that starts a line of extra information.
pub const HASH: [u8; 1] = [35];

/// The keyword of the line of parton pairs.
pub const SUMPDF: [u8; 6] = [83, 85, 77, 80, 68, 70];

/// The keyword of the line of the dipole map.
pub const DIPMAP: [u8; 6] = [68, 73, 80, 77, 65, 80];

/// The keyword of the line of the jet algorithm.
pub const JETALGO: [u8; 7] = [74, 69, 84, 65, 76, 71, 79];

/// The keyword of the line of the normalisation.
pub const NORM: [u8; 4] = [78, 79, 82, 77];

/// The keyword of the line of the parton distributions of an event.
pub const PDF: [u8; 3] = [112, 100, 102];

/// The keyword of the line of the matrix elements of an event.
pub const ME: [u8; 2] = [109, 101];

/// The keyword of the line of the jets of an event.
pub const JET: [u8; 3] = [106, 101, 116];

/// The comment of the file, which has to be there.
#[derive(Clone, Debug, PartialEq)]
pub struct Comment(pub String);

impl View for Comment {
    type V = Seq<char>;

    open spec fn view(&self) -> Seq<char> {
        self.0@
    }
}

impl ReadLhe for Comment {
    /// The text between the tags of a comment.
    open spec fn parse(input: Seq<u8>, pos: int) -> Result<(Seq<char>, int), Failure> {
        match delimited(input, pos, COMMENT_OPEN@, COMMENT_CLOSE@) {
            Err(e) => Err(e),
            Ok(((start, at), end)) => match text_at(input, start, at) {
                Err(e) => Err(e),
                Ok(text) => Ok((text, end)),
            },
        }
    }

    fn read_from_lhe(input: &[u8], pos: usize) -> (r: Result<(Comment, usize), ParseError>) {
        match read_delimited(input, pos, COMMENT_OPEN.as_slice(), COMMENT_CLOSE.as_slice()) {
            Err(e) => Err(e),
            Ok(((start, at), end)) => match read_text(input, start, at) {
                Err(e) => Err(e),
                Ok(text) => Ok((Comment(text), end)),
            },
        }
    }
}

impl WriteLhe for Comment {
    open spec fn writable(v: Seq<char>) -> bool {
        true
    }

    open spec fn lhe_bytes(v: Seq<char>) -> Seq<u8> {
        block_bytes(COMMENT_OPEN@, v, COMMENT_CLOSE@)
    }

    fn write_lhe(&self, out: &mut Vec<u8>) -> (r: Result<(), WriteError>) {
        write_block(COMMENT_OPEN.as_slice(), self.0.as_str(), COMMENT_CLOSE.as_slice(), out);
        Ok(())
    }
}

impl Codec for Comment {
    /// The text reads back from its block.
    open spec fn canonical(v: Seq<char>) -> bool {
        block_text_ok(v, COMMENT_CLOSE@)
    }

    /// The block ends itself.
    open spec fn delimited(input: Seq<u8>, at: int) -> bool {
        true
    }

    proof fn lemma_round_trip(v: Seq<char>, input: Seq<u8>, pos: int) {
        assert(one_line(COMMENT_CLOSE@));
        lemma_block_reads(input, pos, COMMENT_OPEN@, v, COMMENT_CLOSE@);
        assert(input[pos + 0] == COMMENT_OPEN@[0]);
        crate::codec::lemma_skip_none(input, pos);
        lemma_skip_one(input, pos + Self::lhe_bytes(v).len() - 1);
    }
}

impl Comment {
    /// Whether the value reads back as itself.
    pub fn is_canonical(&self) -> (r: bool)
        ensures
            r == <Comment as Codec>::canonical(self@),
    {
        crate::text::fits_block(self.0.as_str(), COMMENT_CLOSE.as_slice())
    }
}

/// The types that fill the slots of these files grant what a file needs to
/// read back.
pub proof fn lemma_helac_slots()
    ensures
        slots_ok::<Comment, Header, InitExtraRS, EventExtraRS>(),
        slots_ok::<Comment, Header, PdfSum, EventExtraI>(),
        slots_ok::<Comment, Header, PdfSumKP, EventExtraKP>(),
        slots_ok::<Comment, Header, InitExtra1loop, EventExtra1loop>(),
{
    assert forall|c: Seq<char>|
        Comment::canonical(c) && (#[trigger] Comment::lhe_bytes(c)).len() > 0 implies !is_space(
            Comment::lhe_bytes(c)[0],
        ) by {
        lemma_block_starts(COMMENT_OPEN@, c, COMMENT_CLOSE@);
    }
}

/// The header of these files: there is none.
#[derive(Clone, Debug, PartialEq)]
pub struct Header {}

impl View for Header {
    type V = ();

    open spec fn view(&self) -> () {
        ()
    }
}

impl ReadLhe for Header {
    open spec fn parse(input: Seq<u8>, pos: int) -> Result<((), int), Failure> {
        Ok(((), pos))
    }

    fn read_from_lhe(input: &[u8], pos: usize) -> (r: Result<(Header, usize), ParseError>) {
        Ok((Header {  }, pos))
    }
}

impl WriteLhe for Header {
    open spec fn writable(v: ()) -> bool {
        true
    }

    open spec fn lhe_bytes(v: ()) -> Seq<u8> {
        Seq::empty()
    }

    fn write_lhe(&self, out: &mut Vec<u8>) -> (r: Result<(), WriteError>) {
        assert(out@ =~= old(out)@ + Seq::<u8>::empty());
        Ok(())
    }
}

impl Codec for Header {
    open spec fn canonical(v: ()) -> bool {
        true
    }

    /// Nothing is written and nothing is read: whatever follows will do.
    open spec fn delimited(input: Seq<u8>, at: int) -> bool {
        true
    }

    proof fn lemma_round_trip(v: (), input: Seq<u8>, pos: int) {
        lemma_skip_twice(input, pos);
    }
}

/// The pairs of partons that the parton distributions are summed over.
#[derive(Clone, Debug, PartialEq)]
pub struct PdfSum {
    pub pdf_sum_pairs: Vec<(PdgId, PdgId)>,
}

/// The mathematical form of [`PdfSum`].
pub ghost struct PdfSumView {
    pub pdf_sum_pairs: Seq<(i64, i64)>,
}

impl View for PdfSum {
    type V = PdfSumView;

    open spec fn view(&self) -> PdfSumView {
        PdfSumView { pdf_sum_pairs: views(self.pdf_sum_pairs@) }
    }
}

impl ReadLhe for PdfSum {
    /// The hash sign, the keyword, the number of pairs, and as many pairs.
    open spec fn parse(input: Seq<u8>, pos: int) -> Result<(PdfSumView, int), Failure> {
        match ws_tag(input, pos, HASH@) {
            Err(e) => Err(e),
            Ok(q1) => match ws_tag(input, q1, SUMPDF@) {
                Err(e) => Err(e),
                Ok(q2) => match ws_int(input, q2, IntWidth::U64) {
                    Err(e) => Err(e),
                    Ok((n, q3)) => match repeat::<(i64, i64)>(input, q3, n as nat) {
                        Err(e) => Err(e),
                        Ok((pdf_sum_pairs, q4)) => Ok((PdfSumView { pdf_sum_pairs }, q4)),
                    },
                },
            },
        }
    }

    fn read_from_lhe(input: &[u8], pos: usize) -> (r: Result<(PdfSum, usize), ParseError>) {
        let p = match read_ws_tag(input, pos, HASH.as_slice()) {
            Ok(p) => p,
            Err(e) => return Err(e),
        };
        let p = match read_ws_tag(input, p, SUMPDF.as_slice()) {
            Ok(p) => p,
            Err(e) => return Err(e),
        };
        let (n, p) = match ws_u64(input, p) {
            Ok(x) => x,
            Err(e) => return Err(e),
        };
        let (pdf_sum_pairs, p) = match read_rows::<(i64, i64)>(input, p, n) {
            Ok(x) => x,
            Err(e) => return Err(e),
        };
        Ok((PdfSum { pdf_sum_pairs }, p))
    }
}

impl WriteLhe for PdfSum {
    open spec fn writable(v: PdfSumView) -> bool {
        true
    }

    /// The number that is written is the number of pairs.
    open spec fn lhe_bytes(v: PdfSumView) -> Seq<u8> {
        Seq::<u8>::empty() + HASH@ + seq![32u8] + SUMPDF@ + seq![32u8] + decimal(
            v.pdf_sum_pairs.len() as int,
        ) + rows_bytes::<(i64, i64)>(v.pdf_sum_pairs) + seq![10u8]
    }

    fn write_lhe(&self, out: &mut Vec<u8>) -> (r: Result<(), WriteError>) {
        let ghost base = out@;
        let ghost mut acc = Seq::<u8>::empty();
        assert(out@ =~= base + acc);
        put_bytes(HASH.as_slice(), 32, out, Ghost(base), Ghost(acc));
        proof {
            acc = acc + HASH@ + seq![32u8];
        }
        put_bytes(SUMPDF.as_slice(), 32, out, Ghost(base), Ghost(acc));
        proof {
            acc = acc + SUMPDF@ + seq![32u8];
        }
        add_u64(self.pdf_sum_pairs.len() as u64, out, Ghost(base), Ghost(acc));
        proof {
            acc = acc + decimal(self.pdf_sum_pairs.len() as int);
        }
        let rows = write_rows::<(i64, i64)>(&self.pdf_sum_pairs, out);
        proof {
            assert(rows is Ok);
            lemma_appended(base, acc, rows_bytes::<(i64, i64)>(views(self.pdf_sum_pairs@)));
            acc = acc + rows_bytes::<(i64, i64)>(views(self.pdf_sum_pairs@));
        }
        add_byte(10, out, Ghost(base), Ghost(acc));
        Ok(())
    }
}

impl Codec for PdfSum {
    /// The number of pairs fits its field.
    open spec fn canonical(v: PdfSumView) -> bool {
        v.pdf_sum_pairs.len() <= u64::MAX
    }

    /// The text ends its last field itself.
    open spec fn delimited(input: Seq<u8>, at: int) -> bool {
        true
    }

    proof fn lemma_round_trip(v: PdfSumView, input: Seq<u8>, pos: int) {
        let t0 = Seq::<u8>::empty();
        let t1 = t0 + HASH@ + seq![32u8];
        let t2 = t1 + SUMPDF@ + seq![32u8];
        let pairs = v.pdf_sum_pairs;
        assert(Self::lhe_bytes(v) == t2 + decimal(pairs.len() as int) + rows_bytes::<(i64, i64)>(pairs)
            + seq![10u8]);
        lemma_stands(input, pos, Self::lhe_bytes(v));
        lemma_items_spaced();
        lemma_int_list::<(i64, i64)>(input, pos, t2, pairs.len() as int, IntWidth::U64, pairs, seq![10u8]);
        assert(!is_space(SUMPDF@[0]));
        lemma_tag_piece(input, pos, t1, SUMPDF@, 32);
        assert(!is_space(HASH@[0]));
        lemma_tag_piece(input, pos, t0, HASH@, 32);
        lemma_skip_one(input, pos + Self::lhe_bytes(v).len() - 1);
        lemma_skip_twice(input, pos + Self::lhe_bytes(v).len());
    }
}

/// The text of the line starts with the hash sign.
pub proof fn lemma_pdf_sum_starts(v: PdfSumView)
    ensures
        PdfSum::lhe_bytes(v).len() > 0,
        PdfSum::lhe_bytes(v)[0] == 35,
{
    let t1 = Seq::<u8>::empty() + HASH@;
    assert(t1[0] == 35);
    let t2 = t1 + seq![32u8];
    assert(t2[0] == 35);
    let t3 = t2 + SUMPDF@;
    assert(t3[0] == 35);
    let t4 = t3 + seq![32u8];
    assert(t4[0] == 35);
    let t5 = t4 + decimal(v.pdf_sum_pairs.len() as int);
    assert(t5[0] == 35);
    let t6 = t5 + rows_bytes::<(i64, i64)>(v.pdf_sum_pairs);
    assert(t6[0] == 35);
    let t7 = t6 + seq![10u8];
    assert(t7[0] == 35);
}

/// Where the line of the normalisation stands, the line of the parton pairs
/// is not read.
pub proof fn lemma_pdf_sum_idle(v: NormView, input: Seq<u8>, pos: int)
    requires
        stands(input, pos, Norm::lhe_bytes(v)),
    ensures
        PdfSum::parse(input, pos) is Err,
{
    reveal(norm_bytes);
    let t1 = Seq::<u8>::empty() + HASH@ + seq![32u8];
    let t2 = t1 + NORM@ + seq![32u8];
    let rest = decimal(v.n_unweighted_events as int) + seq![32u8] + v.alpha + seq![32u8] + v.alpha_err
        + seq![10u8];
    let text = Norm::lhe_bytes(v);
    lemma_stands(input, pos, text);
    assert(text[0] == 35 && text[1] == 32 && text[2] == 78) by {
        let a = Seq::<u8>::empty() + HASH@ + seq![32u8] + NORM@;
        assert(a[0] == 35 && a[1] == 32 && a[2] == 78);
        let b = a + seq![32u8];
        assert(b[2] == 78 && b[1] == 32 && b[0] == 35);
        let c = b + decimal(v.n_unweighted_events as int);
        assert(c[2] == 78 && c[1] == 32 && c[0] == 35);
        let d = c + seq![32u8];
        assert(d[2] == 78 && d[1] == 32 && d[0] == 35);
        let e = d + v.alpha;
        assert(e[2] == 78 && e[1] == 32 && e[0] == 35);
        let f = e + seq![32u8];
        assert(f[2] == 78 && f[1] == 32 && f[0] == 35);
        let g = f + v.alpha_err;
        assert(g[2] == 78 && g[1] == 32 && g[0] == 35);
        let h = g + seq![10u8];
        assert(h[2] == 78 && h[1] == 32 && h[0] == 35);
    }
    assert(input[pos + 0] == text[0]);
    assert(input[pos + 1] == text[1]);
    assert(input[pos + 2] == text[2]);
    crate::codec::lemma_skip_none(input, pos);
    crate::codec::lemma_skip_one(input, pos + 1);
    crate::codec::lemma_skip_none(input, pos + 2);
    assert(has_at(input, pos, HASH@));
    if has_at(input, pos + 2, SUMPDF@) {
        assert(input[pos + 2 + 0] == SUMPDF@[0]);
    }
}

/// The parton distributions of an event.
#[derive(Clone, Debug, PartialEq)]
pub struct PdfInfo {
    /// The momentum fraction of the first parton.
    pub x1: Float,
    /// The momentum fraction of the second parton.
    pub x2: Float,
    /// The factorisation scale.
    pub scale: Float,
}

/// The mathematical form of [`PdfInfo`].
pub ghost struct PdfInfoView {
    pub x1: Seq<u8>,
    pub x2: Seq<u8>,
    pub scale: Seq<u8>,
}

impl View for PdfInfo {
    type V = PdfInfoView;

    open spec fn view(&self) -> PdfInfoView {
        PdfInfoView {
            x1: self.x1@,
            x2: self.x2@,
            scale: self.scale@,
        }
    }
}

/// Reading the fields of the record one after the other at `pos`, each with
/// the separators around it.
#[verifier::opaque]
pub open spec fn pdf_info_at(input: Seq<u8>, pos: int) -> Result<(PdfInfoView, int), Failure> {
    match ws_tag(input, pos, HASH@) {
    Err(e) => Err(e),
    Ok(q1) => match ws_tag(input, q1, PDF@) {
    Err(e) => Err(e),
    Ok(q2) => match ws_float(input, q2) {
    Err(e) => Err(e),
    Ok((x1, q3)) => match ws_float(input, q3) {
    Err(e) => Err(e),
    Ok((x2, q4)) => match ws_float(input, q4) {
    Err(e) => Err(e),
    Ok((scale, q5)) => Ok((
        PdfInfoView {
            x1,
            x2,
            scale,
        },
        q5,
    ))
    }}}}}
}

impl ReadLhe for PdfInfo {
    open spec fn parse(input: Seq<u8>, pos: int) -> Result<(PdfInfoView, int), Failure> {
        pdf_info_at(input, pos)
    }

    fn read_from_lhe(input: &[u8], pos: usize) -> (r: Result<(PdfInfo, usize), ParseError>) {
        proof {
            reveal(pdf_info_at);
        }
        let p = pos;
        let p = match read_ws_tag(input, p, HASH.as_slice()) {
            Ok(p) => p,
            Err(e) => return Err(e),
        };
        let p = match read_ws_tag(input, p, PDF.as_slice()) {
            Ok(p) => p,
            Err(e) => return Err(e),
        };
        let (x1, p) = match ws_float_field(input, p) {
            Ok(x) => x,
            Err(e) => return Err(e),
        };
        let (x2, p) = match ws_float_field(input, p) {
            Ok(x) => x,
            Err(e) => return Err(e),
        };
        let (scale, p) = match ws_float_field(input, p) {
            Ok(x) => x,
            Err(e) => return Err(e),
        };
        Ok((
            PdfInfo {
                x1,
                x2,
                scale,
            },
            p,
        ))
    }
}

/// The text of the record: its fields on one line, a space between them.
#[verifier::opaque]
pub open spec fn pdf_info_bytes(v: PdfInfoView) -> Seq<u8> {
    Seq::<u8>::empty()
        + HASH@
        + seq![32u8]
        + PDF@
        + seq![32u8]
        + v.x1
        + seq![32u8]
        + v.x2
        + seq![32u8]
        + v.scale
        + seq![10u8]
}

impl WriteLhe for PdfInfo {
    open spec fn writable(v: PdfInfoView) -> bool {
        true
    }

    open spec fn lhe_bytes(v: PdfInfoView) -> Seq<u8> {
        pdf_info_bytes(v)
    }

    fn write_lhe(&self, out: &mut Vec<u8>) -> (r: Result<(), WriteError>) {
        proof {
            reveal(pdf_info_bytes);
        }
        let ghost base = out@;
        let ghost mut acc = Seq::<u8>::empty();
        assert(out@ =~= base + acc);
        put_bytes(HASH.as_slice(), 32, out, Ghost(base), Ghost(acc));
        proof {
            acc = acc + HASH@ + seq![32u8];
        }
        put_bytes(PDF.as_slice(), 32, out, Ghost(base), Ghost(acc));
        proof {
            acc = acc + PDF@ + seq![32u8];
        }
        put_bytes(self.x1.as_bytes(), 32, out, Ghost(base), Ghost(acc));
        proof {
            acc = acc + self.x1@ + seq![32u8];
        }
        put_bytes(self.x2.as_bytes(), 32, out, Ghost(base), Ghost(acc));
        proof {
            acc = acc + self.x2@ + seq![32u8];
        }
        put_bytes(self.scale.as_bytes(), 10, out, Ghost(base), Ghost(acc));
        proof {
            acc = acc + self.scale@ + seq![10u8];
        }
        assert(acc =~= Self::lhe_bytes(self@));
        Ok(())
    }
}

impl Codec for PdfInfo {
    /// Every floating-point field holds a literal.
    open spec fn canonical(v: PdfInfoView) -> bool {
        &&& is_float_token(v.x1)
        &&& is_float_token(v.x2)
        &&& is_float_token(v.scale)
    }

    /// The text ends its last field itself.
    open spec fn delimited(input: Seq<u8>, at: int) -> bool {
        true
    }

    proof fn lemma_round_trip(v: PdfInfoView, input: Seq<u8>, pos: int) {
        reveal(pdf_info_at);
        reveal(pdf_info_bytes);
        let t0 = Seq::<u8>::empty();
        let t1 = t0 + HASH@ + seq![32u8];
        let t2 = t1 + PDF@ + seq![32u8];
        let t3 = t2 + v.x1 + seq![32u8];
        let t4 = t3 + v.x2 + seq![32u8];
        let t5 = t4 + v.scale + seq![10u8];
        assert(Self::lhe_bytes(v) == t5);
        lemma_stands(input, pos, t5);
        lemma_float_piece(input, pos, t4, v.scale, 10);
        lemma_float_piece(input, pos, t3, v.x2, 32);
        lemma_float_piece(input, pos, t2, v.x1, 32);
        assert(!is_space(PDF@[0]));
        lemma_tag_piece(input, pos, t1, PDF@, 32);
        assert(!is_space(HASH@[0]));
        lemma_tag_piece(input, pos, t0, HASH@, 32);
        lemma_skip_twice(input, pos + t5.len());
    }
}

/// The text of the record starts with the hash sign.
pub proof fn lemma_pdf_info_starts(v: PdfInfoView)
    ensures
        pdf_info_bytes(v).len() > 0,
        pdf_info_bytes(v)[0] == 35,
{
    reveal(pdf_info_bytes);
    let t0 = Seq::<u8>::empty();
    let t1 = t0 + HASH@;
    assert(t1[0] == 35);
    let t2 = t1 + seq![32u8];
    assert(t2[0] == 35);
    let t3 = t2 + PDF@;
    assert(t3[0] == 35);
    let t4 = t3 + seq![32u8];
    assert(t4[0] == 35);
    let t5 = t4 + v.x1;
    assert(t5[0] == 35);
    let t6 = t5 + seq![32u8];
    assert(t6[0] == 35);
    let t7 = t6 + v.x2;
    assert(t7[0] == 35);
    let t8 = t7 + seq![32u8];
    assert(t8[0] == 35);
    let t9 = t8 + v.scale;
    assert(t9[0] == 35);
    let t10 = t9 + seq![10u8];
    assert(t10[0] == 35);
}

/// What the init block of a file of real emissions and subtraction terms adds.
#[derive(Clone, Debug, PartialEq)]
pub struct InitExtraRS {
    pub pdf_sum: PdfSum,
    pub dip_map: DipMapInfo,
    pub jet_algo: JetAlgoInfo,
}

/// The mathematical form of [`InitExtraRS`].
pub ghost struct InitExtraRSView {
    pub pdf_sum: PdfSumView,
    pub dip_map: DipMapInfoView,
    pub jet_algo: JetAlgoInfoView,
}

impl View for InitExtraRS {
    type V = InitExtraRSView;

    open spec fn view(&self) -> InitExtraRSView {
        InitExtraRSView { pdf_sum: self.pdf_sum@, dip_map: self.dip_map@, jet_algo: self.jet_algo@ }
    }
}

impl ReadLhe for InitExtraRS {
    /// The blocks may stand in any order.
    open spec fn parse(input: Seq<u8>, pos: int) -> Result<(InitExtraRSView, int), Failure> {
        match blocks3::<PdfSum, DipMapInfo, JetAlgoInfo>(input, pos) {
            Err((_, e)) => Err(e),
            Ok(((pdf_sum, dip_map, jet_algo), end)) => Ok((InitExtraRSView { pdf_sum, dip_map, jet_algo }, end)),
        }
    }

    fn read_from_lhe(input: &[u8], pos: usize) -> (r: Result<(InitExtraRS, usize), ParseError>) {
        match permutation3::<PdfSum, DipMapInfo, JetAlgoInfo>(input, pos) {
            Err(e) => Err(e.error),
            Ok(((pdf_sum, dip_map, jet_algo), end)) => Ok((InitExtraRS { pdf_sum, dip_map, jet_algo }, end)),
        }
    }
}

impl WriteLhe for InitExtraRS {
    open spec fn writable(v: InitExtraRSView) -> bool {
        true
    }

    open spec fn lhe_bytes(v: InitExtraRSView) -> Seq<u8> {
        PdfSum::lhe_bytes(v.pdf_sum) + DipMapInfo::lhe_bytes(v.dip_map) + JetAlgoInfo::lhe_bytes(v.jet_algo)
    }

    fn write_lhe(&self, out: &mut Vec<u8>) -> (r: Result<(), WriteError>) {
        let ghost base = out@;
        let _ = self.pdf_sum.write_lhe(out);
        let ghost mut acc = PdfSum::lhe_bytes(self.pdf_sum@);
        let _ = self.dip_map.write_lhe(out);
        proof {
            lemma_appended(base, acc, DipMapInfo::lhe_bytes(self.dip_map@));
            acc = acc + DipMapInfo::lhe_bytes(self.dip_map@);
        }
        let _ = self.jet_algo.write_lhe(out);
        proof {
            lemma_appended(base, acc, JetAlgoInfo::lhe_bytes(self.jet_algo@));
            acc = acc + JetAlgoInfo::lhe_bytes(self.jet_algo@);
        }
        Ok(())
    }
}

impl Codec for InitExtraRS {
    /// Every line reads back.
    open spec fn canonical(v: InitExtraRSView) -> bool {
        PdfSum::canonical(v.pdf_sum) && DipMapInfo::canonical(v.dip_map) && JetAlgoInfo::canonical(v.jet_algo)
    }

    /// The last line ends itself.
    open spec fn delimited(input: Seq<u8>, at: int) -> bool {
        true
    }

    proof fn lemma_round_trip(v: InitExtraRSView, input: Seq<u8>, pos: int) {
        lemma_pdf_sum_starts(v.pdf_sum);
        lemma_dip_map_info_starts(v.dip_map);
        lemma_jet_algo_info_starts(v.jet_algo);
        lemma_stands(input, pos, Self::lhe_bytes(v));
        lemma_trio_in_order::<PdfSum, DipMapInfo, JetAlgoInfo>(v.pdf_sum, v.dip_map, v.jet_algo, input, pos);
        lemma_skip_twice(input, pos + Self::lhe_bytes(v).len());
    }
}

/// Reading one of the flags `T` and `F` at `pos`, with the separators before
/// and after it.
pub open spec fn flag_at(input: Seq<u8>, pos: int) -> Result<(bool, int), Failure> {
    let at = skip_spaces(input, pos);
    if at >= input.len() {
        Err(Failure::Incomplete)
    } else if at >= 0 && input[at] == 84 {
        Ok((true, skip_spaces(input, at + 1)))
    } else if at >= 0 && input[at] == 70 {
        Ok((false, skip_spaces(input, at + 1)))
    } else {
        Err(Failure::Syntax { expected: ExpectedView::Flag, position: at })
    }
}

/// Reads one of the flags `T` and `F`.
pub fn read_flag(input: &[u8], pos: usize) -> (r: Result<(bool, usize), ParseError>)
    ensures
        match r {
            Ok((v, end)) => flag_at(input@, pos as int) == Ok::<(bool, int), Failure>((v, end as int)),
            Err(e) => flag_at(input@, pos as int) == Err::<(bool, int), Failure>(e@),
        },
        r matches Ok((_, end)) ==> pos < end <= input.len(),
{
    let at = skip_whitespace(input, pos);
    if at >= input.len() {
        Err(ParseError::Incomplete)
    } else if input[at] == 84 {
        Ok((true, skip_whitespace(input, at + 1)))
    } else if input[at] == 70 {
        Ok((false, skip_whitespace(input, at + 1)))
    } else {
        Err(ParseError::Syntax { expected: Expected::Flag, position: at })
    }
}

/// The jet algorithm.
#[derive(Clone, Debug, PartialEq)]
pub struct JetAlgoInfo {
    pub algorithm_id: i8,
    pub n_bjets: u8,
    pub eta_max: Float,
    pub dr: Float,
    /// The veto on the transverse momentum, where there is one.
    pub pt_veto: Option<Float>,
}

/// The mathematical form of [`JetAlgoInfo`].
pub ghost struct JetAlgoInfoView {
    pub algorithm_id: i8,
    pub n_bjets: u8,
    pub eta_max: Seq<u8>,
    pub dr: Seq<u8>,
    pub pt_veto: Option<Seq<u8>>,
}

impl View for JetAlgoInfo {
    type V = JetAlgoInfoView;

    open spec fn view(&self) -> JetAlgoInfoView {
        JetAlgoInfoView {
            algorithm_id: self.algorithm_id,
            n_bjets: self.n_bjets,
            eta_max: self.eta_max@,
            dr: self.dr@,
            pt_veto: match self.pt_veto {
                Some(v) => Some(v@),
                None => None,
            },
        }
    }
}

impl ReadLhe for JetAlgoInfo {
    /// The hash sign, the keyword, four fields, a flag and the veto. The
    /// veto is kept where the flag is `T`.
    open spec fn parse(input: Seq<u8>, pos: int) -> Result<(JetAlgoInfoView, int), Failure> {
        match ws_tag(input, pos, HASH@) {
            Err(e) => Err(e),
            Ok(q1) => match ws_tag(input, q1, JETALGO@) {
                Err(e) => Err(e),
                Ok(q2) => match ws_int(input, q2, IntWidth::I8) {
                    Err(e) => Err(e),
                    Ok((algorithm_id, q3)) => match ws_int(input, q3, IntWidth::U8) {
                        Err(e) => Err(e),
                        Ok((n_bjets, q4)) => match ws_float(input, q4) {
                            Err(e) => Err(e),
                            Ok((eta_max, q5)) => match ws_float(input, q5) {
                                Err(e) => Err(e),
                                Ok((dr, q6)) => match flag_at(input, q6) {
                                    Err(e) => Err(e),
                                    Ok((has_veto, q7)) => match ws_float(input, q7) {
                                        Err(e) => Err(e),
                                        Ok((veto, q8)) => Ok(
                                            (
                                                JetAlgoInfoView {
                                                    algorithm_id: algorithm_id as i8,
                                                    n_bjets: n_bjets as u8,
                                                    eta_max,
                                                    dr,
                                                    pt_veto: if has_veto {
                                                        Some(veto)
                                                    } else {
                                                        None
                                                    },
                                                },
                                                q8,
                                            ),
                                        ),
                                    },
                                },
                            },
                        },
                    },
                },
            },
        }
    }

    fn read_from_lhe(input: &[u8], pos: usize) -> (r: Result<(JetAlgoInfo, usize), ParseError>) {
        let p = match read_ws_tag(input, pos, HASH.as_slice()) {
            Ok(p) => p,
            Err(e) => return Err(e),
        };
        let p = match read_ws_tag(input, p, JETALGO.as_slice()) {
            Ok(p) => p,
            Err(e) => return Err(e),
        };
        let (algorithm_id, p) = match ws_i8(input, p) {
            Ok(x) => x,
            Err(e) => return Err(e),
        };
        let (n_bjets, p) = match ws_u8(input, p) {
            Ok(x) => x,
            Err(e) => return Err(e),
        };
        let (eta_max, p) = match ws_float_field(input, p) {
            Ok(x) => x,
            Err(e) => return Err(e),
        };
        let (dr, p) = match ws_float_field(input, p) {
            Ok(x) => x,
            Err(e) => return Err(e),
        };
        let (has_veto, p) = match read_flag(input, p) {
            Ok(x) => x,
            Err(e) => return Err(e),
        };
        let (veto, p) = match ws_float_field(input, p) {
            Ok(x) => x,
            Err(e) => return Err(e),
        };
        let pt_veto = if has_veto {
            Some(veto)
        } else {
            None
        };
        Ok((JetAlgoInfo { algorithm_id, n_bjets, eta_max, dr, pt_veto }, p))
    }
}

impl WriteLhe for JetAlgoInfo {
    open spec fn writable(v: JetAlgoInfoView) -> bool {
        true
    }

    /// Where there is no veto, the flag is `F` and the literal `0.0` stands
    /// in the veto's place.
    open spec fn lhe_bytes(v: JetAlgoInfoView) -> Seq<u8> {
        Seq::<u8>::empty() + HASH@ + seq![32u8] + JETALGO@ + seq![32u8] + decimal(
            v.algorithm_id as int,
        ) + seq![32u8] + decimal(v.n_bjets as int) + seq![32u8] + v.eta_max + seq![32u8] + v.dr
            + seq![32u8] + veto_bytes(v.pt_veto) + seq![10u8]
    }

    fn write_lhe(&self, out: &mut Vec<u8>) -> (r: Result<(), WriteError>) {
        let ghost base = out@;
        let ghost mut acc = Seq::<u8>::empty();
        assert(out@ =~= base + acc);
        put_bytes(HASH.as_slice(), 32, out, Ghost(base), Ghost(acc));
        proof {
            acc = acc + HASH@ + seq![32u8];
        }
        put_bytes(JETALGO.as_slice(), 32, out, Ghost(base), Ghost(acc));
        proof {
            acc = acc + JETALGO@ + seq![32u8];
        }
        put_i64(self.algorithm_id as i64, 32, out, Ghost(base), Ghost(acc));
        proof {
            acc = acc + decimal(self.algorithm_id as int) + seq![32u8];
        }
        put_u64(self.n_bjets as u64, 32, out, Ghost(base), Ghost(acc));
        proof {
            acc = acc + decimal(self.n_bjets as int) + seq![32u8];
        }
        put_bytes(self.eta_max.as_bytes(), 32, out, Ghost(base), Ghost(acc));
        proof {
            acc = acc + self.eta_max@ + seq![32u8];
        }
        put_bytes(self.dr.as_bytes(), 32, out, Ghost(base), Ghost(acc));
        proof {
            acc = acc + self.dr@ + seq![32u8];
        }
        let ghost line = acc;
        match &self.pt_veto {
            Some(veto) => {
                out.push(84);
                out.push(32);
                crate::lexer::write_bytes(veto.as_bytes(), out);
                assert(out@ =~= base + (line + veto_bytes(Some(veto@))));
                proof {
                    acc = line + veto_bytes(Some(veto@));
                }
            },
            None => {
                let zero = Float::zero();
                out.push(70);
                out.push(32);
                crate::lexer::write_bytes(zero.as_bytes(), out);
                assert(out@ =~= base + (line + veto_bytes(None)));
                proof {
                    acc = line + veto_bytes(None);
                }
            },
        }
        add_byte(10, out, Ghost(base), Ghost(acc));
        Ok(())
    }
}

/// The flag and the veto at the end of the line of the jet algorithm.
pub open spec fn veto_bytes(veto: Option<Seq<u8>>) -> Seq<u8> {
    match veto {
        Some(veto) => seq![84u8, 32u8] + veto,
        None => seq![70u8, 32u8] + zero_text(),
    }
}

/// The flag and the veto that stand in front of a line feed read back.
pub proof fn lemma_veto_reads(input: Seq<u8>, at: int, veto: Option<Seq<u8>>)
    requires
        has_at(input, at, veto_bytes(veto) + seq![10u8]),
        veto matches Some(text) ==> is_float_token(text),
    ensures
        flag_at(input, at) matches Ok((flag, next)) && flag == (veto is Some) && ws_float(input, next)
            == Ok::<(Seq<u8>, int), Failure>(
            (
                match veto {
                    Some(text) => text,
                    None => zero_text(),
                },
                skip_spaces(input, at + (veto_bytes(veto) + seq![10u8]).len()),
            ),
        ),
{
    let text = match veto {
        Some(text) => text,
        None => zero_text(),
    };
    assert(is_float_token(text)) by {
        if veto is None {
            reveal_with_fuel(crate::lexer::digits_end, 3);
        }
    }
    let part = veto_bytes(veto);
    crate::codec::lemma_split(input, at, part, seq![10u8]);
    assert(input[at + part.len() + 0] == seq![10u8][0]);
    assert(input[at + 0] == part[0]);
    assert(input[at + 1] == part[1]);
    crate::codec::lemma_skip_none(input, at);
    crate::codec::lemma_skip_one(input, at + 1);
    crate::codec::lemma_float_first(text);
    assert(has_at(input, at + 2, text)) by {
        assert forall|i: int| 0 <= i < text.len() implies input[at + 2 + i] == #[trigger] text[i] by {
            assert(input[at + (2 + i)] == part[2 + i]);
        }
    }
    assert(input[at + 2 + 0] == text[0]);
    crate::codec::lemma_skip_none(input, at + 2);
    crate::codec::lemma_float_step(input, skip_spaces(input, at + 1), at + 2, text);
}

impl Codec for JetAlgoInfo {
    /// Every floating-point field holds a literal.
    open spec fn canonical(v: JetAlgoInfoView) -> bool {
        &&& is_float_token(v.eta_max)
        &&& is_float_token(v.dr)
        &&& v.pt_veto matches Some(veto) ==> is_float_token(veto)
    }

    /// The text ends its last field itself.
    open spec fn delimited(input: Seq<u8>, at: int) -> bool {
        true
    }

    proof fn lemma_round_trip(v: JetAlgoInfoView, input: Seq<u8>, pos: int) {
        let t0 = Seq::<u8>::empty();
        let t1 = t0 + HASH@ + seq![32u8];
        let t2 = t1 + JETALGO@ + seq![32u8];
        let t3 = t2 + decimal(v.algorithm_id as int) + seq![32u8];
        let t4 = t3 + decimal(v.n_bjets as int) + seq![32u8];
        let t5 = t4 + v.eta_max + seq![32u8];
        let t6 = t5 + v.dr + seq![32u8];
        let part = veto_bytes(v.pt_veto);
        assert(Self::lhe_bytes(v) == t6 + part + seq![10u8]);
        lemma_stands(input, pos, t6 + part + seq![10u8]);
        lemma_stands_split(input, pos, t6 + part, seq![10u8]);
        lemma_stands_split(input, pos, t6, part);
        lemma_stands(input, pos + t6.len(), part);
        lemma_stands(input, pos + t6.len() + part.len(), seq![10u8]);
        crate::codec::lemma_join(input, pos + t6.len(), part, seq![10u8]);
        lemma_veto_reads(input, pos + t6.len(), v.pt_veto);
        assert(input[pos + t6.len() + 0] == part[0]);
        crate::codec::lemma_skip_none(input, pos + t6.len());
        lemma_float_piece(input, pos, t5, v.dr, 32);
        lemma_float_piece(input, pos, t4, v.eta_max, 32);
        lemma_int_piece(input, pos, t3, v.n_bjets as int, IntWidth::U8, 32);
        lemma_int_piece(input, pos, t2, v.algorithm_id as int, IntWidth::I8, 32);
        assert(!is_space(JETALGO@[0]));
        lemma_tag_piece(input, pos, t1, JETALGO@, 32);
        assert(!is_space(HASH@[0]));
        lemma_tag_piece(input, pos, t0, HASH@, 32);
        lemma_skip_twice(input, pos + Self::lhe_bytes(v).len());
    }
}

/// The text of the line starts with the hash sign.
pub proof fn lemma_jet_algo_info_starts(v: JetAlgoInfoView)
    ensures
        JetAlgoInfo::lhe_bytes(v).len() > 0,
        JetAlgoInfo::lhe_bytes(v)[0] == 35,
{
    let t1 = Seq::<u8>::empty() + HASH@;
    assert(t1[0] == 35);
    let t2 = t1 + seq![32u8];
    assert(t2[0] == 35);
    let t3 = t2 + JETALGO@;
    assert(t3[0] == 35);
    let t4 = t3 + seq![32u8];
    assert(t4[0] == 35);
    let t5 = t4 + decimal(v.algorithm_id as int);
    assert(t5[0] == 35);
    let t6 = t5 + seq![32u8];
    assert(t6[0] == 35);
    let t7 = t6 + decimal(v.n_bjets as int);
    assert(t7[0] == 35);
    let t8 = t7 + seq![32u8];
    assert(t8[0] == 35);
    let t9 = t8 + v.eta_max;
    assert(t9[0] == 35);
    let t10 = t9 + seq![32u8];
    assert(t10[0] == 35);
    let t11 = t10 + v.dr;
    assert(t11[0] == 35);
    let t12 = t11 + seq![32u8];
    assert(t12[0] == 35);
    let t13 = t12 + veto_bytes(v.pt_veto);
    assert(t13[0] == 35);
    let t14 = t13 + seq![10u8];
    assert(t14[0] == 35);
}

/// The text of the line starts with the hash sign.
pub proof fn lemma_dip_map_info_starts(v: DipMapInfoView)
    ensures
        DipMapInfo::lhe_bytes(v).len() > 0,
        DipMapInfo::lhe_bytes(v)[0] == 35,
{
    let t1 = Seq::<u8>::empty() + HASH@;
    assert(t1[0] == 35);
    let t2 = t1 + seq![32u8];
    assert(t2[0] == 35);
    let t3 = t2 + DIPMAP@;
    assert(t3[0] == 35);
    let t4 = t3 + seq![32u8];
    assert(t4[0] == 35);
    let t5 = t4 + decimal(v.dipole_type as int);
    assert(t5[0] == 35);
    let t6 = t5 + seq![32u8];
    assert(t6[0] == 35);
    let t7 = t6 + decimal(v.dipole_map.len() as int);
    assert(t7[0] == 35);
    let t8 = t7 + rows_bytes::<(i8, i8)>(v.dipole_map);
    assert(t8[0] == 35);
    let t9 = t8 + seq![10u8];
    assert(t9[0] == 35);
}

/// The map of the dipoles.
#[derive(Clone, Debug, PartialEq)]
pub struct DipMapInfo {
    pub dipole_type: i8,
    pub dipole_map: Vec<(i8, i8)>,
}

/// The mathematical form of [`DipMapInfo`].
pub ghost struct DipMapInfoView {
    pub dipole_type: i8,
    pub dipole_map: Seq<(i8, i8)>,
}

impl View for DipMapInfo {
    type V = DipMapInfoView;

    open spec fn view(&self) -> DipMapInfoView {
        DipMapInfoView { dipole_type: self.dipole_type, dipole_map: views(self.dipole_map@) }
    }
}

impl ReadLhe for DipMapInfo {
    /// The hash sign, the keyword, the type, the number of dipoles, which
    /// must fit eight bits, and as many pairs.
    open spec fn parse(input: Seq<u8>, pos: int) -> Result<(DipMapInfoView, int), Failure> {
        match ws_tag(input, pos, HASH@) {
            Err(e) => Err(e),
            Ok(q1) => match ws_tag(input, q1, DIPMAP@) {
                Err(e) => Err(e),
                Ok(q2) => match ws_int(input, q2, IntWidth::I8) {
                    Err(e) => Err(e),
                    Ok((dipole_type, q3)) => match ws_int(input, q3, IntWidth::U8) {
                        Err(e) => Err(e),
                        Ok((n, q4)) => match repeat::<(i8, i8)>(input, q4, n as nat) {
                            Err(e) => Err(e),
                            Ok((dipole_map, q5)) => Ok(
                                (DipMapInfoView { dipole_type: dipole_type as i8, dipole_map }, q5),
                            ),
                        },
                    },
                },
            },
        }
    }

    fn read_from_lhe(input: &[u8], pos: usize) -> (r: Result<(DipMapInfo, usize), ParseError>) {
        let p = match read_ws_tag(input, pos, HASH.as_slice()) {
            Ok(p) => p,
            Err(e) => return Err(e),
        };
        let p = match read_ws_tag(input, p, DIPMAP.as_slice()) {
            Ok(p) => p,
            Err(e) => return Err(e),
        };
        let (dipole_type, p) = match ws_i8(input, p) {
            Ok(x) => x,
            Err(e) => return Err(e),
        };
        let (n, p) = match ws_u8(input, p) {
            Ok(x) => x,
            Err(e) => return Err(e),
        };
        let (dipole_map, p) = match read_rows::<(i8, i8)>(input, p, n as u64) {
            Ok(x) => x,
            Err(e) => return Err(e),
        };
        Ok((DipMapInfo { dipole_type, dipole_map }, p))
    }
}

impl WriteLhe for DipMapInfo {
    open spec fn writable(v: DipMapInfoView) -> bool {
        true
    }

    /// The number that is written is the number of pairs.
    open spec fn lhe_bytes(v: DipMapInfoView) -> Seq<u8> {
        Seq::<u8>::empty() + HASH@ + seq![32u8] + DIPMAP@ + seq![32u8] + decimal(v.dipole_type as int)
            + seq![32u8] + decimal(v.dipole_map.len() as int) + rows_bytes::<(i8, i8)>(v.dipole_map)
            + seq![10u8]
    }

    fn write_lhe(&self, out: &mut Vec<u8>) -> (r: Result<(), WriteError>) {
        let ghost base = out@;
        let ghost mut acc = Seq::<u8>::empty();
        assert(out@ =~= base + acc);
        put_bytes(HASH.as_slice(), 32, out, Ghost(base), Ghost(acc));
        proof {
            acc = acc + HASH@ + seq![32u8];
        }
        put_bytes(DIPMAP.as_slice(), 32, out, Ghost(base), Ghost(acc));
        proof {
            acc = acc + DIPMAP@ + seq![32u8];
        }
        put_i64(self.dipole_type as i64, 32, out, Ghost(base), Ghost(acc));
        proof {
            acc = acc + decimal(self.dipole_type as int) + seq![32u8];
        }
        add_u64(self.dipole_map.len() as u64, out, Ghost(base), Ghost(acc));
        proof {
            acc = acc + decimal(self.dipole_map.len() as int);
        }
        let rows = write_rows::<(i8, i8)>(&self.dipole_map, out);
        proof {
            assert(rows is Ok);
            lemma_appended(base, acc, rows_bytes::<(i8, i8)>(views(self.dipole_map@)));
            acc = acc + rows_bytes::<(i8, i8)>(views(self.dipole_map@));
        }
        add_byte(10, out, Ghost(base), Ghost(acc));
        Ok(())
    }
}

impl Codec for DipMapInfo {
    /// The number of pairs fits its field of eight bits.
    open spec fn canonical(v: DipMapInfoView) -> bool {
        v.dipole_map.len() <= u8::MAX
    }

    /// The text ends its last field itself.
    open spec fn delimited(input: Seq<u8>, at: int) -> bool {
        true
    }

    proof fn lemma_round_trip(v: DipMapInfoView, input: Seq<u8>, pos: int) {
        let t0 = Seq::<u8>::empty();
        let t1 = t0 + HASH@ + seq![32u8];
        let t2 = t1 + DIPMAP@ + seq![32u8];
        let t3 = t2 + decimal(v.dipole_type as int) + seq![32u8];
        let pairs = v.dipole_map;
        assert(Self::lhe_bytes(v) == t3 + decimal(pairs.len() as int) + rows_bytes::<(i8, i8)>(pairs)
            + seq![10u8]);
        lemma_stands(input, pos, Self::lhe_bytes(v));
        lemma_items_spaced();
        lemma_int_list::<(i8, i8)>(input, pos, t3, pairs.len() as int, IntWidth::U8, pairs, seq![10u8]);
        lemma_int_piece(input, pos, t2, v.dipole_type as int, IntWidth::I8, 32);
        assert(!is_space(DIPMAP@[0]));
        lemma_tag_piece(input, pos, t1, DIPMAP@, 32);
        assert(!is_space(HASH@[0]));
        lemma_tag_piece(input, pos, t0, HASH@, 32);
        lemma_skip_one(input, pos + Self::lhe_bytes(v).len() - 1);
        lemma_skip_twice(input, pos + Self::lhe_bytes(v).len());
    }
}

/// What an event of real emissions and subtraction terms adds.
#[derive(Clone, Debug, PartialEq)]
pub struct EventExtraRS {
    pub pdf: PdfInfo,
    pub me: MeInfoRS,
    pub jet: JetInfo,
}

/// The mathematical form of [`EventExtraRS`].
pub ghost struct EventExtraRSView {
    pub pdf: PdfInfoView,
    pub me: MeInfoRSView,
    pub jet: JetInfoView,
}

impl View for EventExtraRS {
    type V = EventExtraRSView;

    open spec fn view(&self) -> EventExtraRSView {
        EventExtraRSView { pdf: self.pdf@, me: self.me@, jet: self.jet@ }
    }
}

impl ReadLhe for EventExtraRS {
    /// The blocks may stand in any order.
    open spec fn parse(input: Seq<u8>, pos: int) -> Result<(EventExtraRSView, int), Failure> {
        match blocks3::<PdfInfo, MeInfoRS, JetInfo>(input, pos) {
            Err((_, e)) => Err(e),
            Ok(((pdf, me, jet), end)) => Ok((EventExtraRSView { pdf, me, jet }, end)),
        }
    }

    fn read_from_lhe(input: &[u8], pos: usize) -> (r: Result<(EventExtraRS, usize), ParseError>) {
        match permutation3::<PdfInfo, MeInfoRS, JetInfo>(input, pos) {
            Err(e) => Err(e.error),
            Ok(((pdf, me, jet), end)) => Ok((EventExtraRS { pdf, me, jet }, end)),
        }
    }
}

impl WriteLhe for EventExtraRS {
    open spec fn writable(v: EventExtraRSView) -> bool {
        true
    }

    open spec fn lhe_bytes(v: EventExtraRSView) -> Seq<u8> {
        PdfInfo::lhe_bytes(v.pdf) + MeInfoRS::lhe_bytes(v.me) + JetInfo::lhe_bytes(v.jet)
    }

    fn write_lhe(&self, out: &mut Vec<u8>) -> (r: Result<(), WriteError>) {
        let ghost base = out@;
        let _ = self.pdf.write_lhe(out);
        let ghost mut acc = PdfInfo::lhe_bytes(self.pdf@);
        let _ = self.me.write_lhe(out);
        proof {
            lemma_appended(base, acc, MeInfoRS::lhe_bytes(self.me@));
            acc = acc + MeInfoRS::lhe_bytes(self.me@);
        }
        let _ = self.jet.write_lhe(out);
        proof {
            lemma_appended(base, acc, JetInfo::lhe_bytes(self.jet@));
            acc = acc + JetInfo::lhe_bytes(self.jet@);
        }
        Ok(())
    }
}

impl Codec for EventExtraRS {
    /// Every line reads back.
    open spec fn canonical(v: EventExtraRSView) -> bool {
        PdfInfo::canonical(v.pdf) && MeInfoRS::canonical(v.me) && JetInfo::canonical(v.jet)
    }

    /// The last line ends itself.
    open spec fn delimited(input: Seq<u8>, at: int) -> bool {
        true
    }

    proof fn lemma_round_trip(v: EventExtraRSView, input: Seq<u8>, pos: int) {
        lemma_pdf_info_starts(v.pdf);
        lemma_me_info_rs_starts(v.me);
        lemma_jet_info_starts(v.jet);
        lemma_stands(input, pos, Self::lhe_bytes(v));
        lemma_trio_in_order::<PdfInfo, MeInfoRS, JetInfo>(v.pdf, v.me, v.jet, input, pos);
        lemma_skip_twice(input, pos + Self::lhe_bytes(v).len());
    }
}

/// The matrix elements of an event of real emissions and subtraction terms.
#[derive(Clone, Debug, PartialEq)]
pub struct MeInfoRS {
    pub weight: Float,
    pub max_ew: u8,
    pub max_qcd: u8,
    pub real_weight: Float,
    pub scale: Float,
    pub dipole_ids: Vec<i8>,
    pub dipole_weights: Vec<Float>,
    /// The renormalisation scales of the dipoles, where the run gave them.
    pub dipole_mu_rs: Option<Vec<Float>>,
}

/// The mathematical form of [`MeInfoRS`].
pub ghost struct MeInfoRSView {
    pub weight: Seq<u8>,
    pub max_ew: u8,
    pub max_qcd: u8,
    pub real_weight: Seq<u8>,
    pub scale: Seq<u8>,
    pub dipole_ids: Seq<i8>,
    pub dipole_weights: Seq<Seq<u8>>,
    pub dipole_mu_rs: Option<Seq<Seq<u8>>>,
}

impl View for MeInfoRS {
    type V = MeInfoRSView;

    open spec fn view(&self) -> MeInfoRSView {
        MeInfoRSView {
            weight: self.weight@,
            max_ew: self.max_ew,
            max_qcd: self.max_qcd,
            real_weight: self.real_weight@,
            scale: self.scale@,
            dipole_ids: views(self.dipole_ids@),
            dipole_weights: views(self.dipole_weights@),
            dipole_mu_rs: match self.dipole_mu_rs {
                Some(v) => Some(views(v@)),
                None => None,
            },
        }
    }
}

/// The scales of the dipoles, none where the run gave none.
pub open spec fn scales_of(scales: Option<Seq<Seq<u8>>>) -> Seq<Seq<u8>> {
    match scales {
        Some(s) => s,
        None => Seq::empty(),
    }
}

impl ReadLhe for MeInfoRS {
    /// The hash sign, the keyword, five fields, the flag of the run and the
    /// number of dipoles, then as many identifiers and as many weights.
    /// Where the flag of the run is not zero, as many scales follow.
    open spec fn parse(input: Seq<u8>, pos: int) -> Result<(MeInfoRSView, int), Failure> {
        match ws_tag(input, pos, HASH@) {
        Err(e) => Err(e),
        Ok(q1) => match ws_tag(input, q1, ME@) {
        Err(e) => Err(e),
        Ok(q2) => match ws_float(input, q2) {
        Err(e) => Err(e),
        Ok((weight, q3)) => match ws_int(input, q3, IntWidth::U8) {
        Err(e) => Err(e),
        Ok((max_ew, q4)) => match ws_int(input, q4, IntWidth::U8) {
        Err(e) => Err(e),
        Ok((max_qcd, q5)) => match ws_float(input, q5) {
        Err(e) => Err(e),
        Ok((real_weight, q6)) => match ws_float(input, q6) {
        Err(e) => Err(e),
        Ok((scale, q7)) => match ws_int(input, q7, IntWidth::U8) {
        Err(e) => Err(e),
        Ok((irun, q8)) => match ws_int(input, q8, IntWidth::U8) {
        Err(e) => Err(e),
        Ok((n, q9)) => match repeat::<i8>(input, q9, n as nat) {
        Err(e) => Err(e),
        Ok((dipole_ids, q10)) => match repeat::<Float>(input, q10, n as nat) {
        Err(e) => Err(e),
        Ok((dipole_weights, q11)) => match repeat::<Float>(input, q11, if irun > 0 { n as nat } else { 0 }) {
        Err(e) => Err(e),
        Ok((scales, q12)) => Ok((
            MeInfoRSView {
                weight,
                max_ew: max_ew as u8,
                max_qcd: max_qcd as u8,
                real_weight,
                scale,
                dipole_ids,
                dipole_weights,
                dipole_mu_rs: if irun > 0 { Some(scales) } else { None },
            },
            q12,
        )),
        }}}}}}}}}}}}
    }

    fn read_from_lhe(input: &[u8], pos: usize) -> (r: Result<(MeInfoRS, usize), ParseError>) {
        let p = match read_ws_tag(input, pos, HASH.as_slice()) {
            Ok(p) => p,
            Err(e) => return Err(e),
        };
        let p = match read_ws_tag(input, p, ME.as_slice()) {
            Ok(p) => p,
            Err(e) => return Err(e),
        };
        let (weight, p) = match ws_float_field(input, p) {
            Ok(x) => x,
            Err(e) => return Err(e),
        };
        let (max_ew, p) = match ws_u8(input, p) {
            Ok(x) => x,
            Err(e) => return Err(e),
        };
        let (max_qcd, p) = match ws_u8(input, p) {
            Ok(x) => x,
            Err(e) => return Err(e),
        };
        let (real_weight, p) = match ws_float_field(input, p) {
            Ok(x) => x,
            Err(e) => return Err(e),
        };
        let (scale, p) = match ws_float_field(input, p) {
            Ok(x) => x,
            Err(e) => return Err(e),
        };
        let (irun, p) = match ws_u8(input, p) {
            Ok(x) => x,
            Err(e) => return Err(e),
        };
        let (n, p) = match ws_u8(input, p) {
            Ok(x) => x,
            Err(e) => return Err(e),
        };
        let (dipole_ids, p) = match read_rows::<i8>(input, p, n as u64) {
            Ok(x) => x,
            Err(e) => return Err(e),
        };
        let (dipole_weights, p) = match read_rows::<Float>(input, p, n as u64) {
            Ok(x) => x,
            Err(e) => return Err(e),
        };
        let n_scales: u64 = if irun > 0 {
            n as u64
        } else {
            0
        };
        let (scales, p) = match read_rows::<Float>(input, p, n_scales) {
            Ok(x) => x,
            Err(e) => return Err(e),
        };
        let dipole_mu_rs = if irun > 0 {
            Some(scales)
        } else {
            None
        };
        Ok(
            (
                MeInfoRS {
                    weight,
                    max_ew,
                    max_qcd,
                    real_weight,
                    scale,
                    dipole_ids,
                    dipole_weights,
                    dipole_mu_rs,
                },
                p,
            ),
        )
    }
}

impl WriteLhe for MeInfoRS {
    open spec fn writable(v: MeInfoRSView) -> bool {
        true
    }

    /// The number of dipoles that is written is the number of identifiers.
    /// The flag of the run is `1` where there are scales, else `0`.
    open spec fn lhe_bytes(v: MeInfoRSView) -> Seq<u8> {
        Seq::<u8>::empty() + HASH@ + seq![32u8] + ME@ + seq![32u8] + v.weight + seq![32u8] + decimal(
            v.max_ew as int,
        ) + seq![32u8] + decimal(v.max_qcd as int) + seq![32u8] + v.real_weight + seq![32u8] + v.scale
            + seq![32u8] + decimal(if v.dipole_mu_rs is Some { 1int } else { 0int }) + seq![32u8]
            + decimal(v.dipole_ids.len() as int) + rows_bytes::<i8>(v.dipole_ids) + rows_bytes::<Float>(
            v.dipole_weights,
        ) + rows_bytes::<Float>(scales_of(v.dipole_mu_rs)) + seq![10u8]
    }

    fn write_lhe(&self, out: &mut Vec<u8>) -> (r: Result<(), WriteError>) {
        let ghost base = out@;
        let ghost mut acc = Seq::<u8>::empty();
        assert(out@ =~= base + acc);
        put_bytes(HASH.as_slice(), 32, out, Ghost(base), Ghost(acc));
        proof {
            acc = acc + HASH@ + seq![32u8];
        }
        put_bytes(ME.as_slice(), 32, out, Ghost(base), Ghost(acc));
        proof {
            acc = acc + ME@ + seq![32u8];
        }
        put_bytes(self.weight.as_bytes(), 32, out, Ghost(base), Ghost(acc));
        proof {
            acc = acc + self.weight@ + seq![32u8];
        }
        put_u64(self.max_ew as u64, 32, out, Ghost(base), Ghost(acc));
        proof {
            acc = acc + decimal(self.max_ew as int) + seq![32u8];
        }
        put_u64(self.max_qcd as u64, 32, out, Ghost(base), Ghost(acc));
        proof {
            acc = acc + decimal(self.max_qcd as int) + seq![32u8];
        }
        put_bytes(self.real_weight.as_bytes(), 32, out, Ghost(base), Ghost(acc));
        proof {
            acc = acc + self.real_weight@ + seq![32u8];
        }
        put_bytes(self.scale.as_bytes(), 32, out, Ghost(base), Ghost(acc));
        proof {
            acc = acc + self.scale@ + seq![32u8];
        }
        let irun: u64 = if self.dipole_mu_rs.is_some() {
            1
        } else {
            0
        };
        put_u64(irun, 32, out, Ghost(base), Ghost(acc));
        proof {
            acc = acc + decimal(irun as int) + seq![32u8];
        }
        add_u64(self.dipole_ids.len() as u64, out, Ghost(base), Ghost(acc));
        proof {
            acc = acc + decimal(self.dipole_ids.len() as int);
        }
        let ids = write_rows::<i8>(&self.dipole_ids, out);
        proof {
            assert(ids is Ok);
            lemma_appended(base, acc, rows_bytes::<i8>(views(self.dipole_ids@)));
            acc = acc + rows_bytes::<i8>(views(self.dipole_ids@));
        }
        let weights = write_rows::<Float>(&self.dipole_weights, out);
        proof {
            assert(weights is Ok);
            lemma_appended(base, acc, rows_bytes::<Float>(views(self.dipole_weights@)));
            acc = acc + rows_bytes::<Float>(views(self.dipole_weights@));
        }
        match &self.dipole_mu_rs {
            Some(scales) => {
                let written = write_rows::<Float>(scales, out);
                proof {
                    assert(written is Ok);
                    lemma_appended(base, acc, rows_bytes::<Float>(views(scales@)));
                    acc = acc + rows_bytes::<Float>(views(scales@));
                }
            },
            None => {
                proof {
                    assert(acc + rows_bytes::<Float>(Seq::empty()) =~= acc);
                    acc = acc + rows_bytes::<Float>(Seq::empty());
                }
            },
        }
        add_byte(10, out, Ghost(base), Ghost(acc));
        Ok(())
    }
}

impl Codec for MeInfoRS {
    /// Every floating-point field holds a literal; there are as many
    /// weights as identifiers, and as many scales where there are scales;
    /// and their number fits its field of eight bits.
    open spec fn canonical(v: MeInfoRSView) -> bool {
        &&& is_float_token(v.weight)
        &&& is_float_token(v.real_weight)
        &&& is_float_token(v.scale)
        &&& all_canonical::<Float>(v.dipole_weights)
        &&& all_canonical::<Float>(scales_of(v.dipole_mu_rs))
        &&& v.dipole_ids.len() <= u8::MAX
        &&& v.dipole_weights.len() == v.dipole_ids.len()
        &&& v.dipole_mu_rs is Some ==> scales_of(v.dipole_mu_rs).len() == v.dipole_ids.len()
    }

    /// The text ends its last field itself.
    open spec fn delimited(input: Seq<u8>, at: int) -> bool {
        true
    }

    proof fn lemma_round_trip(v: MeInfoRSView, input: Seq<u8>, pos: int) {
        let n = v.dipole_ids.len() as int;
        let scales = scales_of(v.dipole_mu_rs);
        let irun: int = if v.dipole_mu_rs is Some { 1 } else { 0 };
        let t0 = Seq::<u8>::empty();
        let t1 = t0 + HASH@ + seq![32u8];
        let t2 = t1 + ME@ + seq![32u8];
        let t3 = t2 + v.weight + seq![32u8];
        let t4 = t3 + decimal(v.max_ew as int) + seq![32u8];
        let t5 = t4 + decimal(v.max_qcd as int) + seq![32u8];
        let t6 = t5 + v.real_weight + seq![32u8];
        let t7 = t6 + v.scale + seq![32u8];
        let t8 = t7 + decimal(irun) + seq![32u8];
        let count = decimal(n);
        let ids = rows_bytes::<i8>(v.dipole_ids);
        let weights = rows_bytes::<Float>(v.dipole_weights);
        let y0 = t8 + count;
        let y1 = y0 + ids;
        let y2 = y1 + weights;
        let y3 = y2 + rows_bytes::<Float>(scales);
        assert(Self::lhe_bytes(v) == y3 + seq![10u8]);
        lemma_stands(input, pos, y3 + seq![10u8]);
        lemma_items_spaced();
        lemma_int_lists::<i8, Float, Float>(
            input,
            pos,
            t8,
            n,
            IntWidth::U8,
            v.dipole_ids,
            v.dipole_weights,
            scales,
        );
        // where the run gave no scales, none are read
        if v.dipole_mu_rs is None {
            assert(rows_bytes::<Float>(scales).len() == 0);
        }
        lemma_int_piece(input, pos, t7, irun, IntWidth::U8, 32);
        lemma_float_piece(input, pos, t6, v.scale, 32);
        lemma_float_piece(input, pos, t5, v.real_weight, 32);
        lemma_int_piece(input, pos, t4, v.max_qcd as int, IntWidth::U8, 32);
        lemma_int_piece(input, pos, t3, v.max_ew as int, IntWidth::U8, 32);
        lemma_float_piece(input, pos, t2, v.weight, 32);
        assert(!is_space(ME@[0]));
        lemma_tag_piece(input, pos, t1, ME@, 32);
        assert(!is_space(HASH@[0]));
        lemma_tag_piece(input, pos, t0, HASH@, 32);
        lemma_skip_twice(input, pos + Self::lhe_bytes(v).len());
    }
}

/// The text of the line starts with the hash sign.
pub proof fn lemma_me_info_rs_starts(v: MeInfoRSView)
    ensures
        MeInfoRS::lhe_bytes(v).len() > 0,
        MeInfoRS::lhe_bytes(v)[0] == 35,
{
    let irun: int = if v.dipole_mu_rs is Some { 1 } else { 0 };
    let t1 = Seq::<u8>::empty() + HASH@;
    assert(t1[0] == 35);
    let t2 = t1 + seq![32u8];
    assert(t2[0] == 35);
    let t3 = t2 + ME@;
    assert(t3[0] == 35);
    let t4 = t3 + seq![32u8];
    assert(t4[0] == 35);
    let t5 = t4 + v.weight;
    assert(t5[0] == 35);
    let t6 = t5 + seq![32u8];
    assert(t6[0] == 35);
    let t7 = t6 + decimal(v.max_ew as int);
    assert(t7[0] == 35);
    let t8 = t7 + seq![32u8];
    assert(t8[0] == 35);
    let t9 = t8 + decimal(v.max_qcd as int);
    assert(t9[0] == 35);
    let t10 = t9 + seq![32u8];
    assert(t10[0] == 35);
    let t11 = t10 + v.real_weight;
    assert(t11[0] == 35);
    let t12 = t11 + seq![32u8];
    assert(t12[0] == 35);
    let t13 = t12 + v.scale;
    assert(t13[0] == 35);
    let t14 = t13 + seq![32u8];
    assert(t14[0] == 35);
    let t15 = t14 + decimal(irun);
    assert(t15[0] == 35);
    let t16 = t15 + seq![32u8];
    assert(t16[0] == 35);
    let t17 = t16 + decimal(v.dipole_ids.len() as int);
    assert(t17[0] == 35);
    let t18 = t17 + rows_bytes::<i8>(v.dipole_ids);
    assert(t18[0] == 35);
    let t19 = t18 + rows_bytes::<Float>(v.dipole_weights);
    assert(t19[0] == 35);
    let t20 = t19 + rows_bytes::<Float>(scales_of(v.dipole_mu_rs));
    assert(t20[0] == 35);
    let t21 = t20 + seq![10u8];
    assert(t21[0] == 35);
}

/// The jets of an event.
#[derive(Clone, Debug, PartialEq)]
pub struct JetInfo {
    pub ibvjet1: i8,
    pub ibvjet2: i8,
    pub ibvflreco: i8,
}

/// The mathematical form of [`JetInfo`].
pub ghost struct JetInfoView {
    pub ibvjet1: i8,
    pub ibvjet2: i8,
    pub ibvflreco: i8,
}

impl View for JetInfo {
    type V = JetInfoView;

    open spec fn view(&self) -> JetInfoView {
        JetInfoView {
            ibvjet1: self.ibvjet1,
            ibvjet2: self.ibvjet2,
            ibvflreco: self.ibvflreco,
        }
    }
}

/// Reading the fields of the record one after the other at `pos`, each with
/// the separators around it.
#[verifier::opaque]
pub open spec fn jet_info_at(input: Seq<u8>, pos: int) -> Result<(JetInfoView, int), Failure> {
    match ws_tag(input, pos, HASH@) {
    Err(e) => Err(e),
    Ok(q1) => match ws_tag(input, q1, JET@) {
    Err(e) => Err(e),
    Ok(q2) => match ws_int(input, q2, IntWidth::I8) {
    Err(e) => Err(e),
    Ok((ibvjet1, q3)) => match ws_int(input, q3, IntWidth::I8) {
    Err(e) => Err(e),
    Ok((ibvjet2, q4)) => match ws_int(input, q4, IntWidth::I8) {
    Err(e) => Err(e),
    Ok((ibvflreco, q5)) => Ok((
        JetInfoView {
            ibvjet1: ibvjet1 as i8,
            ibvjet2: ibvjet2 as i8,
            ibvflreco: ibvflreco as i8,
        },
        q5,
    ))
    }}}}}
}

impl ReadLhe for JetInfo {
    open spec fn parse(input: Seq<u8>, pos: int) -> Result<(JetInfoView, int), Failure> {
        jet_info_at(input, pos)
    }

    fn read_from_lhe(input: &[u8], pos: usize) -> (r: Result<(JetInfo, usize), ParseError>) {
        proof {
            reveal(jet_info_at);
        }
        let p = pos;
        let p = match read_ws_tag(input, p, HASH.as_slice()) {
            Ok(p) => p,
            Err(e) => return Err(e),
        };
        let p = match read_ws_tag(input, p, JET.as_slice()) {
            Ok(p) => p,
            Err(e) => return Err(e),
        };
        let (ibvjet1, p) = match ws_i8(input, p) {
            Ok(x) => x,
            Err(e) => return Err(e),
        };
        let (ibvjet2, p) = match ws_i8(input, p) {
            Ok(x) => x,
            Err(e) => return Err(e),
        };
        let (ibvflreco, p) = match ws_i8(input, p) {
            Ok(x) => x,
            Err(e) => return Err(e),
        };
        Ok((
            JetInfo {
                ibvjet1,
                ibvjet2,
                ibvflreco,
            },
            p,
        ))
    }
}

/// The text of the record: its fields on one line, a space between them.
#[verifier::opaque]
pub open spec fn jet_info_bytes(v: JetInfoView) -> Seq<u8> {
    Seq::<u8>::empty()
        + HASH@
        + seq![32u8]
        + JET@
        + seq![32u8]
        + decimal(v.ibvjet1 as int)
        + seq![32u8]
        + decimal(v.ibvjet2 as int)
        + seq![32u8]
        + decimal(v.ibvflreco as int)
        + seq![10u8]
}

impl WriteLhe for JetInfo {
    open spec fn writable(v: JetInfoView) -> bool {
        true
    }

    open spec fn lhe_bytes(v: JetInfoView) -> Seq<u8> {
        jet_info_bytes(v)
    }

    fn write_lhe(&self, out: &mut Vec<u8>) -> (r: Result<(), WriteError>) {
        proof {
            reveal(jet_info_bytes);
        }
        let ghost base = out@;
        let ghost mut acc = Seq::<u8>::empty();
        assert(out@ =~= base + acc);
        put_bytes(HASH.as_slice(), 32, out, Ghost(base), Ghost(acc));
        proof {
            acc = acc + HASH@ + seq![32u8];
        }
        put_bytes(JET.as_slice(), 32, out, Ghost(base), Ghost(acc));
        proof {
            acc = acc + JET@ + seq![32u8];
        }
        put_i64(self.ibvjet1 as i64, 32, out, Ghost(base), Ghost(acc));
        proof {
            acc = acc + decimal(self.ibvjet1 as int) + seq![32u8];
        }
        put_i64(self.ibvjet2 as i64, 32, out, Ghost(base), Ghost(acc));
        proof {
            acc = acc + decimal(self.ibvjet2 as int) + seq![32u8];
        }
        put_i64(self.ibvflreco as i64, 10, out, Ghost(base), Ghost(acc));
        proof {
            acc = acc + decimal(self.ibvflreco as int) + seq![10u8];
        }
        assert(acc =~= Self::lhe_bytes(self@));
        Ok(())
    }
}

impl Codec for JetInfo {
    open spec fn canonical(v: JetInfoView) -> bool {
        true
    }

    /// The text ends its last field itself.
    open spec fn delimited(input: Seq<u8>, at: int) -> bool {
        true
    }

    proof fn lemma_round_trip(v: JetInfoView, input: Seq<u8>, pos: int) {
        reveal(jet_info_at);
        reveal(jet_info_bytes);
        let t0 = Seq::<u8>::empty();
        let t1 = t0 + HASH@ + seq![32u8];
        let t2 = t1 + JET@ + seq![32u8];
        let t3 = t2 + decimal(v.ibvjet1 as int) + seq![32u8];
        let t4 = t3 + decimal(v.ibvjet2 as int) + seq![32u8];
        let t5 = t4 + decimal(v.ibvflreco as int) + seq![10u8];
        assert(Self::lhe_bytes(v) == t5);
        lemma_stands(input, pos, t5);
        lemma_int_piece(input, pos, t4, v.ibvflreco as int, IntWidth::I8, 10);
        lemma_int_piece(input, pos, t3, v.ibvjet2 as int, IntWidth::I8, 32);
        lemma_int_piece(input, pos, t2, v.ibvjet1 as int, IntWidth::I8, 32);
        assert(!is_space(JET@[0]));
        lemma_tag_piece(input, pos, t1, JET@, 32);
        assert(!is_space(HASH@[0]));
        lemma_tag_piece(input, pos, t0, HASH@, 32);
        lemma_skip_twice(input, pos + t5.len());
    }
}

/// The text of the record starts with the hash sign.
pub proof fn lemma_jet_info_starts(v: JetInfoView)
    ensures
        jet_info_bytes(v).len() > 0,
        jet_info_bytes(v)[0] == 35,
{
    reveal(jet_info_bytes);
    let t0 = Seq::<u8>::empty();
    let t1 = t0 + HASH@;
    assert(t1[0] == 35);
    let t2 = t1 + seq![32u8];
    assert(t2[0] == 35);
    let t3 = t2 + JET@;
    assert(t3[0] == 35);
    let t4 = t3 + seq![32u8];
    assert(t4[0] == 35);
    let t5 = t4 + decimal(v.ibvjet1 as int);
    assert(t5[0] == 35);
    let t6 = t5 + seq![32u8];
    assert(t6[0] == 35);
    let t7 = t6 + decimal(v.ibvjet2 as int);
    assert(t7[0] == 35);
    let t8 = t7 + seq![32u8];
    assert(t8[0] == 35);
    let t9 = t8 + decimal(v.ibvflreco as int);
    assert(t9[0] == 35);
    let t10 = t9 + seq![10u8];
    assert(t10[0] == 35);
}

/// What an event of the integrated dipoles adds.
#[derive(Clone, Debug, PartialEq)]
pub struct EventExtraI {
    pub pdf: PdfInfo,
    pub me: MeInfoI,
}

/// The mathematical form of [`EventExtraI`].
pub ghost struct EventExtraIView {
    pub pdf: PdfInfoView,
    pub me: MeInfoIView,
}

impl View for EventExtraI {
    type V = EventExtraIView;

    open spec fn view(&self) -> EventExtraIView {
        EventExtraIView { pdf: self.pdf@, me: self.me@ }
    }
}

impl ReadLhe for EventExtraI {
    /// The blocks may stand in any order.
    open spec fn parse(input: Seq<u8>, pos: int) -> Result<(EventExtraIView, int), Failure> {
        match blocks2::<PdfInfo, MeInfoI>(input, pos) {
            Err((_, e)) => Err(e),
            Ok(((pdf, me), end)) => Ok((EventExtraIView { pdf, me }, end)),
        }
    }

    fn read_from_lhe(input: &[u8], pos: usize) -> (r: Result<(EventExtraI, usize), ParseError>) {
        match permutation2::<PdfInfo, MeInfoI>(input, pos) {
            Err(e) => Err(e.error),
            Ok(((pdf, me), end)) => Ok((EventExtraI { pdf, me }, end)),
        }
    }
}

impl WriteLhe for EventExtraI {
    open spec fn writable(v: EventExtraIView) -> bool {
        true
    }

    open spec fn lhe_bytes(v: EventExtraIView) -> Seq<u8> {
        PdfInfo::lhe_bytes(v.pdf) + MeInfoI::lhe_bytes(v.me)
    }

    fn write_lhe(&self, out: &mut Vec<u8>) -> (r: Result<(), WriteError>) {
        let ghost base = out@;
        let _ = self.pdf.write_lhe(out);
        let ghost mut acc = PdfInfo::lhe_bytes(self.pdf@);
        let _ = self.me.write_lhe(out);
        proof {
            lemma_appended(base, acc, MeInfoI::lhe_bytes(self.me@));
            acc = acc + MeInfoI::lhe_bytes(self.me@);
        }
        Ok(())
    }
}

impl Codec for EventExtraI {
    /// Every line reads back.
    open spec fn canonical(v: EventExtraIView) -> bool {
        PdfInfo::canonical(v.pdf) && MeInfoI::canonical(v.me)
    }

    /// The last line ends itself.
    open spec fn delimited(input: Seq<u8>, at: int) -> bool {
        true
    }

    proof fn lemma_round_trip(v: EventExtraIView, input: Seq<u8>, pos: int) {
        lemma_pdf_info_starts(v.pdf);
        lemma_me_info_i_starts(v.me);
        lemma_stands(input, pos, Self::lhe_bytes(v));
        lemma_pair_in_order::<PdfInfo, MeInfoI>(v.pdf, v.me, input, pos);
        lemma_skip_twice(input, pos + Self::lhe_bytes(v).len());
    }
}

/// The matrix elements of an event of the integrated dipoles.
#[derive(Clone, Debug, PartialEq)]
pub struct MeInfoI {
    pub max_ew: u8,
    pub max_qcd: u8,
    pub weight: Float,
    pub coeff_a: Float,
    pub coeff_b: Float,
    pub coeff_c: Float,
    pub log_term: i8,
}

/// The mathematical form of [`MeInfoI`].
pub ghost struct MeInfoIView {
    pub max_ew: u8,
    pub max_qcd: u8,
    pub weight: Seq<u8>,
    pub coeff_a: Seq<u8>,
    pub coeff_b: Seq<u8>,
    pub coeff_c: Seq<u8>,
    pub log_term: i8,
}

impl View for MeInfoI {
    type V = MeInfoIView;

    open spec fn view(&self) -> MeInfoIView {
        MeInfoIView {
            max_ew: self.max_ew,
            max_qcd: self.max_qcd,
            weight: self.weight@,
            coeff_a: self.coeff_a@,
            coeff_b: self.coeff_b@,
            coeff_c: self.coeff_c@,
            log_term: self.log_term,
        }
    }
}

/// Reading the fields of the record one after the other at `pos`, each with
/// the separators around it.
#[verifier::opaque]
pub open spec fn me_info_i_at(input: Seq<u8>, pos: int) -> Result<(MeInfoIView, int), Failure> {
    match ws_tag(input, pos, HASH@) {
    Err(e) => Err(e),
    Ok(q1) => match ws_tag(input, q1, ME@) {
    Err(e) => Err(e),
    Ok(q2) => match ws_int(input, q2, IntWidth::U8) {
    Err(e) => Err(e),
    Ok((max_ew, q3)) => match ws_int(input, q3, IntWidth::U8) {
    Err(e) => Err(e),
    Ok((max_qcd, q4)) => match ws_float(input, q4) {
    Err(e) => Err(e),
    Ok((weight, q5)) => match ws_float(input, q5) {
    Err(e) => Err(e),
    Ok((coeff_a, q6)) => match ws_float(input, q6) {
    Err(e) => Err(e),
    Ok((coeff_b, q7)) => match ws_float(input, q7) {
    Err(e) => Err(e),
    Ok((coeff_c, q8)) => match ws_int(input, q8, IntWidth::I8) {
    Err(e) => Err(e),
    Ok((log_term, q9)) => Ok((
        MeInfoIView {
            max_ew: max_ew as u8,
            max_qcd: max_qcd as u8,
            weight,
            coeff_a,
            coeff_b,
            coeff_c,
            log_term: log_term as i8,
        },
        q9,
    ))
    }}}}}}}}}
}

impl ReadLhe for MeInfoI {
    open spec fn parse(input: Seq<u8>, pos: int) -> Result<(MeInfoIView, int), Failure> {
        me_info_i_at(input, pos)
    }

    fn read_from_lhe(input: &[u8], pos: usize) -> (r: Result<(MeInfoI, usize), ParseError>) {
        proof {
            reveal(me_info_i_at);
        }
        let p = pos;
        let p = match read_ws_tag(input, p, HASH.as_slice()) {
            Ok(p) => p,
            Err(e) => return Err(e),
        };
        let p = match read_ws_tag(input, p, ME.as_slice()) {
            Ok(p) => p,
            Err(e) => return Err(e),
        };
        let (max_ew, p) = match ws_u8(input, p) {
            Ok(x) => x,
            Err(e) => return Err(e),
        };
        let (max_qcd, p) = match ws_u8(input, p) {
            Ok(x) => x,
            Err(e) => return Err(e),
        };
        let (weight, p) = match ws_float_field(input, p) {
            Ok(x) => x,
            Err(e) => return Err(e),
        };
        let (coeff_a, p) = match ws_float_field(input, p) {
            Ok(x) => x,
            Err(e) => return Err(e),
        };
        let (coeff_b, p) = match ws_float_field(input, p) {
            Ok(x) => x,
            Err(e) => return Err(e),
        };
        let (coeff_c, p) = match ws_float_field(input, p) {
            Ok(x) => x,
            Err(e) => return Err(e),
        };
        let (log_term, p) = match ws_i8(input, p) {
            Ok(x) => x,
            Err(e) => return Err(e),
        };
        Ok((
            MeInfoI {
                max_ew,
                max_qcd,
                weight,
                coeff_a,
                coeff_b,
                coeff_c,
                log_term,
            },
            p,
        ))
    }
}

/// The text of the record: its fields on one line, a space between them.
#[verifier::opaque]
pub open spec fn me_info_i_bytes(v: MeInfoIView) -> Seq<u8> {
    Seq::<u8>::empty()
        + HASH@
        + seq![32u8]
        + ME@
        + seq![32u8]
        + decimal(v.max_ew as int)
        + seq![32u8]
        + decimal(v.max_qcd as int)
        + seq![32u8]
        + v.weight
        + seq![32u8]
        + v.coeff_a
        + seq![32u8]
        + v.coeff_b
        + seq![32u8]
        + v.coeff_c
        + seq![32u8]
        + decimal(v.log_term as int)
        + seq![10u8]
}

impl WriteLhe for MeInfoI {
    open spec fn writable(v: MeInfoIView) -> bool {
        true
    }

    open spec fn lhe_bytes(v: MeInfoIView) -> Seq<u8> {
        me_info_i_bytes(v)
    }

    fn write_lhe(&self, out: &mut Vec<u8>) -> (r: Result<(), WriteError>) {
        proof {
            reveal(me_info_i_bytes);
        }
        let ghost base = out@;
        let ghost mut acc = Seq::<u8>::empty();
        assert(out@ =~= base + acc);
        put_bytes(HASH.as_slice(), 32, out, Ghost(base), Ghost(acc));
        proof {
            acc = acc + HASH@ + seq![32u8];
        }
        put_bytes(ME.as_slice(), 32, out, Ghost(base), Ghost(acc));
        proof {
            acc = acc + ME@ + seq![32u8];
        }
        put_u64(self.max_ew as u64, 32, out, Ghost(base), Ghost(acc));
        proof {
            acc = acc + decimal(self.max_ew as int) + seq![32u8];
        }
        put_u64(self.max_qcd as u64, 32, out, Ghost(base), Ghost(acc));
        proof {
            acc = acc + decimal(self.max_qcd as int) + seq![32u8];
        }
        put_bytes(self.weight.as_bytes(), 32, out, Ghost(base), Ghost(acc));
        proof {
            acc = acc + self.weight@ + seq![32u8];
        }
        put_bytes(self.coeff_a.as_bytes(), 32, out, Ghost(base), Ghost(acc));
        proof {
            acc = acc + self.coeff_a@ + seq![32u8];
        }
        put_bytes(self.coeff_b.as_bytes(), 32, out, Ghost(base), Ghost(acc));
        proof {
            acc = acc + self.coeff_b@ + seq![32u8];
        }
        put_bytes(self.coeff_c.as_bytes(), 32, out, Ghost(base), Ghost(acc));
        proof {
            acc = acc + self.coeff_c@ + seq![32u8];
        }
        put_i64(self.log_term as i64, 10, out, Ghost(base), Ghost(acc));
        proof {
            acc = acc + decimal(self.log_term as int) + seq![10u8];
        }
        assert(acc =~= Self::lhe_bytes(self@));
        Ok(())
    }
}

impl Codec for MeInfoI {
    /// Every floating-point field holds a literal.
    open spec fn canonical(v: MeInfoIView) -> bool {
        &&& is_float_token(v.weight)
        &&& is_float_token(v.coeff_a)
        &&& is_float_token(v.coeff_b)
        &&& is_float_token(v.coeff_c)
    }

    /// The text ends its last field itself.
    open spec fn delimited(input: Seq<u8>, at: int) -> bool {
        true
    }

    proof fn lemma_round_trip(v: MeInfoIView, input: Seq<u8>, pos: int) {
        reveal(me_info_i_at);
        reveal(me_info_i_bytes);
        let t0 = Seq::<u8>::empty();
        let t1 = t0 + HASH@ + seq![32u8];
        let t2 = t1 + ME@ + seq![32u8];
        let t3 = t2 + decimal(v.max_ew as int) + seq![32u8];
        let t4 = t3 + decimal(v.max_qcd as int) + seq![32u8];
        let t5 = t4 + v.weight + seq![32u8];
        let t6 = t5 + v.coeff_a + seq![32u8];
        let t7 = t6 + v.coeff_b + seq![32u8];
        let t8 = t7 + v.coeff_c + seq![32u8];
        let t9 = t8 + decimal(v.log_term as int) + seq![10u8];
        assert(Self::lhe_bytes(v) == t9);
        lemma_stands(input, pos, t9);
        lemma_int_piece(input, pos, t8, v.log_term as int, IntWidth::I8, 10);
        lemma_float_piece(input, pos, t7, v.coeff_c, 32);
        lemma_float_piece(input, pos, t6, v.coeff_b, 32);
        lemma_float_piece(input, pos, t5, v.coeff_a, 32);
        lemma_float_piece(input, pos, t4, v.weight, 32);
        lemma_int_piece(input, pos, t3, v.max_qcd as int, IntWidth::U8, 32);
        lemma_int_piece(input, pos, t2, v.max_ew as int, IntWidth::U8, 32);
        assert(!is_space(ME@[0]));
        lemma_tag_piece(input, pos, t1, ME@, 32);
        assert(!is_space(HASH@[0]));
        lemma_tag_piece(input, pos, t0, HASH@, 32);
        lemma_skip_twice(input, pos + t9.len());
    }
}

/// The text of the record starts with the hash sign.
pub proof fn lemma_me_info_i_starts(v: MeInfoIView)
    ensures
        me_info_i_bytes(v).len() > 0,
        me_info_i_bytes(v)[0] == 35,
{
    reveal(me_info_i_bytes);
    let t0 = Seq::<u8>::empty();
    let t1 = t0 + HASH@;
    assert(t1[0] == 35);
    let t2 = t1 + seq![32u8];
    assert(t2[0] == 35);
    let t3 = t2 + ME@;
    assert(t3[0] == 35);
    let t4 = t3 + seq![32u8];
    assert(t4[0] == 35);
    let t5 = t4 + decimal(v.max_ew as int);
    assert(t5[0] == 35);
    let t6 = t5 + seq![32u8];
    assert(t6[0] == 35);
    let t7 = t6 + decimal(v.max_qcd as int);
    assert(t7[0] == 35);
    let t8 = t7 + seq![32u8];
    assert(t8[0] == 35);
    let t9 = t8 + v.weight;
    assert(t9[0] == 35);
    let t10 = t9 + seq![32u8];
    assert(t10[0] == 35);
    let t11 = t10 + v.coeff_a;
    assert(t11[0] == 35);
    let t12 = t11 + seq![32u8];
    assert(t12[0] == 35);
    let t13 = t12 + v.coeff_b;
    assert(t13[0] == 35);
    let t14 = t13 + seq![32u8];
    assert(t14[0] == 35);
    let t15 = t14 + v.coeff_c;
    assert(t15[0] == 35);
    let t16 = t15 + seq![32u8];
    assert(t16[0] == 35);
    let t17 = t16 + decimal(v.log_term as int);
    assert(t17[0] == 35);
    let t18 = t17 + seq![10u8];
    assert(t18[0] == 35);
}

/// The partons that the parton distributions are summed over, beam by beam.
#[derive(Clone, Debug, PartialEq)]
pub struct PdfSumKP {
    pub beam_1_gluon_id: Option<PdgId>,
    pub beam_2_gluon_id: Option<PdgId>,
    pub beam_1_quark_ids: Vec<PdgId>,
    pub beam_2_quark_ids: Vec<PdgId>,
}

/// The mathematical form of [`PdfSumKP`].
pub ghost struct PdfSumKPView {
    pub beam_1_gluon_id: Option<i64>,
    pub beam_2_gluon_id: Option<i64>,
    pub beam_1_quark_ids: Seq<i64>,
    pub beam_2_quark_ids: Seq<i64>,
}

impl View for PdfSumKP {
    type V = PdfSumKPView;

    open spec fn view(&self) -> PdfSumKPView {
        PdfSumKPView {
            beam_1_gluon_id: self.beam_1_gluon_id,
            beam_2_gluon_id: self.beam_2_gluon_id,
            beam_1_quark_ids: views(self.beam_1_quark_ids@),
            beam_2_quark_ids: views(self.beam_2_quark_ids@),
        }
    }
}

/// The number that says whether a beam has a gluon.
pub open spec fn gluon_flag(gluon: Option<i64>) -> int {
    if gluon is Some {
        1
    } else {
        0
    }
}

/// The identifier that stands in the place of a beam's gluon.
pub open spec fn gluon_field(gluon: Option<i64>) -> int {
    match gluon {
        Some(id) => id as int,
        None => 0,
    }
}

impl ReadLhe for PdfSumKP {
    /// The hash sign, the keyword, and four numbers: of gluons and of quarks
    /// for the first beam, then for the second. For each beam follow the
    /// identifier of the gluon, which is kept where the number of gluons is
    /// not zero, and as many identifiers of quarks as their number says.
    open spec fn parse(input: Seq<u8>, pos: int) -> Result<(PdfSumKPView, int), Failure> {
        match ws_tag(input, pos, HASH@) {
        Err(e) => Err(e),
        Ok(q1) => match ws_tag(input, q1, SUMPDF@) {
        Err(e) => Err(e),
        Ok(q2) => match ws_int(input, q2, IntWidth::U64) {
        Err(e) => Err(e),
        Ok((n_g_1, q3)) => match ws_int(input, q3, IntWidth::U64) {
        Err(e) => Err(e),
        Ok((n_q_1, q4)) => match ws_int(input, q4, IntWidth::U64) {
        Err(e) => Err(e),
        Ok((n_g_2, q5)) => match ws_int(input, q5, IntWidth::U64) {
        Err(e) => Err(e),
        Ok((n_q_2, q6)) => match ws_int(input, q6, IntWidth::I64) {
        Err(e) => Err(e),
        Ok((gluon_1, q7)) => match repeat::<i64>(input, q7, n_q_1 as nat) {
        Err(e) => Err(e),
        Ok((beam_1_quark_ids, q8)) => match ws_int(input, q8, IntWidth::I64) {
        Err(e) => Err(e),
        Ok((gluon_2, q9)) => match repeat::<i64>(input, q9, n_q_2 as nat) {
        Err(e) => Err(e),
        Ok((beam_2_quark_ids, q10)) => Ok((
            PdfSumKPView {
                beam_1_gluon_id: if n_g_1 != 0 { Some(gluon_1 as i64) } else { None },
                beam_2_gluon_id: if n_g_2 != 0 { Some(gluon_2 as i64) } else { None },
                beam_1_quark_ids,
                beam_2_quark_ids,
            },
            q10,
        )),
        }}}}}}}}}}
    }

    fn read_from_lhe(input: &[u8], pos: usize) -> (r: Result<(PdfSumKP, usize), ParseError>) {
        let p = match read_ws_tag(input, pos, HASH.as_slice()) {
            Ok(p) => p,
            Err(e) => return Err(e),
        };
        let p = match read_ws_tag(input, p, SUMPDF.as_slice()) {
            Ok(p) => p,
            Err(e) => return Err(e),
        };
        let (n_g_1, p) = match ws_u64(input, p) {
            Ok(x) => x,
            Err(e) => return Err(e),
        };
        let (n_q_1, p) = match ws_u64(input, p) {
            Ok(x) => x,
            Err(e) => return Err(e),
        };
        let (n_g_2, p) = match ws_u64(input, p) {
            Ok(x) => x,
            Err(e) => return Err(e),
        };
        let (n_q_2, p) = match ws_u64(input, p) {
            Ok(x) => x,
            Err(e) => return Err(e),
        };
        let (gluon_1, p) = match ws_i64(input, p) {
            Ok(x) => x,
            Err(e) => return Err(e),
        };
        let (beam_1_quark_ids, p) = match read_rows::<i64>(input, p, n_q_1) {
            Ok(x) => x,
            Err(e) => return Err(e),
        };
        let (gluon_2, p) = match ws_i64(input, p) {
            Ok(x) => x,
            Err(e) => return Err(e),
        };
        let (beam_2_quark_ids, p) = match read_rows::<i64>(input, p, n_q_2) {
            Ok(x) => x,
            Err(e) => return Err(e),
        };
        let beam_1_gluon_id = if n_g_1 != 0 {
            Some(gluon_1)
        } else {
            None
        };
        let beam_2_gluon_id = if n_g_2 != 0 {
            Some(gluon_2)
        } else {
            None
        };
        Ok((PdfSumKP { beam_1_gluon_id, beam_2_gluon_id, beam_1_quark_ids, beam_2_quark_ids }, p))
    }
}

impl WriteLhe for PdfSumKP {
    open spec fn writable(v: PdfSumKPView) -> bool {
        true
    }

    /// The numbers of quarks that are written are the lengths of the lists.
    /// A beam without a gluon has the number `0` and the identifier `0`.
    open spec fn lhe_bytes(v: PdfSumKPView) -> Seq<u8> {
        Seq::<u8>::empty() + HASH@ + seq![32u8] + SUMPDF@ + seq![32u8] + decimal(
            gluon_flag(v.beam_1_gluon_id),
        ) + seq![32u8] + decimal(v.beam_1_quark_ids.len() as int) + seq![32u8] + decimal(
            gluon_flag(v.beam_2_gluon_id),
        ) + seq![32u8] + decimal(v.beam_2_quark_ids.len() as int) + seq![32u8] + decimal(
            gluon_field(v.beam_1_gluon_id),
        ) + rows_bytes::<i64>(v.beam_1_quark_ids) + seq![32u8] + decimal(
            gluon_field(v.beam_2_gluon_id),
        ) + rows_bytes::<i64>(v.beam_2_quark_ids) + seq![10u8]
    }

    fn write_lhe(&self, out: &mut Vec<u8>) -> (r: Result<(), WriteError>) {
        let ghost base = out@;
        let ghost mut acc = Seq::<u8>::empty();
        assert(out@ =~= base + acc);
        let flag_1: u64 = if self.beam_1_gluon_id.is_some() {
            1
        } else {
            0
        };
        let flag_2: u64 = if self.beam_2_gluon_id.is_some() {
            1
        } else {
            0
        };
        let gluon_1: i64 = match self.beam_1_gluon_id {
            Some(id) => id,
            None => 0,
        };
        let gluon_2: i64 = match self.beam_2_gluon_id {
            Some(id) => id,
            None => 0,
        };
        put_bytes(HASH.as_slice(), 32, out, Ghost(base), Ghost(acc));
        proof {
            acc = acc + HASH@ + seq![32u8];
        }
        put_bytes(SUMPDF.as_slice(), 32, out, Ghost(base), Ghost(acc));
        proof {
            acc = acc + SUMPDF@ + seq![32u8];
        }
        put_u64(flag_1, 32, out, Ghost(base), Ghost(acc));
        proof {
            acc = acc + decimal(flag_1 as int) + seq![32u8];
        }
        put_u64(self.beam_1_quark_ids.len() as u64, 32, out, Ghost(base), Ghost(acc));
        proof {
            acc = acc + decimal(self.beam_1_quark_ids.len() as int) + seq![32u8];
        }
        put_u64(flag_2, 32, out, Ghost(base), Ghost(acc));
        proof {
            acc = acc + decimal(flag_2 as int) + seq![32u8];
        }
        put_u64(self.beam_2_quark_ids.len() as u64, 32, out, Ghost(base), Ghost(acc));
        proof {
            acc = acc + decimal(self.beam_2_quark_ids.len() as int) + seq![32u8];
        }
        add_i64(gluon_1, out, Ghost(base), Ghost(acc));
        proof {
            acc = acc + decimal(gluon_1 as int);
        }
        let first = write_rows::<i64>(&self.beam_1_quark_ids, out);
        proof {
            assert(first is Ok);
            lemma_appended(base, acc, rows_bytes::<i64>(views(self.beam_1_quark_ids@)));
            acc = acc + rows_bytes::<i64>(views(self.beam_1_quark_ids@));
        }
        add_byte(32, out, Ghost(base), Ghost(acc));
        proof {
            acc = acc + seq![32u8];
        }
        add_i64(gluon_2, out, Ghost(base), Ghost(acc));
        proof {
            acc = acc + decimal(gluon_2 as int);
        }
        let second = write_rows::<i64>(&self.beam_2_quark_ids, out);
        proof {
            assert(second is Ok);
            lemma_appended(base, acc, rows_bytes::<i64>(views(self.beam_2_quark_ids@)));
            acc = acc + rows_bytes::<i64>(views(self.beam_2_quark_ids@));
        }
        add_byte(10, out, Ghost(base), Ghost(acc));
        Ok(())
    }
}

impl Codec for PdfSumKP {
    /// The numbers of quarks fit their fields.
    open spec fn canonical(v: PdfSumKPView) -> bool {
        v.beam_1_quark_ids.len() <= u64::MAX && v.beam_2_quark_ids.len() <= u64::MAX
    }

    /// The text ends its last field itself.
    open spec fn delimited(input: Seq<u8>, at: int) -> bool {
        true
    }

    proof fn lemma_round_trip(v: PdfSumKPView, input: Seq<u8>, pos: int) {
        let t0 = Seq::<u8>::empty();
        let t1 = t0 + HASH@ + seq![32u8];
        let t2 = t1 + SUMPDF@ + seq![32u8];
        let t3 = t2 + decimal(gluon_flag(v.beam_1_gluon_id)) + seq![32u8];
        let t4 = t3 + decimal(v.beam_1_quark_ids.len() as int) + seq![32u8];
        let t5 = t4 + decimal(gluon_flag(v.beam_2_gluon_id)) + seq![32u8];
        let t6 = t5 + decimal(v.beam_2_quark_ids.len() as int) + seq![32u8];
        let first = t6 + decimal(gluon_field(v.beam_1_gluon_id)) + rows_bytes::<i64>(v.beam_1_quark_ids);
        let t7 = first + seq![32u8];
        let second = t7 + decimal(gluon_field(v.beam_2_gluon_id)) + rows_bytes::<i64>(v.beam_2_quark_ids);
        assert(Self::lhe_bytes(v) == second + seq![10u8]);
        lemma_stands(input, pos, second + seq![10u8]);
        lemma_items_spaced();
        lemma_int_list::<i64>(
            input,
            pos,
            t7,
            gluon_field(v.beam_2_gluon_id),
            IntWidth::I64,
            v.beam_2_quark_ids,
            seq![10u8],
        );
        lemma_int_list::<i64>(
            input,
            pos,
            t6,
            gluon_field(v.beam_1_gluon_id),
            IntWidth::I64,
            v.beam_1_quark_ids,
            seq![32u8],
        );
        lemma_skip_one(input, pos + first.len());
        lemma_int_piece(input, pos, t5, v.beam_2_quark_ids.len() as int, IntWidth::U64, 32);
        lemma_int_piece(input, pos, t4, gluon_flag(v.beam_2_gluon_id), IntWidth::U64, 32);
        lemma_int_piece(input, pos, t3, v.beam_1_quark_ids.len() as int, IntWidth::U64, 32);
        lemma_int_piece(input, pos, t2, gluon_flag(v.beam_1_gluon_id), IntWidth::U64, 32);
        assert(!is_space(SUMPDF@[0]));
        lemma_tag_piece(input, pos, t1, SUMPDF@, 32);
        assert(!is_space(HASH@[0]));
        lemma_tag_piece(input, pos, t0, HASH@, 32);
        lemma_skip_one(input, pos + second.len());
        lemma_skip_twice(input, pos + Self::lhe_bytes(v).len());
    }
}

/// What an event of the K and P operators adds.
#[derive(Clone, Debug, PartialEq)]
pub struct EventExtraKP {
    pub pdf: PdfInfo,
    pub me: MeInfoKP,
}

/// The mathematical form of [`EventExtraKP`].
pub ghost struct EventExtraKPView {
    pub pdf: PdfInfoView,
    pub me: MeInfoKPView,
}

impl View for EventExtraKP {
    type V = EventExtraKPView;

    open spec fn view(&self) -> EventExtraKPView {
        EventExtraKPView { pdf: self.pdf@, me: self.me@ }
    }
}

impl ReadLhe for EventExtraKP {
    /// The blocks may stand in any order.
    open spec fn parse(input: Seq<u8>, pos: int) -> Result<(EventExtraKPView, int), Failure> {
        match blocks2::<PdfInfo, MeInfoKP>(input, pos) {
            Err((_, e)) => Err(e),
            Ok(((pdf, me), end)) => Ok((EventExtraKPView { pdf, me }, end)),
        }
    }

    fn read_from_lhe(input: &[u8], pos: usize) -> (r: Result<(EventExtraKP, usize), ParseError>) {
        match permutation2::<PdfInfo, MeInfoKP>(input, pos) {
            Err(e) => Err(e.error),
            Ok(((pdf, me), end)) => Ok((EventExtraKP { pdf, me }, end)),
        }
    }
}

impl WriteLhe for EventExtraKP {
    open spec fn writable(v: EventExtraKPView) -> bool {
        true
    }

    open spec fn lhe_bytes(v: EventExtraKPView) -> Seq<u8> {
        PdfInfo::lhe_bytes(v.pdf) + MeInfoKP::lhe_bytes(v.me)
    }

    fn write_lhe(&self, out: &mut Vec<u8>) -> (r: Result<(), WriteError>) {
        let ghost base = out@;
        let _ = self.pdf.write_lhe(out);
        let ghost mut acc = PdfInfo::lhe_bytes(self.pdf@);
        let _ = self.me.write_lhe(out);
        proof {
            lemma_appended(base, acc, MeInfoKP::lhe_bytes(self.me@));
            acc = acc + MeInfoKP::lhe_bytes(self.me@);
        }
        Ok(())
    }
}

impl Codec for EventExtraKP {
    /// Every line reads back.
    open spec fn canonical(v: EventExtraKPView) -> bool {
        PdfInfo::canonical(v.pdf) && MeInfoKP::canonical(v.me)
    }

    /// The last line ends itself.
    open spec fn delimited(input: Seq<u8>, at: int) -> bool {
        true
    }

    proof fn lemma_round_trip(v: EventExtraKPView, input: Seq<u8>, pos: int) {
        lemma_pdf_info_starts(v.pdf);
        lemma_me_info_kp_starts(v.me);
        lemma_stands(input, pos, Self::lhe_bytes(v));
        lemma_pair_in_order::<PdfInfo, MeInfoKP>(v.pdf, v.me, input, pos);
        lemma_skip_twice(input, pos + Self::lhe_bytes(v).len());
    }
}

/// The matrix elements of an event of the K and P operators.
#[derive(Clone, Debug, PartialEq)]
pub struct MeInfoKP {
    pub max_ew: u8,
    pub max_qcd: u8,
    pub weight: Float,
    pub x1_prime: Float,
    pub x2_prime: Float,
    pub weight_a1g_l0: Float,
    pub weight_a1g_l1: Float,
    pub weight_a1q_l0: Float,
    pub weight_a1q_l1: Float,
    pub weight_b1g_l0: Float,
    pub weight_b1g_l1: Float,
    pub weight_b1q_l0: Float,
    pub weight_b1q_l1: Float,
    pub weight_a2g_l0: Float,
    pub weight_a2g_l1: Float,
    pub weight_a2q_l0: Float,
    pub weight_a2q_l1: Float,
    pub weight_b2g_l0: Float,
    pub weight_b2g_l1: Float,
    pub weight_b2q_l0: Float,
    pub weight_b2q_l1: Float,
}

/// The mathematical form of [`MeInfoKP`].
pub ghost struct MeInfoKPView {
    pub max_ew: u8,
    pub max_qcd: u8,
    pub weight: Seq<u8>,
    pub x1_prime: Seq<u8>,
    pub x2_prime: Seq<u8>,
    pub weight_a1g_l0: Seq<u8>,
    pub weight_a1g_l1: Seq<u8>,
    pub weight_a1q_l0: Seq<u8>,
    pub weight_a1q_l1: Seq<u8>,
    pub weight_b1g_l0: Seq<u8>,
    pub weight_b1g_l1: Seq<u8>,
    pub weight_b1q_l0: Seq<u8>,
    pub weight_b1q_l1: Seq<u8>,
    pub weight_a2g_l0: Seq<u8>,
    pub weight_a2g_l1: Seq<u8>,
    pub weight_a2q_l0: Seq<u8>,
    pub weight_a2q_l1: Seq<u8>,
    pub weight_b2g_l0: Seq<u8>,
    pub weight_b2g_l1: Seq<u8>,
    pub weight_b2q_l0: Seq<u8>,
    pub weight_b2q_l1: Seq<u8>,
}

impl View for MeInfoKP {
    type V = MeInfoKPView;

    open spec fn view(&self) -> MeInfoKPView {
        MeInfoKPView {
            max_ew: self.max_ew,
            max_qcd: self.max_qcd,
            weight: self.weight@,
            x1_prime: self.x1_prime@,
            x2_prime: self.x2_prime@,
            weight_a1g_l0: self.weight_a1g_l0@,
            weight_a1g_l1: self.weight_a1g_l1@,
            weight_a1q_l0: self.weight_a1q_l0@,
            weight_a1q_l1: self.weight_a1q_l1@,
            weight_b1g_l0: self.weight_b1g_l0@,
            weight_b1g_l1: self.weight_b1g_l1@,
            weight_b1q_l0: self.weight_b1q_l0@,
            weight_b1q_l1: self.weight_b1q_l1@,
            weight_a2g_l0: self.weight_a2g_l0@,
            weight_a2g_l1: self.weight_a2g_l1@,
            weight_a2q_l0: self.weight_a2q_l0@,
            weight_a2q_l1: self.weight_a2q_l1@,
            weight_b2g_l0: self.weight_b2g_l0@,
            weight_b2g_l1: self.weight_b2g_l1@,
            weight_b2q_l0: self.weight_b2q_l0@,
            weight_b2q_l1: self.weight_b2q_l1@,
        }
    }
}

/// Reading the fields of the record one after the other at `pos`, each with
/// the separators around it.
#[verifier::opaque]
pub open spec fn me_info_kp_at(input: Seq<u8>, pos: int) -> Result<(MeInfoKPView, int), Failure> {
    match ws_tag(input, pos, HASH@) {
    Err(e) => Err(e),
    Ok(q1) => match ws_tag(input, q1, ME@) {
    Err(e) => Err(e),
    Ok(q2) => match ws_int(input, q2, IntWidth::U8) {
    Err(e) => Err(e),
    Ok((max_ew, q3)) => match ws_int(input, q3, IntWidth::U8) {
    Err(e) => Err(e),
    Ok((max_qcd, q4)) => match ws_float(input, q4) {
    Err(e) => Err(e),
    Ok((weight, q5)) => match ws_float(input, q5) {
    Err(e) => Err(e),
    Ok((x1_prime, q6)) => match ws_float(input, q6) {
    Err(e) => Err(e),
    Ok((x2_prime, q7)) => match ws_float(input, q7) {
    Err(e) => Err(e),
    Ok((weight_a1g_l0, q8)) => match ws_float(input, q8) {
    Err(e) => Err(e),
    Ok((weight_a1g_l1, q9)) => match ws_float(input, q9) {
    Err(e) => Err(e),
    Ok((weight_a1q_l0, q10)) => match ws_float(input, q10) {
    Err(e) => Err(e),
    Ok((weight_a1q_l1, q11)) => match ws_float(input, q11) {
    Err(e) => Err(e),
    Ok((weight_b1g_l0, q12)) => match ws_float(input, q12) {
    Err(e) => Err(e),
    Ok((weight_b1g_l1, q13)) => match ws_float(input, q13) {
    Err(e) => Err(e),
    Ok((weight_b1q_l0, q14)) => match ws_float(input, q14) {
    Err(e) => Err(e),
    Ok((weight_b1q_l1, q15)) => match ws_float(input, q15) {
    Err(e) => Err(e),
    Ok((weight_a2g_l0, q16)) => match ws_float(input, q16) {
    Err(e) => Err(e),
    Ok((weight_a2g_l1, q17)) => match ws_float(input, q17) {
    Err(e) => Err(e),
    Ok((weight_a2q_l0, q18)) => match ws_float(input, q18) {
    Err(e) => Err(e),
    Ok((weight_a2q_l1, q19)) => match ws_float(input, q19) {
    Err(e) => Err(e),
    Ok((weight_b2g_l0, q20)) => match ws_float(input, q20) {
    Err(e) => Err(e),
    Ok((weight_b2g_l1, q21)) => match ws_float(input, q21) {
    Err(e) => Err(e),
    Ok((weight_b2q_l0, q22)) => match ws_float(input, q22) {
    Err(e) => Err(e),
    Ok((weight_b2q_l1, q23)) => Ok((
        MeInfoKPView {
            max_ew: max_ew as u8,
            max_qcd: max_qcd as u8,
            weight,
            x1_prime,
            x2_prime,
            weight_a1g_l0,
            weight_a1g_l1,
            weight_a1q_l0,
            weight_a1q_l1,
            weight_b1g_l0,
            weight_b1g_l1,
            weight_b1q_l0,
            weight_b1q_l1,
            weight_a2g_l0,
            weight_a2g_l1,
            weight_a2q_l0,
            weight_a2q_l1,
            weight_b2g_l0,
            weight_b2g_l1,
            weight_b2q_l0,
            weight_b2q_l1,
        },
        q23,
    ))
    }}}}}}}}}}}}}}}}}}}}}}}
}

impl ReadLhe for MeInfoKP {
    open spec fn parse(input: Seq<u8>, pos: int) -> Result<(MeInfoKPView, int), Failure> {
        me_info_kp_at(input, pos)
    }

    fn read_from_lhe(input: &[u8], pos: usize) -> (r: Result<(MeInfoKP, usize), ParseError>) {
        proof {
            reveal(me_info_kp_at);
        }
        let p = pos;
        let p = match read_ws_tag(input, p, HASH.as_slice()) {
            Ok(p) => p,
            Err(e) => return Err(e),
        };
        let p = match read_ws_tag(input, p, ME.as_slice()) {
            Ok(p) => p,
            Err(e) => return Err(e),
        };
        let (max_ew, p) = match ws_u8(input, p) {
            Ok(x) => x,
            Err(e) => return Err(e),
        };
        let (max_qcd, p) = match ws_u8(input, p) {
            Ok(x) => x,
            Err(e) => return Err(e),
        };
        let (weight, p) = match ws_float_field(input, p) {
            Ok(x) => x,
            Err(e) => return Err(e),
        };
        let (x1_prime, p) = match ws_float_field(input, p) {
            Ok(x) => x,
            Err(e) => return Err(e),
        };
        let (x2_prime, p) = match ws_float_field(input, p) {
            Ok(x) => x,
            Err(e) => return Err(e),
        };
        let (weight_a1g_l0, p) = match ws_float_field(input, p) {
            Ok(x) => x,
            Err(e) => return Err(e),
        };
        let (weight_a1g_l1, p) = match ws_float_field(input, p) {
            Ok(x) => x,
            Err(e) => return Err(e),
        };
        let (weight_a1q_l0, p) = match ws_float_field(input, p) {
            Ok(x) => x,
            Err(e) => return Err(e),
        };
        let (weight_a1q_l1, p) = match ws_float_field(input, p) {
            Ok(x) => x,
            Err(e) => return Err(e),
        };
        let (weight_b1g_l0, p) = match ws_float_field(input, p) {
            Ok(x) => x,
            Err(e) => return Err(e),
        };
        let (weight_b1g_l1, p) = match ws_float_field(input, p) {
            Ok(x) => x,
            Err(e) => return Err(e),
        };
        let (weight_b1q_l0, p) = match ws_float_field(input, p) {
            Ok(x) => x,
            Err(e) => return Err(e),
        };
        let (weight_b1q_l1, p) = match ws_float_field(input, p) {
            Ok(x) => x,
            Err(e) => return Err(e),
        };
        let (weight_a2g_l0, p) = match ws_float_field(input, p) {
            Ok(x) => x,
            Err(e) => return Err(e),
        };
        let (weight_a2g_l1, p) = match ws_float_field(input, p) {
            Ok(x) => x,
            Err(e) => return Err(e),
        };
        let (weight_a2q_l0, p) = match ws_float_field(input, p) {
            Ok(x) => x,
            Err(e) => return Err(e),
        };
        let (weight_a2q_l1, p) = match ws_float_field(input, p) {
            Ok(x) => x,
            Err(e) => return Err(e),
        };
        let (weight_b2g_l0, p) = match ws_float_field(input, p) {
            Ok(x) => x,
            Err(e) => return Err(e),
        };
        let (weight_b2g_l1, p) = match ws_float_field(input, p) {
            Ok(x) => x,
            Err(e) => return Err(e),
        };
        let (weight_b2q_l0, p) = match ws_float_field(input, p) {
            Ok(x) => x,
            Err(e) => return Err(e),
        };
        let (weight_b2q_l1, p) = match ws_float_field(input, p) {
            Ok(x) => x,
            Err(e) => return Err(e),
        };
        Ok((
            MeInfoKP {
                max_ew,
                max_qcd,
                weight,
                x1_prime,
                x2_prime,
                weight_a1g_l0,
                weight_a1g_l1,
                weight_a1q_l0,
                weight_a1q_l1,
                weight_b1g_l0,
                weight_b1g_l1,
                weight_b1q_l0,
                weight_b1q_l1,
                weight_a2g_l0,
                weight_a2g_l1,
                weight_a2q_l0,
                weight_a2q_l1,
                weight_b2g_l0,
                weight_b2g_l1,
                weight_b2q_l0,
                weight_b2q_l1,
            },
            p,
        ))
    }
}

/// The text of the record: its fields on one line, a space between them.
#[verifier::opaque]
pub open spec fn me_info_kp_bytes(v: MeInfoKPView) -> Seq<u8> {
    Seq::<u8>::empty()
        + HASH@
        + seq![32u8]
        + ME@
        + seq![32u8]
        + decimal(v.max_ew as int)
        + seq![32u8]
        + decimal(v.max_qcd as int)
        + seq![32u8]
        + v.weight
        + seq![32u8]
        + v.x1_prime
        + seq![32u8]
        + v.x2_prime
        + seq![32u8]
        + v.weight_a1g_l0
        + seq![32u8]
        + v.weight_a1g_l1
        + seq![32u8]
        + v.weight_a1q_l0
        + seq![32u8]
        + v.weight_a1q_l1
        + seq![32u8]
        + v.weight_b1g_l0
        + seq![32u8]
        + v.weight_b1g_l1
        + seq![32u8]
        + v.weight_b1q_l0
        + seq![32u8]
        + v.weight_b1q_l1
        + seq![32u8]
        + v.weight_a2g_l0
        + seq![32u8]
        + v.weight_a2g_l1
        + seq![32u8]
        + v.weight_a2q_l0
        + seq![32u8]
        + v.weight_a2q_l1
        + seq![32u8]
        + v.weight_b2g_l0
        + seq![32u8]
        + v.weight_b2g_l1
        + seq![32u8]
        + v.weight_b2q_l0
        + seq![32u8]
        + v.weight_b2q_l1
        + seq![10u8]
}

impl WriteLhe for MeInfoKP {
    open spec fn writable(v: MeInfoKPView) -> bool {
        true
    }

    open spec fn lhe_bytes(v: MeInfoKPView) -> Seq<u8> {
        me_info_kp_bytes(v)
    }

    fn write_lhe(&self, out: &mut Vec<u8>) -> (r: Result<(), WriteError>) {
        proof {
            reveal(me_info_kp_bytes);
        }
        let ghost base = out@;
        let ghost mut acc = Seq::<u8>::empty();
        assert(out@ =~= base + acc);
        put_bytes(HASH.as_slice(), 32, out, Ghost(base), Ghost(acc));
        proof {
            acc = acc + HASH@ + seq![32u8];
        }
        put_bytes(ME.as_slice(), 32, out, Ghost(base), Ghost(acc));
        proof {
            acc = acc + ME@ + seq![32u8];
        }
        put_u64(self.max_ew as u64, 32, out, Ghost(base), Ghost(acc));
        proof {
            acc = acc + decimal(self.max_ew as int) + seq![32u8];
        }
        put_u64(self.max_qcd as u64, 32, out, Ghost(base), Ghost(acc));
        proof {
            acc = acc + decimal(self.max_qcd as int) + seq![32u8];
        }
        put_bytes(self.weight.as_bytes(), 32, out, Ghost(base), Ghost(acc));
        proof {
            acc = acc + self.weight@ + seq![32u8];
        }
        put_bytes(self.x1_prime.as_bytes(), 32, out, Ghost(base), Ghost(acc));
        proof {
            acc = acc + self.x1_prime@ + seq![32u8];
        }
        put_bytes(self.x2_prime.as_bytes(), 32, out, Ghost(base), Ghost(acc));
        proof {
            acc = acc + self.x2_prime@ + seq![32u8];
        }
        put_bytes(self.weight_a1g_l0.as_bytes(), 32, out, Ghost(base), Ghost(acc));
        proof {
            acc = acc + self.weight_a1g_l0@ + seq![32u8];
        }
        put_bytes(self.weight_a1g_l1.as_bytes(), 32, out, Ghost(base), Ghost(acc));
        proof {
            acc = acc + self.weight_a1g_l1@ + seq![32u8];
        }
        put_bytes(self.weight_a1q_l0.as_bytes(), 32, out, Ghost(base), Ghost(acc));
        proof {
            acc = acc + self.weight_a1q_l0@ + seq![32u8];
        }
        put_bytes(self.weight_a1q_l1.as_bytes(), 32, out, Ghost(base), Ghost(acc));
        proof {
            acc = acc + self.weight_a1q_l1@ + seq![32u8];
        }
        put_bytes(self.weight_b1g_l0.as_bytes(), 32, out, Ghost(base), Ghost(acc));
        proof {
            acc = acc + self.weight_b1g_l0@ + seq![32u8];
        }
        put_bytes(self.weight_b1g_l1.as_bytes(), 32, out, Ghost(base), Ghost(acc));
        proof {
            acc = acc + self.weight_b1g_l1@ + seq![32u8];
        }
        put_bytes(self.weight_b1q_l0.as_bytes(), 32, out, Ghost(base), Ghost(acc));
        proof {
            acc = acc + self.weight_b1q_l0@ + seq![32u8];
        }
        put_bytes(self.weight_b1q_l1.as_bytes(), 32, out, Ghost(base), Ghost(acc));
        proof {
            acc = acc + self.weight_b1q_l1@ + seq![32u8];
        }
        put_bytes(self.weight_a2g_l0.as_bytes(), 32, out, Ghost(base), Ghost(acc));
        proof {
            acc = acc + self.weight_a2g_l0@ + seq![32u8];
        }
        put_bytes(self.weight_a2g_l1.as_bytes(), 32, out, Ghost(base), Ghost(acc));
        proof {
            acc = acc + self.weight_a2g_l1@ + seq![32u8];
        }
        put_bytes(self.weight_a2q_l0.as_bytes(), 32, out, Ghost(base), Ghost(acc));
        proof {
            acc = acc + self.weight_a2q_l0@ + seq![32u8];
        }
        put_bytes(self.weight_a2q_l1.as_bytes(), 32, out, Ghost(base), Ghost(acc));
        proof {
            acc = acc + self.weight_a2q_l1@ + seq![32u8];
        }
        put_bytes(self.weight_b2g_l0.as_bytes(), 32, out, Ghost(base), Ghost(acc));
        proof {
            acc = acc + self.weight_b2g_l0@ + seq![32u8];
        }
        put_bytes(self.weight_b2g_l1.as_bytes(), 32, out, Ghost(base), Ghost(acc));
        proof {
            acc = acc + self.weight_b2g_l1@ + seq![32u8];
        }
        put_bytes(self.weight_b2q_l0.as_bytes(), 32, out, Ghost(base), Ghost(acc));
        proof {
            acc = acc + self.weight_b2q_l0@ + seq![32u8];
        }
        put_bytes(self.weight_b2q_l1.as_bytes(), 10, out, Ghost(base), Ghost(acc));
        proof {
            acc = acc + self.weight_b2q_l1@ + seq![10u8];
        }
        assert(acc =~= Self::lhe_bytes(self@));
        Ok(())
    }
}

impl Codec for MeInfoKP {
    /// Every floating-point field holds a literal.
    open spec fn canonical(v: MeInfoKPView) -> bool {
        &&& is_float_token(v.weight)
        &&& is_float_token(v.x1_prime)
        &&& is_float_token(v.x2_prime)
        &&& is_float_token(v.weight_a1g_l0)
        &&& is_float_token(v.weight_a1g_l1)
        &&& is_float_token(v.weight_a1q_l0)
        &&& is_float_token(v.weight_a1q_l1)
        &&& is_float_token(v.weight_b1g_l0)
        &&& is_float_token(v.weight_b1g_l1)
        &&& is_float_token(v.weight_b1q_l0)
        &&& is_float_token(v.weight_b1q_l1)
        &&& is_float_token(v.weight_a2g_l0)
        &&& is_float_token(v.weight_a2g_l1)
        &&& is_float_token(v.weight_a2q_l0)
        &&& is_float_token(v.weight_a2q_l1)
        &&& is_float_token(v.weight_b2g_l0)
        &&& is_float_token(v.weight_b2g_l1)
        &&& is_float_token(v.weight_b2q_l0)
        &&& is_float_token(v.weight_b2q_l1)
    }

    /// The text ends its last field itself.
    open spec fn delimited(input: Seq<u8>, at: int) -> bool {
        true
    }

    proof fn lemma_round_trip(v: MeInfoKPView, input: Seq<u8>, pos: int) {
        reveal(me_info_kp_at);
        reveal(me_info_kp_bytes);
        let t0 = Seq::<u8>::empty();
        let t1 = t0 + HASH@ + seq![32u8];
        let t2 = t1 + ME@ + seq![32u8];
        let t3 = t2 + decimal(v.max_ew as int) + seq![32u8];
        let t4 = t3 + decimal(v.max_qcd as int) + seq![32u8];
        let t5 = t4 + v.weight + seq![32u8];
        let t6 = t5 + v.x1_prime + seq![32u8];
        let t7 = t6 + v.x2_prime + seq![32u8];
        let t8 = t7 + v.weight_a1g_l0 + seq![32u8];
        let t9 = t8 + v.weight_a1g_l1 + seq![32u8];
        let t10 = t9 + v.weight_a1q_l0 + seq![32u8];
        let t11 = t10 + v.weight_a1q_l1 + seq![32u8];
        let t12 = t11 + v.weight_b1g_l0 + seq![32u8];
        let t13 = t12 + v.weight_b1g_l1 + seq![32u8];
        let t14 = t13 + v.weight_b1q_l0 + seq![32u8];
        let t15 = t14 + v.weight_b1q_l1 + seq![32u8];
        let t16 = t15 + v.weight_a2g_l0 + seq![32u8];
        let t17 = t16 + v.weight_a2g_l1 + seq![32u8];
        let t18 = t17 + v.weight_a2q_l0 + seq![32u8];
        let t19 = t18 + v.weight_a2q_l1 + seq![32u8];
        let t20 = t19 + v.weight_b2g_l0 + seq![32u8];
        let t21 = t20 + v.weight_b2g_l1 + seq![32u8];
        let t22 = t21 + v.weight_b2q_l0 + seq![32u8];
        let t23 = t22 + v.weight_b2q_l1 + seq![10u8];
        assert(Self::lhe_bytes(v) == t23);
        lemma_stands(input, pos, t23);
        lemma_float_piece(input, pos, t22, v.weight_b2q_l1, 10);
        lemma_float_piece(input, pos, t21, v.weight_b2q_l0, 32);
        lemma_float_piece(input, pos, t20, v.weight_b2g_l1, 32);
        lemma_float_piece(input, pos, t19, v.weight_b2g_l0, 32);
        lemma_float_piece(input, pos, t18, v.weight_a2q_l1, 32);
        lemma_float_piece(input, pos, t17, v.weight_a2q_l0, 32);
        lemma_float_piece(input, pos, t16, v.weight_a2g_l1, 32);
        lemma_float_piece(input, pos, t15, v.weight_a2g_l0, 32);
        lemma_float_piece(input, pos, t14, v.weight_b1q_l1, 32);
        lemma_float_piece(input, pos, t13, v.weight_b1q_l0, 32);
        lemma_float_piece(input, pos, t12, v.weight_b1g_l1, 32);
        lemma_float_piece(input, pos, t11, v.weight_b1g_l0, 32);
        lemma_float_piece(input, pos, t10, v.weight_a1q_l1, 32);
        lemma_float_piece(input, pos, t9, v.weight_a1q_l0, 32);
        lemma_float_piece(input, pos, t8, v.weight_a1g_l1, 32);
        lemma_float_piece(input, pos, t7, v.weight_a1g_l0, 32);
        lemma_float_piece(input, pos, t6, v.x2_prime, 32);
        lemma_float_piece(input, pos, t5, v.x1_prime, 32);
        lemma_float_piece(input, pos, t4, v.weight, 32);
        lemma_int_piece(input, pos, t3, v.max_qcd as int, IntWidth::U8, 32);
        lemma_int_piece(input, pos, t2, v.max_ew as int, IntWidth::U8, 32);
        assert(!is_space(ME@[0]));
        lemma_tag_piece(input, pos, t1, ME@, 32);
        assert(!is_space(HASH@[0]));
        lemma_tag_piece(input, pos, t0, HASH@, 32);
        lemma_skip_twice(input, pos + t23.len());
    }
}

/// The text of the record starts with the hash sign.
pub proof fn lemma_me_info_kp_starts(v: MeInfoKPView)
    ensures
        me_info_kp_bytes(v).len() > 0,
        me_info_kp_bytes(v)[0] == 35,
{
    reveal(me_info_kp_bytes);
    let t0 = Seq::<u8>::empty();
    let t1 = t0 + HASH@;
    assert(t1[0] == 35);
    let t2 = t1 + seq![32u8];
    assert(t2[0] == 35);
    let t3 = t2 + ME@;
    assert(t3[0] == 35);
    let t4 = t3 + seq![32u8];
    assert(t4[0] == 35);
    let t5 = t4 + decimal(v.max_ew as int);
    assert(t5[0] == 35);
    let t6 = t5 + seq![32u8];
    assert(t6[0] == 35);
    let t7 = t6 + decimal(v.max_qcd as int);
    assert(t7[0] == 35);
    let t8 = t7 + seq![32u8];
    assert(t8[0] == 35);
    let t9 = t8 + v.weight;
    assert(t9[0] == 35);
    let t10 = t9 + seq![32u8];
    assert(t10[0] == 35);
    let t11 = t10 + v.x1_prime;
    assert(t11[0] == 35);
    let t12 = t11 + seq![32u8];
    assert(t12[0] == 35);
    let t13 = t12 + v.x2_prime;
    assert(t13[0] == 35);
    let t14 = t13 + seq![32u8];
    assert(t14[0] == 35);
    let t15 = t14 + v.weight_a1g_l0;
    assert(t15[0] == 35);
    let t16 = t15 + seq![32u8];
    assert(t16[0] == 35);
    let t17 = t16 + v.weight_a1g_l1;
    assert(t17[0] == 35);
    let t18 = t17 + seq![32u8];
    assert(t18[0] == 35);
    let t19 = t18 + v.weight_a1q_l0;
    assert(t19[0] == 35);
    let t20 = t19 + seq![32u8];
    assert(t20[0] == 35);
    let t21 = t20 + v.weight_a1q_l1;
    assert(t21[0] == 35);
    let t22 = t21 + seq![32u8];
    assert(t22[0] == 35);
    let t23 = t22 + v.weight_b1g_l0;
    assert(t23[0] == 35);
    let t24 = t23 + seq![32u8];
    assert(t24[0] == 35);
    let t25 = t24 + v.weight_b1g_l1;
    assert(t25[0] == 35);
    let t26 = t25 + seq![32u8];
    assert(t26[0] == 35);
    let t27 = t26 + v.weight_b1q_l0;
    assert(t27[0] == 35);
    let t28 = t27 + seq![32u8];
    assert(t28[0] == 35);
    let t29 = t28 + v.weight_b1q_l1;
    assert(t29[0] == 35);
    let t30 = t29 + seq![32u8];
    assert(t30[0] == 35);
    let t31 = t30 + v.weight_a2g_l0;
    assert(t31[0] == 35);
    let t32 = t31 + seq![32u8];
    assert(t32[0] == 35);
    let t33 = t32 + v.weight_a2g_l1;
    assert(t33[0] == 35);
    let t34 = t33 + seq![32u8];
    assert(t34[0] == 35);
    let t35 = t34 + v.weight_a2q_l0;
    assert(t35[0] == 35);
    let t36 = t35 + seq![32u8];
    assert(t36[0] == 35);
    let t37 = t36 + v.weight_a2q_l1;
    assert(t37[0] == 35);
    let t38 = t37 + seq![32u8];
    assert(t38[0] == 35);
    let t39 = t38 + v.weight_b2g_l0;
    assert(t39[0] == 35);
    let t40 = t39 + seq![32u8];
    assert(t40[0] == 35);
    let t41 = t40 + v.weight_b2g_l1;
    assert(t41[0] == 35);
    let t42 = t41 + seq![32u8];
    assert(t42[0] == 35);
    let t43 = t42 + v.weight_b2q_l0;
    assert(t43[0] == 35);
    let t44 = t43 + seq![32u8];
    assert(t44[0] == 35);
    let t45 = t44 + v.weight_b2q_l1;
    assert(t45[0] == 35);
    let t46 = t45 + seq![10u8];
    assert(t46[0] == 35);
}

/// What the init block of a file at one loop adds.
#[derive(Clone, Debug, PartialEq)]
pub struct InitExtra1loop {
    pub pdf_sum: PdfSum,
    pub norm: Norm,
}

/// The mathematical form of [`InitExtra1loop`].
pub ghost struct InitExtra1loopView {
    pub pdf_sum: PdfSumView,
    pub norm: NormView,
}

impl View for InitExtra1loop {
    type V = InitExtra1loopView;

    open spec fn view(&self) -> InitExtra1loopView {
        InitExtra1loopView { pdf_sum: self.pdf_sum@, norm: self.norm@ }
    }
}

impl ReadLhe for InitExtra1loop {
    /// The blocks may stand in any order.
    open spec fn parse(input: Seq<u8>, pos: int) -> Result<(InitExtra1loopView, int), Failure> {
        match blocks2::<PdfSum, Norm>(input, pos) {
            Err((_, e)) => Err(e),
            Ok(((pdf_sum, norm), end)) => Ok((InitExtra1loopView { pdf_sum, norm }, end)),
        }
    }

    fn read_from_lhe(input: &[u8], pos: usize) -> (r: Result<(InitExtra1loop, usize), ParseError>) {
        match permutation2::<PdfSum, Norm>(input, pos) {
            Err(e) => Err(e.error),
            Ok(((pdf_sum, norm), end)) => Ok((InitExtra1loop { pdf_sum, norm }, end)),
        }
    }
}

impl WriteLhe for InitExtra1loop {
    open spec fn writable(v: InitExtra1loopView) -> bool {
        true
    }

    open spec fn lhe_bytes(v: InitExtra1loopView) -> Seq<u8> {
        Norm::lhe_bytes(v.norm) + PdfSum::lhe_bytes(v.pdf_sum)
    }

    fn write_lhe(&self, out: &mut Vec<u8>) -> (r: Result<(), WriteError>) {
        let ghost base = out@;
        let _ = self.norm.write_lhe(out);
        let ghost mut acc = Norm::lhe_bytes(self.norm@);
        let _ = self.pdf_sum.write_lhe(out);
        proof {
            lemma_appended(base, acc, PdfSum::lhe_bytes(self.pdf_sum@));
            acc = acc + PdfSum::lhe_bytes(self.pdf_sum@);
        }
        Ok(())
    }
}

impl Codec for InitExtra1loop {
    /// Every line reads back.
    open spec fn canonical(v: InitExtra1loopView) -> bool {
        PdfSum::canonical(v.pdf_sum) && Norm::canonical(v.norm)
    }

    /// The last line ends itself.
    open spec fn delimited(input: Seq<u8>, at: int) -> bool {
        true
    }

    proof fn lemma_round_trip(v: InitExtra1loopView, input: Seq<u8>, pos: int) {
        lemma_pdf_sum_starts(v.pdf_sum);
        lemma_norm_starts(v.norm);
        lemma_stands(input, pos, Self::lhe_bytes(v));
        lemma_stands_split(input, pos, Norm::lhe_bytes(v.norm), PdfSum::lhe_bytes(v.pdf_sum));
        lemma_pdf_sum_idle(v.norm, input, pos);
        lemma_pair_reversed::<PdfSum, Norm>(v.pdf_sum, v.norm, input, pos);
        lemma_skip_twice(input, pos + Self::lhe_bytes(v).len());
    }
}

/// The normalisation of a sample.
#[derive(Clone, Debug, PartialEq)]
pub struct Norm {
    pub n_unweighted_events: u64,
    pub alpha: Float,
    pub alpha_err: Float,
}

/// The mathematical form of [`Norm`].
pub ghost struct NormView {
    pub n_unweighted_events: u64,
    pub alpha: Seq<u8>,
    pub alpha_err: Seq<u8>,
}

impl View for Norm {
    type V = NormView;

    open spec fn view(&self) -> NormView {
        NormView {
            n_unweighted_events: self.n_unweighted_events,
            alpha: self.alpha@,
            alpha_err: self.alpha_err@,
        }
    }
}

/// Reading the fields of the record one after the other at `pos`, each with
/// the separators around it.
#[verifier::opaque]
pub open spec fn norm_at(input: Seq<u8>, pos: int) -> Result<(NormView, int), Failure> {
    match ws_tag(input, pos, HASH@) {
    Err(e) => Err(e),
    Ok(q1) => match ws_tag(input, q1, NORM@) {
    Err(e) => Err(e),
    Ok(q2) => match ws_int(input, q2, IntWidth::U64) {
    Err(e) => Err(e),
    Ok((n_unweighted_events, q3)) => match ws_float(input, q3) {
    Err(e) => Err(e),
    Ok((alpha, q4)) => match ws_float(input, q4) {
    Err(e) => Err(e),
    Ok((alpha_err, q5)) => Ok((
        NormView {
            n_unweighted_events: n_unweighted_events as u64,
            alpha,
            alpha_err,
        },
        q5,
    ))
    }}}}}
}

impl ReadLhe for Norm {
    open spec fn parse(input: Seq<u8>, pos: int) -> Result<(NormView, int), Failure> {
        norm_at(input, pos)
    }

    fn read_from_lhe(input: &[u8], pos: usize) -> (r: Result<(Norm, usize), ParseError>) {
        proof {
            reveal(norm_at);
        }
        let p = pos;
        let p = match read_ws_tag(input, p, HASH.as_slice()) {
            Ok(p) => p,
            Err(e) => return Err(e),
        };
        let p = match read_ws_tag(input, p, NORM.as_slice()) {
            Ok(p) => p,
            Err(e) => return Err(e),
        };
        let (n_unweighted_events, p) = match ws_u64(input, p) {
            Ok(x) => x,
            Err(e) => return Err(e),
        };
        let (alpha, p) = match ws_float_field(input, p) {
            Ok(x) => x,
            Err(e) => return Err(e),
        };
        let (alpha_err, p) = match ws_float_field(input, p) {
            Ok(x) => x,
            Err(e) => return Err(e),
        };
        Ok((
            Norm {
                n_unweighted_events,
                alpha,
                alpha_err,
            },
            p,
        ))
    }
}

/// The text of the record: its fields on one line, a space between them.
#[verifier::opaque]
pub open spec fn norm_bytes(v: NormView) -> Seq<u8> {
    Seq::<u8>::empty()
        + HASH@
        + seq![32u8]
        + NORM@
        + seq![32u8]
        + decimal(v.n_unweighted_events as int)
        + seq![32u8]
        + v.alpha
        + seq![32u8]
        + v.alpha_err
        + seq![10u8]
}

impl WriteLhe for Norm {
    open spec fn writable(v: NormView) -> bool {
        true
    }

    open spec fn lhe_bytes(v: NormView) -> Seq<u8> {
        norm_bytes(v)
    }

    fn write_lhe(&self, out: &mut Vec<u8>) -> (r: Result<(), WriteError>) {
        proof {
            reveal(norm_bytes);
        }
        let ghost base = out@;
        let ghost mut acc = Seq::<u8>::empty();
        assert(out@ =~= base + acc);
        put_bytes(HASH.as_slice(), 32, out, Ghost(base), Ghost(acc));
        proof {
            acc = acc + HASH@ + seq![32u8];
        }
        put_bytes(NORM.as_slice(), 32, out, Ghost(base), Ghost(acc));
        proof {
            acc = acc + NORM@ + seq![32u8];
        }
        put_u64(self.n_unweighted_events as u64, 32, out, Ghost(base), Ghost(acc));
        proof {
            acc = acc + decimal(self.n_unweighted_events as int) + seq![32u8];
        }
        put_bytes(self.alpha.as_bytes(), 32, out, Ghost(base), Ghost(acc));
        proof {
            acc = acc + self.alpha@ + seq![32u8];
        }
        put_bytes(self.alpha_err.as_bytes(), 10, out, Ghost(base), Ghost(acc));
        proof {
            acc = acc + self.alpha_err@ + seq![10u8];
        }
        assert(acc =~= Self::lhe_bytes(self@));
        Ok(())
    }
}

impl Codec for Norm {
    /// Every floating-point field holds a literal.
    open spec fn canonical(v: NormView) -> bool {
        &&& is_float_token(v.alpha)
        &&& is_float_token(v.alpha_err)
    }

    /// The text ends its last field itself.
    open spec fn delimited(input: Seq<u8>, at: int) -> bool {
        true
    }

    proof fn lemma_round_trip(v: NormView, input: Seq<u8>, pos: int) {
        reveal(norm_at);
        reveal(norm_bytes);
        let t0 = Seq::<u8>::empty();
        let t1 = t0 + HASH@ + seq![32u8];
        let t2 = t1 + NORM@ + seq![32u8];
        let t3 = t2 + decimal(v.n_unweighted_events as int) + seq![32u8];
        let t4 = t3 + v.alpha + seq![32u8];
        let t5 = t4 + v.alpha_err + seq![10u8];
        assert(Self::lhe_bytes(v) == t5);
        lemma_stands(input, pos, t5);
        lemma_float_piece(input, pos, t4, v.alpha_err, 10);
        lemma_float_piece(input, pos, t3, v.alpha, 32);
        lemma_int_piece(input, pos, t2, v.n_unweighted_events as int, IntWidth::U64, 32);
        assert(!is_space(NORM@[0]));
        lemma_tag_piece(input, pos, t1, NORM@, 32);
        assert(!is_space(HASH@[0]));
        lemma_tag_piece(input, pos, t0, HASH@, 32);
        lemma_skip_twice(input, pos + t5.len());
    }
}

/// The text of the record starts with the hash sign.
pub proof fn lemma_norm_starts(v: NormView)
    ensures
        norm_bytes(v).len() > 0,
        norm_bytes(v)[0] == 35,
{
    reveal(norm_bytes);
    let t0 = Seq::<u8>::empty();
    let t1 = t0 + HASH@;
    assert(t1[0] == 35);
    let t2 = t1 + seq![32u8];
    assert(t2[0] == 35);
    let t3 = t2 + NORM@;
    assert(t3[0] == 35);
    let t4 = t3 + seq![32u8];
    assert(t4[0] == 35);
    let t5 = t4 + decimal(v.n_unweighted_events as int);
    assert(t5[0] == 35);
    let t6 = t5 + seq![32u8];
    assert(t6[0] == 35);
    let t7 = t6 + v.alpha;
    assert(t7[0] == 35);
    let t8 = t7 + seq![32u8];
    assert(t8[0] == 35);
    let t9 = t8 + v.alpha_err;
    assert(t9[0] == 35);
    let t10 = t9 + seq![10u8];
    assert(t10[0] == 35);
}

/// What an event at one loop adds.
#[derive(Clone, Debug, PartialEq)]
pub struct EventExtra1loop {
    pub pdf: PdfInfo,
    pub me: MeInfo1loop,
}

/// The mathematical form of [`EventExtra1loop`].
pub ghost struct EventExtra1loopView {
    pub pdf: PdfInfoView,
    pub me: MeInfo1loopView,
}

impl View for EventExtra1loop {
    type V = EventExtra1loopView;

    open spec fn view(&self) -> EventExtra1loopView {
        EventExtra1loopView { pdf: self.pdf@, me: self.me@ }
    }
}

impl ReadLhe for EventExtra1loop {
    /// The blocks may stand in any order.
    open spec fn parse(input: Seq<u8>, pos: int) -> Result<(EventExtra1loopView, int), Failure> {
        match blocks2::<PdfInfo, MeInfo1loop>(input, pos) {
            Err((_, e)) => Err(e),
            Ok(((pdf, me), end)) => Ok((EventExtra1loopView { pdf, me }, end)),
        }
    }

    fn read_from_lhe(input: &[u8], pos: usize) -> (r: Result<(EventExtra1loop, usize), ParseError>) {
        match permutation2::<PdfInfo, MeInfo1loop>(input, pos) {
            Err(e) => Err(e.error),
            Ok(((pdf, me), end)) => Ok((EventExtra1loop { pdf, me }, end)),
        }
    }
}

impl WriteLhe for EventExtra1loop {
    open spec fn writable(v: EventExtra1loopView) -> bool {
        true
    }

    open spec fn lhe_bytes(v: EventExtra1loopView) -> Seq<u8> {
        PdfInfo::lhe_bytes(v.pdf) + MeInfo1loop::lhe_bytes(v.me)
    }

    fn write_lhe(&self, out: &mut Vec<u8>) -> (r: Result<(), WriteError>) {
        let ghost base = out@;
        let _ = self.pdf.write_lhe(out);
        let ghost mut acc = PdfInfo::lhe_bytes(self.pdf@);
        let _ = self.me.write_lhe(out);
        proof {
            lemma_appended(base, acc, MeInfo1loop::lhe_bytes(self.me@));
            acc = acc + MeInfo1loop::lhe_bytes(self.me@);
        }
        Ok(())
    }
}

impl Codec for EventExtra1loop {
    /// Every line reads back.
    open spec fn canonical(v: EventExtra1loopView) -> bool {
        PdfInfo::canonical(v.pdf) && MeInfo1loop::canonical(v.me)
    }

    /// The last line ends itself.
    open spec fn delimited(input: Seq<u8>, at: int) -> bool {
        true
    }

    proof fn lemma_round_trip(v: EventExtra1loopView, input: Seq<u8>, pos: int) {
        lemma_pdf_info_starts(v.pdf);
        lemma_me_info1loop_starts(v.me);
        lemma_stands(input, pos, Self::lhe_bytes(v));
        lemma_pair_in_order::<PdfInfo, MeInfo1loop>(v.pdf, v.me, input, pos);
        lemma_skip_twice(input, pos + Self::lhe_bytes(v).len());
    }
}

/// The matrix elements of an event at one loop.
#[derive(Clone, Debug, PartialEq)]
pub struct MeInfo1loop {
    pub max_ew_lo: i64,
    pub max_qcd_lo: i64,
    pub weight_lo: Float,
    pub max_ew_1loop: i64,
    pub max_qcd_1loop: i64,
    pub weight_1loop: Float,
    pub coeff_a: Float,
    pub coeff_b: Float,
    pub coeff_c: Float,
}

/// The mathematical form of [`MeInfo1loop`].
pub ghost struct MeInfo1loopView {
    pub max_ew_lo: i64,
    pub max_qcd_lo: i64,
    pub weight_lo: Seq<u8>,
    pub max_ew_1loop: i64,
    pub max_qcd_1loop: i64,
    pub weight_1loop: Seq<u8>,
    pub coeff_a: Seq<u8>,
    pub coeff_b: Seq<u8>,
    pub coeff_c: Seq<u8>,
}

impl View for MeInfo1loop {
    type V = MeInfo1loopView;

    open spec fn view(&self) -> MeInfo1loopView {
        MeInfo1loopView {
            max_ew_lo: self.max_ew_lo,
            max_qcd_lo: self.max_qcd_lo,
            weight_lo: self.weight_lo@,
            max_ew_1loop: self.max_ew_1loop,
            max_qcd_1loop: self.max_qcd_1loop,
            weight_1loop: self.weight_1loop@,
            coeff_a: self.coeff_a@,
            coeff_b: self.coeff_b@,
            coeff_c: self.coeff_c@,
        }
    }
}

/// Reading the fields of the record one after the other at `pos`, each with
/// the separators around it.
#[verifier::opaque]
pub open spec fn me_info1loop_at(input: Seq<u8>, pos: int) -> Result<(MeInfo1loopView, int), Failure> {
    match ws_tag(input, pos, HASH@) {
    Err(e) => Err(e),
    Ok(q1) => match ws_tag(input, q1, ME@) {
    Err(e) => Err(e),
    Ok(q2) => match ws_int(input, q2, IntWidth::I64) {
    Err(e) => Err(e),
    Ok((max_ew_lo, q3)) => match ws_int(input, q3, IntWidth::I64) {
    Err(e) => Err(e),
    Ok((max_qcd_lo, q4)) => match ws_float(input, q4) {
    Err(e) => Err(e),
    Ok((weight_lo, q5)) => match ws_int(input, q5, IntWidth::I64) {
    Err(e) => Err(e),
    Ok((max_ew_1loop, q6)) => match ws_int(input, q6, IntWidth::I64) {
    Err(e) => Err(e),
    Ok((max_qcd_1loop, q7)) => match ws_float(input, q7) {
    Err(e) => Err(e),
    Ok((weight_1loop, q8)) => match ws_float(input, q8) {
    Err(e) => Err(e),
    Ok((coeff_a, q9)) => match ws_float(input, q9) {
    Err(e) => Err(e),
    Ok((coeff_b, q10)) => match ws_float(input, q10) {
    Err(e) => Err(e),
    Ok((coeff_c, q11)) => Ok((
        MeInfo1loopView {
            max_ew_lo: max_ew_lo as i64,
            max_qcd_lo: max_qcd_lo as i64,
            weight_lo,
            max_ew_1loop: max_ew_1loop as i64,
            max_qcd_1loop: max_qcd_1loop as i64,
            weight_1loop,
            coeff_a,
            coeff_b,
            coeff_c,
        },
        q11,
    ))
    }}}}}}}}}}}
}

impl ReadLhe for MeInfo1loop {
    open spec fn parse(input: Seq<u8>, pos: int) -> Result<(MeInfo1loopView, int), Failure> {
        me_info1loop_at(input, pos)
    }

    fn read_from_lhe(input: &[u8], pos: usize) -> (r: Result<(MeInfo1loop, usize), ParseError>) {
        proof {
            reveal(me_info1loop_at);
        }
        let p = pos;
        let p = match read_ws_tag(input, p, HASH.as_slice()) {
            Ok(p) => p,
            Err(e) => return Err(e),
        };
        let p = match read_ws_tag(input, p, ME.as_slice()) {
            Ok(p) => p,
            Err(e) => return Err(e),
        };
        let (max_ew_lo, p) = match ws_i64(input, p) {
            Ok(x) => x,
            Err(e) => return Err(e),
        };
        let (max_qcd_lo, p) = match ws_i64(input, p) {
            Ok(x) => x,
            Err(e) => return Err(e),
        };
        let (weight_lo, p) = match ws_float_field(input, p) {
            Ok(x) => x,
            Err(e) => return Err(e),
        };
        let (max_ew_1loop, p) = match ws_i64(input, p) {
            Ok(x) => x,
            Err(e) => return Err(e),
        };
        let (max_qcd_1loop, p) = match ws_i64(input, p) {
            Ok(x) => x,
            Err(e) => return Err(e),
        };
        let (weight_1loop, p) = match ws_float_field(input, p) {
            Ok(x) => x,
            Err(e) => return Err(e),
        };
        let (coeff_a, p) = match ws_float_field(input, p) {
            Ok(x) => x,
            Err(e) => return Err(e),
        };
        let (coeff_b, p) = match ws_float_field(input, p) {
            Ok(x) => x,
            Err(e) => return Err(e),
        };
        let (coeff_c, p) = match ws_float_field(input, p) {
            Ok(x) => x,
            Err(e) => return Err(e),
        };
        Ok((
            MeInfo1loop {
                max_ew_lo,
                max_qcd_lo,
                weight_lo,
                max_ew_1loop,
                max_qcd_1loop,
                weight_1loop,
                coeff_a,
                coeff_b,
                coeff_c,
            },
            p,
        ))
    }
}

/// The text of the record: its fields on one line, a space between them.
#[verifier::opaque]
pub open spec fn me_info1loop_bytes(v: MeInfo1loopView) -> Seq<u8> {
    Seq::<u8>::empty()
        + HASH@
        + seq![32u8]
        + ME@
        + seq![32u8]
        + decimal(v.max_ew_lo as int)
        + seq![32u8]
        + decimal(v.max_qcd_lo as int)
        + seq![32u8]
        + v.weight_lo
        + seq![32u8]
        + decimal(v.max_ew_1loop as int)
        + seq![32u8]
        + decimal(v.max_qcd_1loop as int)
        + seq![32u8]
        + v.weight_1loop
        + seq![32u8]
        + v.coeff_a
        + seq![32u8]
        + v.coeff_b
        + seq![32u8]
        + v.coeff_c
        + seq![10u8]
}

impl WriteLhe for MeInfo1loop {
    open spec fn writable(v: MeInfo1loopView) -> bool {
        true
    }

    open spec fn lhe_bytes(v: MeInfo1loopView) -> Seq<u8> {
        me_info1loop_bytes(v)
    }

    fn write_lhe(&self, out: &mut Vec<u8>) -> (r: Result<(), WriteError>) {
        proof {
            reveal(me_info1loop_bytes);
        }
        let ghost base = out@;
        let ghost mut acc = Seq::<u8>::empty();
        assert(out@ =~= base + acc);
        put_bytes(HASH.as_slice(), 32, out, Ghost(base), Ghost(acc));
        proof {
            acc = acc + HASH@ + seq![32u8];
        }
        put_bytes(ME.as_slice(), 32, out, Ghost(base), Ghost(acc));
        proof {
            acc = acc + ME@ + seq![32u8];
        }
        put_i64(self.max_ew_lo, 32, out, Ghost(base), Ghost(acc));
        proof {
            acc = acc + decimal(self.max_ew_lo as int) + seq![32u8];
        }
        put_i64(self.max_qcd_lo, 32, out, Ghost(base), Ghost(acc));
        proof {
            acc = acc + decimal(self.max_qcd_lo as int) + seq![32u8];
        }
        put_bytes(self.weight_lo.as_bytes(), 32, out, Ghost(base), Ghost(acc));
        proof {
            acc = acc + self.weight_lo@ + seq![32u8];
        }
        put_i64(self.max_ew_1loop, 32, out, Ghost(base), Ghost(acc));
        proof {
            acc = acc + decimal(self.max_ew_1loop as int) + seq![32u8];
        }
        put_i64(self.max_qcd_1loop, 32, out, Ghost(base), Ghost(acc));
        proof {
            acc = acc + decimal(self.max_qcd_1loop as int) + seq![32u8];
        }
        put_bytes(self.weight_1loop.as_bytes(), 32, out, Ghost(base), Ghost(acc));
        proof {
            acc = acc + self.weight_1loop@ + seq![32u8];
        }
        put_bytes(self.coeff_a.as_bytes(), 32, out, Ghost(base), Ghost(acc));
        proof {
            acc = acc + self.coeff_a@ + seq![32u8];
        }
        put_bytes(self.coeff_b.as_bytes(), 32, out, Ghost(base), Ghost(acc));
        proof {
            acc = acc + self.coeff_b@ + seq![32u8];
        }
        put_bytes(self.coeff_c.as_bytes(), 10, out, Ghost(base), Ghost(acc));
        proof {
            acc = acc + self.coeff_c@ + seq![10u8];
        }
        assert(acc =~= Self::lhe_bytes(self@));
        Ok(())
    }
}

impl Codec for MeInfo1loop {
    /// Every floating-point field holds a literal.
    open spec fn canonical(v: MeInfo1loopView) -> bool {
        &&& is_float_token(v.weight_lo)
        &&& is_float_token(v.weight_1loop)
        &&& is_float_token(v.coeff_a)
        &&& is_float_token(v.coeff_b)
        &&& is_float_token(v.coeff_c)
    }

    /// The text ends its last field itself.
    open spec fn delimited(input: Seq<u8>, at: int) -> bool {
        true
    }

    proof fn lemma_round_trip(v: MeInfo1loopView, input: Seq<u8>, pos: int) {
        reveal(me_info1loop_at);
        reveal(me_info1loop_bytes);
        let t0 = Seq::<u8>::empty();
        let t1 = t0 + HASH@ + seq![32u8];
        let t2 = t1 + ME@ + seq![32u8];
        let t3 = t2 + decimal(v.max_ew_lo as int) + seq![32u8];
        let t4 = t3 + decimal(v.max_qcd_lo as int) + seq![32u8];
        let t5 = t4 + v.weight_lo + seq![32u8];
        let t6 = t5 + decimal(v.max_ew_1loop as int) + seq![32u8];
        let t7 = t6 + decimal(v.max_qcd_1loop as int) + seq![32u8];
        let t8 = t7 + v.weight_1loop + seq![32u8];
        let t9 = t8 + v.coeff_a + seq![32u8];
        let t10 = t9 + v.coeff_b + seq![32u8];
        let t11 = t10 + v.coeff_c + seq![10u8];
        assert(Self::lhe_bytes(v) == t11);
        lemma_stands(input, pos, t11);
        lemma_float_piece(input, pos, t10, v.coeff_c, 10);
        lemma_float_piece(input, pos, t9, v.coeff_b, 32);
        lemma_float_piece(input, pos, t8, v.coeff_a, 32);
        lemma_float_piece(input, pos, t7, v.weight_1loop, 32);
        lemma_int_piece(input, pos, t6, v.max_qcd_1loop as int, IntWidth::I64, 32);
        lemma_int_piece(input, pos, t5, v.max_ew_1loop as int, IntWidth::I64, 32);
        lemma_float_piece(input, pos, t4, v.weight_lo, 32);
        lemma_int_piece(input, pos, t3, v.max_qcd_lo as int, IntWidth::I64, 32);
        lemma_int_piece(input, pos, t2, v.max_ew_lo as int, IntWidth::I64, 32);
        assert(!is_space(ME@[0]));
        lemma_tag_piece(input, pos, t1, ME@, 32);
        assert(!is_space(HASH@[0]));
        lemma_tag_piece(input, pos, t0, HASH@, 32);
        lemma_skip_twice(input, pos + t11.len());
    }
}

/// The text of the record starts with the hash sign.
pub proof fn lemma_me_info1loop_starts(v: MeInfo1loopView)
    ensures
        me_info1loop_bytes(v).len() > 0,
        me_info1loop_bytes(v)[0] == 35,
{
    reveal(me_info1loop_bytes);
    let t0 = Seq::<u8>::empty();
    let t1 = t0 + HASH@;
    assert(t1[0] == 35);
    let t2 = t1 + seq![32u8];
    assert(t2[0] == 35);
    let t3 = t2 + ME@;
    assert(t3[0] == 35);
    let t4 = t3 + seq![32u8];
    assert(t4[0] == 35);
    let t5 = t4 + decimal(v.max_ew_lo as int);
    assert(t5[0] == 35);
    let t6 = t5 + seq![32u8];
    assert(t6[0] == 35);
    let t7 = t6 + decimal(v.max_qcd_lo as int);
    assert(t7[0] == 35);
    let t8 = t7 + seq![32u8];
    assert(t8[0] == 35);
    let t9 = t8 + v.weight_lo;
    assert(t9[0] == 35);
    let t10 = t9 + seq![32u8];
    assert(t10[0] == 35);
    let t11 = t10 + decimal(v.max_ew_1loop as int);
    assert(t11[0] == 35);
    let t12 = t11 + seq![32u8];
    assert(t12[0] == 35);
    let t13 = t12 + decimal(v.max_qcd_1loop as int);
    assert(t13[0] == 35);
    let t14 = t13 + seq![32u8];
    assert(t14[0] == 35);
    let t15 = t14 + v.weight_1loop;
    assert(t15[0] == 35);
    let t16 = t15 + seq![32u8];
    assert(t16[0] == 35);
    let t17 = t16 + v.coeff_a;
    assert(t17[0] == 35);
    let t18 = t17 + seq![32u8];
    assert(t18[0] == 35);
    let t19 = t18 + v.coeff_b;
    assert(t19[0] == 35);
    let t20 = t19 + seq![32u8];
    assert(t20[0] == 35);
    let t21 = t20 + v.coeff_c;
    assert(t21[0] == 35);
    let t22 = t21 + seq![10u8];
    assert(t22[0] == 35);
}

} // verus!
