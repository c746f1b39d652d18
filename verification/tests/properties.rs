#![allow(dead_code, unused_imports)]
use lhef::generic::{EventGeneric, InitGeneric, LheFileGeneric};
use lhef::{Float, FourMomentum, Particle, ParseError, ProcInfo, ReadLhe, WriteLhe};

fn val(f: &Float) -> f64 {
    std::str::from_utf8(f.as_bytes()).unwrap().parse().unwrap()
}

fn fl(x: f64) -> Float {
    let text = if x.is_nan() {
        "NaN".to_string()
    } else if x.is_infinite() {
        if x > 0. { "Infinity".to_string() } else { "-Infinity".to_string() }
    } else {
        format!("{:e}", x)
    };
    Float::from_token(text.as_bytes()).unwrap()
}

fn proc(p: &ProcInfo) -> (f64, f64, f64, i64) {
    (val(&p.xsect), val(&p.xsect_err), val(&p.maximum_weight), p.process_id)
}

fn part(p: &Particle) -> ([i64; 6], [f64; 4], [f64; 3]) {
    (
        [p.pdg_id, p.status, p.mother_1_id, p.mother_2_id, p.color_1, p.color_2],
        [val(&p.momentum.px), val(&p.momentum.py), val(&p.momentum.pz), val(&p.momentum.e)],
        [val(&p.mass), val(&p.proper_lifetime), val(&p.spin)],
    )
}

fn init_head<E>(i: &InitGeneric<E>) -> ([i64; 2], [f64; 2], [i64; 5]) {
    (
        [i.beam_1_id, i.beam_2_id],
        [val(&i.beam_1_energy), val(&i.beam_2_energy)],
        [
            i.beam_1_pdf_group_id,
            i.beam_2_pdf_group_id,
            i.beam_1_pdf_id,
            i.beam_2_pdf_id,
            i.weighting_strategy,
        ],
    )
}

fn event_head<E>(e: &EventGeneric<E>) -> (i64, [f64; 4]) {
    (e.process_id, [val(&e.weight), val(&e.scale), val(&e.alpha_ew), val(&e.alpha_qcd)])
}

fn procs<E>(i: &InitGeneric<E>) -> Vec<(f64, f64, f64, i64)> {
    i.process_info.iter().map(proc).collect()
}

fn parts<E>(e: &EventGeneric<E>) -> Vec<([i64; 6], [f64; 4], [f64; 3])> {
    e.particles.iter().map(part).collect()
}

fn particle(i: [i64; 6], p: [f64; 4], r: [f64; 3]) -> ([i64; 6], [f64; 4], [f64; 3]) {
    (i, p, r)
}

fn ok<T>(r: Result<(T, usize), ParseError>) -> T {
    match r {
        Ok((v, _)) => v,
        Err(e) => panic!("failed to read: {:?}", e),
    }
}

fn written<T: WriteLhe>(v: &T) -> Vec<u8> {
    let mut bytes = Vec::new();
    v.write_lhe(&mut bytes).unwrap();
    bytes
}


use lhef::float::parse_float;
use lhef::helac::{DipMapInfo, MeInfoRS, PdfSum, PdfSumKP};
use lhef::lexer;
use quickcheck::{QuickCheck, TestResult};

fn check<A: quickcheck::Testable>(property: A) {
    QuickCheck::new().tests(300).quickcheck(property);
}

fn i8_back(n: i8) -> bool {
    let text = n.to_string();
    lexer::parse_i8(text.as_bytes(), 0) == Ok((n, text.len()))
}

#[test]
fn parse_i8_qc() {
    check(i8_back as fn(i8) -> bool);
}

fn i8_overflow(n: i64) -> TestResult {
    if n <= i8::MAX as i64 && n >= i8::MIN as i64 {
        return TestResult::discard();
    }
    let text = n.to_string();
    TestResult::from_bool(
        lexer::parse_i8(text.as_bytes(), 0)
            == Err(ParseError::Range { width: lhef::IntWidth::I8, literal: text.into_bytes() }),
    )
}

#[test]
fn parse_i8_overflow_qc() {
    check(i8_overflow as fn(i64) -> TestResult);
}

fn i64_back(n: i64) -> bool {
    let text = n.to_string();
    lexer::parse_i64(text.as_bytes(), 0) == Ok((n, text.len()))
}

#[test]
fn parse_i64_qc() {
    check(i64_back as fn(i64) -> bool);
}

fn u8_back(n: u8) -> bool {
    let text = n.to_string();
    lexer::parse_u8(text.as_bytes(), 0) == Ok((n, text.len()))
}

#[test]
fn parse_u8_qc() {
    check(u8_back as fn(u8) -> bool);
}

fn u8_overflow(n: i64) -> TestResult {
    if n <= u8::MAX as i64 && n >= u8::MIN as i64 {
        return TestResult::discard();
    }
    let text = n.to_string();
    TestResult::from_bool(lexer::parse_u8(text.as_bytes(), 0).is_err())
}

#[test]
fn parse_u8_overflow_qc() {
    check(u8_overflow as fn(i64) -> TestResult);
}

fn widths_back(a: i16, b: i32, c: u16, d: u32, e: u64) -> bool {
    let t = [a.to_string(), b.to_string(), c.to_string(), d.to_string(), e.to_string()];
    lexer::parse_i16(t[0].as_bytes(), 0) == Ok((a, t[0].len()))
        && lexer::parse_i32(t[1].as_bytes(), 0) == Ok((b, t[1].len()))
        && lexer::parse_u16(t[2].as_bytes(), 0) == Ok((c, t[2].len()))
        && lexer::parse_u32(t[3].as_bytes(), 0) == Ok((d, t[3].len()))
        && lexer::parse_u64(t[4].as_bytes(), 0) == Ok((e, t[4].len()))
}

#[test]
fn parse_other_widths_qc() {
    check(widths_back as fn(i16, i32, u16, u32, u64) -> bool);
}

fn written_number_back(n: i64, m: u64) -> bool {
    let mut text = Vec::new();
    lexer::write_i64(n, &mut text);
    text.push(b' ');
    let mid = text.len();
    lexer::write_u64(m, &mut text);
    text == format!("{} {}", n, m).into_bytes()
        && lexer::parse_i64(&text, 0) == Ok((n, mid - 1))
        && lexer::parse_u64(&text, mid) == Ok((m, text.len()))
}

#[test]
fn written_numbers_qc() {
    check(written_number_back as fn(i64, u64) -> bool);
}

fn float_back(n: f64) -> bool {
    if n.is_nan() || n.is_infinite() {
        let f = fl(n);
        let (back, end) = parse_float(f.as_bytes(), 0).unwrap();
        return back == f && end == f.as_bytes().len();
    }
    for text in [format!("{} ", n), format!("{:e} ", n), format!("{:?} ", n)] {
        match parse_float(text.as_bytes(), 0) {
            Ok((f, end)) => {
                if val(&f) != n || end != text.len() - 1 {
                    return false;
                }
            }
            Err(_) => return false,
        }
    }
    true
}

#[test]
fn parse_f64_qc() {
    check(float_back as fn(f64) -> bool);
}

fn proc_back(a: f64, b: f64, c: f64, d: i64) -> bool {
    let p = ProcInfo { xsect: fl(a), xsect_err: fl(b), maximum_weight: fl(c), process_id: d };
    let bytes = written(&p);
    ProcInfo::read_from_lhe(&bytes, 0) == Ok((p, bytes.len()))
}

#[test]
fn proc_info_roundtrip_qc() {
    check(proc_back as fn(f64, f64, f64, i64) -> bool);
}

fn make_particle(i: (i64, i64, i64, i64, i64, i64), f: (f64, f64, f64, f64, f64, f64, f64)) -> Particle {
    Particle {
        pdg_id: i.0,
        status: i.1,
        mother_1_id: i.2,
        mother_2_id: i.3,
        color_1: i.4,
        color_2: i.5,
        momentum: FourMomentum { px: fl(f.0), py: fl(f.1), pz: fl(f.2), e: fl(f.3) },
        mass: fl(f.4),
        proper_lifetime: fl(f.5),
        spin: fl(f.6),
    }
}

fn particle_back(i: (i64, i64, i64, i64, i64, i64), f: (f64, f64, f64, f64, f64, f64, f64)) -> bool {
    let p = make_particle(i, f);
    let bytes = written(&p);
    Particle::read_from_lhe(&bytes, 0) == Ok((p, bytes.len()))
}

#[test]
fn particle_roundtrip_qc() {
    check(
        particle_back as fn((i64, i64, i64, i64, i64, i64), (f64, f64, f64, f64, f64, f64, f64)) -> bool,
    );
}

type PlainFile = lhef::plain::LheFile;

fn make_file(
    version: String,
    beams: (i64, i64, f64, f64),
    procs: Vec<(f64, f64, f64, i64)>,
    events: Vec<(i64, f64, Vec<((i64, i64, i64, i64, i64, i64), (f64, f64, f64, f64, f64, f64, f64))>)>,
) -> PlainFile {
    LheFileGeneric {
        version,
        comment: lhef::plain::Comment {},
        header: lhef::plain::Header {},
        init: InitGeneric {
            beam_1_id: beams.0,
            beam_2_id: beams.1,
            beam_1_energy: fl(beams.2),
            beam_2_energy: fl(beams.3),
            beam_1_pdf_group_id: beams.0.wrapping_add(1),
            beam_2_pdf_group_id: beams.1.wrapping_sub(1),
            beam_1_pdf_id: -beams.0.wrapping_add(2),
            beam_2_pdf_id: beams.1,
            weighting_strategy: 3,
            process_info: procs
                .into_iter()
                .map(|(a, b, c, d)| ProcInfo {
                    xsect: fl(a),
                    xsect_err: fl(b),
                    maximum_weight: fl(c),
                    process_id: d,
                })
                .collect(),
            extra: lhef::plain::InitExtra {},
        },
        events: events
            .into_iter()
            .map(|(id, w, ps)| EventGeneric {
                process_id: id,
                weight: fl(w),
                scale: fl(w * 2.),
                alpha_ew: fl(-w),
                alpha_qcd: fl(w / 3.),
                particles: ps.into_iter().map(|(i, f)| make_particle(i, f)).collect(),
                extra: lhef::plain::EventExtra {},
            })
            .collect(),
    }
}

fn file_back(
    version: String,
    beams: (i64, i64, f64, f64),
    procs: Vec<(f64, f64, f64, i64)>,
    events: Vec<(i64, f64, Vec<((i64, i64, i64, i64, i64, i64), (f64, f64, f64, f64, f64, f64, f64))>)>,
) -> TestResult {
    let quoted = version.contains('"');
    let file = make_file(version, beams, procs, events);
    let mut bytes = Vec::new();
    match file.write_lhe(&mut bytes) {
        Err(e) => TestResult::from_bool(
            quoted && e == lhef::WriteError::QuoteInVersion && bytes.is_empty(),
        ),
        Ok(()) => TestResult::from_bool(
            !quoted && PlainFile::read_from_lhe(&bytes, 0) == Ok((file, bytes.len())),
        ),
    }
}

#[test]
fn lhefile_roundtrip_qc() {
    QuickCheck::new().tests(60).quickcheck(
        file_back
            as fn(
                String,
                (i64, i64, f64, f64),
                Vec<(f64, f64, f64, i64)>,
                Vec<(i64, f64, Vec<((i64, i64, i64, i64, i64, i64), (f64, f64, f64, f64, f64, f64, f64))>)>,
            ) -> TestResult,
    );
}

fn lists_back(pairs: Vec<(i64, i64)>, dipoles: Vec<(i8, i8)>, quarks: Vec<i64>, gluon: Option<i64>) -> bool {
    let sum = PdfSum { pdf_sum_pairs: pairs };
    let bytes = written(&sum);
    if PdfSum::read_from_lhe(&bytes, 0) != Ok((sum, bytes.len())) {
        return false;
    }
    let mut dipoles = dipoles;
    dipoles.truncate(255);
    let map = DipMapInfo { dipole_type: -3, dipole_map: dipoles };
    let bytes = written(&map);
    if DipMapInfo::read_from_lhe(&bytes, 0) != Ok((map, bytes.len())) {
        return false;
    }
    let kp = PdfSumKP {
        beam_1_gluon_id: gluon,
        beam_2_gluon_id: None,
        beam_1_quark_ids: quarks.clone(),
        beam_2_quark_ids: quarks,
    };
    let bytes = written(&kp);
    PdfSumKP::read_from_lhe(&bytes, 0) == Ok((kp, bytes.len()))
}

#[test]
fn helac_lists_roundtrip_qc() {
    check(lists_back as fn(Vec<(i64, i64)>, Vec<(i8, i8)>, Vec<i64>, Option<i64>) -> bool);
}

fn meinfors_back(dip: Vec<(i8, f64, f64)>, irun: bool, w: (f64, f64, f64), o: (u8, u8)) -> bool {
    let mut dip = dip;
    dip.truncate(255);
    let me = MeInfoRS {
        weight: fl(w.0),
        max_ew: o.0,
        max_qcd: o.1,
        real_weight: fl(w.1),
        scale: fl(w.2),
        dipole_ids: dip.iter().map(|d| d.0).collect(),
        dipole_weights: dip.iter().map(|d| fl(d.1)).collect(),
        dipole_mu_rs: if irun { Some(dip.iter().map(|d| fl(d.2)).collect()) } else { None },
    };
    let bytes = written(&me);
    MeInfoRS::read_from_lhe(&bytes, 0) == Ok((me, bytes.len()))
}

#[test]
fn meinfors_roundtrip_qc() {
    check(meinfors_back as fn(Vec<(i8, f64, f64)>, bool, (f64, f64, f64), (u8, u8)) -> bool);
}
