#![allow(dead_code, unused_imports)]
use lhef::generic::{EventGeneric, InitGeneric, LheFileGeneric};
use lhef::{Float, FourMomentum, Particle, ParseError, ProcInfo, ReadLhe, WriteLhe};
use lhef::helac::{
    Comment, DipMapInfo, EventExtra1loop, EventExtraI, EventExtraKP, EventExtraRS, Header,
    InitExtra1loop, InitExtraRS, JetAlgoInfo, JetInfo, LheFileI, MeInfo1loop, MeInfoI, MeInfoKP,
    MeInfoRS, Norm, PdfInfo, PdfSum, PdfSumKP,
};

fn val(f: &Float) -> f64 {
    std::str::from_utf8(f.as_bytes()).unwrap().parse().unwrap()
}

fn fl(x: f64) -> Float {
    let text = if x.is_nan() {
        "NaN".to_string()
    } else if x.is_infinite() {
        if x > 0. { "Infinity".to_string() } else { "-Infinity".to_string() }
    } else {
        format!("{:e}", x)
    };
    Float::from_token(text.as_bytes()).unwrap()
}

fn proc(p: &ProcInfo) -> (f64, f64, f64, i64) {
    (val(&p.xsect), val(&p.xsect_err), val(&p.maximum_weight), p.process_id)
}

fn part(p: &Particle) -> ([i64; 6], [f64; 4], [f64; 3]) {
    (
        [p.pdg_id, p.status, p.mother_1_id, p.mother_2_id, p.color_1, p.color_2],
        [val(&p.momentum.px), val(&p.momentum.py), val(&p.momentum.pz), val(&p.momentum.e)],
        [val(&p.mass), val(&p.proper_lifetime), val(&p.spin)],
    )
}

fn init_head<E>(i: &InitGeneric<E>) -> ([i64; 2], [f64; 2], [i64; 5]) {
    (
        [i.beam_1_id, i.beam_2_id],
        [val(&i.beam_1_energy), val(&i.beam_2_energy)],
        [
            i.beam_1_pdf_group_id,
            i.beam_2_pdf_group_id,
            i.beam_1_pdf_id,
            i.beam_2_pdf_id,
            i.weighting_strategy,
        ],
    )
}

fn event_head<E>(e: &EventGeneric<E>) -> (i64, [f64; 4]) {
    (e.process_id, [val(&e.weight), val(&e.scale), val(&e.alpha_ew), val(&e.alpha_qcd)])
}

fn procs<E>(i: &InitGeneric<E>) -> Vec<(f64, f64, f64, i64)> {
    i.process_info.iter().map(proc).collect()
}

fn parts<E>(e: &EventGeneric<E>) -> Vec<([i64; 6], [f64; 4], [f64; 3])> {
    e.particles.iter().map(part).collect()
}

fn particle(i: [i64; 6], p: [f64; 4], r: [f64; 3]) -> ([i64; 6], [f64; 4], [f64; 3]) {
    (i, p, r)
}

fn ok<T>(r: Result<(T, usize), ParseError>) -> T {
    match r {
        Ok((v, _)) => v,
        Err(e) => panic!("failed to read: {:?}", e),
    }
}

fn written<T: WriteLhe>(v: &T) -> Vec<u8> {
    let mut bytes = Vec::new();
    v.write_lhe(&mut bytes).unwrap();
    bytes
}


fn floats(v: &[Float]) -> Vec<f64> {
    v.iter().map(val).collect()
}

fn pdf(p: &PdfInfo) -> [f64; 3] {
    [val(&p.x1), val(&p.x2), val(&p.scale)]
}

fn check_meinfors(m: &MeInfoRS, mu_rs: Option<Vec<f64>>) {
    assert_eq!(val(&m.weight), 13.);
    assert_eq!(m.max_ew, 1);
    assert_eq!(m.max_qcd, 6);
    assert_eq!(val(&m.real_weight), 3.);
    assert_eq!(val(&m.scale), 4.);
    assert_eq!(m.dipole_ids, vec![7, 8]);
    assert_eq!(floats(&m.dipole_weights), vec![9., 10.]);
    assert_eq!(m.dipole_mu_rs.as_ref().map(|v| floats(v)), mu_rs);
}

fn check_jetalgo(j: &JetAlgoInfo, pt_veto: Option<f64>) {
    assert_eq!(j.algorithm_id, 1);
    assert_eq!(j.n_bjets, 2);
    assert_eq!(val(&j.eta_max), 3.);
    assert_eq!(val(&j.dr), 4.);
    assert_eq!(j.pt_veto.as_ref().map(val), pt_veto);
}

fn dipmap() -> DipMapInfo {
    DipMapInfo {
        dipole_type: 1,
        dipole_map: vec![(1, 7), (1, 8), (1, 9), (2, 7), (2, 8), (2, 9), (7, 8), (7, 9), (8, 9)],
    }
}

fn pdfsum() -> PdfSum {
    PdfSum { pdf_sum_pairs: vec![(1, 2), (3, 4), (-1, -2), (0, 8)] }
}

#[test]
fn meinfors_roundtrip() {
    let start = MeInfoRS {
        weight: fl(1.),
        max_ew: 2,
        max_qcd: 3,
        real_weight: fl(4.),
        scale: fl(5.),
        dipole_ids: vec![7],
        dipole_weights: vec![Float::from_token(b"8").unwrap()],
        dipole_mu_rs: Some(vec![Float::from_token(b"9").unwrap()]),
    };
    let bytes = written(&start);
    assert_eq!(bytes, b"# me 1e0 2 3 4e0 5e0 1 1 7 8 9\n".to_vec());
    let round = match MeInfoRS::read_from_lhe(&bytes, 0) {
        Ok((r, _)) => r,
        Err(err) => {
            println!("{}", std::str::from_utf8(&bytes).unwrap());
            panic!("Failed to read roundtrip: {:?}", err);
        }
    };
    if start != round {
        println!("After: {:?}", round);
        assert_eq!(start, round);
    }
}

#[test]
fn helac_read_comment() {
    let bytes = b"<!--
File generated with HELAC-DIPOLES
-->";
    let expected = Comment("File generated with HELAC-DIPOLES".to_string());
    let comment = ok(Comment::read_from_lhe(bytes as &[u8], 0));
    assert_eq!(comment, expected);
}

#[test]
fn read_pdfsum() {
    let bytes = b"# SUMPDF 4 1 2 3 4 -1 -2 0 8\n";
    let result = ok(PdfSum::read_from_lhe(bytes, 0));
    assert_eq!(result, pdfsum());
}

#[test]
fn read_pdfsum_empty() {
    let bytes = b"# SUMPDF 0\n";
    let expected = PdfSum { pdf_sum_pairs: vec![] };
    let result = ok(PdfSum::read_from_lhe(bytes, 0));
    assert_eq!(result, expected);
}

#[test]
fn read_pdfinfo() {
    let bytes = b"# pdf 1.0 2.0 3.0\n";
    let result = ok(PdfInfo::read_from_lhe(bytes, 0));
    assert_eq!(pdf(&result), [1.0, 2.0, 3.0]);
}

#[test]
fn read_jetalgoinfo_true() {
    let bytes = b"# JETALGO 1 2 3. 4. T 5.\n";
    let result = ok(JetAlgoInfo::read_from_lhe(bytes, 0));
    check_jetalgo(&result, Some(5.));
}

#[test]
fn read_jetalgoinfo_false() {
    let bytes = b"# JETALGO 1 2 3. 4. F 5.\n";
    let result = ok(JetAlgoInfo::read_from_lhe(bytes, 0));
    check_jetalgo(&result, None);
}

#[test]
fn read_dipmap() {
    let bytes = b"# DIPMAP 1   9  1  7  1  8  1  9  2  7  2  8  2  9  7  8  7  9  8  9\n";
    let result = ok(DipMapInfo::read_from_lhe(bytes, 0));
    assert_eq!(result, dipmap());
}

#[test]
fn read_initextrars() {
    let bytes_normal = b"# SUMPDF 4 1 2 3 4 -1 -2 0 8\n# DIPMAP 1   9  1  7  1  8  1  9  2  7  2  8  2  9  7  8  7  9  8  9\n# JETALGO 1 2 3. 4. F 5.\n";
    let bytes_reverse = b"# JETALGO 1 2 3. 4. F 5.\n# DIPMAP 1   9  1  7  1  8  1  9  2  7  2  8  2  9  7  8  7  9  8  9\n# SUMPDF 4 1 2 3 4 -1 -2 0 8\n";
    let result_normal = ok(InitExtraRS::read_from_lhe(bytes_normal, 0));
    assert_eq!(result_normal.pdf_sum, pdfsum());
    assert_eq!(result_normal.dip_map, dipmap());
    check_jetalgo(&result_normal.jet_algo, None);
    let result_reverse = ok(InitExtraRS::read_from_lhe(bytes_reverse, 0));
    assert_eq!(result_reverse.pdf_sum, pdfsum());
    assert_eq!(result_reverse.dip_map, dipmap());
    check_jetalgo(&result_reverse.jet_algo, None);
    assert_eq!(result_normal, result_reverse);
}

#[test]
fn read_meinfors() {
    let bytes = b"# me 13. 1 6 3. 4. 5 2 7 8 9. 10. 11. 12.\n";
    let result = ok(MeInfoRS::read_from_lhe(bytes, 0));
    check_meinfors(&result, Some(vec![11., 12.]));
}

#[test]
fn read_meinfors_irun0() {
    let bytes = b"# me 13. 1 6 3. 4. 0 2 7 8 9. 10. 11. 12.\n";
    let result = ok(MeInfoRS::read_from_lhe(bytes, 0));
    check_meinfors(&result, None);
}

#[test]
fn read_jetinfo() {
    let bytes = b"# jet 1 2 3\n";
    let expected = JetInfo { ibvjet1: 1, ibvjet2: 2, ibvflreco: 3 };
    let result = ok(JetInfo::read_from_lhe(bytes, 0));
    assert_eq!(result, expected);
}

#[test]
fn read_eventextrars() {
    let bytes_normal =
        b"# pdf 1.0 2.0 3.0\n# me 13. 1 6 3. 4. 5 2 7 8 9. 10. 11. 12.\n# jet 1 2 3\n";
    let bytes_reverse =
        b"# jet 1 2 3\n# me 13. 1 6 3. 4. 5 2 7 8 9. 10. 11. 12.\n# pdf 1.0 2.0 3.0\n";
    let jet = JetInfo { ibvjet1: 1, ibvjet2: 2, ibvflreco: 3 };
    let result_normal = ok(EventExtraRS::read_from_lhe(bytes_normal, 0));
    assert_eq!(pdf(&result_normal.pdf), [1.0, 2.0, 3.0]);
    check_meinfors(&result_normal.me, Some(vec![11., 12.]));
    assert_eq!(result_normal.jet, jet);
    let result_reverse = ok(EventExtraRS::read_from_lhe(bytes_reverse, 0));
    assert_eq!(pdf(&result_reverse.pdf), [1.0, 2.0, 3.0]);
    check_meinfors(&result_reverse.me, Some(vec![11., 12.]));
    assert_eq!(result_reverse.jet, jet);
    assert_eq!(result_normal, result_reverse);
}

fn check_meinfoi(m: &MeInfoI) {
    assert_eq!(m.max_ew, 1);
    assert_eq!(m.max_qcd, 2);
    assert_eq!(val(&m.weight), 3.);
    assert_eq!(val(&m.coeff_a), 4.);
    assert_eq!(val(&m.coeff_b), 5.);
    assert_eq!(val(&m.coeff_c), 6.);
    assert_eq!(m.log_term, 7);
}

#[test]
fn read_meinfoi() {
    let bytes = b"# me 1 2 3. 4. 5. 6. 7\n";
    let result = ok(MeInfoI::read_from_lhe(bytes, 0));
    check_meinfoi(&result);
}

#[test]
fn read_eventextrai() {
    let bytes_normal = b"# pdf 1.0 2.0 3.0\n# me 1 2 3. 4. 5. 6. 7\n";
    let bytes_reverse = b"# me 1 2 3. 4. 5. 6. 7\n# pdf 1.0 2.0 3.0\n";
    let result_normal = ok(EventExtraI::read_from_lhe(bytes_normal, 0));
    assert_eq!(pdf(&result_normal.pdf), [1.0, 2.0, 3.0]);
    check_meinfoi(&result_normal.me);
    let result_reverse = ok(EventExtraI::read_from_lhe(bytes_reverse, 0));
    assert_eq!(pdf(&result_reverse.pdf), [1.0, 2.0, 3.0]);
    check_meinfoi(&result_reverse.me);
    assert_eq!(result_normal, result_reverse);
}

#[test]
fn read_pdfsumkp() {
    let bytes = b"# SUMPDF 1 2 0 3 4 5 6 7 8 9 10\n";
    let expected = PdfSumKP {
        beam_1_gluon_id: Some(4),
        beam_2_gluon_id: None,
        beam_1_quark_ids: vec![5, 6],
        beam_2_quark_ids: vec![8, 9, 10],
    };
    let result = ok(PdfSumKP::read_from_lhe(bytes, 0));
    assert_eq!(result, expected);
}

fn check_meinfokp(m: &MeInfoKP) {
    assert_eq!(m.max_ew, 1);
    assert_eq!(m.max_qcd, 2);
    let got = [
        &m.weight,
        &m.x1_prime,
        &m.x2_prime,
        &m.weight_a1g_l0,
        &m.weight_a1g_l1,
        &m.weight_a1q_l0,
        &m.weight_a1q_l1,
        &m.weight_b1g_l0,
        &m.weight_b1g_l1,
        &m.weight_b1q_l0,
        &m.weight_b1q_l1,
        &m.weight_a2g_l0,
        &m.weight_a2g_l1,
        &m.weight_a2q_l0,
        &m.weight_a2q_l1,
        &m.weight_b2g_l0,
        &m.weight_b2g_l1,
        &m.weight_b2q_l0,
        &m.weight_b2q_l1,
    ];
    let got: Vec<f64> = got.iter().map(|f| val(f)).collect();
    assert_eq!(
        got,
        vec![3., 4., 5., 6., 7., 8., 9., 10., 11., 12., 13., 14., 15., 16., 17., 18., 19., 20., 21.]
    );
}

#[test]
fn read_meinfokp() {
    let bytes =
        b"# me 1 2 3. 4. 5. 6. 7. 8. 9. 10. 11. 12. 13. 14. 15. 16. 17. 18. 19. 20. 21.\n";
    let result = ok(MeInfoKP::read_from_lhe(bytes, 0));
    check_meinfokp(&result);
}

#[test]
fn read_eventextrakp() {
    let bytes_normal = b"# pdf 1.0 2.0 3.0\n# me 1 2 3. 4. 5. 6. 7. 8. 9. 10. 11. 12. 13. 14. 15. 16. 17. 18. 19. 20. 21.\n";
    let bytes_reverse = b"# me 1 2 3. 4. 5. 6. 7. 8. 9. 10. 11. 12. 13. 14. 15. 16. 17. 18. 19. 20. 21.\n# pdf 1.0 2.0 3.0\n";
    let result_normal = ok(EventExtraKP::read_from_lhe(bytes_normal, 0));
    assert_eq!(pdf(&result_normal.pdf), [1.0, 2.0, 3.0]);
    check_meinfokp(&result_normal.me);
    let result_reverse = ok(EventExtraKP::read_from_lhe(bytes_reverse, 0));
    assert_eq!(pdf(&result_reverse.pdf), [1.0, 2.0, 3.0]);
    check_meinfokp(&result_reverse.me);
    assert_eq!(result_normal, result_reverse);
}

fn check_norm(n: &Norm) {
    assert_eq!(n.n_unweighted_events, 1);
    assert_eq!(val(&n.alpha), 2.);
    assert_eq!(val(&n.alpha_err), 3.);
}

#[test]
fn read_norm() {
    let bytes = b"# NORM 1 2. 3.\n";
    let result = ok(Norm::read_from_lhe(bytes, 0));
    check_norm(&result);
}

#[test]
fn read_initextra1loop() {
    let bytes_normal = b"# NORM 1 2. 3.\n# SUMPDF 4 1 2 3 4 -1 -2 0 8\n";
    let bytes_reverse = b"# SUMPDF 4 1 2 3 4 -1 -2 0 8\n# NORM 1 2. 3.\n";
    let result_normal = ok(InitExtra1loop::read_from_lhe(bytes_normal, 0));
    assert_eq!(result_normal.pdf_sum, pdfsum());
    check_norm(&result_normal.norm);
    let result_reverse = ok(InitExtra1loop::read_from_lhe(bytes_reverse, 0));
    assert_eq!(result_reverse.pdf_sum, pdfsum());
    check_norm(&result_reverse.norm);
    assert_eq!(result_normal, result_reverse);
}

fn check_meinfo1loop(m: &MeInfo1loop) {
    assert_eq!(m.max_ew_lo, 1);
    assert_eq!(m.max_qcd_lo, 2);
    assert_eq!(val(&m.weight_lo), 3.);
    assert_eq!(m.max_ew_1loop, 4);
    assert_eq!(m.max_qcd_1loop, 5);
    assert_eq!(val(&m.weight_1loop), 6.);
    assert_eq!(val(&m.coeff_a), 7.);
    assert_eq!(val(&m.coeff_b), 8.);
    assert_eq!(val(&m.coeff_c), 9.);
}

#[test]
fn read_meinfo1loop() {
    let bytes = b"# me 1 2 3. 4 5 6. 7. 8. 9.\n";
    let result = ok(MeInfo1loop::read_from_lhe(bytes, 0));
    check_meinfo1loop(&result);
}

#[test]
fn read_eventextra1loop() {
    let bytes_normal = b"# pdf 1.0 2.0 3.0\n# me 1 2 3. 4 5 6. 7. 8. 9.\n";
    let bytes_reverse = b"# me 1 2 3. 4 5 6. 7. 8. 9.\n# pdf 1.0 2.0 3.0\n";
    let result_normal = ok(EventExtra1loop::read_from_lhe(bytes_normal, 0));
    assert_eq!(pdf(&result_normal.pdf), [1.0, 2.0, 3.0]);
    check_meinfo1loop(&result_normal.me);
    let result_reverse = ok(EventExtra1loop::read_from_lhe(bytes_reverse, 0));
    assert_eq!(pdf(&result_reverse.pdf), [1.0, 2.0, 3.0]);
    check_meinfo1loop(&result_reverse.me);
    assert_eq!(result_normal, result_reverse);
}

#[test]
fn helac_lines_round_trip() {
    let c = Comment("File generated with HELAC-DIPOLES".to_string());
    assert_eq!(ok(Comment::read_from_lhe(&written(&c), 0)), c);
    assert_eq!(written(&pdfsum()), b"# SUMPDF 4 1 2 3 4 -1 -2 0 8\n".to_vec());
    assert_eq!(ok(PdfSum::read_from_lhe(&written(&pdfsum()), 0)), pdfsum());
    assert_eq!(ok(DipMapInfo::read_from_lhe(&written(&dipmap()), 0)), dipmap());
    let kp = PdfSumKP {
        beam_1_gluon_id: None,
        beam_2_gluon_id: Some(21),
        beam_1_quark_ids: vec![1, -1, 2],
        beam_2_quark_ids: vec![],
    };
    assert_eq!(written(&kp), b"# SUMPDF 0 3 1 0 0 1 -1 2 21\n".to_vec());
    assert_eq!(ok(PdfSumKP::read_from_lhe(&written(&kp), 0)), kp);
    let jet = JetAlgoInfo {
        algorithm_id: -1,
        n_bjets: 2,
        eta_max: fl(2.5),
        dr: fl(0.4),
        pt_veto: None,
    };
    assert_eq!(written(&jet), b"# JETALGO -1 2 2.5e0 4e-1 F 0.0\n".to_vec());
    assert_eq!(ok(JetAlgoInfo::read_from_lhe(&written(&jet), 0)), jet);
    let jet = JetAlgoInfo { pt_veto: Some(fl(30.)), ..jet };
    assert_eq!(written(&jet), b"# JETALGO -1 2 2.5e0 4e-1 T 3e1\n".to_vec());
    assert_eq!(ok(JetAlgoInfo::read_from_lhe(&written(&jet), 0)), jet);
    let one_loop = InitExtra1loop {
        pdf_sum: pdfsum(),
        norm: Norm { n_unweighted_events: 10, alpha: fl(1.), alpha_err: fl(0.5) },
    };
    assert_eq!(written(&one_loop), b"# NORM 10 1e0 5e-1\n# SUMPDF 4 1 2 3 4 -1 -2 0 8\n".to_vec());
    assert_eq!(ok(InitExtra1loop::read_from_lhe(&written(&one_loop), 0)), one_loop);
}

#[test]
fn helac_file_round_trip() {
    let file = LheFileI {
        version: "1.0".to_string(),
        comment: Comment("made by hand".to_string()),
        header: Header {},
        init: InitGeneric {
            beam_1_id: 2212,
            beam_2_id: 2212,
            beam_1_energy: fl(6500.),
            beam_2_energy: fl(6500.),
            beam_1_pdf_group_id: 0,
            beam_2_pdf_group_id: 0,
            beam_1_pdf_id: 13100,
            beam_2_pdf_id: 13100,
            weighting_strategy: 3,
            process_info: vec![ProcInfo {
                xsect: fl(2.1),
                xsect_err: fl(3.2e-3),
                maximum_weight: fl(1.),
                process_id: 1,
            }],
            extra: pdfsum(),
        },
        events: vec![EventGeneric {
            process_id: 1,
            weight: fl(0.104),
            scale: fl(1000.),
            alpha_ew: fl(7.54e-3),
            alpha_qcd: fl(8.68e-2),
            particles: vec![],
            extra: EventExtraI {
                pdf: PdfInfo { x1: fl(0.1), x2: fl(0.2), scale: fl(91.) },
                me: MeInfoI {
                    max_ew: 2,
                    max_qcd: 3,
                    weight: fl(1.5),
                    coeff_a: fl(-1.),
                    coeff_b: fl(0.),
                    coeff_c: fl(2.),
                    log_term: -1,
                },
            },
        }],
    };
    let bytes = written(&file);
    let (back, end) = LheFileI::read_from_lhe(&bytes, 0).unwrap();
    assert_eq!(back, file);
    assert_eq!(end, bytes.len());
}

#[test]
fn dipole_count_has_eight_bits() {
    assert_eq!(
        DipMapInfo::read_from_lhe(b"# DIPMAP 1 256 1 2\n", 0),
        Err(ParseError::Range { width: lhef::IntWidth::U8, literal: b"256".to_vec() })
    );
    assert_eq!(
        JetAlgoInfo::read_from_lhe(b"# JETALGO 1 2 3. 4. X 5.\n", 0),
        Err(ParseError::Syntax { expected: lhef::Expected::Flag, position: 20 })
    );
}

#[test]
fn comments_that_read_back() {
    assert!(Comment("File generated with HELAC-DIPOLES".to_string()).is_canonical());
    assert!(!Comment("ends -->".to_string()).is_canonical());
    assert!(!Comment("\ttab".to_string()).is_canonical());
}
