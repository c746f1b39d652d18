#![allow(dead_code, unused_imports)]
use lhef::generic::{EventGeneric, InitGeneric, LheFileGeneric};
use lhef::{Float, FourMomentum, Particle, ParseError, ProcInfo, ReadLhe, WriteLhe};

fn val(f: &Float) -> f64 {
    std::str::from_utf8(f.as_bytes()).unwrap().parse().unwrap()
}

fn fl(x: f64) -> Float {
    let text = if x.is_nan() {
        "NaN".to_string()
    } else if x.is_infinite() {
        if x > 0. { "Infinity".to_string() } else { "-Infinity".to_string() }
    } else {
        format!("{:e}", x)
    };
    Float::from_token(text.as_bytes()).unwrap()
}

fn proc(p: &ProcInfo) -> (f64, f64, f64, i64) {
    (val(&p.xsect), val(&p.xsect_err), val(&p.maximum_weight), p.process_id)
}

fn part(p: &Particle) -> ([i64; 6], [f64; 4], [f64; 3]) {
    (
        [p.pdg_id, p.status, p.mother_1_id, p.mother_2_id, p.color_1, p.color_2],
        [val(&p.momentum.px), val(&p.momentum.py), val(&p.momentum.pz), val(&p.momentum.e)],
        [val(&p.mass), val(&p.proper_lifetime), val(&p.spin)],
    )
}

fn init_head<E>(i: &InitGeneric<E>) -> ([i64; 2], [f64; 2], [i64; 5]) {
    (
        [i.beam_1_id, i.beam_2_id],
        [val(&i.beam_1_energy), val(&i.beam_2_energy)],
        [
            i.beam_1_pdf_group_id,
            i.beam_2_pdf_group_id,
            i.beam_1_pdf_id,
            i.beam_2_pdf_id,
            i.weighting_strategy,
        ],
    )
}

fn event_head<E>(e: &EventGeneric<E>) -> (i64, [f64; 4]) {
    (e.process_id, [val(&e.weight), val(&e.scale), val(&e.alpha_ew), val(&e.alpha_qcd)])
}

fn procs<E>(i: &InitGeneric<E>) -> Vec<(f64, f64, f64, i64)> {
    i.process_info.iter().map(proc).collect()
}

fn parts<E>(e: &EventGeneric<E>) -> Vec<([i64; 6], [f64; 4], [f64; 3])> {
    e.particles.iter().map(part).collect()
}

fn particle(i: [i64; 6], p: [f64; 4], r: [f64; 3]) -> ([i64; 6], [f64; 4], [f64; 3]) {
    (i, p, r)
}

fn ok<T>(r: Result<(T, usize), ParseError>) -> T {
    match r {
        Ok((v, _)) => v,
        Err(e) => panic!("failed to read: {:?}", e),
    }
}

fn written<T: WriteLhe>(v: &T) -> Vec<u8> {
    let mut bytes = Vec::new();
    v.write_lhe(&mut bytes).unwrap();
    bytes
}


use lhef::block::{permutation2, permutation3, BlockError};
use lhef::helac::{JetInfo, Norm, PdfInfo, PdfSum};
use lhef::string::{Comment, Header};

fn jet() -> JetInfo {
    JetInfo { ibvjet1: 1, ibvjet2: 2, ibvflreco: 3 }
}

fn check_lines(text: &str) {
    let ((pdf, sum, jets), end) =
        permutation3::<PdfInfo, PdfSum, JetInfo>(text.as_bytes(), 0).unwrap();
    assert_eq!([val(&pdf.x1), val(&pdf.x2), val(&pdf.scale)], [1., 2., 3.]);
    assert_eq!(sum, PdfSum { pdf_sum_pairs: vec![(1, 2)] });
    assert_eq!(jets, jet());
    assert_eq!(end, text.len());
}

#[test]
fn three_blocks_in_every_order() {
    let a = "# pdf 1. 2. 3.\n";
    let b = "# SUMPDF 1 1 2\n";
    let c = "# jet 1 2 3\n";
    check_lines(&[a, b, c].concat());
    check_lines(&[a, c, b].concat());
    check_lines(&[b, a, c].concat());
    check_lines(&[b, c, a].concat());
    check_lines(&[c, a, b].concat());
    check_lines(&[c, b, a].concat());
}

fn some(text: &str) -> Option<String> {
    Some(text.to_string())
}

fn check_optional(text: &str, comment: Option<String>, header: Option<String>, rest: &str) {
    let ((c, h, j), end) = permutation3::<Comment, Header, JetInfo>(text.as_bytes(), 0).unwrap();
    assert_eq!(c.comment, comment);
    assert_eq!(h.header, header);
    assert_eq!(j, jet());
    assert_eq!(&text[end..], rest);
}

#[test]
fn blocks_that_may_be_missing() {
    let a = "<!--a-->";
    let b = "<header>b</header>";
    let c = "# jet 1 2 3";
    check_optional(&format!("{} {} {}", a, b, c), some("a"), some("b"), "");
    check_optional(&format!("{} {} {}", a, c, b), some("a"), some("b"), "");
    check_optional(&format!("{} {} {}", b, a, c), some("a"), some("b"), "");
    check_optional(&format!("{} {} {}", b, c, a), some("a"), some("b"), "");
    check_optional(&format!("{} {} {}", c, a, b), some("a"), some("b"), "");
    check_optional(&format!("{} {} {}", c, b, a), some("a"), some("b"), "");
    check_optional(&format!("{}{}x", a, c), some("a"), None, "x");
    check_optional(&format!("{}{}x", c, a), some("a"), None, "x");
    check_optional(&format!("{}{}x", b, c), None, some("b"), "x");
    check_optional(&format!("{}{}x", c, b), None, some("b"), "x");
    check_optional(&format!("{}x", c), None, None, "x");
    check_optional(&format!("    {}x", c), None, None, "x");
}

#[test]
fn a_block_that_must_stand_is_missed() {
    let r = permutation3::<Comment, Header, JetInfo>(b"<!--a--> <header>b</header> x", 0);
    assert_eq!(
        r,
        Err(BlockError {
            slot: 2,
            error: ParseError::Syntax { expected: lhef::Expected::Tag(b"#".to_vec()), position: 28 }
        })
    );
    let r = permutation2::<PdfSum, Norm>(b"# NORM 1 2. 3.\n", 0);
    assert_eq!(r, Err(BlockError { slot: 0, error: ParseError::Incomplete }));
}

#[test]
fn two_blocks_in_both_orders() {
    let one = b"# NORM 1 2. 3.\n# SUMPDF 1 1 2\n";
    let other = b"# SUMPDF 1 1 2\n# NORM 1 2. 3.\n";
    let (a, end_a) = permutation2::<PdfSum, Norm>(one, 0).unwrap();
    let (b, end_b) = permutation2::<PdfSum, Norm>(other, 0).unwrap();
    assert_eq!(a, b);
    assert_eq!(end_a, one.len());
    assert_eq!(end_b, other.len());
    assert_eq!(a.1.n_unweighted_events, 1);
}

#[test]
fn a_block_is_taken_once() {
    let text = b"# jet 1 2 3\n# jet 4 5 6\n";
    let r = permutation2::<JetInfo, PdfSum>(text, 0);
    assert_eq!(
        r,
        Err(BlockError {
            slot: 1,
            error: ParseError::Syntax { expected: lhef::Expected::Tag(b"SUMPDF".to_vec()), position: 14 }
        })
    );
}
