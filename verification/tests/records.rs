#![allow(dead_code, unused_imports)]
use lhef::generic::{EventGeneric, InitGeneric, LheFileGeneric};
use lhef::{Float, FourMomentum, Particle, ParseError, ProcInfo, ReadLhe, WriteLhe};

fn val(f: &Float) -> f64 {
    std::str::from_utf8(f.as_bytes()).unwrap().parse().unwrap()
}

fn fl(x: f64) -> Float {
    let text = if x.is_nan() {
        "NaN".to_string()
    } else if x.is_infinite() {
        if x > 0. { "Infinity".to_string() } else { "-Infinity".to_string() }
    } else {
        format!("{:e}", x)
    };
    Float::from_token(text.as_bytes()).unwrap()
}

fn proc(p: &ProcInfo) -> (f64, f64, f64, i64) {
    (val(&p.xsect), val(&p.xsect_err), val(&p.maximum_weight), p.process_id)
}

fn part(p: &Particle) -> ([i64; 6], [f64; 4], [f64; 3]) {
    (
        [p.pdg_id, p.status, p.mother_1_id, p.mother_2_id, p.color_1, p.color_2],
        [val(&p.momentum.px), val(&p.momentum.py), val(&p.momentum.pz), val(&p.momentum.e)],
        [val(&p.mass), val(&p.proper_lifetime), val(&p.spin)],
    )
}

fn init_head<E>(i: &InitGeneric<E>) -> ([i64; 2], [f64; 2], [i64; 5]) {
    (
        [i.beam_1_id, i.beam_2_id],
        [val(&i.beam_1_energy), val(&i.beam_2_energy)],
        [
            i.beam_1_pdf_group_id,
            i.beam_2_pdf_group_id,
            i.beam_1_pdf_id,
            i.beam_2_pdf_id,
            i.weighting_strategy,
        ],
    )
}

fn event_head<E>(e: &EventGeneric<E>) -> (i64, [f64; 4]) {
    (e.process_id, [val(&e.weight), val(&e.scale), val(&e.alpha_ew), val(&e.alpha_qcd)])
}

fn procs<E>(i: &InitGeneric<E>) -> Vec<(f64, f64, f64, i64)> {
    i.process_info.iter().map(proc).collect()
}

fn parts<E>(e: &EventGeneric<E>) -> Vec<([i64; 6], [f64; 4], [f64; 3])> {
    e.particles.iter().map(part).collect()
}

fn particle(i: [i64; 6], p: [f64; 4], r: [f64; 3]) -> ([i64; 6], [f64; 4], [f64; 3]) {
    (i, p, r)
}

fn ok<T>(r: Result<(T, usize), ParseError>) -> T {
    match r {
        Ok((v, _)) => v,
        Err(e) => panic!("failed to read: {:?}", e),
    }
}

fn written<T: WriteLhe>(v: &T) -> Vec<u8> {
    let mut bytes = Vec::new();
    v.write_lhe(&mut bytes).unwrap();
    bytes
}


#[test]
fn read_procinfo() {
    let bytes = b"1. 2. 3. 4\n";
    let result = ok(ProcInfo::read_from_lhe(bytes, 0));
    assert_eq!(proc(&result), (1., 2., 3., 4));
}

#[test]
fn read_particle() {
    let bytes = b"1 2 3 4 5 6 7. 8. 9. 10. 11. 12. 13.\n";
    let result = ok(Particle::read_from_lhe(bytes, 0));
    assert_eq!(result.pdg_id, 1);
    assert_eq!(result.status, 2);
    assert_eq!(result.mother_1_id, 3);
    assert_eq!(result.mother_2_id, 4);
    assert_eq!(result.color_1, 5);
    assert_eq!(result.color_2, 6);
    assert_eq!(val(&result.momentum.px), 7.);
    assert_eq!(val(&result.momentum.py), 8.);
    assert_eq!(val(&result.momentum.pz), 9.);
    assert_eq!(val(&result.momentum.e), 10.);
    assert_eq!(val(&result.mass), 11.);
    assert_eq!(val(&result.proper_lifetime), 12.);
    assert_eq!(val(&result.spin), 13.);
}

#[test]
fn procinfo_is_written_on_one_line() {
    let p = ProcInfo { xsect: fl(1.5), xsect_err: fl(0.25), maximum_weight: fl(-3.), process_id: -7 };
    assert_eq!(written(&p), b"1.5e0 2.5e-1 -3e0 -7\n".to_vec());
    let (back, end) = ProcInfo::read_from_lhe(&written(&p), 0).unwrap();
    assert_eq!(back, p);
    assert_eq!(end, written(&p).len());
}

#[test]
fn particle_round_trip() {
    let p = Particle {
        pdg_id: -11,
        status: -1,
        mother_1_id: 0,
        mother_2_id: 0,
        color_1: 501,
        color_2: 0,
        momentum: FourMomentum { e: fl(5e2), px: fl(0.), py: fl(-0.), pz: fl(5e2) },
        mass: fl(0.),
        proper_lifetime: fl(f64::INFINITY),
        spin: fl(f64::NAN),
    };
    let bytes = written(&p);
    assert_eq!(bytes, b"-11 -1 0 0 501 0 0e0 -0e0 5e2 5e2 0e0 Infinity NaN\n".to_vec());
    let back = ok(Particle::read_from_lhe(&bytes, 0));
    assert_eq!(back, p);
    assert!(back.spin.is_nan());
}

#[test]
fn procinfo_that_ends_early_is_incomplete() {
    assert_eq!(ProcInfo::read_from_lhe(b"1. 2. ", 0), Err(ParseError::Incomplete));
    assert_eq!(
        ProcInfo::read_from_lhe(b"1. 2. x 4", 0),
        Err(ParseError::Syntax { expected: lhef::Expected::Float, position: 6 })
    );
}
