#![allow(dead_code, unused_imports)]
use lhef::generic::{EventGeneric, InitGeneric, LheFileGeneric};
use lhef::{Float, FourMomentum, Particle, ParseError, ProcInfo, ReadLhe, WriteLhe};

fn val(f: &Float) -> f64 {
    std::str::from_utf8(f.as_bytes()).unwrap().parse().unwrap()
}

fn fl(x: f64) -> Float {
    let text = if x.is_nan() {
        "NaN".to_string()
    } else if x.is_infinite() {
        if x > 0. { "Infinity".to_string() } else { "-Infinity".to_string() }
    } else {
        format!("{:e}", x)
    };
    Float::from_token(text.as_bytes()).unwrap()
}

fn proc(p: &ProcInfo) -> (f64, f64, f64, i64) {
    (val(&p.xsect), val(&p.xsect_err), val(&p.maximum_weight), p.process_id)
}

fn part(p: &Particle) -> ([i64; 6], [f64; 4], [f64; 3]) {
    (
        [p.pdg_id, p.status, p.mother_1_id, p.mother_2_id, p.color_1, p.color_2],
        [val(&p.momentum.px), val(&p.momentum.py), val(&p.momentum.pz), val(&p.momentum.e)],
        [val(&p.mass), val(&p.proper_lifetime), val(&p.spin)],
    )
}

fn init_head<E>(i: &InitGeneric<E>) -> ([i64; 2], [f64; 2], [i64; 5]) {
    (
        [i.beam_1_id, i.beam_2_id],
        [val(&i.beam_1_energy), val(&i.beam_2_energy)],
        [
            i.beam_1_pdf_group_id,
            i.beam_2_pdf_group_id,
            i.beam_1_pdf_id,
            i.beam_2_pdf_id,
            i.weighting_strategy,
        ],
    )
}

fn event_head<E>(e: &EventGeneric<E>) -> (i64, [f64; 4]) {
    (e.process_id, [val(&e.weight), val(&e.scale), val(&e.alpha_ew), val(&e.alpha_qcd)])
}

fn procs<E>(i: &InitGeneric<E>) -> Vec<(f64, f64, f64, i64)> {
    i.process_info.iter().map(proc).collect()
}

fn parts<E>(e: &EventGeneric<E>) -> Vec<([i64; 6], [f64; 4], [f64; 3])> {
    e.particles.iter().map(part).collect()
}

fn particle(i: [i64; 6], p: [f64; 4], r: [f64; 3]) -> ([i64; 6], [f64; 4], [f64; 3]) {
    (i, p, r)
}

fn ok<T>(r: Result<(T, usize), ParseError>) -> T {
    match r {
        Ok((v, _)) => v,
        Err(e) => panic!("failed to read: {:?}", e),
    }
}

fn written<T: WriteLhe>(v: &T) -> Vec<u8> {
    let mut bytes = Vec::new();
    v.write_lhe(&mut bytes).unwrap();
    bytes
}


type Nothing = lhef::helac::Header;

#[test]
fn generic_read_init() {
    let bytes = b"\
<init>
1 10 3. 4. 5 6 7 8 9 2
11. 12. 13. 14
15. 16. 17. 18
</init>";
    let result = ok(InitGeneric::<Nothing>::read_from_lhe(bytes, 0));
    assert_eq!(init_head(&result), ([1, 10], [3., 4.], [5, 6, 7, 8, 9]));
    assert_eq!(procs(&result), vec![(11., 12., 13., 14), (15., 16., 17., 18)]);
    assert_eq!(result.extra, Nothing {});
}

#[test]
fn generic_read_event() {
    let bytes = b"\
<event>
2 1 3. 4. 5. 6.
7 8 9 10 11 12 13. 14. 15. 16. 17. 18. 19.
20 21 22 23 24 25 26. 27. 28. 29. 30. 31. 32.
</event>";
    let result = ok(EventGeneric::<Nothing>::read_from_lhe(bytes, 0));
    assert_eq!(event_head(&result), (1, [3., 4., 5., 6.]));
    assert_eq!(parts(&result), vec![particle([7, 8, 9, 10, 11, 12], [13., 14., 15., 16.], [17., 18., 19.]), particle([20, 21, 22, 23, 24, 25], [26., 27., 28., 29.], [30., 31., 32.])]);
    assert_eq!(result.extra, Nothing {});
}

#[test]
fn generic_read_lhefile() {
    let bytes = b"\
<LesHouchesEvents version=\"1.0\">
<init>
52 61 54. 55. 56 57 58 59 60 2
62. 63. 64. 65
66. 67. 68. 69
</init>
<event>
2 1 3. 4. 5. 6.
7 8 9 10 11 12 13. 14. 15. 16. 17. 18. 19.
20 21 22 23 24 25 26. 27. 28. 29. 30. 31. 32.
</event>
<event>
1 33 35. 36. 37. 38.
39 40 41 42 43 44 45. 46. 47. 48. 49. 50. 51.
</event>
</LesHouchesEvents>";
    let result = ok(LheFileGeneric::<Nothing, Nothing, Nothing, Nothing>::read_from_lhe(bytes, 0));
    assert_eq!(result.version, "1.0".to_string());
    assert_eq!(result.comment, Nothing {});
    assert_eq!(result.header, Nothing {});
    assert_eq!(init_head(&result.init), ([52, 61], [54., 55.], [56, 57, 58, 59, 60]));
    assert_eq!(procs(&result.init), vec![(62., 63., 64., 65), (66., 67., 68., 69)]);
    assert_eq!(result.init.extra, Nothing {});
    assert_eq!(result.events.len(), 2);
    assert_eq!(event_head(&result.events[0]), (1, [3., 4., 5., 6.]));
    assert_eq!(parts(&result.events[0]), vec![particle([7, 8, 9, 10, 11, 12], [13., 14., 15., 16.], [17., 18., 19.]), particle([20, 21, 22, 23, 24, 25], [26., 27., 28., 29.], [30., 31., 32.])]);
    assert_eq!(result.events[0].extra, Nothing {});
    assert_eq!(event_head(&result.events[1]), (33, [35., 36., 37., 38.]));
    assert_eq!(parts(&result.events[1]), vec![particle([39, 40, 41, 42, 43, 44], [45., 46., 47., 48.], [49., 50., 51.])]);
    assert_eq!(result.events[1].extra, Nothing {});
}

fn simple_file(version: &str) -> LheFileGeneric<Nothing, Nothing, Nothing, Nothing> {
    let init = InitGeneric {
        beam_1_id: 1,
        beam_2_id: 2,
        beam_1_pdf_group_id: 3,
        beam_2_pdf_group_id: 4,
        beam_1_pdf_id: 5,
        beam_2_pdf_id: 6,
        weighting_strategy: 7,
        beam_1_energy: fl(8.),
        beam_2_energy: fl(9.),
        process_info: Vec::new(),
        extra: Nothing {},
    };
    LheFileGeneric {
        version: version.to_string(),
        comment: Nothing {},
        header: Nothing {},
        init,
        events: Vec::new(),
    }
}

#[test]
fn lhefile_roundtrip_simple() {
    let start = simple_file("");
    let bytes = written(&start);
    let round = match LheFileGeneric::<Nothing, Nothing, Nothing, Nothing>::read_from_lhe(&bytes, 0) {
        Ok((r, _)) => r,
        Err(err) => {
            println!("{}", std::str::from_utf8(&bytes).unwrap());
            panic!("Failed to read roundtrip: {:?}", err);
        }
    };
    assert_eq!(start, round);
}

#[test]
fn lhefile_roundtrip_simple_version() {
    let start = simple_file("1.0");
    let bytes = written(&start);
    let round = match LheFileGeneric::<Nothing, Nothing, Nothing, Nothing>::read_from_lhe(&bytes, 0) {
        Ok((r, _)) => r,
        Err(err) => {
            println!("{}", std::str::from_utf8(&bytes).unwrap());
            panic!("Failed to read roundtrip: {:?}", err);
        }
    };
    assert_eq!(start, round);
    assert_eq!(
        bytes,
        b"<LesHouchesEvents version=\"1.0\">\n<init>\n1 2 8e0 9e0 3 4 5 6 7 0\n</init>\n</LesHouchesEvents>\n".to_vec()
    );
}

#[test]
fn version_with_a_quote_is_refused() {
    let start = simple_file("1\"0");
    let mut bytes = b"kept".to_vec();
    assert_eq!(start.write_lhe(&mut bytes), Err(lhef::WriteError::QuoteInVersion));
    assert_eq!(bytes, b"kept".to_vec());
    let mut tag = Vec::new();
    assert_eq!(
        lhef::generic::write_opening_file_tag(&mut tag, "a\"b"),
        Err(lhef::WriteError::QuoteInVersion)
    );
    assert!(tag.is_empty());
}

#[test]
fn file_tags() {
    let mut bytes = Vec::new();
    lhef::generic::write_opening_file_tag(&mut bytes, "3.0").unwrap();
    lhef::generic::write_closing_file_tag(&mut bytes);
    assert_eq!(bytes, b"<LesHouchesEvents version=\"3.0\">\n</LesHouchesEvents>\n".to_vec());
}

#[test]
fn counts_are_the_lengths() {
    let mut init = simple_file("").init;
    init.process_info = vec![
        ProcInfo { xsect: fl(1.), xsect_err: fl(2.), maximum_weight: fl(3.), process_id: 4 },
        ProcInfo { xsect: fl(5.), xsect_err: fl(6.), maximum_weight: fl(7.), process_id: 8 },
        ProcInfo { xsect: fl(9.), xsect_err: fl(10.), maximum_weight: fl(11.), process_id: 12 },
    ];
    let bytes = written(&init);
    assert!(bytes.starts_with(b"<init>\n1 2 8e0 9e0 3 4 5 6 7 3\n"));
    let back = ok(InitGeneric::<Nothing>::read_from_lhe(&bytes, 0));
    assert_eq!(back.process_info.len(), 3);
    assert_eq!(back, init);
    let event = EventGeneric {
        process_id: 1,
        weight: fl(1.),
        scale: fl(2.),
        alpha_ew: fl(3.),
        alpha_qcd: fl(4.),
        particles: Vec::new(),
        extra: Nothing {},
    };
    let bytes = written(&event);
    assert_eq!(bytes, b"<event>\n0 1 1e0 2e0 3e0 4e0\n</event>\n".to_vec());
    let back = ok(EventGeneric::<Nothing>::read_from_lhe(&bytes, 0));
    assert_eq!(back.particles.len(), 0);
    assert_eq!(back, event);
}

#[test]
fn count_with_a_sign() {
    let plus = b"<event> +1 1 3. 4. 5. 6. 7 8 9 10 11 12 13. 14. 15. 16. 17. 18. 19. </event>";
    let result = ok(EventGeneric::<Nothing>::read_from_lhe(plus, 0));
    assert_eq!(result.particles.len(), 1);
    let minus = b"<event> -1 1 3. 4. 5. 6. </event>";
    assert_eq!(
        EventGeneric::<Nothing>::read_from_lhe(minus, 0),
        Err(ParseError::Syntax { expected: lhef::Expected::Count, position: 8 })
    );
}

#[test]
fn missing_init_block() {
    let bytes = b"<LesHouchesEvents version=\"1.0\">\n</LesHouchesEvents>";
    assert_eq!(
        LheFileGeneric::<Nothing, Nothing, Nothing, Nothing>::read_from_lhe(bytes, 0),
        Err(ParseError::Syntax { expected: lhef::Expected::Tag(b"<init>".to_vec()), position: 33 })
    );
}

#[test]
fn file_that_ends_early() {
    let bytes = b"<LesHouchesEvents version=\"1.0\">\n<init>\n1 2 8e0 9e0 3 4 5 6 7 0\n</init>\n</LesHou";
    assert_eq!(
        LheFileGeneric::<Nothing, Nothing, Nothing, Nothing>::read_from_lhe(bytes, 0),
        Err(ParseError::Incomplete)
    );
    let bytes = b"<LesHouchesEvents version=\"1.0";
    assert_eq!(
        LheFileGeneric::<Nothing, Nothing, Nothing, Nothing>::read_from_lhe(bytes, 0),
        Err(ParseError::Incomplete)
    );
}

#[test]
fn failure_of_an_extra_slot_is_marked() {
    let bytes = b"<init>\n1 2 8e0 9e0 3 4 5 6 7 0\n# SUMPDF x\n</init>\n";
    assert_eq!(
        InitGeneric::<lhef::helac::PdfSum>::read_from_lhe(bytes, 0),
        Err(ParseError::Extension(Box::new(ParseError::Syntax {
            expected: lhef::Expected::Unsigned,
            position: 40
        })))
    );
}
