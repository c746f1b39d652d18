#![allow(dead_code, unused_imports)]
use lhef::generic::{EventGeneric, InitGeneric, LheFileGeneric};
use lhef::{Float, FourMomentum, Particle, ParseError, ProcInfo, ReadLhe, WriteLhe};
use lhef::string::{Comment, EventExtra, Header, InitExtra, LheFile};
use quickcheck::{QuickCheck, TestResult};

fn val(f: &Float) -> f64 {
    std::str::from_utf8(f.as_bytes()).unwrap().parse().unwrap()
}

fn fl(x: f64) -> Float {
    let text = if x.is_nan() {
        "NaN".to_string()
    } else if x.is_infinite() {
        if x > 0. { "Infinity".to_string() } else { "-Infinity".to_string() }
    } else {
        format!("{:e}", x)
    };
    Float::from_token(text.as_bytes()).unwrap()
}

fn proc(p: &ProcInfo) -> (f64, f64, f64, i64) {
    (val(&p.xsect), val(&p.xsect_err), val(&p.maximum_weight), p.process_id)
}

fn part(p: &Particle) -> ([i64; 6], [f64; 4], [f64; 3]) {
    (
        [p.pdg_id, p.status, p.mother_1_id, p.mother_2_id, p.color_1, p.color_2],
        [val(&p.momentum.px), val(&p.momentum.py), val(&p.momentum.pz), val(&p.momentum.e)],
        [val(&p.mass), val(&p.proper_lifetime), val(&p.spin)],
    )
}

fn init_head<E>(i: &InitGeneric<E>) -> ([i64; 2], [f64; 2], [i64; 5]) {
    (
        [i.beam_1_id, i.beam_2_id],
        [val(&i.beam_1_energy), val(&i.beam_2_energy)],
        [
            i.beam_1_pdf_group_id,
            i.beam_2_pdf_group_id,
            i.beam_1_pdf_id,
            i.beam_2_pdf_id,
            i.weighting_strategy,
        ],
    )
}

fn event_head<E>(e: &EventGeneric<E>) -> (i64, [f64; 4]) {
    (e.process_id, [val(&e.weight), val(&e.scale), val(&e.alpha_ew), val(&e.alpha_qcd)])
}

fn procs<E>(i: &InitGeneric<E>) -> Vec<(f64, f64, f64, i64)> {
    i.process_info.iter().map(proc).collect()
}

fn parts<E>(e: &EventGeneric<E>) -> Vec<([i64; 6], [f64; 4], [f64; 3])> {
    e.particles.iter().map(part).collect()
}

fn particle(i: [i64; 6], p: [f64; 4], r: [f64; 3]) -> ([i64; 6], [f64; 4], [f64; 3]) {
    (i, p, r)
}

fn ok<T>(r: Result<(T, usize), ParseError>) -> T {
    match r {
        Ok((v, _)) => v,
        Err(e) => panic!("failed to read: {:?}", e),
    }
}

fn written<T: WriteLhe>(v: &T) -> Vec<u8> {
    let mut bytes = Vec::new();
    v.write_lhe(&mut bytes).unwrap();
    bytes
}


#[test]
fn string_read_comment() {
    let bytes = b"<!--
File generated with HELAC-DIPOLES
-->";
    let expected = Comment { comment: Some("File generated with HELAC-DIPOLES".to_string()) };
    let comment = ok(Comment::read_from_lhe(bytes as &[u8], 0));
    assert_eq!(comment, expected);
}

#[test]
fn string_read_header() {
    let bytes = b"<header>
header line 1
header line 2
</header>";
    let expected = Header { header: Some("header line 1\nheader line 2".to_string()) };
    let result = ok(Header::read_from_lhe(bytes as &[u8], 0));
    assert_eq!(result, expected);
}

#[test]
fn string_read_header_tags() {
    let bytes = b"\
<header>
header line 1
# header line 2
<line> header line 3</line>
</header>";
    let expected = Header { header: Some("header line 1\n# header line 2\n<line> header line 3</line>".to_string()) };
    let result = ok(Header::read_from_lhe(bytes as &[u8], 0));
    assert_eq!(result, expected);
}

#[test]
fn string_read_init() {
    let bytes = b"\
<init>
1 10 3. 4. 5 6 7 8 9 2
11. 12. 13. 14
15. 16. 17. 18
# extra line 1
extra line 2
</init>";
    let result = ok(InitGeneric::<InitExtra>::read_from_lhe(bytes, 0));
    assert_eq!(init_head(&result), ([1, 10], [3., 4.], [5, 6, 7, 8, 9]));
    assert_eq!(procs(&result), vec![(11., 12., 13., 14), (15., 16., 17., 18)]);
    assert_eq!(result.extra, InitExtra("# extra line 1\nextra line 2".to_string()));
}

#[test]
fn string_read_event() {
    let bytes = b"\
<event>
2 1 3. 4. 5. 6.
7 8 9 10 11 12 13. 14. 15. 16. 17. 18. 19.
20 21 22 23 24 25 26. 27. 28. 29. 30. 31. 32.
# extra line 1
extra line 2
</event>";
    let result = ok(EventGeneric::<EventExtra>::read_from_lhe(bytes, 0));
    assert_eq!(event_head(&result), (1, [3., 4., 5., 6.]));
    assert_eq!(parts(&result), vec![particle([7, 8, 9, 10, 11, 12], [13., 14., 15., 16.], [17., 18., 19.]), particle([20, 21, 22, 23, 24, 25], [26., 27., 28., 29.], [30., 31., 32.])]);
    assert_eq!(result.extra, EventExtra("# extra line 1\nextra line 2".to_string()));
}

#[test]
fn string_read_lhefile_min_ev() {
    let bytes = b"\
<LesHouchesEvents version=\"1.0\">
<init>
52 61 54. 55. 56 57 58 59 60 0
</init>
<event>
1 1 3. 4. 5. 6.
7 8 9 10 11 12 13. 14. 15. 16. 17. 18. 19.
</event>
</LesHouchesEvents>";
    let result = ok(LheFile::read_from_lhe(bytes, 0));
    assert_eq!(result.version, "1.0".to_string());
    assert_eq!(result.comment, Comment { comment: None });
    assert_eq!(result.header, Header { header: None });
    assert_eq!(init_head(&result.init), ([52, 61], [54., 55.], [56, 57, 58, 59, 60]));
    assert_eq!(procs(&result.init), vec![]);
    assert_eq!(result.init.extra, InitExtra("".to_string()));
    assert_eq!(result.events.len(), 1);
    assert_eq!(event_head(&result.events[0]), (1, [3., 4., 5., 6.]));
    assert_eq!(parts(&result.events[0]), vec![particle([7, 8, 9, 10, 11, 12], [13., 14., 15., 16.], [17., 18., 19.])]);
    assert_eq!(result.events[0].extra, EventExtra("".to_string()));
}

#[test]
fn string_read_lhefile_min_co() {
    let bytes = b"\
<LesHouchesEvents version=\"1.0\">
<!--
Generated using numbers
-->
<init>
52 61 54. 55. 56 57 58 59 60 0
</init>
</LesHouchesEvents>";
    let result = ok(LheFile::read_from_lhe(bytes, 0));
    assert_eq!(result.version, "1.0".to_string());
    assert_eq!(result.comment, Comment { comment: Some("Generated using numbers".to_string()) });
    assert_eq!(result.header, Header { header: None });
    assert_eq!(init_head(&result.init), ([52, 61], [54., 55.], [56, 57, 58, 59, 60]));
    assert_eq!(procs(&result.init), vec![]);
    assert_eq!(result.init.extra, InitExtra("".to_string()));
    assert!(result.events.is_empty());
}

#[test]
fn string_read_lhefile_min_head() {
    let bytes = b"\
<LesHouchesEvents version=\"1.0\">
<init>
52 61 54. 55. 56 57 58 59 60 0
</init>
<header>
header line 1
# header line 2
<line> header line 3</line>
</header>
</LesHouchesEvents>";
    let result = ok(LheFile::read_from_lhe(bytes, 0));
    assert_eq!(result.version, "1.0".to_string());
    assert_eq!(result.comment, Comment { comment: None });
    assert_eq!(result.header, Header { header: Some("header line 1\n# header line 2\n<line> header line 3</line>".to_string()) });
    assert_eq!(init_head(&result.init), ([52, 61], [54., 55.], [56, 57, 58, 59, 60]));
    assert_eq!(procs(&result.init), vec![]);
    assert_eq!(result.init.extra, InitExtra("".to_string()));
    assert!(result.events.is_empty());
}

#[test]
fn string_read_lhefile_min_co_head() {
    let bytes = b"\
<LesHouchesEvents version=\"1.0\">
<!--
Generated using numbers
-->
<header>
header line 1
# header line 2
<line> header line 3</line>
</header>
<init>
52 61 54. 55. 56 57 58 59 60 0
</init>
</LesHouchesEvents>";
    let result = ok(LheFile::read_from_lhe(bytes, 0));
    assert_eq!(result.version, "1.0".to_string());
    assert_eq!(result.comment, Comment { comment: Some("Generated using numbers".to_string()) });
    assert_eq!(result.header, Header { header: Some("header line 1\n# header line 2\n<line> header line 3</line>".to_string()) });
    assert_eq!(init_head(&result.init), ([52, 61], [54., 55.], [56, 57, 58, 59, 60]));
    assert_eq!(procs(&result.init), vec![]);
    assert_eq!(result.init.extra, InitExtra("".to_string()));
    assert!(result.events.is_empty());
}

fn check_full(result: &LheFile) {
    assert_eq!(result.version, "1.0".to_string());
    assert_eq!(result.comment, Comment { comment: Some("Generated using numbers".to_string()) });
    assert_eq!(result.header, Header { header: Some("header line 1\n# header line 2\n<line> header line 3</line>".to_string()) });
    assert_eq!(init_head(&result.init), ([52, 61], [54., 55.], [56, 57, 58, 59, 60]));
    assert_eq!(procs(&result.init), vec![(62., 63., 64., 65), (66., 67., 68., 69)]);
    assert_eq!(result.init.extra, InitExtra("# init extra ?".to_string()));
    assert_eq!(result.events.len(), 2);
    assert_eq!(event_head(&result.events[0]), (1, [3., 4., 5., 6.]));
    assert_eq!(parts(&result.events[0]), vec![particle([7, 8, 9, 10, 11, 12], [13., 14., 15., 16.], [17., 18., 19.]), particle([20, 21, 22, 23, 24, 25], [26., 27., 28., 29.], [30., 31., 32.])]);
    assert_eq!(result.events[0].extra, EventExtra("# extra 1\n2nd extra".to_string()));
    assert_eq!(event_head(&result.events[1]), (33, [35., 36., 37., 38.]));
    assert_eq!(parts(&result.events[1]), vec![particle([39, 40, 41, 42, 43, 44], [45., 46., 47., 48.], [49., 50., 51.])]);
    assert_eq!(result.events[1].extra, EventExtra("52 53 54 55 56 57 58. 59. 60. 61. 62. 63. 64.".to_string()));
}

#[test]
fn string_read_lhefile() {
    let bytes = b"\
<LesHouchesEvents version=\"1.0\">
<!--
Generated using numbers
-->
<init>
52 61 54. 55. 56 57 58 59 60 2
62. 63. 64. 65
66. 67. 68. 69
# init extra ?
</init>
<header>
header line 1
# header line 2
<line> header line 3</line>
</header>
<event>
2 1 3. 4. 5. 6.
7 8 9 10 11 12 13. 14. 15. 16. 17. 18. 19.
20 21 22 23 24 25 26. 27. 28. 29. 30. 31. 32.
# extra 1
2nd extra
</event>
<event>
1 33 35. 36. 37. 38.
39 40 41 42 43 44 45. 46. 47. 48. 49. 50. 51.
52 53 54 55 56 57 58. 59. 60. 61. 62. 63. 64.
</event>
</LesHouchesEvents>";
    let result = ok(LheFile::read_from_lhe(bytes, 0));
    check_full(&result);
}

#[test]
fn string_read_lhefile_reverse() {
    let bytes = b"\
<LesHouchesEvents version=\"1.0\">
<header>
header line 1
# header line 2
<line> header line 3</line>
</header>
<init>
52 61 54. 55. 56 57 58 59 60 2
62. 63. 64. 65
66. 67. 68. 69
# init extra ?
</init>
<!--
Generated using numbers
-->
<event>
2 1 3. 4. 5. 6.
7 8 9 10 11 12 13. 14. 15. 16. 17. 18. 19.
20 21 22 23 24 25 26. 27. 28. 29. 30. 31. 32.
# extra 1
2nd extra
</event>
<event>
1 33 35. 36. 37. 38.
39 40 41 42 43 44 45. 46. 47. 48. 49. 50. 51.
52 53 54 55 56 57 58. 59. 60. 61. 62. 63. 64.
</event>
</LesHouchesEvents>";
    let result = ok(LheFile::read_from_lhe(bytes, 0));
    check_full(&result);
}

#[test]
fn string_orders_of_the_blocks_read_alike() {
    let comment = "<!-- c -->\n";
    let header = "<header> h </header>\n";
    let init = "<init>\n1 2 3. 4. 5 6 7 8 9 0\n</init>\n";
    let orders = [
        [comment, header, init],
        [comment, init, header],
        [header, comment, init],
        [header, init, comment],
        [init, comment, header],
        [init, header, comment],
    ];
    let read = |blocks: &[&str; 3]| {
        let text = format!(
            "<LesHouchesEvents version=\"1.0\">\n{}{}{}</LesHouchesEvents>",
            blocks[0], blocks[1], blocks[2]
        );
        ok(LheFile::read_from_lhe(text.as_bytes(), 0))
    };
    let first = read(&orders[0]);
    for order in orders.iter() {
        assert_eq!(read(order), first);
    }
}

#[test]
fn string_comment_without_end_is_incomplete() {
    assert_eq!(Comment::read_from_lhe(b"<!-- no end", 0), Err(ParseError::Incomplete));
    assert_eq!(ok(Comment::read_from_lhe(b"<init>", 0)), Comment { comment: None });
}

#[test]
fn qc_regression() {
    let lhe = LheFileGeneric {
        version: "".to_string(),
        comment: Comment { comment: Some(".\u{9b}{£->\u{13}\u{fff2}\n>w蓲*খ?,®xy\u{79994}\n3\u{11cdd}R_\u{84}E{\"\u{7f}\u{92}\u{0}\u{3000}|\u{82}㖬⁛ٺ$![\u{88}8?\u{10f0be}\u{e56c}¬)\u{70f}\u{9a}\u{7}\u{2005}*\u{2006}\u{9cf}퐢\"\u{e922}\n䰝\u{2}‖\n^@4#7ª\u{1d}‶9\u{fff8}}!뇝\u{92081}*\u{81}颱RA3S )%\u{81}\u{48377}\u{10ffff}".to_string())},
        header: Header { header: Some("⁂\u{9c}\u{8d}\u{1d}\u{97}\u{1c}(7«8\u{17}g\u{8e}\u{a0}娐S\u{0}?\u{89}eª⁒h𪄡u\u{f}\u{ffff}4\u{1b}\u{10}\u{d278e}\u{80}§<麡B\u{13}ªG£5揬\\톤e\u{d3677}@&\u{b}?\u{7}⁒H,\u{92}뜒t}6]\u{16}`\u{9a}ⴑ¦¡V\u{84}_]\u{91}«}2(%7X~\u{86}癪\u{16}\u{feeb9}\u{91}{u\u{206a}$]+-X).Aq[\u{f}".to_string()) },
        init: InitGeneric { beam_1_id: -17, beam_2_id: -95, beam_1_energy: fl(-61.50434190590901), beam_2_energy: fl(-84.36896434784065), beam_1_pdf_group_id: 15, beam_2_pdf_group_id: -91, beam_1_pdf_id: -58, beam_2_pdf_id: 84, weighting_strategy: -89, process_info: vec![ProcInfo { xsect: fl(3.0340493268133315), xsect_err: fl(73.39946519830431), maximum_weight: fl(-70.69361722451761), process_id: -96 }], extra: InitExtra("p\n餻M⁊#𐫚&\u{84} 쒵\u{8d}a\u{8a}\\\u{2061}\u{3}8>횮\n$\u{99}\u{1c}\u{1b}:[\u{9e}פ#\u{206f}?2\u{91}\t£(+&b[\u{10715a}\u{70019}\u{17}\u{65953}&".to_string()) },
        events: vec![],
    };
    let bytes = written(&lhe);
    let round = match LheFile::read_from_lhe(&bytes, 0) {
        Ok((l, _)) => l,
        Err(e) => panic!(
            "Failed to read roundtrip: {:?}\n{}",
            e,
            std::str::from_utf8(&bytes).unwrap()
        ),
    };
    if lhe != round {
        assert_eq!(lhe, round);
    }
    assert_eq!(val(&round.init.beam_1_energy), -61.50434190590901);
    assert_eq!(val(&round.init.process_info[0].xsect_err), 73.39946519830431);
}

#[test]
fn text_has_to_be_utf8() {
    assert_eq!(
        Comment::read_from_lhe(b"<!-- \xff -->", 0),
        Err(ParseError::Syntax { expected: lhef::Expected::Text, position: 4 })
    );
}

#[test]
fn texts_that_read_back() {
    assert!(Comment { comment: None }.is_canonical());
    assert!(Comment { comment: some("a b") }.is_canonical());
    assert!(Comment { comment: some("") }.is_canonical());
    assert!(!Comment { comment: some(" a") }.is_canonical());
    assert!(!Comment { comment: some("a\n") }.is_canonical());
    assert!(!Comment { comment: some("a --> b") }.is_canonical());
    assert!(Header { header: some("<line> 3</line>") }.is_canonical());
    assert!(!Header { header: some("</header>") }.is_canonical());
    assert!(InitExtra("# extra line 1\nextra line 2".to_string()).is_canonical());
    assert!(InitExtra("".to_string()).is_canonical());
    assert!(!InitExtra("a </init>".to_string()).is_canonical());
    assert!(!InitExtra("\u{3000}a".to_string()).is_canonical());
    assert!(EventExtra("<rwgt> 5 </rwgt>".to_string()).is_canonical());
    assert!(!EventExtra("x\t".to_string()).is_canonical());
}

fn some(text: &str) -> Option<String> {
    Some(text.to_string())
}

fn text_file_back(comment: Option<String>, header: Option<String>, init: String, event: String) -> TestResult {
    let file = LheFileGeneric {
        version: "3.0".to_string(),
        comment: Comment { comment },
        header: Header { header },
        init: InitGeneric {
            beam_1_id: 1,
            beam_2_id: -1,
            beam_1_energy: fl(1.),
            beam_2_energy: fl(2.),
            beam_1_pdf_group_id: 0,
            beam_2_pdf_group_id: 0,
            beam_1_pdf_id: 1,
            beam_2_pdf_id: 2,
            weighting_strategy: -4,
            process_info: vec![],
            extra: InitExtra(init),
        },
        events: vec![EventGeneric {
            process_id: 5,
            weight: fl(0.5),
            scale: fl(91.),
            alpha_ew: fl(0.),
            alpha_qcd: fl(0.1),
            particles: vec![],
            extra: EventExtra(event),
        }],
    };
    if !(file.comment.is_canonical()
        && file.header.is_canonical()
        && file.init.extra.is_canonical()
        && file.events[0].extra.is_canonical())
    {
        return TestResult::discard();
    }
    let bytes = written(&file);
    TestResult::from_bool(LheFile::read_from_lhe(&bytes, 0) == Ok((file, bytes.len())))
}

#[test]
fn string_lhefile_roundtrip_qc() {
    QuickCheck::new().tests(200).max_tests(20000).quickcheck(
        text_file_back as fn(Option<String>, Option<String>, String, String) -> TestResult,
    );
}

#[test]
fn text_is_written_between_its_tags() {
    let c = Comment { comment: Some("a b".to_string()) };
    assert_eq!(written(&c), b"<!--\na b\n-->\n".to_vec());
    assert_eq!(written(&Comment { comment: None }), Vec::<u8>::new());
    assert_eq!(written(&Header { header: Some("h".to_string()) }), b"<header>\nh\n</header>\n".to_vec());
    assert_eq!(written(&InitExtra("x y".to_string())), b"x y\n".to_vec());
    assert_eq!(written(&EventExtra("".to_string())), Vec::<u8>::new());
}
