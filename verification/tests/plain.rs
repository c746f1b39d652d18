#![allow(dead_code, unused_imports)]
use lhef::generic::{EventGeneric, InitGeneric, LheFileGeneric};
use lhef::{Float, FourMomentum, Particle, ParseError, ProcInfo, ReadLhe, WriteLhe};
use lhef::plain::{Comment, EventExtra, Header, InitExtra, LheFile};

fn val(f: &Float) -> f64 {
    std::str::from_utf8(f.as_bytes()).unwrap().parse().unwrap()
}

fn fl(x: f64) -> Float {
    let text = if x.is_nan() {
        "NaN".to_string()
    } else if x.is_infinite() {
        if x > 0. { "Infinity".to_string() } else { "-Infinity".to_string() }
    } else {
        format!("{:e}", x)
    };
    Float::from_token(text.as_bytes()).unwrap()
}

fn proc(p: &ProcInfo) -> (f64, f64, f64, i64) {
    (val(&p.xsect), val(&p.xsect_err), val(&p.maximum_weight), p.process_id)
}

fn part(p: &Particle) -> ([i64; 6], [f64; 4], [f64; 3]) {
    (
        [p.pdg_id, p.status, p.mother_1_id, p.mother_2_id, p.color_1, p.color_2],
        [val(&p.momentum.px), val(&p.momentum.py), val(&p.momentum.pz), val(&p.momentum.e)],
        [val(&p.mass), val(&p.proper_lifetime), val(&p.spin)],
    )
}

fn init_head<E>(i: &InitGeneric<E>) -> ([i64; 2], [f64; 2], [i64; 5]) {
    (
        [i.beam_1_id, i.beam_2_id],
        [val(&i.beam_1_energy), val(&i.beam_2_energy)],
        [
            i.beam_1_pdf_group_id,
            i.beam_2_pdf_group_id,
            i.beam_1_pdf_id,
            i.beam_2_pdf_id,
            i.weighting_strategy,
        ],
    )
}

fn event_head<E>(e: &EventGeneric<E>) -> (i64, [f64; 4]) {
    (e.process_id, [val(&e.weight), val(&e.scale), val(&e.alpha_ew), val(&e.alpha_qcd)])
}

fn procs<E>(i: &InitGeneric<E>) -> Vec<(f64, f64, f64, i64)> {
    i.process_info.iter().map(proc).collect()
}

fn parts<E>(e: &EventGeneric<E>) -> Vec<([i64; 6], [f64; 4], [f64; 3])> {
    e.particles.iter().map(part).collect()
}

fn particle(i: [i64; 6], p: [f64; 4], r: [f64; 3]) -> ([i64; 6], [f64; 4], [f64; 3]) {
    (i, p, r)
}

fn ok<T>(r: Result<(T, usize), ParseError>) -> T {
    match r {
        Ok((v, _)) => v,
        Err(e) => panic!("failed to read: {:?}", e),
    }
}

fn written<T: WriteLhe>(v: &T) -> Vec<u8> {
    let mut bytes = Vec::new();
    v.write_lhe(&mut bytes).unwrap();
    bytes
}


#[test]
fn plain_read_comment() {
    let bytes = b"<!--
File generated with HELAC-DIPOLES
-->";
    let expected = Comment {};
    let comment = ok(Comment::read_from_lhe(bytes as &[u8], 0));
    assert_eq!(comment, expected);
}

#[test]
fn plain_read_header() {
    let bytes = b"<header>
header line 1
header line 2
</header>";
    let expected = Header {};
    let result = ok(Header::read_from_lhe(bytes as &[u8], 0));
    assert_eq!(result, expected);
}

#[test]
fn plain_read_header_tags() {
    let bytes = b"\
<header>
header line 1
# header line 2
<line> header line 3</line>
</header>";
    let expected = Header {};
    let result = ok(Header::read_from_lhe(bytes as &[u8], 0));
    assert_eq!(result, expected);
}

#[test]
fn plain_read_init() {
    let bytes = b"\
<init>
1 10 3. 4. 5 6 7 8 9 2
11. 12. 13. 14
15. 16. 17. 18
# extra line 1
extra line 2
</init>";
    let result = ok(InitGeneric::<InitExtra>::read_from_lhe(bytes, 0));
    assert_eq!(init_head(&result), ([1, 10], [3., 4.], [5, 6, 7, 8, 9]));
    assert_eq!(procs(&result), vec![(11., 12., 13., 14), (15., 16., 17., 18)]);
    assert_eq!(result.extra, InitExtra {});
}

#[test]
fn plain_read_event() {
    let bytes = b"\
<event>
2 1 3. 4. 5. 6.
7 8 9 10 11 12 13. 14. 15. 16. 17. 18. 19.
20 21 22 23 24 25 26. 27. 28. 29. 30. 31. 32.
# extra line 1
extra line 2
</event>";
    let result = ok(EventGeneric::<EventExtra>::read_from_lhe(bytes, 0));
    assert_eq!(event_head(&result), (1, [3., 4., 5., 6.]));
    assert_eq!(parts(&result), vec![particle([7, 8, 9, 10, 11, 12], [13., 14., 15., 16.], [17., 18., 19.]), particle([20, 21, 22, 23, 24, 25], [26., 27., 28., 29.], [30., 31., 32.])]);
    assert_eq!(result.extra, EventExtra {});
}

#[test]
fn plain_read_lhefile_min_ev() {
    let bytes = b"\
<LesHouchesEvents version=\"1.0\">
<init>
52 61 54. 55. 56 57 58 59 60 0
</init>
<event>
1 1 3. 4. 5. 6.
7 8 9 10 11 12 13. 14. 15. 16. 17. 18. 19.
</event>
</LesHouchesEvents>";
    let result = ok(LheFile::read_from_lhe(bytes, 0));
    assert_eq!(result.version, "1.0".to_string());
    assert_eq!(result.comment, Comment {});
    assert_eq!(result.header, Header {});
    assert_eq!(init_head(&result.init), ([52, 61], [54., 55.], [56, 57, 58, 59, 60]));
    assert_eq!(procs(&result.init), vec![]);
    assert_eq!(result.init.extra, InitExtra {});
    assert_eq!(result.events.len(), 1);
    assert_eq!(event_head(&result.events[0]), (1, [3., 4., 5., 6.]));
    assert_eq!(parts(&result.events[0]), vec![particle([7, 8, 9, 10, 11, 12], [13., 14., 15., 16.], [17., 18., 19.])]);
    assert_eq!(result.events[0].extra, EventExtra {});
}

#[test]
fn plain_read_lhefile_min_co() {
    let bytes = b"\
<LesHouchesEvents version=\"1.0\">
<!--
Generated using numbers
-->
<init>
52 61 54. 55. 56 57 58 59 60 0
</init>
</LesHouchesEvents>";
    let result = ok(LheFile::read_from_lhe(bytes, 0));
    assert_eq!(result.version, "1.0".to_string());
    assert_eq!(result.comment, Comment {});
    assert_eq!(result.header, Header {});
    assert_eq!(init_head(&result.init), ([52, 61], [54., 55.], [56, 57, 58, 59, 60]));
    assert_eq!(procs(&result.init), vec![]);
    assert_eq!(result.init.extra, InitExtra {});
    assert!(result.events.is_empty());
}

#[test]
fn plain_read_lhefile_min_head() {
    let bytes = b"\
<LesHouchesEvents version=\"1.0\">
<init>
52 61 54. 55. 56 57 58 59 60 0
</init>
<header>
header line 1
# header line 2
<line> header line 3</line>
</header>
</LesHouchesEvents>";
    let result = ok(LheFile::read_from_lhe(bytes, 0));
    assert_eq!(result.version, "1.0".to_string());
    assert_eq!(result.comment, Comment {});
    assert_eq!(result.header, Header {});
    assert_eq!(init_head(&result.init), ([52, 61], [54., 55.], [56, 57, 58, 59, 60]));
    assert_eq!(procs(&result.init), vec![]);
    assert_eq!(result.init.extra, InitExtra {});
    assert!(result.events.is_empty());
}

#[test]
fn plain_read_lhefile_min_co_head() {
    let bytes = b"\
<LesHouchesEvents version=\"1.0\">
<!--
Generated using numbers
-->
<header>
header line 1
# header line 2
<line> header line 3</line>
</header>
<init>
52 61 54. 55. 56 57 58 59 60 0
</init>
</LesHouchesEvents>";
    let result = ok(LheFile::read_from_lhe(bytes, 0));
    assert_eq!(result.version, "1.0".to_string());
    assert_eq!(result.comment, Comment {});
    assert_eq!(result.header, Header {});
    assert_eq!(init_head(&result.init), ([52, 61], [54., 55.], [56, 57, 58, 59, 60]));
    assert_eq!(procs(&result.init), vec![]);
    assert_eq!(result.init.extra, InitExtra {});
    assert!(result.events.is_empty());
}

fn check_full(result: &LheFile) {
    assert_eq!(result.version, "1.0".to_string());
    assert_eq!(result.comment, Comment {});
    assert_eq!(result.header, Header {});
    assert_eq!(init_head(&result.init), ([52, 61], [54., 55.], [56, 57, 58, 59, 60]));
    assert_eq!(procs(&result.init), vec![(62., 63., 64., 65), (66., 67., 68., 69)]);
    assert_eq!(result.init.extra, InitExtra {});
    assert_eq!(result.events.len(), 2);
    assert_eq!(event_head(&result.events[0]), (1, [3., 4., 5., 6.]));
    assert_eq!(parts(&result.events[0]), vec![particle([7, 8, 9, 10, 11, 12], [13., 14., 15., 16.], [17., 18., 19.]), particle([20, 21, 22, 23, 24, 25], [26., 27., 28., 29.], [30., 31., 32.])]);
    assert_eq!(result.events[0].extra, EventExtra {});
    assert_eq!(event_head(&result.events[1]), (33, [35., 36., 37., 38.]));
    assert_eq!(parts(&result.events[1]), vec![particle([39, 40, 41, 42, 43, 44], [45., 46., 47., 48.], [49., 50., 51.])]);
    assert_eq!(result.events[1].extra, EventExtra {});
}

#[test]
fn plain_read_lhefile() {
    let bytes = b"\
<LesHouchesEvents version=\"1.0\">
<!--
Generated using numbers
-->
<init>
52 61 54. 55. 56 57 58 59 60 2
62. 63. 64. 65
66. 67. 68. 69
# init extra ?
</init>
<header>
header line 1
# header line 2
<line> header line 3</line>
</header>
<event>
2 1 3. 4. 5. 6.
7 8 9 10 11 12 13. 14. 15. 16. 17. 18. 19.
20 21 22 23 24 25 26. 27. 28. 29. 30. 31. 32.
# extra 1
2nd extra
</event>
<event>
1 33 35. 36. 37. 38.
39 40 41 42 43 44 45. 46. 47. 48. 49. 50. 51.
52 53 54 55 56 57 58. 59. 60. 61. 62. 63. 64.
</event>
</LesHouchesEvents>";
    let result = ok(LheFile::read_from_lhe(bytes, 0));
    check_full(&result);
}

#[test]
fn plain_read_lhefile_reverse() {
    let bytes = b"\
<LesHouchesEvents version=\"1.0\">
<header>
header line 1
# header line 2
<line> header line 3</line>
</header>
<init>
52 61 54. 55. 56 57 58 59 60 2
62. 63. 64. 65
66. 67. 68. 69
# init extra ?
</init>
<!--
Generated using numbers
-->
<event>
2 1 3. 4. 5. 6.
7 8 9 10 11 12 13. 14. 15. 16. 17. 18. 19.
20 21 22 23 24 25 26. 27. 28. 29. 30. 31. 32.
# extra 1
2nd extra
</event>
<event>
1 33 35. 36. 37. 38.
39 40 41 42 43 44 45. 46. 47. 48. 49. 50. 51.
52 53 54 55 56 57 58. 59. 60. 61. 62. 63. 64.
</event>
</LesHouchesEvents>";
    let result = ok(LheFile::read_from_lhe(bytes, 0));
    check_full(&result);
}

#[test]
fn plain_orders_of_the_blocks_read_alike() {
    let comment = "<!-- c -->\n";
    let header = "<header> h </header>\n";
    let init = "<init>\n1 2 3. 4. 5 6 7 8 9 0\n</init>\n";
    let orders = [
        [comment, header, init],
        [comment, init, header],
        [header, comment, init],
        [header, init, comment],
        [init, comment, header],
        [init, header, comment],
    ];
    let read = |blocks: &[&str; 3]| {
        let text = format!(
            "<LesHouchesEvents version=\"1.0\">\n{}{}{}</LesHouchesEvents>",
            blocks[0], blocks[1], blocks[2]
        );
        ok(LheFile::read_from_lhe(text.as_bytes(), 0))
    };
    let first = read(&orders[0]);
    for order in orders.iter() {
        assert_eq!(read(order), first);
    }
}

#[test]
fn plain_comment_without_end_is_incomplete() {
    assert_eq!(Comment::read_from_lhe(b"<!-- no end", 0), Err(ParseError::Incomplete));
    assert_eq!(ok(Comment::read_from_lhe(b"<init>", 0)), Comment {});
}
