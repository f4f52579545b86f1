use threedee::obj::{parse_obj, ObjErrorKind, ObjFace};
use threedee::text::{split_lines, split_tokens};

fn chars(s: &str) -> Vec<char> {
    s.chars().collect()
}

fn text(v: &Vec<char>) -> String {
    v.iter().collect()
}

#[test]
fn lines_split_at_newlines() {
    let lines = split_lines(&chars("v 1 2 3\r\n\nf 1 1 1"));
    let got: Vec<String> = lines.iter().map(text).collect();
    assert_eq!(got, vec!["v 1 2 3\r".to_string(), "".to_string(), "f 1 1 1".to_string()]);
}

#[test]
fn tokens_split_like_split_whitespace() {
    let lines = ["  v\t1.0   2\u{3000}3 ", "", "   ", "a\u{a0}b\u{2003}c", "x\u{200b}y"];
    for line in lines.iter() {
        let got: Vec<String> = split_tokens(&chars(line)).iter().map(text).collect();
        let expected: Vec<String> = line.split_whitespace().map(|s| s.to_string()).collect();
        assert_eq!(got, expected, "line {:?}", line);
    }
}

#[test]
fn reads_vertices_and_faces() {
    let src = "# a triangle\nv 0.0 0.0 0.0\nv 1.0 0.0 0.0 1.0\nvn 0 0 1\nv 0 1 0\nf 1 2 3\nf 3 +2 1 extra\n";
    let model = parse_obj(&chars(src)).unwrap();
    assert_eq!(model.vertices.len(), 3);
    assert_eq!(text(&model.vertices[1].x), "1.0");
    assert_eq!(text(&model.vertices[1].y), "0.0");
    assert_eq!(text(&model.vertices[2].y), "1");
    assert_eq!(
        model.faces,
        vec![ObjFace { a: 0, b: 1, c: 2 }, ObjFace { a: 2, b: 1, c: 0 }]
    );
}

#[test]
fn empty_text_is_an_empty_mesh() {
    let model = parse_obj(&chars("")).unwrap();
    assert!(model.vertices.is_empty());
    assert!(model.faces.is_empty());
}

#[test]
fn missing_coordinate_is_reported() {
    let err = parse_obj(&chars("v 1 2 3\nv 1 2\n")).err().unwrap();
    assert_eq!((err.line, err.field, err.kind), (2, 3, ObjErrorKind::MissingValue));
}

#[test]
fn bad_coordinate_is_reported_before_missing_ones() {
    let err = parse_obj(&chars("v abc\n")).err().unwrap();
    assert_eq!((err.line, err.field, err.kind), (1, 1, ObjErrorKind::InvalidCoordinate));
}

#[test]
fn bad_index_is_reported() {
    let err = parse_obj(&chars("v 1 2 3\nf 1/1 1 1\n")).err().unwrap();
    assert_eq!((err.line, err.field, err.kind), (2, 1, ObjErrorKind::InvalidIndex));
}

#[test]
fn zero_index_is_out_of_range() {
    let err = parse_obj(&chars("v 1 2 3\nf 1 0 1\n")).err().unwrap();
    assert_eq!((err.line, err.field, err.kind), (2, 2, ObjErrorKind::IndexOutOfRange));
}

#[test]
fn faces_may_only_use_earlier_vertices() {
    let err = parse_obj(&chars("v 1 2 3\nf 1 1 2\nv 4 5 6\n")).err().unwrap();
    assert_eq!((err.line, err.field, err.kind), (2, 3, ObjErrorKind::IndexOutOfRange));
    assert!(parse_obj(&chars("v 1 2 3\nv 4 5 6\nf 1 1 2\n")).is_ok());
}

#[test]
fn every_face_refers_to_a_vertex() {
    let src = "v 0 0 0\nv 1 0 0\nf 1 2 1\nv 0 1 0\nf 3 2 1\nf 2 3 3\n";
    let model = parse_obj(&chars(src)).unwrap();
    for f in model.faces.iter() {
        assert!(f.a < model.vertices.len() && f.b < model.vertices.len() && f.c < model.vertices.len());
    }
}

fn summary(src: &str) -> Option<(Vec<(String, String, String)>, Vec<ObjFace>)> {
    parse_obj(&chars(src)).ok().map(|m| {
        (
            m.vertices.iter().map(|v| (text(&v.x), text(&v.y), text(&v.z))).collect(),
            m.faces.clone(),
        )
    })
}

#[test]
fn layout_and_other_lines_do_not_change_the_mesh() {
    let plain = "v 0 0 0\nv 1 0 0\nv 0 1 0\nf 1 2 3\n";
    let variants = [
        "v 0 0 0\r\nv 1 0 0\r\nv 0 1 0\r\nf 1 2 3\r\n",
        "  v\t0   0 0  \nv 1 0 0\n\n   \nv 0 1 0\nf 1  2\t3\n",
        "# comment\nv 0 0 0\nvn 0 0 1\nv 1 0 0\ns off\nv 0 1 0\nvt 0 0\nf 1 2 3\n",
    ];
    for v in variants.iter() {
        assert_eq!(summary(v), summary(plain), "text {:?}", v);
    }
    assert!(summary("v 0 0 0\nf 1 1 2\n").is_none());
    assert!(summary("v 0 0 0\r\n# x\nf 1 1 2\r\n").is_none());
}

#[test]
fn reading_a_prefix_gives_a_prefix_of_the_mesh() {
    let c1 = "v 0 0 0\nv 1 0 0\nf 1 2 2\n";
    let c2 = "v 0 1 0\nf 3 2 1\n# end\nf 1 1 3\n";
    let (pv, pf) = summary(c1).unwrap();
    let (wv, wf) = summary(&format!("{}{}", c1, c2)).unwrap();
    assert_eq!(wf.len(), pf.len() + 2);
    assert_eq!(&wf[..pf.len()], &pf[..]);
    assert_eq!(wv.len(), pv.len() + 1);
    assert_eq!(&wv[..pv.len()], &pv[..]);
}
