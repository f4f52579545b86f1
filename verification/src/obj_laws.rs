//! What reading an OBJ text depends on, and how it reads a text piece by piece.
use vstd::prelude::*;
use crate::obj::{apply_line, empty_model, read_lines, read_obj, ModelView, ObjError, ObjErrorKind, ObjFace};
use crate::number::{all_digits, digits_value, is_float_literal, usize_literal, unsigned_digits};
use crate::text::{
    is_white_space, lemma_lines_concat, lemma_lines_of_empty, lemma_lines_of_line_then,
    lemma_token_then_white, lemma_tokens_trailing_white, lemma_word_is_its_own_token, lines, tokens,
};

verus! {

/// The tokens of a line that declares a vertex or a face: its first token is `v` or `f`.
pub open spec fn is_mesh_line(t: Seq<Seq<char>>) -> bool {
    t.len() > 0 && (t[0] == seq!['v'] || t[0] == seq!['f'])
}

/// The tokens of the lines that declare vertices or faces, in order.
pub open spec fn mesh_lines(ls: Seq<Seq<char>>) -> Seq<Seq<Seq<char>>>
    decreases ls.len(),
{
    if ls.len() == 0 {
        seq![]
    } else if is_mesh_line(tokens(ls[0])) {
        seq![tokens(ls[0])] + mesh_lines(ls.drop_first())
    } else {
        mesh_lines(ls.drop_first())
    }
}

/// The number of lines whose first token is `f`.
pub open spec fn face_line_count(ls: Seq<Seq<char>>) -> nat
    decreases ls.len(),
{
    if ls.len() == 0 {
        0
    } else {
        let t = tokens(ls[0]);
        (if t.len() > 0 && t[0] == seq!['f'] {
            1nat
        } else {
            0nat
        }) + face_line_count(ls.drop_first())
    }
}

/// The number of lines whose first token is `v`.
pub open spec fn vertex_line_count(ls: Seq<Seq<char>>) -> nat
    decreases ls.len(),
{
    if ls.len() == 0 {
        0
    } else {
        let t = tokens(ls[0]);
        (if t.len() > 0 && t[0] == seq!['v'] {
            1nat
        } else {
            0nat
        }) + vertex_line_count(ls.drop_first())
    }
}

/// The mesh that the token lines `ts` build on top of `m`, or `None` when one fails.
pub open spec fn apply_lines(ts: Seq<Seq<Seq<char>>>, m: ModelView) -> Option<ModelView>
    decreases ts.len(),
{
    if ts.len() == 0 {
        Some(m)
    } else {
        match apply_line(ts[0], m) {
            Ok(m2) => apply_lines(ts.drop_first(), m2),
            Err(_) => None,
        }
    }
}

proof fn lemma_read_lines_by_mesh_lines(ls: Seq<Seq<char>>, first: nat, m: ModelView)
    ensures
        (read_lines(ls, first, m) is Ok) == (apply_lines(mesh_lines(ls), m) is Some),
        read_lines(ls, first, m) is Ok ==> apply_lines(mesh_lines(ls), m) == Some(
            read_lines(ls, first, m)->Ok_0,
        ),
    decreases ls.len(),
{
    if ls.len() > 0 {
        let t = tokens(ls[0]);
        let rest = ls.drop_first();
        if is_mesh_line(t) {
            let ts = mesh_lines(ls);
            assert(ts[0] == t);
            assert(ts.drop_first() =~= mesh_lines(rest));
            match apply_line(t, m) {
                Ok(m2) => {
                    lemma_read_lines_by_mesh_lines(rest, first + 1, m2);
                },
                Err(_) => {},
            }
        } else {
            assert(apply_line(t, m) == Ok::<ModelView, (usize, crate::obj::ObjErrorKind)>(m));
            lemma_read_lines_by_mesh_lines(rest, first + 1, m);
        }
    }
}

/// Reading an OBJ text depends only on the tokens of its `v` and `f` lines:
/// two texts whose `v` and `f` lines have the same tokens, in the same order,
/// are both read, to the same mesh, or both refused. So changing the white
/// space between or around tokens, ending lines with `"\r\n"`, or adding lines
/// that are blank or start with another token (`#`, `vn`, `s`, ...) changes nothing
/// but the line numbers in an error.
pub proof fn lemma_mesh_depends_only_on_mesh_lines(c1: Seq<char>, c2: Seq<char>)
    requires
        mesh_lines(lines(c1)) == mesh_lines(lines(c2)),
    ensures
        (read_obj(c1) is Ok) == (read_obj(c2) is Ok),
        read_obj(c1) is Ok ==> read_obj(c1)->Ok_0 == read_obj(c2)->Ok_0,
{
    lemma_read_lines_by_mesh_lines(lines(c1), 1, empty_model());
    lemma_read_lines_by_mesh_lines(lines(c2), 1, empty_model());
}

proof fn lemma_mesh_lines_concat(x: Seq<Seq<char>>, y: Seq<Seq<char>>)
    ensures
        mesh_lines(x + y) == mesh_lines(x) + mesh_lines(y),
    decreases x.len(),
{
    if x.len() == 0 {
        assert(x + y =~= y);
        assert(mesh_lines(x) + mesh_lines(y) =~= mesh_lines(y));
    } else {
        assert((x + y)[0] == x[0]);
        assert((x + y).drop_first() =~= x.drop_first() + y);
        lemma_mesh_lines_concat(x.drop_first(), y);
        if is_mesh_line(tokens(x[0])) {
            assert(mesh_lines(x + y) =~= mesh_lines(x) + mesh_lines(y));
        }
    }
}

/// The mesh lines of `a`, then the line `l`, then `b`.
proof fn lemma_mesh_lines_around(a: Seq<char>, l: Seq<char>, b: Seq<char>)
    requires
        a.len() == 0 || a.last() == '\n',
        forall|j: int| 0 <= j < l.len() ==> l[j] != '\n',
    ensures
        mesh_lines(lines(a + (l.push('\n') + b))) == mesh_lines(lines(a).drop_last()) + mesh_lines(
            seq![l],
        ) + mesh_lines(lines(b)),
        mesh_lines(lines(a + b)) == mesh_lines(lines(a).drop_last()) + mesh_lines(lines(b)),
{
    lemma_lines_concat(a, l.push('\n') + b);
    lemma_lines_concat(a, b);
    lemma_lines_of_line_then(l, b);
    let d = lines(a).drop_last();
    assert(lines(a + (l.push('\n') + b)) =~= d + (seq![l] + lines(b)));
    lemma_mesh_lines_concat(d, seq![l] + lines(b));
    lemma_mesh_lines_concat(seq![l], lines(b));
    lemma_mesh_lines_concat(d, lines(b));
    assert(mesh_lines(d) + (mesh_lines(seq![l]) + mesh_lines(lines(b))) =~= mesh_lines(d)
        + mesh_lines(seq![l]) + mesh_lines(lines(b)));
}

proof fn lemma_mesh_lines_single(l: Seq<char>)
    ensures
        mesh_lines(seq![l]) == (if is_mesh_line(tokens(l)) {
            seq![tokens(l)]
        } else {
            Seq::<Seq<Seq<char>>>::empty()
        }),
{
    assert(seq![l][0] == l);
    assert(seq![l].drop_first() =~= Seq::<Seq<char>>::empty());
    assert(mesh_lines(Seq::<Seq<char>>::empty()) =~= Seq::<Seq<Seq<char>>>::empty());
    assert(mesh_lines(seq![l].drop_first()) =~= Seq::<Seq<Seq<char>>>::empty());
    if is_mesh_line(tokens(l)) {
        assert(mesh_lines(seq![l]) =~= seq![tokens(l)]);
    }
}

/// Replacing a line by one with the same tokens (other white space between,
/// before or after them), or a line that declares nothing by another such
/// line, changes neither whether a text is read nor the mesh read.
pub proof fn lemma_replacing_a_line(a: Seq<char>, l1: Seq<char>, l2: Seq<char>, b: Seq<char>)
    requires
        a.len() == 0 || a.last() == '\n',
        forall|j: int| 0 <= j < l1.len() ==> l1[j] != '\n',
        forall|j: int| 0 <= j < l2.len() ==> l2[j] != '\n',
        tokens(l1) == tokens(l2) || (!is_mesh_line(tokens(l1)) && !is_mesh_line(tokens(l2))),
    ensures
        (read_obj(a + (l1.push('\n') + b)) is Ok) == (read_obj(a + (l2.push('\n') + b)) is Ok),
        read_obj(a + (l1.push('\n') + b)) is Ok ==> read_obj(a + (l1.push('\n') + b))->Ok_0
            == read_obj(a + (l2.push('\n') + b))->Ok_0,
{
    lemma_mesh_lines_around(a, l1, b);
    lemma_mesh_lines_around(a, l2, b);
    lemma_mesh_lines_single(l1);
    lemma_mesh_lines_single(l2);
    lemma_mesh_depends_only_on_mesh_lines(a + (l1.push('\n') + b), a + (l2.push('\n') + b));
}

/// Inserting a line that declares nothing (blank, white space only, or
/// starting with a token other than `v` and `f`) changes neither whether a
/// text is read nor the mesh read.
pub proof fn lemma_inserting_a_line(a: Seq<char>, l: Seq<char>, b: Seq<char>)
    requires
        a.len() == 0 || a.last() == '\n',
        forall|j: int| 0 <= j < l.len() ==> l[j] != '\n',
        !is_mesh_line(tokens(l)),
    ensures
        (read_obj(a + (l.push('\n') + b)) is Ok) == (read_obj(a + b) is Ok),
        read_obj(a + b) is Ok ==> read_obj(a + (l.push('\n') + b))->Ok_0 == read_obj(a + b)->Ok_0,
{
    lemma_mesh_lines_around(a, l, b);
    lemma_mesh_lines_single(l);
    let d = mesh_lines(lines(a).drop_last());
    assert(d + Seq::<Seq<Seq<char>>>::empty() =~= d);
    lemma_mesh_depends_only_on_mesh_lines(a + (l.push('\n') + b), a + b);
}

/// Ending a line with `"\r\n"` instead of `'\n'` changes neither whether a
/// text is read nor the mesh read.
pub proof fn lemma_crlf_line(a: Seq<char>, l: Seq<char>, b: Seq<char>)
    requires
        a.len() == 0 || a.last() == '\n',
        forall|j: int| 0 <= j < l.len() ==> l[j] != '\n',
    ensures
        (read_obj(a + (l.push('\r').push('\n') + b)) is Ok) == (read_obj(a + (l.push('\n') + b)) is Ok),
        read_obj(a + (l.push('\n') + b)) is Ok ==> read_obj(a + (l.push('\r').push('\n') + b))->Ok_0
            == read_obj(a + (l.push('\n') + b))->Ok_0,
{
    let w = seq!['\r'];
    assert(is_white_space(w[0]));
    lemma_tokens_trailing_white(l, w);
    assert(l + w =~= l.push('\r'));
    let l2 = l.push('\r');
    assert forall|j: int| 0 <= j < l2.len() implies l2[j] != '\n' by {
        if j < l.len() {
            assert(l2[j] == l[j]);
        }
    }
    lemma_replacing_a_line(a, l2, l, b);
}

proof fn lemma_read_obj_drop_last(c1: Seq<char>)
    requires
        c1.len() == 0 || c1.last() == '\n',
    ensures
        read_obj(c1) == read_lines(lines(c1).drop_last(), 1, empty_model()),
{
    lemma_lines_concat(c1, Seq::empty());
    let l1 = lines(c1);
    let d = l1.drop_last();
    let e: Seq<char> = Seq::empty();
    assert(l1 =~= d + seq![e]);
    crate::text::lemma_tokens_of_empty_line();
    lemma_read_lines_concat(d, seq![e], 1, empty_model());
    match read_lines(d, 1, empty_model()) {
        Ok(m2) => {
            assert(seq![e].drop_first() =~= Seq::<Seq<char>>::empty());
            assert(seq![e][0] == e);
            assert(apply_line(tokens(e), m2) == Ok::<ModelView, (usize, ObjErrorKind)>(m2));
            assert(read_lines(seq![e].drop_first(), 1 + d.len() + 1, m2) == Ok::<ModelView, ObjError>(m2));
            assert(read_lines(seq![e], 1 + d.len(), m2) == Ok::<ModelView, ObjError>(m2));
        },
        Err(_) => {},
    }
}

/// Reading a text, then one more line ended by `'\n'`.
proof fn lemma_read_obj_append_line(c1: Seq<char>, l: Seq<char>)
    requires
        c1.len() == 0 || c1.last() == '\n',
        forall|j: int| 0 <= j < l.len() ==> l[j] != '\n',
        read_obj(c1) is Ok,
        apply_line(tokens(l), read_obj(c1)->Ok_0) is Ok,
    ensures
        read_obj(c1 + l.push('\n')) == Ok::<ModelView, ObjError>(
            apply_line(tokens(l), read_obj(c1)->Ok_0)->Ok_0,
        ),
{
    let e: Seq<char> = Seq::empty();
    lemma_read_obj_drop_last(c1);
    lemma_lines_concat(c1, l.push('\n'));
    lemma_lines_of_line_then(l, e);
    assert(l.push('\n') + e =~= l.push('\n'));
    lemma_lines_of_empty();
    let d = lines(c1).drop_last();
    assert(lines(c1 + l.push('\n')) =~= d + seq![l, e]);
    lemma_read_lines_concat(d, seq![l, e], 1, empty_model());
    let p = read_obj(c1)->Ok_0;
    let m = apply_line(tokens(l), p)->Ok_0;
    crate::text::lemma_tokens_of_empty_line();
    assert(seq![l, e][0] == l);
    assert(seq![l, e].drop_first() =~= seq![e]);
    assert(seq![e][0] == e);
    assert(seq![e].drop_first() =~= Seq::<Seq<char>>::empty());
    assert(apply_line(tokens(e), m) == Ok::<ModelView, (usize, ObjErrorKind)>(m));
    assert(read_lines(seq![e].drop_first(), 1 + d.len() + 2, m) == Ok::<ModelView, ObjError>(m));
    assert(read_lines(seq![e], 1 + d.len() + 1, m) == Ok::<ModelView, ObjError>(m));
    assert(read_lines(seq![l, e], 1 + d.len(), p) == Ok::<ModelView, ObjError>(m));
}

/// The tokens of four words separated by single spaces.
proof fn lemma_tokens_of_four_words(w0: Seq<char>, x: Seq<char>, y: Seq<char>, z: Seq<char>)
    requires
        w0.len() > 0 && x.len() > 0 && y.len() > 0 && z.len() > 0,
        forall|j: int| 0 <= j < w0.len() ==> !is_white_space(#[trigger] w0[j]),
        forall|j: int| 0 <= j < x.len() ==> !is_white_space(#[trigger] x[j]),
        forall|j: int| 0 <= j < y.len() ==> !is_white_space(#[trigger] y[j]),
        forall|j: int| 0 <= j < z.len() ==> !is_white_space(#[trigger] z[j]),
    ensures
        tokens(w0 + seq![' '] + x + seq![' '] + y + seq![' '] + z) == seq![w0, x, y, z],
{
    let sp = seq![' '];
    assert(is_white_space(' '));
    lemma_word_is_its_own_token(z);
    lemma_token_then_white(y, ' ', z);
    lemma_token_then_white(x, ' ', y + sp + z);
    lemma_token_then_white(w0, ' ', x + sp + y + sp + z);
    assert(w0 + sp + x + sp + y + sp + z =~= w0 + sp + (x + sp + y + sp + z));
    assert(x + sp + y + sp + z =~= x + sp + (y + sp + z));
    assert(seq![w0] + (seq![x] + (seq![y] + seq![z])) =~= seq![w0, x, y, z]);
}

/// The line `v X Y Z`, coordinates separated by single spaces.
pub open spec fn vertex_line(x: Seq<char>, y: Seq<char>, z: Seq<char>) -> Seq<char> {
    seq!['v', ' '] + x + seq![' '] + y + seq![' '] + z
}

/// The line `f A B C`, indices separated by single spaces.
pub open spec fn face_line(a: Seq<char>, b: Seq<char>, c: Seq<char>) -> Seq<char> {
    seq!['f', ' '] + a + seq![' '] + b + seq![' '] + c
}

pub open spec fn no_white_space(w: Seq<char>) -> bool {
    forall|j: int| 0 <= j < w.len() ==> !is_white_space(#[trigger] w[j])
}

/// A line `v X Y Z` with floating-point tokens `X`, `Y` and `Z`, after a text
/// that is read, adds one vertex whose coordinates are `X`, `Y` and `Z`, in
/// that order, and leaves the rest of the mesh as it was.
pub proof fn lemma_vertex_line_adds_its_vertex(c1: Seq<char>, x: Seq<char>, y: Seq<char>, z: Seq<char>)
    requires
        c1.len() == 0 || c1.last() == '\n',
        read_obj(c1) is Ok,
        x.len() > 0 && y.len() > 0 && z.len() > 0,
        no_white_space(x) && no_white_space(y) && no_white_space(z),
        is_float_literal(x) && is_float_literal(y) && is_float_literal(z),
    ensures
        read_obj(c1 + vertex_line(x, y, z).push('\n')) is Ok,
        ({
            let p = read_obj(c1)->Ok_0;
            let r = read_obj(c1 + vertex_line(x, y, z).push('\n'))->Ok_0;
            &&& r.vertices.len() == p.vertices.len() + 1
            &&& r.vertices.subrange(0, p.vertices.len() as int) == p.vertices
            &&& r.vertices[p.vertices.len() as int].x == x
            &&& r.vertices[p.vertices.len() as int].y == y
            &&& r.vertices[p.vertices.len() as int].z == z
            &&& r.faces == p.faces
        }),
{
    let v = seq!['v'];
    assert(!is_white_space('v'));
    lemma_tokens_of_four_words(v, x, y, z);
    let line = vertex_line(x, y, z);
    assert(line =~= v + seq![' '] + x + seq![' '] + y + seq![' '] + z);
    assert forall|j: int| 0 <= j < line.len() implies line[j] != '\n' by {
        assert(is_white_space('\n'));
        if j >= 2 + x.len() + 1 + y.len() + 1 {
            assert(line[j] == z[j - (2 + x.len() + 1 + y.len() + 1)]);
        } else if j >= 2 + x.len() + 1 {
            if j < 2 + x.len() + 1 + y.len() {
                assert(line[j] == y[j - (2 + x.len() + 1)]);
            }
        } else if j >= 2 {
            if j < 2 + x.len() {
                assert(line[j] == x[j - 2]);
            }
        }
    }
    let t = tokens(line);
    assert(t[0] == v && t[1] == x && t[2] == y && t[3] == z);
    let p = read_obj(c1)->Ok_0;
    lemma_read_obj_append_line(c1, line);
    let r = apply_line(t, p)->Ok_0;
    assert(r.vertices == p.vertices.push(crate::obj::VertexView { x, y, z }));
    assert(p.vertices.push(crate::obj::VertexView { x, y, z }).subrange(0, p.vertices.len() as int)
        =~= p.vertices);
}

/// A text whose only line is `v X Y Z`, with floating-point tokens `X`, `Y`
/// and `Z`, is read to one vertex with coordinates `X`, `Y`, `Z` and no face.
pub proof fn lemma_single_vertex_line(x: Seq<char>, y: Seq<char>, z: Seq<char>)
    requires
        x.len() > 0 && y.len() > 0 && z.len() > 0,
        no_white_space(x) && no_white_space(y) && no_white_space(z),
        is_float_literal(x) && is_float_literal(y) && is_float_literal(z),
    ensures
        read_obj(vertex_line(x, y, z).push('\n')) is Ok,
        ({
            let r = read_obj(vertex_line(x, y, z).push('\n'))->Ok_0;
            &&& r.vertices.len() == 1
            &&& r.vertices[0].x == x
            &&& r.vertices[0].y == y
            &&& r.vertices[0].z == z
            &&& r.faces.len() == 0
        }),
{
    let e: Seq<char> = Seq::empty();
    lemma_read_obj_drop_last(e);
    lemma_lines_of_empty();
    assert(seq![e].drop_last() =~= Seq::<Seq<char>>::empty());
    assert(read_obj(e) == Ok::<ModelView, ObjError>(empty_model()));
    lemma_vertex_line_adds_its_vertex(e, x, y, z);
    assert(e + vertex_line(x, y, z).push('\n') =~= vertex_line(x, y, z).push('\n'));
}

proof fn lemma_index_token(a: Seq<char>, n: nat)
    requires
        a.len() > 0,
        all_digits(a),
        1 <= digits_value(a) <= n,
        n <= usize::MAX,
    ensures
        no_white_space(a),
        usize_literal(a) == Some(digits_value(a) as usize),
{
    assert(unsigned_digits(a) == a) by {
        assert(crate::number::is_digit(a[0]));
    }
    assert forall|j: int| 0 <= j < a.len() implies !is_white_space(#[trigger] a[j]) by {
        assert(crate::number::is_digit(a[j]));
    }
}

/// A line `f A B C`, whose tokens are decimal numbers between 1 and the
/// number of vertices read so far, after a text that is read, adds one face
/// whose corners are vertices `A`, `B` and `C` (counted from 1), in that order,
/// and leaves the rest of the mesh as it was.
pub proof fn lemma_face_line_adds_its_face(c1: Seq<char>, a: Seq<char>, b: Seq<char>, c: Seq<char>)
    requires
        c1.len() == 0 || c1.last() == '\n',
        read_obj(c1) is Ok,
        read_obj(c1)->Ok_0.vertices.len() <= usize::MAX,
        a.len() > 0 && b.len() > 0 && c.len() > 0,
        all_digits(a) && all_digits(b) && all_digits(c),
        1 <= digits_value(a) <= read_obj(c1)->Ok_0.vertices.len(),
        1 <= digits_value(b) <= read_obj(c1)->Ok_0.vertices.len(),
        1 <= digits_value(c) <= read_obj(c1)->Ok_0.vertices.len(),
    ensures
        read_obj(c1 + face_line(a, b, c).push('\n')) is Ok,
        ({
            let p = read_obj(c1)->Ok_0;
            let r = read_obj(c1 + face_line(a, b, c).push('\n'))->Ok_0;
            &&& r.faces == p.faces.push(
                ObjFace {
                    a: (digits_value(a) - 1) as usize,
                    b: (digits_value(b) - 1) as usize,
                    c: (digits_value(c) - 1) as usize,
                },
            )
            &&& r.vertices == p.vertices
        }),
{
    let p = read_obj(c1)->Ok_0;
    let n = p.vertices.len();
    lemma_index_token(a, n);
    lemma_index_token(b, n);
    lemma_index_token(c, n);
    let f = seq!['f'];
    assert(!is_white_space('f'));
    lemma_tokens_of_four_words(f, a, b, c);
    let line = face_line(a, b, c);
    assert(line =~= f + seq![' '] + a + seq![' '] + b + seq![' '] + c);
    assert forall|j: int| 0 <= j < line.len() implies line[j] != '\n' by {
        assert(is_white_space('\n'));
        if j >= 2 + a.len() + 1 + b.len() + 1 {
            assert(line[j] == c[j - (2 + a.len() + 1 + b.len() + 1)]);
        } else if j >= 2 + a.len() + 1 {
            if j < 2 + a.len() + 1 + b.len() {
                assert(line[j] == b[j - (2 + a.len() + 1)]);
            }
        } else if j >= 2 {
            if j < 2 + a.len() {
                assert(line[j] == a[j - 2]);
            }
        }
    }
    let t = tokens(line);
    assert(t[0] == f && t[1] == a && t[2] == b && t[3] == c);
    assert(seq!['f'] != seq!['v']) by {
        assert(seq!['f'][0] != seq!['v'][0]);
    }
    lemma_read_obj_append_line(c1, line);
}

proof fn lemma_read_lines_concat(a: Seq<Seq<char>>, b: Seq<Seq<char>>, first: nat, m: ModelView)
    ensures
        read_lines(a + b, first, m) == match read_lines(a, first, m) {
            Ok(m2) => read_lines(b, first + a.len(), m2),
            Err(e) => Err::<ModelView, ObjError>(e),
        },
    decreases a.len(),
{
    if a.len() == 0 {
        assert(a + b =~= b);
    } else {
        assert((a + b)[0] == a[0]);
        assert((a + b).drop_first() =~= a.drop_first() + b);
        match apply_line(tokens(a[0]), m) {
            Ok(m2) => {
                lemma_read_lines_concat(a.drop_first(), b, first + 1, m2);
            },
            Err(_) => {},
        }
    }
}

proof fn lemma_read_lines_grows(ls: Seq<Seq<char>>, first: nat, m: ModelView)
    requires
        read_lines(ls, first, m) is Ok,
    ensures
        ({
            let r = read_lines(ls, first, m)->Ok_0;
            &&& r.faces.len() == m.faces.len() + face_line_count(ls)
            &&& r.faces.subrange(0, m.faces.len() as int) == m.faces
            &&& r.vertices.len() == m.vertices.len() + vertex_line_count(ls)
            &&& r.vertices.subrange(0, m.vertices.len() as int) == m.vertices
        }),
    decreases ls.len(),
{
    if ls.len() == 0 {
        assert(m.faces.subrange(0, m.faces.len() as int) =~= m.faces);
        assert(m.vertices.subrange(0, m.vertices.len() as int) =~= m.vertices);
    } else {
        let t = tokens(ls[0]);
        let m2 = apply_line(t, m)->Ok_0;
        lemma_read_lines_grows(ls.drop_first(), first + 1, m2);
        assert(seq!['v'] != seq!['f']) by {
            assert(seq!['v'][0] != seq!['f'][0]);
        }
        let fc: nat = if t.len() > 0 && t[0] == seq!['f'] {
            1
        } else {
            0
        };
        let vc: nat = if t.len() > 0 && t[0] == seq!['v'] {
            1
        } else {
            0
        };
        assert(face_line_count(ls) == fc + face_line_count(ls.drop_first()));
        assert(vertex_line_count(ls) == vc + vertex_line_count(ls.drop_first()));
        assert(m2.faces.len() == m.faces.len() + fc);
        assert(m2.vertices.len() == m.vertices.len() + vc);
        let r = read_lines(ls, first, m)->Ok_0;
        assert(m2.faces.subrange(0, m.faces.len() as int) =~= m.faces);
        assert(m2.vertices.subrange(0, m.vertices.len() as int) =~= m.vertices);
        assert(r.faces.subrange(0, m.faces.len() as int) =~= r.faces.subrange(
            0,
            m2.faces.len() as int,
        ).subrange(0, m.faces.len() as int));
        assert(r.vertices.subrange(0, m.vertices.len() as int) =~= r.vertices.subrange(
            0,
            m2.vertices.len() as int,
        ).subrange(0, m.vertices.len() as int));
    }
}

/// Reading a text piece by piece: when `c1` is empty or ends with `'\n'` and
/// `c1 + c2` is read, then `c1` is read too, and its mesh is a prefix of the
/// whole one: the whole has as many more faces as `c2` has lines starting with
/// `f`, and as many more vertices as `c2` has lines starting with `v`.
pub proof fn lemma_prefix_text_reads_prefix_mesh(c1: Seq<char>, c2: Seq<char>)
    requires
        c1.len() == 0 || c1.last() == '\n',
        read_obj(c1 + c2) is Ok,
    ensures
        read_obj(c1) is Ok,
        ({
            let p = read_obj(c1)->Ok_0;
            let w = read_obj(c1 + c2)->Ok_0;
            &&& w.faces.len() == p.faces.len() + face_line_count(lines(c2))
            &&& w.faces.subrange(0, p.faces.len() as int) == p.faces
            &&& w.vertices.len() == p.vertices.len() + vertex_line_count(lines(c2))
            &&& w.vertices.subrange(0, p.vertices.len() as int) == p.vertices
        }),
{
    lemma_lines_concat(c1, c2);
    let l1 = lines(c1);
    let d = l1.drop_last();
    let e: Seq<char> = Seq::empty();
    assert(l1 =~= d + seq![e]);
    assert(tokens(e).len() == 0) by {
        crate::text::lemma_tokens_of_empty_line();
    }
    lemma_read_lines_concat(d, seq![e], 1, empty_model());
    match read_lines(d, 1, empty_model()) {
        Ok(m2) => {
            assert(seq![e].drop_first() =~= Seq::<Seq<char>>::empty());
            assert(seq![e][0] == e);
            assert(apply_line(tokens(e), m2) == Ok::<ModelView, (usize, crate::obj::ObjErrorKind)>(m2));
            assert(read_lines(seq![e].drop_first(), 1 + d.len() + 1, m2) == Ok::<ModelView, ObjError>(m2));
            assert(read_lines(seq![e], 1 + d.len(), m2) == Ok::<ModelView, ObjError>(m2));
        },
        Err(_) => {},
    }
    assert(read_obj(c1) == read_lines(d, 1, empty_model()));
    lemma_read_lines_concat(d, lines(c2), 1, empty_model());
    let m2 = read_lines(d, 1, empty_model())->Ok_0;
    lemma_read_lines_grows(lines(c2), 1 + d.len(), m2);
}

} // verus!
