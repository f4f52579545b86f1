//! The subset of the Wavefront OBJ format that the renderer reads.
//!
//! A file is read line by line. A line whose first token is `v` declares a
//! vertex from its next three tokens, which must be floating-point numbers; a
//! line whose first token is `f` declares a triangle from its next three tokens,
//! which must be the 1-based indices of vertices declared on earlier lines.
//! Other lines, and tokens after the third, are ignored.
//!
//! A vertex keeps its coordinates as the tokens that spell them; a face keeps
//! the 0-based positions of its corners in the vertex list.
use vstd::prelude::*;
use crate::number::{is_float_literal, is_float_token, parse_usize, usize_literal};
use crate::text::{lines, split_lines, split_tokens, tokens};

verus! {

/// A vertex, as the three tokens that give its coordinates.
pub struct ObjVertex {
    pub x: Vec<char>,
    pub y: Vec<char>,
    pub z: Vec<char>,
}

/// A triangle, as the 0-based positions of its three corners in the vertex list.
#[derive(Clone, Copy, Debug, PartialEq, Eq, Structural)]
pub struct ObjFace {
    pub a: usize,
    pub b: usize,
    pub c: usize,
}

/// A mesh read from an OBJ file.
pub struct ObjModel {
    pub vertices: Vec<ObjVertex>,
    pub faces: Vec<ObjFace>,
}

/// Why a line of an OBJ file could not be read.
#[derive(Clone, Copy, Debug, PartialEq, Eq, Structural)]
pub enum ObjErrorKind {
    /// The line has fewer than three values after its `v` or `f`.
    MissingValue,
    /// A vertex coordinate is not a floating-point number.
    InvalidCoordinate,
    /// A face index is not a non-negative integer that fits in `usize`.
    InvalidIndex,
    /// A face index is 0 or greater than the number of vertices declared so far.
    IndexOutOfRange,
}

/// Where and why an OBJ file could not be read.
#[derive(Clone, Copy, Debug, PartialEq, Eq, Structural)]
pub struct ObjError {
    /// The 1-based number of the offending line.
    pub line: usize,
    /// The position of the offending value on its line, 1 to 3 (0 is the `v` or `f`).
    pub field: usize,
    pub kind: ObjErrorKind,
}

/// A vertex, by the text of its coordinates.
pub struct VertexView {
    pub x: Seq<char>,
    pub y: Seq<char>,
    pub z: Seq<char>,
}

/// A mesh, by the text of its vertices and the corners of its faces.
#[verifier::ext_equal]
pub struct ModelView {
    pub vertices: Seq<VertexView>,
    pub faces: Seq<ObjFace>,
}

impl View for ObjVertex {
    type V = VertexView;

    open spec fn view(&self) -> VertexView {
        VertexView { x: self.x@, y: self.y@, z: self.z@ }
    }
}

impl View for ObjModel {
    type V = ModelView;

    open spec fn view(&self) -> ModelView {
        ModelView { vertices: self.vertices@.map_values(|v: ObjVertex| v@), faces: self.faces@ }
    }
}

impl ObjModel {
    /// Every face refers to vertices of the model.
    pub open spec fn well_formed(self) -> bool {
        forall|i: int|
            0 <= i < self.faces@.len() ==> face_within(#[trigger] self.faces@[i], self.vertices@.len())
    }
}

pub open spec fn face_within(f: ObjFace, n: nat) -> bool {
    f.a < n && f.b < n && f.c < n
}

pub open spec fn empty_model() -> ModelView {
    ModelView { vertices: Seq::empty(), faces: Seq::empty() }
}

/// The `j`-th token of a `v` line, or what is wrong with it.
pub open spec fn coordinate_field(t: Seq<Seq<char>>, j: int) -> Result<Seq<char>, ObjErrorKind> {
    if t.len() <= j {
        Err(ObjErrorKind::MissingValue)
    } else if !is_float_literal(t[j]) {
        Err(ObjErrorKind::InvalidCoordinate)
    } else {
        Ok(t[j])
    }
}

/// The vertex position named by the `j`-th token of an `f` line, when `n`
/// vertices have been declared, or what is wrong with it.
pub open spec fn index_field(t: Seq<Seq<char>>, j: int, n: nat) -> Result<usize, ObjErrorKind> {
    if t.len() <= j {
        Err(ObjErrorKind::MissingValue)
    } else {
        match usize_literal(t[j]) {
            None => Err(ObjErrorKind::InvalidIndex),
            Some(v) => if v == 0 || v > n {
                Err(ObjErrorKind::IndexOutOfRange)
            } else {
                Ok((v - 1) as usize)
            },
        }
    }
}

/// What a line with tokens `t` does to the mesh read so far: the new mesh, or
/// the field at fault and why.
pub open spec fn apply_line(t: Seq<Seq<char>>, m: ModelView) -> Result<ModelView, (usize, ObjErrorKind)> {
    if t.len() > 0 && t[0] == seq!['v'] {
        match coordinate_field(t, 1) {
            Err(k) => Err((1usize, k)),
            Ok(x) => match coordinate_field(t, 2) {
                Err(k) => Err((2usize, k)),
                Ok(y) => match coordinate_field(t, 3) {
                    Err(k) => Err((3usize, k)),
                    Ok(z) => Ok(
                        ModelView {
                            vertices: m.vertices.push(VertexView { x, y, z }),
                            faces: m.faces,
                        },
                    ),
                },
            },
        }
    } else if t.len() > 0 && t[0] == seq!['f'] {
        let n = m.vertices.len();
        match index_field(t, 1, n) {
            Err(k) => Err((1usize, k)),
            Ok(a) => match index_field(t, 2, n) {
                Err(k) => Err((2usize, k)),
                Ok(b) => match index_field(t, 3, n) {
                    Err(k) => Err((3usize, k)),
                    Ok(c) => Ok(
                        ModelView { vertices: m.vertices, faces: m.faces.push(ObjFace { a, b, c }) },
                    ),
                },
            },
        }
    } else {
        Ok(m)
    }
}

/// Reads the lines `ls`, the first of which is line number `first`, on top of
/// the mesh `m`.
pub open spec fn read_lines(ls: Seq<Seq<char>>, first: nat, m: ModelView) -> Result<ModelView, ObjError>
    decreases ls.len(),
{
    if ls.len() == 0 {
        Ok(m)
    } else {
        match apply_line(tokens(ls[0]), m) {
            Err((field, kind)) => Err(ObjError { line: first as usize, field, kind }),
            Ok(m2) => read_lines(ls.drop_first(), first + 1, m2),
        }
    }
}

/// What reading the OBJ text `text` gives.
pub open spec fn read_obj(text: Seq<char>) -> Result<ModelView, ObjError> {
    read_lines(lines(text), 1, empty_model())
}

/// Reads the `j`-th coordinate token of a `v` line.
fn read_coordinate(t: &Vec<Vec<char>>, j: usize) -> (r: Result<Vec<char>, ObjErrorKind>)
    ensures
        match r {
            Ok(w) => coordinate_field(t@.map_values(|w: Vec<char>| w@), j as int) == Ok::<
                Seq<char>,
                ObjErrorKind,
            >(w@),
            Err(k) => coordinate_field(t@.map_values(|w: Vec<char>| w@), j as int) == Err::<
                Seq<char>,
                ObjErrorKind,
            >(k),
        },
{
    let ghost tv = t@.map_values(|w: Vec<char>| w@);
    if t.len() <= j {
        return Err(ObjErrorKind::MissingValue);
    }
    assert(tv[j as int] == t@[j as int]@);
    if !is_float_token(&t[j]) {
        return Err(ObjErrorKind::InvalidCoordinate);
    }
    Ok(t[j].clone())
}

/// Reads the `j`-th index token of an `f` line, when `n` vertices are declared.
fn read_index(t: &Vec<Vec<char>>, j: usize, n: usize) -> (r: Result<usize, ObjErrorKind>)
    ensures
        r == index_field(t@.map_values(|w: Vec<char>| w@), j as int, n as nat),
{
    let ghost tv = t@.map_values(|w: Vec<char>| w@);
    if t.len() <= j {
        return Err(ObjErrorKind::MissingValue);
    }
    assert(tv[j as int] == t@[j as int]@);
    match parse_usize(&t[j]) {
        None => Err(ObjErrorKind::InvalidIndex),
        Some(v) => if v == 0 || v > n {
            Err(ObjErrorKind::IndexOutOfRange)
        } else {
            Ok(v - 1)
        },
    }
}

/// Whether the token is the single character `c`.
fn is_keyword(w: &Vec<char>, c: char) -> (b: bool)
    ensures
        b == (w@ == seq![c]),
{
    if w.len() == 1 && w[0] == c {
        assert(w@ =~= seq![c]);
        true
    } else {
        proof {
            if w@ == seq![c] {
                assert(w@[0] == c);
            }
        }
        false
    }
}

/// Applies the line with tokens `t` to `m`.
fn apply_tokens(t: &Vec<Vec<char>>, m: &mut ObjModel) -> (r: Result<(), (usize, ObjErrorKind)>)
    ensures
        match apply_line(t@.map_values(|w: Vec<char>| w@), old(m)@) {
            Ok(m2) => r is Ok && final(m)@ == m2,
            Err(e) => r == Err::<(), (usize, ObjErrorKind)>(e),
        },
{
    let ghost tv = t@.map_values(|w: Vec<char>| w@);
    if t.len() == 0 {
        return Ok(());
    }
    assert(tv[0] == t@[0]@);
    if is_keyword(&t[0], 'v') {
        let x = match read_coordinate(t, 1) {
            Ok(w) => w,
            Err(k) => {
                return Err((1, k));
            },
        };
        let y = match read_coordinate(t, 2) {
            Ok(w) => w,
            Err(k) => {
                return Err((2, k));
            },
        };
        let z = match read_coordinate(t, 3) {
            Ok(w) => w,
            Err(k) => {
                return Err((3, k));
            },
        };
        let ghost before = m.vertices@.map_values(|v: ObjVertex| v@);
        let v = ObjVertex { x, y, z };
        m.vertices.push(v);
        assert(m.vertices@.map_values(|v: ObjVertex| v@) =~= before.push(v@));
        Ok(())
    } else if is_keyword(&t[0], 'f') {
        let n = m.vertices.len();
        let a = match read_index(t, 1, n) {
            Ok(i) => i,
            Err(k) => {
                return Err((1, k));
            },
        };
        let b = match read_index(t, 2, n) {
            Ok(i) => i,
            Err(k) => {
                return Err((2, k));
            },
        };
        let c = match read_index(t, 3, n) {
            Ok(i) => i,
            Err(k) => {
                return Err((3, k));
            },
        };
        m.faces.push(ObjFace { a, b, c });
        Ok(())
    } else {
        Ok(())
    }
}

/// Reads an OBJ mesh from the text of a file.
///
/// Succeeds exactly when every `v` line has three floating-point coordinates
/// and every `f` line three indices of vertices declared before it; otherwise
/// reports the first line, and the first value on it, at fault.
pub fn parse_obj(text: &Vec<char>) -> (r: Result<ObjModel, ObjError>)
    ensures
        match read_obj(text@) {
            Ok(m) => r is Ok && r->Ok_0@ == m && r->Ok_0.well_formed(),
            Err(e) => r == Err::<ObjModel, ObjError>(e),
        },
{
    let ls = split_lines(text);
    let ghost lv = lines(text@);
    let mut m = ObjModel { vertices: Vec::new(), faces: Vec::new() };
    assert(m@.vertices =~= empty_model().vertices);
    assert(m@.faces =~= empty_model().faces);
    assert(lv.skip(0) =~= lv);
    let mut i: usize = 0;
    while i < ls.len()
        invariant
            i <= ls@.len(),
            ls@.len() == lv.len(),
            forall|j: int| 0 <= j < ls@.len() ==> (#[trigger] ls@[j])@ == lv[j],
            read_obj(text@) == read_lines(lv.skip(i as int), (i + 1) as nat, m@),
            m.well_formed(),
        decreases ls.len() - i,
    {
        let t = split_tokens(&ls[i]);
        assert(t@.map_values(|w: Vec<char>| w@) =~= tokens(lv[i as int]));
        let ghost rest = lv.skip(i as int);
        assert(rest[0] == lv[i as int]);
        assert(rest.drop_first() =~= lv.skip(i + 1));
        match apply_tokens(&t, &mut m) {
            Ok(()) => {},
            Err((field, kind)) => {
                return Err(ObjError { line: i + 1, field, kind });
            },
        }
        i = i + 1;
    }
    assert(lv.skip(i as int) =~= Seq::<Seq<char>>::empty());
    Ok(m)
}

} // verus!
