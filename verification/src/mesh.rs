//! Loading a triangle mesh from the text of a mesh file.
//!
//! The file is read line by line. A line whose first character is `v` and
//! whose second is a blank defines a vertex by three coordinates. A line
//! whose first character is `f` and whose second is a blank defines a
//! triangle by three vertex numbers, which count the vertices defined so far
//! from one. Every other line is passed over. Words beyond the third number
//! of a line are passed over too.
//!
//! Coordinates keep the text they have in the file. Loading makes sure that
//! each one is written as a number, so that turning it into one cannot fail.
use crate::number::{index_of, is_number, is_number_word, parse_index};
use crate::text::{chars_of, lines, split_lines, split_words, texts, words};
use vstd::prelude::*;

verus! {

/// Why a mesh file was refused, with the number of the first line at fault,
/// counted from one.
#[derive(Clone, Copy, Debug, PartialEq, Eq, Structural)]
pub enum LoadError {
    /// The line has fewer than three numbers.
    MissingToken { line: usize },
    /// One of the first three numbers of the line is not written as a number
    /// of its kind.
    MalformedNumber { line: usize },
    /// The face names a vertex that is not defined above it.
    IndexOutOfRange { line: usize },
}

/// A vertex as the file has it: the text of its three coordinates.
#[derive(Debug, PartialEq, Eq)]
pub struct Vertex {
    pub x: Vec<char>,
    pub y: Vec<char>,
    pub z: Vec<char>,
}

/// What a `Vertex` stands for.
pub ghost struct VertexText {
    pub x: Seq<char>,
    pub y: Seq<char>,
    pub z: Seq<char>,
}

/// A triangle: three vertices in the order in which the face names them.
#[derive(Debug, PartialEq, Eq)]
pub struct Triangle {
    pub p: [Vertex; 3],
}

/// A mesh: triangles in the order in which the file defines them.
#[derive(Debug, PartialEq, Eq)]
pub struct Mesh {
    pub tris: Vec<Triangle>,
}

impl View for Vertex {
    type V = VertexText;

    open spec fn view(&self) -> VertexText {
        VertexText { x: self.x@, y: self.y@, z: self.z@ }
    }
}

impl View for Triangle {
    type V = Seq<VertexText>;

    open spec fn view(&self) -> Seq<VertexText> {
        seq![self.p[0]@, self.p[1]@, self.p[2]@]
    }
}

impl View for Mesh {
    type V = Seq<Seq<VertexText>>;

    open spec fn view(&self) -> Seq<Seq<VertexText>> {
        self.tris@.map_values(|t: Triangle| t@)
    }
}

impl Clone for Vertex {
    fn clone(&self) -> (r: Self)
        ensures
            r@ == self@,
    {
        Vertex { x: copy_of(&self.x), y: copy_of(&self.y), z: copy_of(&self.z) }
    }
}

impl Clone for Triangle {
    fn clone(&self) -> (r: Self)
        ensures
            r@ == self@,
    {
        let r = Triangle { p: [self.p[0].clone(), self.p[1].clone(), self.p[2].clone()] };
        proof {
            assert(r@ =~= self@);
        }
        r
    }
}

impl Clone for Mesh {
    fn clone(&self) -> (r: Self)
        ensures
            r@ == self@,
    {
        let mut tris: Vec<Triangle> = Vec::new();
        let mut i: usize = 0;
        while i < self.tris.len()
            invariant
                i <= self.tris.len(),
                tris.len() == i,
                forall|k: int| 0 <= k < i ==> (#[trigger] tris[k])@ == self.tris[k]@,
            decreases self.tris.len() - i,
        {
            tris.push(self.tris[i].clone());
            i = i + 1;
        }
        let r = Mesh { tris };
        proof {
            assert(r@ =~= self@);
        }
        r
    }
}

/// What a line asks for.
pub enum Directive {
    Vertex,
    Face,
    Other,
}

/// What `line` asks for, by its first two characters.
pub open spec fn directive(line: Seq<char>) -> Directive {
    if line.len() >= 2 && line[1] == ' ' && line[0] == 'v' {
        Directive::Vertex
    } else if line.len() >= 2 && line[1] == ' ' && line[0] == 'f' {
        Directive::Face
    } else {
        Directive::Other
    }
}

/// The vertex that the words `ws` of a vertex line define. The words after
/// the first are taken in order; the first one that is missing or is not
/// written as a number decides the error.
pub open spec fn vertex_of(ws: Seq<Seq<char>>, line: usize) -> Result<VertexText, LoadError> {
    if ws.len() < 2 {
        Err(LoadError::MissingToken { line })
    } else if !is_number(ws[1]) {
        Err(LoadError::MalformedNumber { line })
    } else if ws.len() < 3 {
        Err(LoadError::MissingToken { line })
    } else if !is_number(ws[2]) {
        Err(LoadError::MalformedNumber { line })
    } else if ws.len() < 4 {
        Err(LoadError::MissingToken { line })
    } else if !is_number(ws[3]) {
        Err(LoadError::MalformedNumber { line })
    } else {
        Ok(VertexText { x: ws[1], y: ws[2], z: ws[3] })
    }
}

/// The three vertex numbers that the words `ws` of a face line give, found
/// as the coordinates of a vertex line are.
pub open spec fn corners_of(ws: Seq<Seq<char>>, line: usize) -> Result<
    (usize, usize, usize),
    LoadError,
> {
    if ws.len() < 2 {
        Err(LoadError::MissingToken { line })
    } else if index_of(ws[1]) is None {
        Err(LoadError::MalformedNumber { line })
    } else if ws.len() < 3 {
        Err(LoadError::MissingToken { line })
    } else if index_of(ws[2]) is None {
        Err(LoadError::MalformedNumber { line })
    } else if ws.len() < 4 {
        Err(LoadError::MissingToken { line })
    } else if index_of(ws[3]) is None {
        Err(LoadError::MalformedNumber { line })
    } else {
        Ok((index_of(ws[1])->0, index_of(ws[2])->0, index_of(ws[3])->0))
    }
}

/// The vertex number `i` names one of `count` vertices. Numbers count from
/// one.
pub open spec fn names_vertex(i: usize, count: nat) -> bool {
    1 <= i <= count
}

/// The triangle that the words `ws` of a face line define over the vertices
/// defined so far.
pub open spec fn face_of(ws: Seq<Seq<char>>, vertices: Seq<VertexText>, line: usize) -> Result<
    Seq<VertexText>,
    LoadError,
> {
    match corners_of(ws, line) {
        Err(e) => Err(e),
        Ok((a, b, c)) => {
            if names_vertex(a, vertices.len()) && names_vertex(b, vertices.len()) && names_vertex(
                c,
                vertices.len(),
            ) {
                Ok(seq![vertices[a - 1], vertices[b - 1], vertices[c - 1]])
            } else {
                Err(LoadError::IndexOutOfRange { line })
            }
        },
    }
}

/// What has been read of a file: its vertices and its triangles, each in
/// file order.
pub ghost struct Loaded {
    pub vertices: Seq<VertexText>,
    pub triangles: Seq<Seq<VertexText>>,
}

/// What has been read after `line`, which has the number `number`.
pub open spec fn read_line(so_far: Loaded, line: Seq<char>, number: usize) -> Result<
    Loaded,
    LoadError,
> {
    match directive(line) {
        Directive::Other => Ok(so_far),
        Directive::Vertex => match vertex_of(words(line), number) {
            Err(e) => Err(e),
            Ok(v) => Ok(Loaded { vertices: so_far.vertices.push(v), triangles: so_far.triangles }),
        },
        Directive::Face => match face_of(words(line), so_far.vertices, number) {
            Err(e) => Err(e),
            Ok(t) => Ok(Loaded { vertices: so_far.vertices, triangles: so_far.triangles.push(t) }),
        },
    }
}

/// What has been read after the lines `ls`, or the error of the first line
/// at fault.
pub open spec fn read_lines(ls: Seq<Seq<char>>) -> Result<Loaded, LoadError>
    decreases ls.len(),
{
    if ls.len() == 0 {
        Ok(Loaded { vertices: Seq::empty(), triangles: Seq::empty() })
    } else {
        match read_lines(ls.drop_last()) {
            Err(e) => Err(e),
            Ok(so_far) => read_line(so_far, ls.last(), ls.len() as usize),
        }
    }
}

/// The mesh that a file with the text `text` defines, or why it defines
/// none.
pub open spec fn mesh_of(text: Seq<char>) -> Result<Seq<Seq<VertexText>>, LoadError> {
    match read_lines(lines(text)) {
        Err(e) => Err(e),
        Ok(all) => Ok(all.triangles),
    }
}

/// What a list of vertices stands for.
pub open spec fn vertex_texts(vs: Seq<Vertex>) -> Seq<VertexText> {
    vs.map_values(|v: Vertex| v@)
}

/// A copy of a word.
fn copy_of(word: &Vec<char>) -> (r: Vec<char>)
    ensures
        r@ == word@,
{
    let r = word.clone();
    proof {
        assert(r@ =~= word@);
    }
    r
}

/// Reads the vertex of a vertex line from the words of the line.
pub fn read_vertex(ws: &Vec<Vec<char>>, line: usize) -> (r: Result<Vertex, LoadError>)
    ensures
        match r {
            Ok(v) => vertex_of(texts(ws@), line) == Ok::<VertexText, LoadError>(v@),
            Err(e) => vertex_of(texts(ws@), line) == Err::<VertexText, LoadError>(e),
        },
{
    if ws.len() < 2 {
        return Err(LoadError::MissingToken { line });
    }
    if !is_number_word(&ws[1]) {
        return Err(LoadError::MalformedNumber { line });
    }
    if ws.len() < 3 {
        return Err(LoadError::MissingToken { line });
    }
    if !is_number_word(&ws[2]) {
        return Err(LoadError::MalformedNumber { line });
    }
    if ws.len() < 4 {
        return Err(LoadError::MissingToken { line });
    }
    if !is_number_word(&ws[3]) {
        return Err(LoadError::MalformedNumber { line });
    }
    Ok(Vertex { x: copy_of(&ws[1]), y: copy_of(&ws[2]), z: copy_of(&ws[3]) })
}

/// Reads the three vertex numbers of a face line from the words of the line.
pub fn read_corners(ws: &Vec<Vec<char>>, line: usize) -> (r: Result<(usize, usize, usize), LoadError>)
    ensures
        r == corners_of(texts(ws@), line),
{
    if ws.len() < 2 {
        return Err(LoadError::MissingToken { line });
    }
    let a = match parse_index(&ws[1]) {
        Some(a) => a,
        None => {
            return Err(LoadError::MalformedNumber { line });
        },
    };
    if ws.len() < 3 {
        return Err(LoadError::MissingToken { line });
    }
    let b = match parse_index(&ws[2]) {
        Some(b) => b,
        None => {
            return Err(LoadError::MalformedNumber { line });
        },
    };
    if ws.len() < 4 {
        return Err(LoadError::MissingToken { line });
    }
    let c = match parse_index(&ws[3]) {
        Some(c) => c,
        None => {
            return Err(LoadError::MalformedNumber { line });
        },
    };
    Ok((a, b, c))
}

/// Reads the triangle of a face line from the words of the line and the
/// vertices defined so far.
pub fn read_face(ws: &Vec<Vec<char>>, vertices: &Vec<Vertex>, line: usize) -> (r: Result<
    Triangle,
    LoadError,
>)
    ensures
        match r {
            Ok(t) => face_of(texts(ws@), vertex_texts(vertices@), line) == Ok::<
                Seq<VertexText>,
                LoadError,
            >(t@),
            Err(e) => face_of(texts(ws@), vertex_texts(vertices@), line) == Err::<
                Seq<VertexText>,
                LoadError,
            >(e),
        },
{
    match read_corners(ws, line) {
        Err(e) => Err(e),
        Ok((a, b, c)) => {
            let n = vertices.len();
            if 1 <= a && a <= n && 1 <= b && b <= n && 1 <= c && c <= n {
                let t = Triangle {
                    p: [vertices[a - 1].clone(), vertices[b - 1].clone(), vertices[c - 1].clone()],
                };
                proof {
                    assert(t@ =~= seq![
                        vertex_texts(vertices@)[a - 1],
                        vertex_texts(vertices@)[b - 1],
                        vertex_texts(vertices@)[c - 1],
                    ]);
                }
                Ok(t)
            } else {
                Err(LoadError::IndexOutOfRange { line })
            }
        },
    }
}

/// Once a line is at fault, the lines after it change nothing.
pub proof fn lemma_first_fault_decides(ls: Seq<Seq<char>>, k: int)
    requires
        0 <= k <= ls.len(),
        read_lines(ls.take(k)) is Err,
    ensures
        read_lines(ls) == read_lines(ls.take(k)),
    decreases ls.len(),
{
    if k == ls.len() {
        assert(ls.take(k) =~= ls);
    } else {
        assert(ls.drop_last().take(k) =~= ls.take(k));
        lemma_first_fault_decides(ls.drop_last(), k);
    }
}

/// The three coordinates of `v` are written as numbers.
pub open spec fn is_vertex(v: VertexText) -> bool {
    is_number(v.x) && is_number(v.y) && is_number(v.z)
}

/// `t` is three vertices whose coordinates are written as numbers.
pub open spec fn is_triangle(t: Seq<VertexText>) -> bool {
    t.len() == 3 && is_vertex(t[0]) && is_vertex(t[1]) && is_vertex(t[2])
}

/// Whatever has been read holds only coordinates that are written as
/// numbers.
proof fn lemma_read_lines_keeps_numbers(ls: Seq<Seq<char>>)
    ensures
        read_lines(ls) matches Ok(all) ==> {
            &&& forall|i: int| 0 <= i < all.vertices.len() ==> is_vertex(#[trigger] all.vertices[i])
            &&& forall|i: int|
                0 <= i < all.triangles.len() ==> is_triangle(#[trigger] all.triangles[i])
        },
    decreases ls.len(),
{
    if ls.len() > 0 {
        lemma_read_lines_keeps_numbers(ls.drop_last());
    }
}

/// Every triangle of a loaded mesh has three vertices, and each of their
/// coordinates is written as a number.
pub proof fn lemma_loaded_mesh_holds_numbers(text: Seq<char>, k: int)
    requires
        mesh_of(text) is Ok,
        0 <= k < mesh_of(text)->Ok_0.len(),
    ensures
        is_triangle(mesh_of(text)->Ok_0[k]),
{
    lemma_read_lines_keeps_numbers(lines(text));
}

/// What the vertices and triangles read so far stand for.
spec fn stands_for(vertices: Seq<Vertex>, tris: Seq<Triangle>) -> Loaded {
    Loaded { vertices: vertex_texts(vertices), triangles: tris.map_values(|t: Triangle| t@) }
}

impl Mesh {
    /// Loads the mesh that the characters of a mesh file define.
    pub fn load_from_obj_chars(text: &Vec<char>) -> (r: Result<Mesh, LoadError>)
        ensures
            match r {
                Ok(mesh) => mesh_of(text@) == Ok::<Seq<Seq<VertexText>>, LoadError>(mesh@),
                Err(e) => mesh_of(text@) == Err::<Seq<Seq<VertexText>>, LoadError>(e),
            },
    {
        let ls = split_lines(text);
        let ghost all = texts(ls@);
        let mut vertices: Vec<Vertex> = Vec::new();
        let mut tris: Vec<Triangle> = Vec::new();
        let mut k: usize = 0;
        proof {
            assert(all.take(0) =~= Seq::<Seq<char>>::empty());
            assert(vertex_texts(vertices@) =~= Seq::<VertexText>::empty());
            assert(tris@.map_values(|t: Triangle| t@) =~= Seq::<Seq<VertexText>>::empty());
        }
        while k < ls.len()
            invariant
                k <= ls.len(),
                all == texts(ls@),
                all == lines(text@),
                read_lines(all.take(k as int)) == Ok::<Loaded, LoadError>(
                    stands_for(vertices@, tris@),
                ),
            decreases ls.len() - k,
        {
            let line = &ls[k];
            let number = k + 1;
            let ghost before = stands_for(vertices@, tris@);
            let ghost old_vertices = vertices@;
            let ghost old_tris = tris@;
            proof {
                let next = all.take(k + 1);
                assert(next.drop_last() =~= all.take(k as int));
                assert(next.last() == line@);
                assert(read_lines(next) == read_line(before, line@, number));
            }
            if line.len() >= 2 && line[1] == ' ' && line[0] == 'v' {
                let ws = split_words(line);
                match read_vertex(&ws, number) {
                    Ok(v) => {
                        vertices.push(v);
                        proof {
                            assert(vertex_texts(vertices@) =~= vertex_texts(old_vertices).push(v@));
                        }
                    },
                    Err(e) => {
                        proof {
                            lemma_first_fault_decides(all, k + 1);
                        }
                        return Err(e);
                    },
                }
            } else if line.len() >= 2 && line[1] == ' ' && line[0] == 'f' {
                let ws = split_words(line);
                match read_face(&ws, &vertices, number) {
                    Ok(t) => {
                        tris.push(t);
                        proof {
                            assert(tris@.map_values(|t: Triangle| t@) =~= old_tris.map_values(
                                |t: Triangle| t@,
                            ).push(t@));
                        }
                    },
                    Err(e) => {
                        proof {
                            lemma_first_fault_decides(all, k + 1);
                        }
                        return Err(e);
                    },
                }
            }
            k = k + 1;
        }
        proof {
            assert(all.take(k as int) =~= all);
        }
        Ok(Mesh { tris })
    }

    /// Loads the mesh that the text of a mesh file defines.
    pub fn load_from_obj_text(text: &str) -> (r: Result<Mesh, LoadError>)
        ensures
            match r {
                Ok(mesh) => mesh_of(text@) == Ok::<Seq<Seq<VertexText>>, LoadError>(mesh@),
                Err(e) => mesh_of(text@) == Err::<Seq<Seq<VertexText>>, LoadError>(e),
            },
    {
        let chars = chars_of(text);
        Mesh::load_from_obj_chars(&chars)
    }
}

} // verus!
