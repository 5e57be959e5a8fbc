//! What is drawn for one triangle: the filled face, its outline, or both.
//!
//! A triangle has one colour, its shade, and everything drawn for it is
//! drawn in that colour. A primitive therefore names corners only.
use vstd::prelude::*;

verus! {

/// How triangles are drawn.
#[derive(Clone, Copy, Debug, PartialEq, Eq, Structural)]
pub enum DrawMode {
    /// The face, filled with the triangle's shade.
    Filled,
    /// The three edges and a marker on each corner.
    Wireframe,
    /// The filled face, and the outline on top of it.
    Both,
}

/// One call to the drawing surface, in the shade of the triangle that it
/// belongs to. Corners are numbered 0, 1 and 2.
#[derive(Clone, Copy, Debug, PartialEq, Eq, Structural)]
pub enum Primitive {
    /// The filled triangle.
    Fill,
    /// A line from one corner to another.
    Edge { from: usize, to: usize },
    /// A small disc on a corner.
    Marker { at: usize },
}

/// The outline of a triangle: the three edges, from corner 0 to 1, from 1 to
/// 2 and from 2 to 0, and then the three corner markers.
pub open spec fn outline() -> Seq<Primitive> {
    seq![
        Primitive::Edge { from: 0, to: 1 },
        Primitive::Edge { from: 1, to: 2 },
        Primitive::Edge { from: 2, to: 0 },
        Primitive::Marker { at: 0 },
        Primitive::Marker { at: 1 },
        Primitive::Marker { at: 2 },
    ]
}

/// What is drawn for one triangle in the given mode, in drawing order.
pub open spec fn primitives_of(mode: DrawMode) -> Seq<Primitive> {
    match mode {
        DrawMode::Filled => seq![Primitive::Fill],
        DrawMode::Wireframe => outline(),
        DrawMode::Both => seq![Primitive::Fill] + outline(),
    }
}

/// What is drawn for one triangle in the given mode, in drawing order.
pub fn primitives(mode: DrawMode) -> (list: Vec<Primitive>)
    ensures
        list@ == primitives_of(mode),
{
    let mut list: Vec<Primitive> = Vec::new();
    match mode {
        DrawMode::Wireframe => {},
        _ => {
            list.push(Primitive::Fill);
        },
    }
    match mode {
        DrawMode::Filled => {},
        _ => {
            list.push(Primitive::Edge { from: 0, to: 1 });
            list.push(Primitive::Edge { from: 1, to: 2 });
            list.push(Primitive::Edge { from: 2, to: 0 });
            list.push(Primitive::Marker { at: 0 });
            list.push(Primitive::Marker { at: 1 });
            list.push(Primitive::Marker { at: 2 });
        },
    }
    proof {
        assert(list@ =~= primitives_of(mode));
    }
    list
}

/// Every primitive names corners of the triangle only.
pub proof fn lemma_primitives_name_corners(mode: DrawMode, k: int)
    requires
        0 <= k < primitives_of(mode).len(),
    ensures
        match primitives_of(mode)[k] {
            Primitive::Fill => true,
            Primitive::Edge { from, to } => from < 3 && to < 3 && from != to,
            Primitive::Marker { at } => at < 3,
        },
{
}

} // verus!
