//! The decisions of a small flat-shaded 3D pipeline, verified.
//!
//! A frame is drawn from a triangle mesh in four steps: the mesh is turned,
//! shifted and projected; faces that look away from the camera are culled;
//! the others get a shade from the light that falls on them; and what is left
//! is drawn from far to near. The arithmetic of the first step is floating
//! point and is not part of this library. The library holds what is decided:
//!
//! - [`mesh`] loads a mesh from the text of a mesh file, with [`text`] for
//!   lines and words and [`number`] for the numbers in them;
//! - [`single`] reads the sign and the order of single-precision numbers from
//!   their bit patterns;
//! - [`frame`] culls, shades and orders the triangles of one frame, with
//!   [`painter`] for the order from far to near;
//! - [`draw`] says which primitives make up one drawn triangle.
pub mod draw;
pub mod frame;
pub mod mesh;
pub mod number;
pub mod painter;
pub mod single;
pub mod text;
