//! A small software rasterizer's verified core: the OBJ mesh format, the unit
//! cube mesh, the painter's ordering of triangles and the input decisions of
//! the render loop.
pub mod text;
pub mod number;
pub mod obj;
pub mod obj_laws;
pub mod cube;
pub mod painter;
pub mod input;
