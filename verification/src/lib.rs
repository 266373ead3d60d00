//! An editable polygon-mesh topology kernel: vertices, edges and faces with
//! mutually consistent adjacency lists, named by reusable typed keys that a
//! range allocator issues lowest-first.

mod key;
mod mesh;
mod rangeset;

pub use key::Key;
pub use mesh::{
    EKey, EKeyMarker, Edge, FKey, FKeyMarker, Face, FaceLen, Loop, Mesh, VKey, VKeyMarker, Vert,
};
pub use rangeset::{Range, RangeSet};
