//! Decision logic of a small sphere ray tracer: which vector component an
//! index names, which sphere along a ray is the nearest visible one, and which
//! color a ray resolves to.

pub mod axis;
pub mod scene;

