//! Rendering kernel of a ray tracer: the parts of it that are exact.
//!
//! The library holds the matrix layout (bounds-checked access, transposition,
//! submatrices, cofactor signs), the hit selection over intersections ordered
//! by key, the canvas grid and the plain-text PPM layout.
pub mod canvas;
pub mod intersections;
pub mod matrix;
pub mod shape;

pub use canvas::{Canvas, CanvasError, MAX_COLOR_VALUE, MAX_LINE_LENGTH, PPM, ppm_body, ppm_from_samples, ppm_header};
pub use intersections::{Intersection, Intersections, order_key};
pub use matrix::{MatrixError, SquareMatrix, check_bounds, cofactor_sign};
pub use shape::ShapeType;
