//! The discrete core of a path tracer.
//!
//! A path tracer follows rays from a camera through a scene and averages what
//! they bring back. Most of that is arithmetic in single precision, and is
//! left to the caller. What is decided on the computed values is decided,
//! and proved, here:
//!
//! - [`scalar`]: single-precision values by bit pattern, and their order;
//! - [`vector`]: points, directions and rays, as triples of scalars;
//! - [`aabb`]: bounding boxes, their merging, and the test of a ray against a
//!   box;
//! - [`hit`]: hit records, the nearer of two, and the flat list of shapes;
//! - [`bvh_node`]: the bounding volume hierarchy, built and traversed;
//! - [`sphere`], [`rect`], [`box_object`], [`flip_normals`], [`triangle`],
//!   [`constant_medium`]: what each shape decides once its crossing with a ray
//!   is computed;
//! - [`material`], [`texture`], [`perlin`]: the choices of scattering, the
//!   lookup of texels, and the lattice of the noise function;
//! - [`integrator`]: how far a path is followed and what it returns;
//! - [`renderer`]: the grid of tiles and the stitching of the frame;
//! - [`scene`]: the kinds and names of a scene description, and the face
//!   entries of a mesh file;
//! - [`image`]: a frame as the text of a plain pixmap.
//!
//! Computations that the library cannot do itself (intersecting a ray with a
//! shape, shading a pixel) are handed to it as closures, and its contracts
//! say what it returns for whatever those closures give.

pub mod scalar;
pub mod vector;
pub mod aabb;
pub mod hit;
pub mod bvh_node;
pub mod sphere;
pub mod rect;
pub mod box_object;
pub mod flip_normals;
pub mod triangle;
pub mod constant_medium;
pub mod material;
pub mod texture;
pub mod perlin;
mod random;
pub mod integrator;
pub mod renderer;
pub mod scene;
pub mod image;
