//! Conversion of engine scene graphs into portable, hierarchical scene documents.
//!
//! A scene graph arrives as a flat table of nodes that name their parents by
//! identifier. The library rebuilds the tree, gathers the referenced assets and
//! writes the result as text. Every executable function carries a contract that
//! Verus proves.
//!
//! - [`scalar`] and [`transform`]: single-precision numbers held by their bit
//!   pattern, and the position, rotation and scale of a node.
//! - [`scene`]: the scene graph as it is handed over, and its traversal.
//! - [`hierarchy`] and [`forest`]: rebuilding the tree, and the proof that it
//!   has one record for each node.
//! - [`assets`]: the sorted asset list.
//! - [`record`] and [`document`]: the document that is built.
//! - [`serialize`] and [`readback`]: the text of a document, and the proof that
//!   the text fixes the document.
//! - [`driver`]: one file's conversion, and the account of a run.

pub mod assets;
pub mod document;
pub mod driver;
pub mod forest;
pub mod hierarchy;
pub mod readback;
pub mod record;
pub mod scalar;
pub mod scene;
pub mod serialize;
pub mod transform;
