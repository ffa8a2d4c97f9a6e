//! Scene documents for a 3D level editor: the object registry, the document
//! tables, saving a live scene graph and planning its reconstruction.

pub mod collider;
pub mod document;
pub mod editor;
pub mod forest;
pub mod forest_laws;
pub mod gltf;
pub mod gui;
pub mod input;
pub mod laws;
pub mod loading;
pub mod loading_laws;
pub mod loader;
pub mod objects;
pub mod picking;
pub mod pipeline;
pub mod portable;
pub mod scene;
pub mod seqs;
pub mod spawn;
pub mod subtree_laws;
pub mod table;
