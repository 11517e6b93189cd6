//! Text-editing core of a terminal code editor: the line buffer with its
//! cursor, selection and clipboard, the file tree's navigation state, the
//! completion popup, and the small pure computations behind the screen.
use vstd::prelude::*;

pub mod app;
pub mod chars;
pub mod completion;
pub mod editor;
pub mod file_tree;
pub mod highlight;
pub mod laws;
pub mod lsp;
pub mod model;
pub mod paths;
pub mod render;
pub mod screen;
pub mod text;
pub mod wire;
pub mod words;

verus! {

} // verus!
