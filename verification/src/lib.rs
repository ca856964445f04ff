//! Verified core of a slideshow and animation renderer: the bookkeeping that
//! decides which elements exist on which slide, how slides and the gaps between
//! them are laid out in time, and which element of one slide morphs into which
//! element of the next.

pub mod canvas_tree;
pub mod frames;
pub mod glue;
pub mod glue_laws;
pub mod id_index;
pub mod ids;
pub mod keyframes;
pub mod kinds;
pub mod layout;
pub mod probe;
pub mod text;
pub mod timeline;
