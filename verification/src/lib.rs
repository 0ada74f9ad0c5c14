//! Process unique identifiers, and the branded vectors and generational
//! arenas built atop them.

pub mod ident;
pub mod pui_vec;
pub mod version;
pub mod arena;
pub mod cell;
