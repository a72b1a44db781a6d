//! Exact-cover counting with dancing links: an arena of cells threaded by two
//! families of circular doubly-linked lists, the cover and uncover operations
//! on it, and the recursive search that counts exact covers.

pub mod dancing_links;
pub mod shapes;
pub mod settings;
pub mod states;
pub mod solving;
pub mod text;
