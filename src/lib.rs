pub mod words;
pub mod text;
pub mod store;
pub mod align;
pub mod logmap;
pub mod clog;
pub mod positional;
pub mod laws;
