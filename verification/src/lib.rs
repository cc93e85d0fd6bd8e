//! Pixel-sorting image editor core: the sorting algorithms, the recent-file
//! list, the editor's load/preview bookkeeping and the render queue decisions.

pub mod pixel;
pub mod stable_sort;
pub mod asdf_sort;
pub mod portal_sort;
pub mod file_types;
pub mod config;
pub mod editor_state;
pub mod render_queue;
pub mod status;
