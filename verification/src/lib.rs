//! Core model of an outliner notes app: the block tree and its markdown form.

pub mod block_render;
pub mod block_view;
pub mod calc;
pub mod edit;
pub mod forest;
pub mod history;
pub mod journal;
pub mod linked_refs;
pub mod outline;
pub mod outline_text;
pub mod outline_view;
pub mod page;
pub mod page_completion;
pub mod page_links;
pub mod page_picker;
pub mod registry;
pub mod shortcuts;
pub mod store;
pub mod tags;
pub mod text;
pub mod theme;
