//! The grammar rules, each a small state machine.

pub mod character_escape;
pub mod partial_data;
pub mod partial_label;
pub mod partial_space_or_tab;
