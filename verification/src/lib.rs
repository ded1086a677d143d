//! Shell-integration bookkeeping for a terminal (OSC 133 semantic marks and
//! zones), an ordered path list, and the small text rules around them.

pub mod text;
pub mod semantic_zones;
pub mod term;
pub mod osc133_scanner;
pub mod path;
pub mod path_list;
pub mod shell_integration;

pub mod frame_buffer;
pub mod ide_tools;
pub mod mention_nav;
