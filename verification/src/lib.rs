//! Core of yaRomChecker, a tool that verifies locally owned ROM collections
//! against DAT files: DAT parsing (Logiqx XML and ClrMamePro text), matching
//! scan entries against DAT rows, streaming hashes, scan bookkeeping, message
//! tables and the presentation rules shared by the front ends.

pub mod clrmamepro;
pub mod dat;
pub mod hash;
pub mod laws;
pub mod matching;
pub mod messages;
pub mod paths;
pub mod report;
pub mod scan;
pub mod sets;
pub mod sources;
pub mod text;
pub mod time;
pub mod view;
pub mod xml;

pub use view::{build_source_tree, dat_member_rows, set_count_text, should_show_member_pane, source_title, SourceTreeNode};
