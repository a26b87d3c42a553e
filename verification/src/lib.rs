//! Reading, editing and writing INI text, with verified contracts.
pub mod category;
pub mod coding;
pub mod ini;
pub mod laws;
pub mod model;
pub mod parse;
pub mod text;
pub mod variable;

pub use category::IniCategory;
pub use coding::{DebugText, IniDecoder, IniEncoder, PlainText, TrimmedText};
pub use vstd::view::View;
pub use ini::Ini;
pub use parse::check_lines_split_cleanly;
pub use variable::IniVariable;
