//! Navigation and value-rendering core of an explorer for a hierarchical
//! key-value namespace: slash-separated paths, escaped byte literals, the
//! self-describing tuple encoding of typed values, byte-range construction
//! for prefix scans, and the decision logic of the interactive shell.
mod text;

pub mod byte_literal;
pub mod complete;
pub mod element;
pub mod listing;
pub mod path_model;
pub mod range_scan;
pub mod repl_engine;
pub mod render;

pub use path_model::display_path;
pub use path_model::parse_path;
pub use path_model::resolve_path;
pub use element::decode_element;
pub use element::DecodeError;
pub use element::Element;
pub use render::format_element;
pub use listing::format_key;
pub use listing::format_value;
pub use listing::format_row;
pub use listing::render_scan_rows;
pub use listing::render_ls_keys;
pub use complete::command_candidates;
pub use complete::completion_query;
pub use complete::path_candidates;
pub use complete::CompletionQuery;
pub use repl_engine::parse_command;
pub use repl_engine::parse_usize;
pub use repl_engine::Command;
pub use repl_engine::ReplState;
pub use range_scan::strinc;
pub use range_scan::RangeSpec;
pub use byte_literal::format_bytes;
pub use byte_literal::hex_val;
pub use byte_literal::try_utf8_or_bytes;
pub use byte_literal::parse_bytes_literal;
pub use byte_literal::MalformedEscape;
