//! Navigable tree view: the data structures, cursor logic, parsers and
//! line splitters behind the `treest` tree viewer.

pub mod readline;
pub mod reqres;
pub mod app;
pub mod completions;
pub mod features;
pub mod fisovec;
pub mod fs_node;
pub mod help;
pub mod input;
pub mod json;
pub mod keys;
pub mod line;
pub mod lua_tokens;
pub mod navigate;
pub mod navigate_view;
pub mod options;
pub mod node;
pub mod prompt;
pub mod scratch;
pub mod scripting;
pub mod space;
pub mod stabvec;
pub mod status;
pub mod structs;
pub mod terminal;
pub mod text;
pub mod tree;
pub mod view;
