//! A line-oriented pattern searcher: the decisions of which lines of an
//! input are selected, how they are grouped with their context lines and
//! how each selected line is rendered, with the regular-expression engine
//! and the terminal colouring taken from outside crates.

pub mod error;
pub mod flag;
pub mod laws;
pub mod matcher;
pub mod print_with_context;
pub mod process;
pub mod utils;

pub use error::CliError;
pub use flag::Flags;
pub use matcher::Matcher;
pub use print_with_context::{
    colorize_matched, print_after_context, print_before_context, print_context, print_groups,
    print_line_number,
};
pub use process::{
    choose_process, count_matches, on_read_failure, print_invert_matches, print_matches, search,
    try_count_matches, ReadFailure,
};
pub use utils::{build_regex, parse_context, Colors, ContextType};
