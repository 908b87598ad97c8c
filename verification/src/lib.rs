//! Text-normalization and metadata-encoding helpers for a tool that manages
//! stacked pull requests: branch-safe slugs out of arbitrary titles, name
//! lists out of annotated free-text fields, and the codec that renders a
//! chain of pull-request numbers into a block of text and recovers it again.

pub mod codec;
pub mod command;
pub mod names;
pub mod slug;
pub mod stack;
pub mod text;

pub use codec::build_pr_stack_message;
pub use codec::parse_pr_stack_list;
pub use command::command_status_result;
pub use command::Error;
pub use names::parse_name_list;
pub use names::remove_all_parens;
pub use slug::slugify;
pub use stack::get_pr_stack;
pub use stack::needs_parent_stack;
