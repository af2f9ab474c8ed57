//! Verified core of gdcli: symbol paths, LSP framing, the gdapi HTTP layer,
//! JSON-driven output formatting and the decisions of the command line tool.

pub mod text;
pub mod symbol_path;
pub mod frame;
pub mod http;
pub mod json;
pub mod clap_style;
pub mod normalize;
pub mod format;
pub mod exec;
pub mod install;
pub mod target;
pub mod queue;
pub mod server;
pub mod types;
pub mod similar;
pub mod resolve;
pub mod rpc;
pub mod lsp_output;
pub mod meta;
pub mod project;
pub mod lsp_params;
