//! Verified core of the nail agent and its octofs filesystem tools.
pub mod batch_edit;
pub mod file_view;
pub mod filter;
pub mod hints;
pub mod history;
pub mod fs_tools;
pub mod fsm;
pub mod glob;
pub mod line_hash;
pub mod listing;
pub mod llm;
pub mod mcp;
pub mod order;
pub mod paths;
pub mod proto;
pub mod proxy_config;
pub mod search;
pub mod sessions;
pub mod store;
pub mod str_replace;
pub mod text;
pub mod text_editing;
pub mod timer;
pub mod tools;
pub mod truncation;
