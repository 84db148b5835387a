//! Verified core of a command-history client: text layout, record
//! de-duplication, request planning and shell integration.

pub mod text;
pub mod add;
pub mod config;
pub mod history;
pub mod client;
pub mod search;
pub mod setup;
