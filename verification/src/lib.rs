//! Requests written in `.http` files: parsing them, resolving their
//! variables, converting them to and from cURL and code, and the decisions
//! of the language server and editor extension that send them.
pub mod text;
pub mod strmap;
pub mod parser;
pub mod system;
pub mod json;
pub mod variables;
pub mod auth;
pub mod curl;
pub mod curl_round_trip;
pub mod codegen;
pub mod environments;
pub mod history;
pub mod security;
pub mod executor;
pub mod handler;
pub mod extension;
