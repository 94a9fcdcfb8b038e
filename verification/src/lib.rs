//! Parsing of nginx-style access logs.
//!
//! A log format is described by a template string with `$field` tokens
//! (for example `$remote_addr [$time_local] "$request"`).  The template is
//! compiled into an anchored regular expression with one named capture per
//! field; applying it to a log line yields an [`Entry`], a mapping from
//! field names to string values with typed accessors.  A template can also
//! be extracted from an nginx configuration text by name.

pub mod entry;
pub mod error;
pub mod nginx;
pub mod parser;
pub mod text;

pub use entry::{Entry, Fields};
pub use error::Error;
pub use nginx::{count_braces, extract_nginx_format, remove_surrounding_quotes};
pub use parser::{Parser, StringParser};
