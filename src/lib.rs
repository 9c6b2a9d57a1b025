//! A small relational database engine: a SQL front end (tokenizer, parser and
//! validation) and a storage engine that keeps each table in a file of
//! fixed-size pages organised as a B+ tree keyed by the primary key.

pub mod text;
pub mod tokenizer;
pub mod errors;
pub mod components;
pub mod expects;
pub mod semantic;
pub mod statements;
pub mod encoding;
pub mod paging;
pub mod system;
pub mod btree;
pub mod functions;
pub mod executor;
pub mod config;
pub mod index;
pub mod hamming;
