//! A README generator: assembles output documents from configured sections of
//! markdown, resolving `$name$` references to named snippets extracted from
//! source files or to glossary terms, and rewriting fenced `rust` code blocks
//! into a documentation-friendly form.
//!
//! The engine is pure: it never touches the filesystem or the network. When a
//! resource (a section file, a snippet source, an external glossary) is not
//! yet available it returns a [`Request`](cache::Request); the surrounding
//! program performs the read or fetch, records the outcome in a
//! [`Cache`](cache::Cache), and calls the engine again.

pub mod bytes;
pub mod cache;
pub mod config;
pub mod error;
pub mod glossary;
pub mod laws;
pub mod markdown;
pub mod scanner;
pub mod snippet;
pub mod term;

pub use cache::{Cache, CacheKey, Fetched, Halt, ParsedGlossary, Request};
pub use config::{Configuration, File, FileConfiguration, Generation, OutputFile};
pub use error::Error;
pub use glossary::Glossary;
pub use scanner::StrByteIterator;
pub use term::{Context, Term};
