//! Transit stops for a geographic search index: which administrative
//! regions contain a stop, how much a stop weighs, and how the records of
//! one stop that arrive from several datasets become one.

pub mod admin;
pub mod attach;
pub mod boundary;
pub mod geometry;
pub mod import;
pub mod labels;
pub mod lexical;
pub mod merge;
pub mod search_documents;
pub mod spatial_index;
pub mod stop;
pub mod string_set;
pub mod weight;
