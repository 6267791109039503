//! A CSV toolkit: byte records, a streaming core parser, a record reader,
//! a record writer and a header-driven row decoder, each with a contract.

pub mod byte_record;
pub mod core_reader;
pub mod deserializer;
pub mod error;
pub mod grammar;
pub mod reader;
pub mod report;
pub mod writer;
pub mod round_trip;
pub mod etna;
