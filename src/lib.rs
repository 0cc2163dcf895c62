pub mod nuc_code;

pub use nuc_code::NucCode;
pub mod bi_dict;

pub use bi_dict::BiDict;
pub mod counter;

pub use counter::Counter;
pub mod decimal;
pub mod mutation;

pub use mutation::NucMutation;
pub mod unknowns;
pub mod mutation_store;

pub use mutation_store::{MutationCount, MutationStore, StoreError};
pub mod mutation_finder;
pub mod database;

pub use database::{Column, Database};
pub mod filters;
pub mod seq_compression;

pub use seq_compression::SeqCompressor;
pub mod transformer;

pub use transformer::SequenceRowToColumnTransformer;
pub mod query;
pub mod json;
pub mod filter_parse;
pub mod mutation_query;
pub mod config;

pub use config::{DataType, DatabaseConfig, ProgramConfig, RefGenomeConfig, SchemaConfig, SchemaConfigMetadata};
