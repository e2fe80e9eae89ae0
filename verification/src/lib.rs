//! Code-intelligence engine: the rules by which a repository becomes a
//! resolved code graph and by which questions about that graph are answered.

pub mod analysis_laws;
pub mod alias_laws;
pub mod answer_laws;
pub mod answers;
pub mod audit;
pub mod base_laws;
pub mod changes;
pub mod cochange_laws;
pub mod config;
pub mod cypher;
pub mod cypher_laws;
pub mod cypher_query_laws;
pub mod dead_code;
pub mod digest;
pub mod explorer;
pub mod fresh_laws;
pub mod graph;
pub mod graph_laws;
pub mod history;
pub mod ignores;
pub mod index;
pub mod index_laws;
pub mod indexstore;
pub mod kind_laws;
pub mod like;
pub mod listing;
pub mod listing_laws;
pub mod llm;
pub mod measure_laws;
pub mod naming_laws;
pub mod note_laws;
pub mod order;
pub mod pairs;
pub mod parse;
pub mod parse_laws;
pub mod query;
pub mod rebuild;
pub mod rebuild_laws;
pub mod report;
pub mod review;
pub mod review_laws;
pub mod rows;
pub mod scan;
pub mod scan_laws;
pub mod search;
pub mod search_laws;
pub mod settings;
pub mod setup;
pub mod shape_laws;
pub mod snapshot;
pub mod store;
pub mod store_edges;
pub mod store_files;
pub mod store_laws;
pub mod store_lists;
pub mod store_queries;
pub mod tables;
pub mod text;
pub mod text_laws;
pub mod tools;
pub mod tools_laws;
pub mod tools_lists;
pub mod tsconfig;
pub mod types;
pub mod update;
pub mod usage;
pub mod value;
pub mod vectors;
pub mod view_laws;
pub mod viz;
pub mod words;
