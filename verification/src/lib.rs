pub mod attrs;
pub mod cache;
pub mod call_graph;
pub mod fingerprint;
pub mod functions;
pub mod kani_list;
pub mod ordering;
pub mod output;
pub mod program;
pub mod serialization;
pub mod source_code;
pub mod stat;
