pub mod cluster;
pub mod cluster_output;
pub mod combinations;
pub mod doc_reader;
pub mod validation;
