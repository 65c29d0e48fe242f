pub mod ais_reformatter;
pub mod tcp_reassembly;
pub mod upload_engine;
