pub mod catalog;
pub mod cli;
pub mod clock;
pub mod codec;
pub mod digest;
pub mod distribution;
pub mod errors;
pub mod node_type;
pub mod pipeline;
pub mod text;
pub mod uploader;
