pub mod anonymizer;
pub mod maps;
pub mod parser;
pub mod text;
pub mod transcode;
pub mod value;
