pub mod bytes;
pub mod checkpoint;
pub mod config;
pub mod floatbits;
pub mod generate;
pub mod order;
pub mod roundtrip;
pub mod sampler;
pub mod tokenizer;
