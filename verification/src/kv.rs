pub mod char_reader;
pub mod reader;
pub mod roundtrip;
pub mod tokenizer;
