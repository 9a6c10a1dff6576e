pub mod text;
pub mod tokenizer;
pub mod index;
pub mod bm25;
pub mod walker;
pub mod storage;
pub mod app;
