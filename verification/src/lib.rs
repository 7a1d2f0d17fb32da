//! The rules of an e-book reader that reads aloud: extracting text from PDF and
//! EPUB files, cutting paragraphs into chunks, turning them into phonemes and
//! tokens for the speech model, timing the words, and deciding what the
//! synthesis queue and the HTTP handlers do.

pub mod archive;
pub mod config;
pub mod db;
pub mod extract;
pub mod hash;
pub mod http;
pub mod text;
pub mod tts;
