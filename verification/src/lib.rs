//! Shadowing-clip pipeline: turns timed transcripts into short,
//! sentence-shaped clips for repeat-after-me practice.

pub mod text;
pub mod model;
pub mod sentence;
pub mod error;
pub mod chunker;
pub mod bounds;
pub mod wordlists;
pub mod wordspan;
pub mod harvester;
pub mod transcript;
pub mod video;
pub mod cache;
pub mod settings;
pub mod tools;
pub mod prompts;
pub mod openai;
