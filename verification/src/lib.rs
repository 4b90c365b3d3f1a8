pub mod bot;
pub mod chat_data;
pub mod codec;
pub mod command;
pub mod generator;
pub mod import;
pub mod length;
pub mod markov_chain;
pub mod model;
pub mod number;
pub mod prompts;
pub mod sampling;
pub mod str_map;
pub mod text;
