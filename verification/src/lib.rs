pub mod agent;
pub mod auth;
pub mod config;
pub mod exposition;
pub mod float;
pub mod hash;
pub mod label_map;
pub mod laws;
pub mod model;
pub mod parser;
pub mod pattern;
pub mod pgo;
pub mod relabel;
pub mod remote_write;
pub mod scrape;
pub mod sd;
pub mod sd_k8s;
pub mod seqs;
pub mod telemetry;
pub mod text;
pub mod time;
pub mod web;
pub mod wire;
