//! Norm-emergence simulation in a society of generative agents: the verified
//! core (configuration labels, norms, response parsing, prompt building,
//! canonical norm identity, world updates, metrics and convergence).
pub mod text;
pub mod config;
pub mod norm;
pub mod parse;
pub mod world;
pub mod prompts;
pub mod mechanisms;
pub mod metrics;
pub mod reproduce_mock;
pub mod simulation;
pub mod cli;
pub mod reproduce;
