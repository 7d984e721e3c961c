//! Evaluation of a race-ranking model against historical results: a
//! validator for the model's structured answers, a round-based dispatcher
//! that retries rejected requests, and a settlement engine that replays a
//! staking strategy over the accepted answers.
pub mod constants;
pub mod models;
pub mod validator;
pub mod dispatcher;
pub mod settlement;
pub mod ordering;
pub mod tracks;
