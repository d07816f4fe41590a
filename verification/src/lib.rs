//! Certified world models for hidden-rule environments.

pub mod grid;
pub mod text;
pub mod timeline;
pub mod model;
pub mod program;
pub mod protocol;
pub mod session;
pub mod demo_provider;
pub mod gateway;
pub mod envs;
pub mod deliberators;
pub mod backtest;
pub mod planner;
pub mod executor;
pub mod agent;

pub use agent::{Deliberation, Deliberator, EpisodeLog, SchemaAgent};
pub use backtest::{run_backtest, BacktestReport, Mismatch, MismatchKind};
pub use executor::{commit_actions, Environment, ExecutionReport, Observation};
pub use model::{Prediction, WorldModel};
pub use planner::{run_bfs, BfsReport, GoalVia};
pub use program::{CellWrite, Effect, Rule, RuleProgram};
pub use protocol::{DeliberationRequest, DeliberationResponse};
pub use session::Session;
pub use timeline::{Grid, Timeline, Transition};
