//! Orchestration core for running simulator test and benchmark binaries:
//! metric extraction from run output, test naming, artifact filtering,
//! ordered collection of run outcomes and report generation.
pub mod metrics;
pub mod report;
pub mod runs;
pub mod text;
