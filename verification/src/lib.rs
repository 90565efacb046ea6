//! Analytic quality metrics for a model of which automated tests exercise
//! which source units: coverage efficiency, defect detection capacity and
//! defect localization capacity, together with a Monte-Carlo driver that
//! samples random coverage scenarios until the observed metrics saturate.

pub mod analysis;
pub mod metrics;
pub mod ratio;
mod rng;
pub mod system;
