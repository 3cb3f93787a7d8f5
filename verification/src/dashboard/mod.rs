//! Dashboards: panels of charts over a window of time.

pub mod charts;
pub mod color;
pub mod config;
pub mod panels;
pub mod series;
pub mod tab;
