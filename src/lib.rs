//! Turns benchmark observations (memory footprint over time, request latencies) into chart
//! scenes: a time-series data model with a shared time-range fold, a small statistics engine
//! (partition, stable sort, percentile, interquartile outlier filter), and a chart composer that
//! lays out grids and maps every series onto one plot area.

pub mod data;
pub mod graph;
pub mod partition;
pub mod text;
