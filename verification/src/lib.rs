//! Measuring the latency tail of a service under open-loop load.

pub mod answers;
pub mod arithmetic;
pub mod arrivals;
pub mod binary64;
pub mod budget;
pub mod calendar;
pub mod call;
pub mod clock;
pub mod config;
pub mod conversion;
pub mod digest;
pub mod distributions;
pub mod downstream;
pub mod durations;
pub mod forms;
pub mod fractions;
pub mod gamma;
pub mod lateness;
pub mod load_generator;
pub mod loadgen;
pub mod loadgen_client;
pub mod means;
pub mod mix;
pub mod normal;
pub mod oracle;
pub mod order;
pub mod population;
pub mod precision;
pub mod program;
pub mod protocol;
pub mod ranks;
pub mod reading;
pub mod ready;
pub mod record;
pub mod report;
pub mod rng;
pub mod rounding;
pub mod seconds;
pub mod sort;
pub mod span;
pub mod spread;
pub mod tail;
pub mod target;
pub mod text;
pub mod timeline;
pub mod validity;
pub mod wire;
