//! FlowSketch: approximate network telemetry with fixed memory and explicit
//! error bounds.
//!
//! Every item of this crate is verified. Models are stated over mathematical
//! integers, sequences and maps; byte and text formats are stated exactly.

#![allow(unused_imports)]

pub mod agent;
pub mod algos;
pub mod bytes;
pub mod cli;
pub mod ebpf;
pub mod error;
pub mod estimate;
pub mod event;
pub mod field;
pub mod float_bits;
pub mod format_laws;
pub mod gateway;
pub mod hash;
pub mod human;
pub mod human_laws;
pub mod ip;
pub mod ip_laws;
pub mod ir;
pub mod keymap;
pub mod memory;
pub mod mentions;
pub mod metrics;
pub mod metrics_laws;
pub mod names;
pub mod net;
pub mod order;
pub mod otel;
pub mod pcap;
pub mod planner;
pub mod planner_laws;
pub mod powers;
pub mod prometheus;
pub mod prometheus_laws;
pub mod sketch;
pub mod snapshot;
pub mod sorting;
pub mod sums;
pub mod synth;
pub mod synth_laws;
pub mod text;

