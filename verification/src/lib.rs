//! Policy routing for segmented networks.

pub mod activation;
pub mod apply;
pub mod capabilities;
pub mod capture;
pub mod classifier;
pub mod cleanup;
pub mod config;
pub mod daemon;
pub mod detector;
pub mod display;
pub mod dns;
pub mod doctor;
pub mod effects;
pub mod egress;
pub mod env;
pub mod error;
pub mod firewall;
pub mod guarantees;
pub mod health;
pub mod lifecycle;
pub mod model;
pub mod names;
pub mod net;
pub mod netlink;
pub mod packets;
pub mod planner;
pub mod policy;
pub mod probe;
pub mod process;
pub mod reconcile;
pub mod rpc;
pub mod seqs;
pub mod state;
pub mod strict;
pub mod strings;
pub mod tables;
pub mod text;
