//! A planner for ten-item trade-up contracts with exact single-precision arithmetic.
pub mod acceptance;
pub mod accuracy;
pub mod api;
pub mod arithmetic;
pub mod beam;
pub mod bignum;
pub mod blocks;
pub mod catalog;
pub mod choices;
pub mod contract;
pub mod decimal;
pub mod desktop;
pub mod domain;
pub mod errors;
pub mod float32;
pub mod float64;
pub mod goals;
pub mod holdings;
pub mod ideal;
pub mod json;
pub mod market;
pub mod numerals;
pub mod odds;
pub mod offers;
pub mod operations;
pub mod planner;
pub mod preview;
pub mod proposals;
pub mod provenance;
pub mod records;
pub mod regression;
pub mod rounding;
pub mod search;
pub mod searching;
pub mod services;
pub mod slices;
pub mod sorting;
pub mod spelling;
pub mod steps;
pub mod sync;
pub mod tally;
pub mod text;
pub mod urls;
pub mod vdf;
pub mod wear;
pub mod yields;

