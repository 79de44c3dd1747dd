//! Routing, arbitrage scanning, quoting and bundle assembly over a graph of
//! asset-exchange pools.
//!
//! All quantities are fixed-point integers: conversion rates, liquidity and
//! fees are expressed in parts per million, amounts in units of 1e-7 of an
//! asset, and slippage in basis points.

pub mod address;
pub mod arbitrage;
pub mod bundle;
pub mod digest;
pub mod errors;
pub mod graph;
pub mod path;
pub mod mev;
pub mod quote;
pub mod rate;
pub mod yields;

pub use rate::apply_rate;
