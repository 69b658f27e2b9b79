//! The core of an analytical query engine built around a disjunctive
//! predicate optimizer: a cost-based planner that orders the evaluation of a
//! Boolean tree of atomic predicates, and a bitmap-driven executor that runs
//! the resulting plan over a candidate set of row ordinals.
//!
//! Every plan the planner emits is proved to mirror the tree's node shape,
//! to accept exactly the rows the predicate tree accepts and to hold each of
//! its atoms exactly once, so the four planning strategies are
//! interchangeable in their results; for flat nodes of atoms the emitted
//! rank order itself is part of the contract, pinning the plan. The executor
//! is proved to return exactly the selected rows while honoring the
//! short-circuit and remaining-candidate disciplines, with its counter
//! updates pinned down. The laws module states these properties in one place.

pub mod bin_utils;
pub mod bitmap;
pub mod exec;
pub mod laws;
pub mod params;
pub mod plan;
pub mod planner;
pub mod selmap;
pub mod stats;
pub mod str_util;
pub mod tree;
