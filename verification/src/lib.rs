//! Route planning for snow clearing over a road network.
//!
//! A road network is a mixed multigraph ([`graph`], with its shape as a
//! mathematical value in [`net`] and walks over it in [`walk`]). On it the
//! crate finds cheapest walks ([`pathfind`]) and cheapest closed walks
//! through a node ([`cycle`]), makes a graph fit for closed walks over all
//! its edges by doubling edges ([`euler`]), covers the edges by closed
//! walks from given nodes ([`cover`]), builds a closed walk over a set of
//! required edges ([`pwrp`]), shares snowy segments among vehicles
//! ([`allot`], [`plow`]) and searches for better plow tours ([`anneal`]).
//! [`planner`] leads from the records of a network ([`data`]) to paths,
//! and [`snow`] merges observations of snow.
//!
//! Lengths, depths and coordinates are whole numbers of small units.
//!
//! What is taken on trust stands in [`node_index`], [`snow_index`],
//! [`queue`], [`chance`] and [`extremes`]: statements about the crates
//! `indexmap`, `priority_queue`, `rand` and `itertools`.

pub mod allot;
pub mod anneal;
pub mod chance;
pub mod cover;
pub mod cycle;
pub mod data;
pub mod edge;
pub mod euler;
pub mod extremes;
pub mod frontier;
pub mod graph;
pub mod marks;
pub mod net;
pub mod node_index;
pub mod pathfind;
pub mod planner;
pub mod plow;
pub mod pwrp;
pub mod queue;
pub mod road;
pub mod snow;
pub mod snow_index;
pub mod tour;
pub mod walk;
