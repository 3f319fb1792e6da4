//! Verified core of a layered (Sugiyama-style) graph layout engine.
use vstd::prelude::*;

pub mod acyclic;
pub mod assign;
pub mod cluster_closure;
pub mod cluster_order;
pub mod cluster_paths;
pub mod cluster_tree;
pub mod clusters;
pub mod component_graph;
pub mod component_order;
pub mod component_rank;
pub mod components;
pub mod config;
pub mod connectivity;
pub mod crossings;
pub mod edges;
pub mod finite_sums;
pub mod layering;
pub mod layer_order;
pub mod list_agree;
pub mod membership;
pub mod ranking;
pub mod topo;
pub mod transpose;
pub mod routing;
pub mod simplex;
pub mod rank_blocks;
pub mod refine_range;

verus! {
}
