//! Multi-commodity flow model of passenger groups in a railway timetable.
//!
//! The timetable is a time-expanded directed graph (departure, arrival and
//! transfer nodes joined by trip, wait, board, alight and walk edges).  Travel
//! groups search routes through it, and a selection of one route per group is
//! scored by its travel cost, its delay and the overload of the trains it uses.

pub mod graph_weight;
pub mod graph;
pub mod index_set;
pub mod path;
pub mod integrity;
pub mod station;
pub mod station_layout;
pub mod trip;
pub mod footpath;
pub mod model;
pub mod search;
pub mod simple_paths;
pub mod group;
pub mod load;
pub mod optimization;
pub mod randomized_best;
pub mod randomized_hillclimb;
pub mod parse;
pub mod travel;
pub mod subgraph;
pub mod selection_check;
