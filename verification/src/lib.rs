//! The core of a rover's runtime: a windowed costmap, a grid pathfinder,
//! the bounded subscriptions that connect them, and the rules by which the
//! localizer and the supervisor decide what to do next.

pub mod application;
pub mod astar;
pub mod behavior;
pub mod costmap;
pub mod frontier;
pub mod grid;
pub mod history;
pub mod localizer;
pub mod node_table;
pub mod optimal;
pub mod parameters;
pub mod pathfinder;
pub mod ring;
pub mod search;
pub mod signal;
pub mod smoothing;
pub mod sorting;
pub mod subscriber;
pub mod supervisor;
pub mod terrain;
pub mod tuple;
