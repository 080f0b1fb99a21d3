//! Reachability metrics of undirected weighted graphs.
//!
//! For every node of a graph the library reports how far a first-in,
//! first-out traversal from that node gets, and how many other nodes it
//! reaches. `graph` holds the graph, `walk` says what the traversal is,
//! `traverse` runs it, `report` sums it up, and `input`, with `token`, reads a
//! graph from the lines of a description. The other modules hold what is
//! proved of the traversal: that it ends (`energy`), which nodes it reaches
//! (`reach`), that its costs stay clear of the mark of an unreached node
//! (`limits`), and a bound on the weights under which they fit (`bound`).

pub mod bound;
pub mod energy;
pub mod graph;
pub mod input;
pub mod limits;
pub mod reach;
pub mod report;
pub mod token;
pub mod traverse;
pub mod walk;

pub use graph::Graph;
pub use input::{read, split2, split3, InputError};
pub use report::{flow, summarize, try_flow};
pub use traverse::{bfs, dijkstra, hit, try_dijkstra, UNREACHED};
