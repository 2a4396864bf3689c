//! Force-directed layout of a knowledge graph: a graph model, connected-component
//! labelling, a spatial grid, a seeded initial layout and an integer force
//! simulation, together with the link extraction that builds the graph from notes.
pub mod graph;
pub mod cluster;
pub mod geom;
pub mod grid;
pub mod forces;
pub mod sim;
pub mod seed;
pub mod notes;
pub mod layout;
pub mod kb;
pub mod links;
pub mod weblinks;
pub mod laws;
