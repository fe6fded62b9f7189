//! A simulator for logic circuits drawn as images.
//!
//! Contiguous regions of registered colours are wires, gates and terminals. The library
//! extracts the nodes of a circuit from the pixels of an image, finds out which of them
//! touch, advances the circuit in discrete ticks and paints each state into a frame.
//!
//! - `palette`: the kinds of nodes and their colours.
//! - `raster`: images, as far as the library reads and writes them.
//! - `grid`: the label grid, which says for each pixel which node owns it.
//! - `node`: nodes, and how a node reacts to one neighbour.
//! - `order`: the order in which a region lists its pixels.
//! - `extract`: from an image to its regions.
//! - `partition`: every pixel has one place, and an image has one division only.
//! - `adjacency`: from regions to a circuit.
//! - `simulate`: ticks, and whole runs.
//! - `render`: frames.
pub mod adjacency;
pub mod extract;
pub mod grid;
pub mod node;
pub mod order;
pub mod palette;
pub mod partition;
pub mod raster;
pub mod render;
pub mod simulate;
