// Border field computation and junction extraction on a raster of labelled
// seed points: `house` holds the seeds and distance arithmetic, `nearest` the
// set of seeds that contend for nearest at a cell, `field` the pass over the
// grid and its store of contending pairs, `vertices` the walk that finds the
// junctions of the border.
pub mod house;
pub mod nearest;
pub mod field;
pub mod vertices;
