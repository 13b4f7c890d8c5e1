//! Voxel circuit building blocks: binary readers for voxel files, the
//! validation of schematics and the multiplexer logic of the circuit simulation.
pub mod math;
pub mod voxel;
pub mod importer;
pub mod circuit;
pub mod schematic;
