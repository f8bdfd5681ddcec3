/// Proofs about the shape of the curve the turtle draws.
pub mod geometry;
/// Hilbert curve path generation using a Lindenmayer system.
pub mod hilbert;
