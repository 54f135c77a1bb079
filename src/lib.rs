//! Planar inverse kinematics by cyclic coordinate descent over a chain of
//! rigid segments, with every scalar held as its binary32 bit pattern.
pub mod arm;
pub mod ccd;
pub mod ieee;
