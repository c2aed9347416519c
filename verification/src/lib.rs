#![verifier::loop_isolation(false)]
//! Rewrites sliced G-code so that Klipper can cancel the printing of a
//! single object: the library detects which slicer produced a file,
//! discovers the objects it prints, collects the points each object
//! extrudes, and re-emits the file with `EXCLUDE_OBJECT` annotations.

use vstd::prelude::*;

pub mod gcode;
pub mod hulls;
pub mod layers;
pub mod preprocess;
pub mod slicers;
pub mod text;

verus! {

} // verus!
