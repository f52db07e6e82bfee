//! Fast mode: the cheap versions of the front end's label-map stages.
pub mod bands;
pub mod faces;
pub mod palette;
pub mod runs;
pub mod smooth;

