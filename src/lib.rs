//! Versioned file names of the form `base.vN.YYYYMMDD[.tag].ext`: parsing,
//! rendering and advancing to the next version.

mod clock;
pub mod segments;
pub mod canonical_name;
