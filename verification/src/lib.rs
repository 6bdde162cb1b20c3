//! Codec and geodesic core for amateur-radio contact logs.
//!
//! The crate parses and emits the length-prefixed `<NAME:LENGTH>VALUE` tag
//! format used by `.adi` log files, assembles tagged fields into records,
//! validates and re-exports records, and decodes hierarchical alphanumeric
//! grid locators into exact fixed-point coordinates.  Spherical trigonometry
//! (distance and bearing) is left to callers, since it is inherently
//! floating-point; the decoder hands out exact rational coordinates instead.

pub mod adif;
pub mod awards;
pub mod grid;
pub mod record;
pub mod roundtrip;
pub mod spots;
pub mod text;
