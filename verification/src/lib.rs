//! Verified core of a motion-capture conversion pipeline.
//!
//! The library parses a line-oriented capture text format into raw integer
//! sensor samples, resolves shared timestamps, and plans the conversion of a
//! capture into a skeletal animation: sensor-to-joint coupling, the
//! substitution policy for degenerate samples, the two tree passes over the
//! skeleton, and the layout of the serialized animation buffer.  The
//! floating-point execution of that plan (attitude filtering, quaternion
//! algebra, buffer writing) is left to the surrounding application.

pub mod convert;
pub mod parsing_error;
pub mod processing;
pub mod raw;
pub mod raw_parsing;
pub mod scan;
pub mod skeleton;
pub mod writing;
