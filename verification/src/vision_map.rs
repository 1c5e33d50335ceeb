//! The map of the visual relocalization: key frames with landmarks, their file
//! format, and which frames a query looks at.

pub mod io;
pub mod map;
