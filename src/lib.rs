//! Counting the occurrences of one byte value in a buffer, by a plain
//! byte-by-byte scan and by a sixteen-lane compare-and-movemask scan,
//! with the proof that the two always agree.

pub mod lanes;
pub mod scalar;
pub mod vector;
