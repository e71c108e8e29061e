//! Containers of a compressed bitmap: sets of 16-bit values kept as a sorted
//! array, a dense bitset or a list of runs, with the set algebra between every
//! pairing of the three encodings.

pub mod container;
