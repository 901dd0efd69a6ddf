//! Metric structures written in RQQ notation, Barlow's indispensability of
//! their beats, the alignment of two structures for crossfading, and the
//! scheduler that turns them into timed note events. Times are counted in
//! millionths of a bar.

pub mod beat_origin;
pub mod indispensability;
pub mod rqq;
pub mod durations;
pub mod metre_data;
pub mod index_pairs;
pub mod interpolation;
pub mod interpolation_data;
pub mod util;
pub mod scheduler;

