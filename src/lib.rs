//! Planning, probing and reassembly for a pipeline that cuts long audio into
//! bounded segments, transcribes them concurrently and joins the texts in
//! segment order.

pub mod pipeline;
pub mod plan;
pub mod probe;
pub mod slots;
pub mod transcription;

pub use plan::total_segments;
