//! A dataflow pipeline runtime core: packets tagged with monotonic versions
//! flow along named channels into per-channel ordered buffers, a reader
//! aligns them across a node's input channels by version, and a worker state
//! machine drives processor invocations and the graph's orderly shutdown.

pub mod btree_data_buffers;
pub mod channels;
pub mod errors;
pub mod graph;
pub mod packet;
pub mod read_channel;
pub mod single_buffers;
pub mod write_channel;
