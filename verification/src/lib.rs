//! Capture of a stream of timestamped data into a log of events, and replay of such a log.
//!
//! A capture operator turns the data and the frontier changes of a stream into events and
//! appends them to the producing end of a channel. A replay operator takes events from the
//! consuming end and gives their records and capability changes to the graph that hosts it.
//! A channel is a log in memory, read by any number of cursors, or a stream of bytes between
//! a writer and a reader.

pub mod capture;
pub mod channel;
pub mod codec;
pub mod count_map;
pub mod event;
pub mod link;
pub mod list;
pub mod reader;
pub mod replay;
pub mod wire;
pub mod writer;

pub use capture::{Capture, CaptureOperator};
pub use channel::{EventIterator, EventPusher};
pub use event::Event;
pub use link::{EventCursor, EventLink};
pub use reader::EventReader;
pub use replay::{Replay, ReplayOperator};
pub use writer::EventWriter;
