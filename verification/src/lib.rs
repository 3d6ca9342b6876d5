//! Streams that arrive as DNP3 application fragments. One fragment is one
//! Stream: the link frames and transport segments that carried it are the
//! transport's, and the function code, objects and points inside are a
//! contract's.
//!
//! DNP3 is the utility SCADA protocol, IEEE 1815: an outstation in the
//! field, a master in the control centre, over TCP on port 20000 or a
//! serial line. A Receive Location listens as the outstation and hands each
//! fragment up; a Send Location connects as the master and sends one. A
//! fragment longer than a frame travels as transport segments, first to
//! last, and is reassembled here.
//!
//! What is here is the link frame with its CRCs, unconfirmed user data,
//! and the transport function. Nothing here reads or writes a connection: a
//! [`link::FrameReader`] says how many bytes it wants and is fed them, an
//! [`outstation::Reassembly`] is handed frames, and a [`Master`] gives the
//! bytes to be written. [`link::read`] and [`Outstation`] do the same over
//! bytes that are all there.
//!
//! The origin URI carries what the link knew:
//! `dnp3://peer/1024?destination=1&seq=5`.
//!
//! [`frame_laws`] and [`fragment_laws`] state what holds of all of it
//! together: what is sent comes back whole, and what is damaged, cut off or
//! out of turn is refused.

pub mod crc;
pub mod error;
pub mod fragment_laws;
pub mod frame_laws;
pub mod link;
pub mod master;
pub mod outstation;
pub mod segment;
pub mod text;
pub mod transport;

pub use error::{Error, Part};
pub use link::{Frame, MAX_SEGMENT};
pub use master::Master;
pub use outstation::{Arrived, Outstation};
pub use segment::Segment;
pub use transport::Dnp3Transport;
