//! The transport as it is configured: where it listens or connects, and as
//! whom.

use std::time::Duration;

use vstd::prelude::*;

use crate::error::Error;
use crate::master;
use crate::master::Master;

verus! {

/// A DNP3 transport, listening as the outstation or connecting as the master.
pub struct Dnp3Transport {
    bind: String,
    source: u16,
    destination: u16,
    timeout: Option<Duration>,
}

impl Dnp3Transport {
    /// Where it listens or connects.
    pub closed spec fn at(&self) -> String {
        self.bind
    }

    /// Its own link address.
    pub closed spec fn source(&self) -> u16 {
        self.source
    }

    /// The link address it speaks to.
    pub closed spec fn destination(&self) -> u16 {
        self.destination
    }

    /// How long it waits for a peer that stops mid-frame, if not for ever.
    pub closed spec fn patience(&self) -> Option<Duration> {
        self.timeout
    }

    /// Listen or connect at `bind`, `0.0.0.0:20000` being the standard
    /// port, as link address `source` speaking to `destination`.
    #[must_use]
    pub fn new<B: Into<String>>(bind: B, source: u16, destination: u16) -> (r: Dnp3Transport)
        ensures
            call_ensures(<B as Into<String>>::into, (bind,), r.at()),
            r.source() == source,
            r.destination() == destination,
            r.patience() is None,
    {
        Dnp3Transport { bind: bind.into(), source, destination, timeout: None }
    }

    /// Give up on a peer that stops mid-frame.
    #[must_use]
    pub fn timing_out_after(self, timeout: Duration) -> (r: Dnp3Transport)
        ensures
            r.at() == self.at(),
            r.source() == self.source(),
            r.destination() == self.destination(),
            r.patience() == Some(timeout),
    {
        let mut transport = self;
        transport.timeout = Some(timeout);
        transport
    }

    /// What the transport is called.
    #[must_use]
    pub fn name(&self) -> (r: &'static str)
        ensures
            r@ == "dnp3"@,
    {
        "dnp3"
    }

    /// Where it listens or connects.
    #[must_use]
    pub fn bind_address(&self) -> (r: &str)
        ensures
            r@ == self.at()@,
    {
        self.bind.as_str()
    }

    /// How long it waits for a peer that stops mid-frame, if not for ever.
    #[must_use]
    pub fn timeout(&self) -> (r: Option<Duration>)
        ensures
            r == self.patience(),
    {
        self.timeout
    }

    /// The master's side of a connection that has just been made.
    #[must_use]
    pub fn master(&self) -> (r: Master)
        ensures
            r.source() == self.source(),
            r.destination() == self.destination(),
            r.sequence() == 0,
    {
        Master::new(self.source, self.destination)
    }

    /// Send `bytes` as one fragment over a connection that has just been made:
    /// the bytes of each frame, to be written in this order.
    ///
    /// # Errors
    /// None: every segment fits a frame.
    pub fn send(&self, bytes: &[u8]) -> (r: Result<Vec<Vec<u8>>, Error>)
        ensures
            r matches Ok(frames) && frames@.map_values(|f: Vec<u8>| f@) == master::frames_of(
                self.source(),
                self.destination(),
                0,
                bytes@,
            ),
    {
        let mut master = self.master();
        master.send_fragment(bytes)
    }
}

} // verus!
