//! How many bytes have gone through the proxy.

use vstd::prelude::*;

verus! {

/// Bytes that clients have sent, and bytes that they have received.
#[derive(Debug)]
pub struct TransferStats {
    sent: u64,
    received: u64,
}

/// The value to which a counter that stands at `count` is raised by `more`; it starts anew
/// past its greatest value.
pub open spec fn counted(count: u64, more: u64) -> int {
    (count + more) % 0x1_0000_0000_0000_0000
}

impl View for TransferStats {
    type V = (u64, u64);

    closed spec fn view(&self) -> (u64, u64) {
        (self.sent, self.received)
    }
}

impl TransferStats {
    /// The bytes sent and the bytes received.
    pub fn snapshot(&self) -> (r: (u64, u64))
        ensures
            r == self@,
    {
        (self.sent, self.received)
    }

    /// Counts bytes that a client has sent.
    pub fn record_sent(&mut self, bytes: u64)
        ensures
            final(self)@.0 == counted(old(self)@.0, bytes),
            final(self)@.1 == old(self)@.1,
    {
        self.sent = self.sent.wrapping_add(bytes);
    }

    /// Counts bytes that a client has received.
    pub fn record_received(&mut self, bytes: u64)
        ensures
            final(self)@.0 == old(self)@.0,
            final(self)@.1 == counted(old(self)@.1, bytes),
    {
        self.received = self.received.wrapping_add(bytes);
    }
}

impl Default for TransferStats {
    fn default() -> (r: Self)
        ensures
            r@ == (0u64, 0u64),
    {
        TransferStats { sent: 0, received: 0 }
    }
}

} // verus!
