use vstd::prelude::*;

verus! {

/// An immutable payload together with the timestamp (milliseconds) that its
/// publisher gave it.
#[derive(Debug)]
pub struct PubsubMessage {
    pub timestamp: u64,
    pub data: Vec<u8>,
}

impl View for PubsubMessage {
    type V = (u64, Seq<u8>);

    open spec fn view(&self) -> (u64, Seq<u8>) {
        (self.timestamp, self.data@)
    }
}

impl PubsubMessage {
    pub fn new(timestamp: u64, data: Vec<u8>) -> (r: PubsubMessage)
        ensures
            r@ == (timestamp, data@),
    {
        PubsubMessage { timestamp, data }
    }

    /// An independent copy of this message, as each subscriber receives one.
    pub fn duplicate(&self) -> (r: PubsubMessage)
        ensures
            r@ == self@,
    {
        PubsubMessage { timestamp: self.timestamp, data: self.data.clone() }
    }
}

} // verus!
