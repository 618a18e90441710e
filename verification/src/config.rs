//! Settings of an endpoint and guarantees of a message.

use vstd::prelude::*;

verus! {

/// The sizes that an endpoint works with.
#[derive(Clone, Copy, Debug)]
pub struct EndpointConfig {
    /// The longest payload that the endpoint always has room for.
    pub max_msg_size: usize,
    /// How much larger the buffer is than one message of that length.
    pub buffer_grow_space: usize,
    /// How far the set of a message may be from the last set yielded.
    pub window_size: u32,
}

impl Default for EndpointConfig {
    fn default() -> (r: EndpointConfig)
        ensures
            r.max_msg_size == 2048,
            r.buffer_grow_space == 1024,
            r.window_size == 64,
    {
        EndpointConfig { max_msg_size: 2048, buffer_grow_space: 1024, window_size: 64 }
    }
}

/// What the sender of a message asks for.
#[derive(Clone, Copy, Debug, PartialEq, Eq, Structural)]
pub enum Guarantee {
    /// Neither order nor delivery: the message takes no sequence number.
    Nothing,
    /// The message is not handed out before the sets that it waits for.
    Order,
    /// As `Order`, and the message is kept for resending until it is
    /// acknowledged.
    Delivery,
}

} // verus!
