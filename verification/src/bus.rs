//! Messages exchanged with the channel adapters.

use vstd::prelude::*;

verus! {

/// A message arriving from a channel.
pub struct InboundMessage {
    pub channel: String,
    pub chat_id: String,
    pub sender_id: String,
    pub content: String,
}

/// A reply headed back to a channel.
pub struct OutboundMessage {
    pub channel: String,
    pub chat_id: String,
    pub content: String,
}

/// The session key scoping history and memory: `channel:chat_id`.
pub fn session_key(channel: &str, chat_id: &str) -> (r: String)
    ensures
        r@ == channel@ + ":"@ + chat_id@,
{
    let mut r = channel.to_owned();
    r.append(":");
    r.append(chat_id);
    r
}

} // verus!
