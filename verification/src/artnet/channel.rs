//! The address of one channel in the whole network.

use crate::artnet::fixture::ChannelError;
use crate::artnet::universe::UniverseId;
use crate::u9::U9;
use vstd::prelude::*;

verus! {

/// A channel of a universe: both numbers are in range because their types
/// admit no others.
#[derive(Debug, Copy, Clone, PartialEq, Eq, PartialOrd, Ord, Hash)]
pub struct ChannelId {
    pub universe: UniverseId,
    pub channel: U9,
}

impl ChannelId {
    /// The address of channel `channel` of a universe.
    ///
    /// Succeeds exactly where `channel` is one of `0 ..= 511`; a larger
    /// number comes back in the error.
    pub fn new(universe: UniverseId, channel: u16) -> (r: Result<Self, ChannelError>)
        ensures
            channel <= U9::MAX ==> r is Ok && r->Ok_0.universe == universe && r->Ok_0.channel@
                == channel,
            channel > U9::MAX ==> r == Err::<ChannelId, ChannelError>(
                ChannelError::ChannelIdTooHigh(channel),
            ),
    {
        match U9::try_from(channel) {
            Ok(channel) => Ok(Self { universe, channel }),
            Err(_) => Err(ChannelError::ChannelIdTooHigh(channel)),
        }
    }
}

} // verus!
