//! The configuration that is edited and applied as a whole: the devices of
//! every universe and the values that override their channels.

use crate::artnet::universe::UniverseChannels;
use crate::artnet::universe::UniverseDevices;
use crate::artnet::universe::Universes;
use vstd::prelude::*;

verus! {

/// The channels of one universe with the master that scales them all.
#[derive(Debug, Clone, PartialEq, Eq, PartialOrd, Ord)]
#[non_exhaustive]
pub struct UniverseMasteredChannel<T> {
    pub multiplier: u8,
    pub channels: UniverseChannels<T>,
}

impl<T: Default> Default for UniverseMasteredChannel<T> {
    /// The master fully open, and the default value on every channel.
    fn default() -> (r: Self)
        ensures
            r.multiplier == u8::MAX,
            r.channels@.len() == 512,
            forall|channel: int|
                0 <= channel < 512 ==> call_ensures(T::default, (), #[trigger] r.channels@[channel]),
    {
        UniverseMasteredChannel { multiplier: u8::MAX, channels: UniverseChannels::default() }
    }
}

/// Everything that the output stage needs to know.
#[derive(Debug, Clone, PartialEq, Eq, PartialOrd, Ord)]
#[non_exhaustive]
pub struct CommonData {
    pub devices: Universes<UniverseDevices>,
    /// Per universe, the value that replaces a channel's own where there is
    /// one.
    pub overrides: Universes<UniverseMasteredChannel<Option<u8>>>,
    pub global_multiplier: u8,
}

impl Default for CommonData {
    /// No universe in use, and the global master fully open.
    fn default() -> (r: Self)
        ensures
            r.devices@.len() == 0,
            r.overrides@.len() == 0,
            r.global_multiplier == u8::MAX,
    {
        CommonData {
            devices: Universes::default(),
            overrides: Universes::default(),
            global_multiplier: u8::MAX,
        }
    }
}

} // verus!
