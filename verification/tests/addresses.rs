use dmx_patch::artnet::channel::ChannelId;
use dmx_patch::artnet::fixture::ChannelError;
use dmx_patch::artnet::universe::{UniverseError, UniverseId};
use dmx_patch::u9::{ConvertError, U9};

#[test]
fn channel_numbers_up_to_511_are_accepted() {
    for value in 0u16..=511 {
        let channel = U9::try_from(value).expect("in range");
        assert_eq!(channel.get(), value);
    }
}

#[test]
fn channel_numbers_above_511_are_refused() {
    for value in 512u16..=u16::MAX {
        assert_eq!(U9::try_from(value), Err(ConvertError::NumberTooBig(value)));
    }
}

#[test]
fn every_byte_is_a_channel_number() {
    for value in 0u8..=u8::MAX {
        assert_eq!(U9::from(value).get(), u16::from(value));
    }
}

#[test]
fn channel_numbers_are_ordered_by_value() {
    let low = U9::try_from(3u16).unwrap();
    let high = U9::try_from(400u16).unwrap();
    assert!(low < high);
    assert!(high > low);
    assert_eq!(low, U9::from(3u8));
    assert_eq!(low.max(high), high);
}

#[test]
fn universe_numbers_up_to_32767_are_accepted() {
    for value in 0u16..=32767 {
        assert_eq!(UniverseId::try_from(value).expect("in range").get(), value);
    }
}

#[test]
fn universe_numbers_above_32767_are_refused() {
    for value in 32768u16..=u16::MAX {
        assert_eq!(UniverseId::try_from(value), Err(UniverseError::UniverseIdTooHigh(value)));
    }
}

#[test]
fn universe_numbers_are_ordered_by_value() {
    let low = UniverseId::try_from(0u16).unwrap();
    let high = UniverseId::try_from(32767u16).unwrap();
    assert!(low < high);
    assert_eq!(high.get(), UniverseId::MAX);
}

#[test]
fn a_channel_address_holds_both_numbers() {
    let address = ChannelId {
        universe: UniverseId::try_from(7u16).unwrap(),
        channel: U9::try_from(511u16).unwrap(),
    };
    assert_eq!(address.universe.get(), 7);
    assert_eq!(address.channel.get(), 511);
    assert_eq!(address, address.clone());
}

#[test]
fn the_default_channel_is_channel_0() {
    assert_eq!(U9::default().get(), 0);
}

#[test]
fn a_channel_address_takes_channels_up_to_511() {
    let universe = UniverseId::try_from(32767u16).unwrap();
    for channel in 0u16..=511 {
        let address = ChannelId::new(universe, channel).expect("in range");
        assert_eq!(address.universe, universe);
        assert_eq!(address.channel.get(), channel);
    }
}

#[test]
fn a_channel_address_refuses_channels_above_511() {
    let universe = UniverseId::try_from(0u16).unwrap();
    assert_eq!(ChannelId::new(universe, 512), Err(ChannelError::ChannelIdTooHigh(512)));
    assert_eq!(ChannelId::new(universe, u16::MAX), Err(ChannelError::ChannelIdTooHigh(u16::MAX)));
}
