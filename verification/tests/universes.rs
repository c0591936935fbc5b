use dmx_patch::artnet::fixture::channel::{Channel, SimpleAction};
use dmx_patch::artnet::fixture::{Device, Fixture};
use dmx_patch::artnet::universe::{UniverseChannels, UniverseDevices, UniverseId, Universes};
use dmx_patch::common_data::{CommonData, UniverseMasteredChannel};
use dmx_patch::u9::U9;
use std::sync::Arc;

fn universe(number: u16) -> UniverseId {
    UniverseId::try_from(number).expect("in range")
}

fn device(start: u16, channels: usize) -> Device {
    let list: Vec<Channel> = (0..channels).map(|_| Channel::new_simple(SimpleAction::NoOp)).collect();
    let fixture = Fixture::new(Arc::from("VRSL"), Arc::from("m"), Arc::from("t"), Arc::from(list));
    Device::new_u16(Arc::from("d"), start, Arc::new(fixture)).expect("fits")
}

#[test]
fn asking_for_universe_100_grows_the_list_to_101() {
    let mut universes: Universes<u32> = Universes::default();
    assert!(universes.is_empty());
    assert_eq!(universes.len(), 0);
    let slot = universes.create_or_get_universe(universe(100));
    assert_eq!(*slot, 0);
    assert_eq!(universes.len(), 101);
    assert!(!universes.is_empty());
    assert!(universes.iter().all(|value| *value == 0));
}

#[test]
fn other_universes_keep_their_values_when_one_is_changed() {
    let mut universes: Universes<u32> = Universes::default();
    *universes.create_or_get_universe(universe(100)) = 7;
    assert_eq!(*universes.create_or_get_universe(universe(50)), 0);
    assert_eq!(universes.len(), 101);
    *universes.create_or_get_universe(universe(50)) = 9;
    let values: Vec<u32> = universes.iter().copied().collect();
    for (number, value) in values.iter().enumerate() {
        let expected = match number {
            50 => 9,
            100 => 7,
            _ => 0,
        };
        assert_eq!(*value, expected);
    }
}

#[test]
fn the_list_never_gets_shorter() {
    let mut universes: Universes<u8> = Universes::default();
    *universes.create_or_get_universe(universe(3)) = 1;
    assert_eq!(universes.len(), 4);
    *universes.create_or_get_universe(universe(0)) = 2;
    assert_eq!(universes.len(), 4);
    *universes.create_or_get_universe(universe(4)) = 3;
    assert_eq!(universes.len(), 5);
    assert_eq!(universes.iter().copied().collect::<Vec<u8>>(), vec![2, 0, 0, 1, 3]);
}

#[test]
fn the_highest_universe_can_be_reached() {
    let mut universes: Universes<u8> = Universes::default();
    *universes.create_or_get_universe(universe(32767)) = 5;
    assert_eq!(universes.len(), 32768);
    assert_eq!(universes.get_mut(32767).copied(), Some(5));
    assert_eq!(universes.get_mut(32768), None);
}

#[test]
fn get_mut_reaches_only_what_is_there() {
    let mut universes: Universes<u32> = Universes::default();
    assert!(universes.get_mut(0).is_none());
    universes.create_or_get_universe(universe(2));
    *universes.get_mut(1).expect("there") = 11;
    assert!(universes.get_mut(3).is_none());
    assert_eq!(universes.len(), 3);
    assert_eq!(universes.iter().copied().collect::<Vec<u32>>(), vec![0, 11, 0]);
}

#[test]
fn a_new_universe_of_devices_is_empty() {
    let mut universes: Universes<UniverseDevices> = Universes::default();
    let devices = universes.create_or_get_universe(universe(1));
    assert!(devices.is_empty());
    assert_eq!(devices.try_insert(device(0, 10)), Ok(()));
    assert_eq!(universes.len(), 2);
    let sizes: Vec<usize> = universes.iter().map(|devices| devices.len()).collect();
    assert_eq!(sizes, vec![0, 1]);
    assert_eq!(universes.create_or_get_universe(universe(1)).len(), 1);
    let removed = universes.get_mut(1).expect("there").remove(0);
    assert_eq!(removed.end_channel().get(), 10);
}

#[test]
fn a_channel_table_has_a_value_for_every_channel() {
    let mut table: UniverseChannels<Option<u8>> = UniverseChannels::default();
    for number in 0u16..=511 {
        assert_eq!(*table.get(U9::try_from(number).unwrap()), None);
    }
    for number in 0u16..=511 {
        *table.get_mut(U9::try_from(number).unwrap()) = Some((number % 256) as u8);
    }
    for number in 0u16..=511 {
        assert_eq!(*table.get(U9::try_from(number).unwrap()), Some((number % 256) as u8));
    }
}

#[test]
fn changing_one_channel_leaves_the_others() {
    let mut table: UniverseChannels<u16> = UniverseChannels::default();
    *table.get_mut(U9::try_from(32u16).unwrap()) = 1;
    *table.get_mut(U9::try_from(511u16).unwrap()) = 2;
    for number in 0u16..=511 {
        let expected = match number {
            32 => 1,
            511 => 2,
            _ => 0,
        };
        assert_eq!(*table.get(U9::try_from(number).unwrap()), expected);
    }
}

#[test]
fn masters_start_fully_open() {
    let mastered: UniverseMasteredChannel<Option<u8>> = UniverseMasteredChannel::default();
    assert_eq!(mastered.multiplier, 255);
    assert_eq!(*mastered.channels.get(U9::from(0u8)), None);
    let data = CommonData::default();
    assert_eq!(data.global_multiplier, 255);
    assert!(data.devices.is_empty());
    assert!(data.overrides.is_empty());
    assert_eq!(data, data.clone());
}

#[test]
fn overrides_are_kept_per_universe() {
    let mut data = CommonData::default();
    let table = data.overrides.create_or_get_universe(universe(2));
    table.multiplier = 128;
    *table.channels.get_mut(U9::from(9u8)) = Some(200);
    assert_eq!(data.overrides.len(), 3);
    let first = data.overrides.get_mut(0).expect("there");
    assert_eq!(first.multiplier, 255);
    assert_eq!(*first.channels.get(U9::from(9u8)), None);
    let third = data.overrides.get_mut(2).expect("there");
    assert_eq!(third.multiplier, 128);
    assert_eq!(*third.channels.get(U9::from(9u8)), Some(200));
}
