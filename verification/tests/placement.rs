use dmx_patch::artnet::fixture::channel::{Channel, SimpleAction};
use dmx_patch::artnet::fixture::{Device, Fixture};
use dmx_patch::artnet::universe::{InsertError, UniverseDevices};
use dmx_patch::u9::U9;
use std::sync::Arc;

fn fixture(channels: usize) -> Arc<Fixture> {
    let list: Vec<Channel> = (0..channels).map(|_| Channel::new_simple(SimpleAction::NoOp)).collect();
    Arc::new(Fixture::new(
        Arc::from("VRSL"),
        Arc::from("Test Light"),
        Arc::from("Color Changer"),
        Arc::from(list),
    ))
}

fn device(start: u16, end: u16) -> Device {
    Device::new_u16(Arc::from("device"), start, fixture(usize::from(end - start))).expect("fits")
}

fn spans(universe: &UniverseDevices) -> Vec<(u16, u16)> {
    universe.iter().map(|d| (d.start_channel().get(), d.end_channel().get())).collect()
}

#[test]
fn a_device_ends_where_its_channels_end() {
    let placed = Device::new_u16(Arc::from("front"), 20, fixture(13)).unwrap();
    assert_eq!(placed.start_channel().get(), 20);
    assert_eq!(placed.end_channel().get(), 33);
    assert_eq!(&**placed.name(), "front");
    assert_eq!(placed.fixture().get_channels().len(), 13);
    let same = Device::new(Arc::from("front"), U9::try_from(20u16).unwrap(), fixture(13)).unwrap();
    assert_eq!(placed, same);
    assert_eq!(placed.clone(), placed);
}

#[test]
fn a_start_above_511_is_refused() {
    assert_eq!(
        Device::new_u16(Arc::from("d"), 512, fixture(1)),
        Err(InsertError::StartIdTooBig(512))
    );
    assert_eq!(
        Device::new_u16(Arc::from("d"), u16::MAX, fixture(0)),
        Err(InsertError::StartIdTooBig(u16::MAX))
    );
}

#[test]
fn an_end_above_511_is_refused() {
    assert_eq!(
        Device::new_u16(Arc::from("d"), 500, fixture(12)),
        Err(InsertError::EndIdTooBig(512))
    );
    assert_eq!(
        Device::new(Arc::from("d"), U9::try_from(511u16).unwrap(), fixture(1)),
        Err(InsertError::EndIdTooBig(512))
    );
    assert_eq!(Device::new_u16(Arc::from("d"), 0, fixture(600)), Err(InsertError::EndIdTooBig(600)));
}

#[test]
fn a_device_may_end_on_channel_511() {
    let last = Device::new_u16(Arc::from("d"), 500, fixture(11)).unwrap();
    assert_eq!(last.end_channel().get(), 511);
    let empty = Device::new_u16(Arc::from("d"), 511, fixture(0)).unwrap();
    assert_eq!((empty.start_channel().get(), empty.end_channel().get()), (511, 511));
}

#[test]
fn the_highest_start_leaves_room_for_the_fixture() {
    assert_eq!(fixture(13).max_start_channel().get(), 498);
    assert_eq!(fixture(0).max_start_channel().get(), 511);
    assert_eq!(fixture(511).max_start_channel().get(), 0);
    assert_eq!(fixture(600).max_start_channel().get(), 0);
    let thirteen = fixture(13);
    let top = thirteen.max_start_channel();
    assert!(Device::new(Arc::from("d"), top, thirteen.clone()).is_ok());
    assert!(Device::new_u16(Arc::from("d"), top.get() + 1, thirteen).is_err());
}

#[test]
fn devices_side_by_side_are_both_placed() {
    let mut universe = UniverseDevices::default();
    assert_eq!(universe.try_insert(device(10, 20)), Ok(()));
    assert_eq!(universe.try_insert(device(0, 10)), Ok(()));
    assert_eq!(spans(&universe), vec![(0, 10), (10, 20)]);
}

#[test]
fn a_device_may_not_start_where_the_one_before_it_ends() {
    let mut universe = UniverseDevices::default();
    assert_eq!(universe.try_insert(device(0, 10)), Ok(()));
    assert_eq!(universe.try_insert(device(10, 20)), Err(InsertError::ChannelAlreadyAssigned));
    assert_eq!(universe.try_insert(device(11, 20)), Ok(()));
    assert_eq!(spans(&universe), vec![(0, 10), (11, 20)]);
}

#[test]
fn an_overlapping_device_is_refused_until_the_other_is_removed() {
    let mut universe = UniverseDevices::default();
    assert_eq!(universe.try_insert(device(0, 10)), Ok(()));
    assert_eq!(universe.try_insert(device(5, 15)), Err(InsertError::ChannelAlreadyAssigned));
    assert_eq!(spans(&universe), vec![(0, 10)]);
    let removed = universe.remove(0);
    assert_eq!((removed.start_channel().get(), removed.end_channel().get()), (0, 10));
    assert!(universe.is_empty());
    assert_eq!(universe.try_insert(device(5, 15)), Ok(()));
    assert_eq!(spans(&universe), vec![(5, 15)]);
}

#[test]
fn the_same_start_channel_is_always_a_collision() {
    let mut universe = UniverseDevices::default();
    assert_eq!(universe.try_insert(device(30, 40)), Ok(()));
    assert_eq!(universe.try_insert(device(30, 31)), Err(InsertError::ChannelAlreadyAssigned));
    assert_eq!(universe.try_insert(device(30, 30)), Err(InsertError::ChannelAlreadyAssigned));
    assert_eq!(universe.try_insert(device(30, 40)), Err(InsertError::ChannelAlreadyAssigned));
    assert_eq!(universe.len(), 1);
}

#[test]
fn a_device_reaching_into_the_next_is_refused() {
    let mut universe = UniverseDevices::default();
    assert_eq!(universe.try_insert(device(100, 110)), Ok(()));
    assert_eq!(universe.try_insert(device(90, 101)), Err(InsertError::ChannelAlreadyAssigned));
    assert_eq!(universe.try_insert(device(0, 511)), Err(InsertError::ChannelAlreadyAssigned));
    assert_eq!(universe.try_insert(device(90, 100)), Ok(()));
    assert_eq!(spans(&universe), vec![(90, 100), (100, 110)]);
}

#[test]
fn a_device_inside_another_is_refused() {
    let mut universe = UniverseDevices::default();
    assert_eq!(universe.try_insert(device(100, 200)), Ok(()));
    assert_eq!(universe.try_insert(device(150, 160)), Err(InsertError::ChannelAlreadyAssigned));
    assert_eq!(universe.try_insert(device(199, 300)), Err(InsertError::ChannelAlreadyAssigned));
    assert_eq!(universe.try_insert(device(200, 300)), Err(InsertError::ChannelAlreadyAssigned));
    assert_eq!(universe.try_insert(device(201, 300)), Ok(()));
}

#[test]
fn devices_are_kept_in_the_order_of_their_start_channels() {
    let mut universe = UniverseDevices::default();
    for (start, end) in [(300, 310), (0, 5), (200, 250), (100, 150), (400, 511), (50, 60)] {
        assert_eq!(universe.try_insert(device(start, end)), Ok(()));
    }
    assert_eq!(
        spans(&universe),
        vec![(0, 5), (50, 60), (100, 150), (200, 250), (300, 310), (400, 511)]
    );
    assert_eq!(universe.len(), 6);
    assert!(!universe.is_empty());
}

#[test]
fn no_channel_belongs_to_two_devices() {
    let mut universe = UniverseDevices::default();
    let mut state: u32 = 12345;
    for _ in 0..400 {
        state = state.wrapping_mul(1_103_515_245).wrapping_add(12345);
        let start = (state >> 8) as u16 % 500;
        let length = (state >> 20) as u16 % 12;
        if let Ok(candidate) = Device::new_u16(Arc::from("d"), start, fixture(usize::from(length))) {
            let _ = universe.try_insert(candidate);
        }
    }
    let placed = spans(&universe);
    assert!(placed.len() > 10);
    for pair in placed.windows(2) {
        assert!(pair[0].0 < pair[1].0);
        assert!(pair[0].1 <= pair[1].0);
    }
}

#[test]
fn removing_leaves_the_others_in_place() {
    let mut universe = UniverseDevices::default();
    for (start, end) in [(0, 5), (10, 15), (20, 25)] {
        universe.try_insert(device(start, end)).unwrap();
    }
    let middle = universe.remove(1);
    assert_eq!(middle.start_channel().get(), 10);
    assert_eq!(spans(&universe), vec![(0, 5), (20, 25)]);
    assert_eq!(universe.try_insert(device(6, 20)), Ok(()));
    assert_eq!(spans(&universe), vec![(0, 5), (6, 20), (20, 25)]);
}

#[test]
fn a_universe_can_be_made_from_placed_devices() {
    let universe = UniverseDevices::new(vec![device(0, 4), device(4, 8), device(100, 101)]);
    assert_eq!(spans(&universe), vec![(0, 4), (4, 8), (100, 101)]);
    let copy = universe.clone();
    assert_eq!(copy, universe);
    assert_eq!(UniverseDevices::new(Vec::new()), UniverseDevices::default());
}

#[test]
fn devices_can_be_added_at_the_end() {
    let mut universe = UniverseDevices::new(vec![device(0, 4)]);
    universe.extend(vec![device(4, 8), device(20, 30)]);
    assert_eq!(spans(&universe), vec![(0, 4), (4, 8), (20, 30)]);
    universe.extend(Vec::new());
    assert_eq!(universe.len(), 3);
}

#[test]
fn a_universe_can_be_walked_by_reference() {
    let universe = UniverseDevices::new(vec![device(0, 4), device(10, 12)]);
    let mut starts = Vec::new();
    for placed in &universe {
        starts.push(placed.start_channel().get());
    }
    assert_eq!(starts, vec![0, 10]);
}

#[test]
fn placing_a_device_again_is_refused() {
    let mut universe = UniverseDevices::default();
    assert_eq!(universe.try_insert(device(40, 50)), Ok(()));
    assert_eq!(universe.try_insert(device(40, 50)), Err(InsertError::ChannelAlreadyAssigned));
    assert_eq!(spans(&universe), vec![(40, 50)]);
    let empty = device(7, 7);
    assert_eq!(universe.try_insert(empty.clone()), Ok(()));
    assert_eq!(universe.try_insert(empty), Err(InsertError::ChannelAlreadyAssigned));
}
