use dmx_patch::artnet::fixture::channel::{Channel, SimpleAction};
use dmx_patch::artnet::fixture::Fixture;
use dmx_patch::text::{same_text, text_precedes};
use std::sync::Arc;

fn channels(count: usize) -> Arc<[Channel]> {
    let list: Vec<Channel> =
        (0..count).map(|_| Channel::new_simple(SimpleAction::IntensityMasterDimmer)).collect();
    Arc::from(list)
}

fn names(path: &[Arc<str>]) -> Vec<&str> {
    path.iter().map(|name| &**name).collect()
}

#[test]
fn a_fixture_keeps_what_it_was_made_with() {
    let fixture =
        Fixture::new(Arc::from("VRSL"), Arc::from("Par"), Arc::from("Color Changer"), channels(3));
    assert_eq!(&**fixture.get_manufacturer(), "VRSL");
    assert_eq!(&**fixture.get_model(), "Par");
    assert_eq!(&**fixture.get_type(), "Color Changer");
    assert_eq!(fixture.get_channels().len(), 3);
    assert!(fixture.extra_path.is_empty());
}

#[test]
fn the_path_of_a_fixture_starts_with_its_manufacturer() {
    let plain = Fixture::new(Arc::from("VRSL"), Arc::from("Par"), Arc::from("t"), channels(1));
    assert_eq!(names(&plain.get_path()), vec!["VRSL"]);
    let filed = Fixture::new_path(
        Arc::from("VRSL"),
        Arc::from(vec![Arc::<str>::from("varying"), Arc::from("Pan180"), Arc::from("Tilt270")]),
        Arc::from("Mover"),
        Arc::from("Moving Head"),
        channels(13),
    );
    assert_eq!(names(&filed.get_path()), vec!["VRSL", "varying", "Pan180", "Tilt270"]);
    assert_eq!(names(&filed.extra_path), vec!["varying", "Pan180", "Tilt270"]);
}

#[test]
fn fixtures_compare_by_names_and_channels() {
    let make = |manufacturer: &str, model: &str, kind: &str, count: usize| {
        Fixture::new(Arc::from(manufacturer), Arc::from(model), Arc::from(kind), channels(count))
    };
    let base = make("VRSL", "Par", "Color Changer", 3);
    assert!(base.same_as(&make("VRSL", "Par", "Color Changer", 3)));
    assert!(!base.same_as(&make("VRSL2", "Par", "Color Changer", 3)));
    assert!(!base.same_as(&make("VRSL", "Bar", "Color Changer", 3)));
    assert!(!base.same_as(&make("VRSL", "Par", "Strobe", 3)));
    assert!(!base.same_as(&make("VRSL", "Par", "Color Changer", 4)));
    let filed = Fixture::new_path(
        Arc::from("VRSL"),
        Arc::from(vec![Arc::<str>::from("varying")]),
        Arc::from("Par"),
        Arc::from("Color Changer"),
        channels(3),
    );
    assert!(!base.same_as(&filed));
    assert!(filed.same_as(&filed.clone()));
    let other_channel = Fixture::new(
        Arc::from("VRSL"),
        Arc::from("Par"),
        Arc::from("Color Changer"),
        Arc::from(vec![
            Channel::new_simple(SimpleAction::IntensityMasterDimmer),
            Channel::new_simple(SimpleAction::IntensityMasterDimmer),
            Channel::new_simple(SimpleAction::Speed),
        ]),
    );
    assert!(!base.same_as(&other_channel));
}

#[test]
fn texts_are_the_same_only_character_by_character() {
    assert!(same_text("", ""));
    assert!(same_text("VRSL", "VRSL"));
    assert!(!same_text("VRSL", "VRSl"));
    assert!(!same_text("VRSL", "VRS"));
    assert!(!same_text("VRS", "VRSL"));
    assert!(same_text("Grün 💡", "Grün 💡"));
    assert!(!same_text("Grün", "Grun"));
}

#[test]
fn texts_are_ordered_like_a_dictionary() {
    assert!(text_precedes("", "a"));
    assert!(!text_precedes("", ""));
    assert!(!text_precedes("a", ""));
    assert!(text_precedes("Pan180", "Pan360"));
    assert!(text_precedes("Pan", "Pan180"));
    assert!(!text_precedes("Pan180", "Pan"));
    assert!(!text_precedes("Pan180", "Pan180"));
    assert!(text_precedes("Standard BarLight", "Standard Blinder"));
    assert!(text_precedes("Z", "a"));
    assert!(text_precedes("z", "é"));
    assert!(text_precedes("é", "💡"));
    for (a, b) in [("Tilt180", "Tilt250"), ("a", "b"), ("", "x"), ("ab", "abc"), ("é", "z")] {
        assert_eq!(text_precedes(a, b), a < b);
        assert_eq!(text_precedes(b, a), b < a);
    }
}
