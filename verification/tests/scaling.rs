use dmx_patch::artnet::fixture::channel::{
    Action, Channel, Color, ColorRGB, Range, SimpleAction,
};
use dmx_patch::artnet::fixture::variables::{
    ResolvedVariableChannelAction, Variable, VariableChannelAction, VariableSelection,
};
use dmx_patch::degree::{deg_to_microarcseconds, scale_deg, MICROARCSECONDS_PER_DEGREE};
use std::sync::Arc;

fn nothing_selected() -> VariableSelection {
    VariableSelection::new(None, None, None, None)
}

#[test]
fn a_degree_is_3600000000_microarcseconds() {
    assert_eq!(MICROARCSECONDS_PER_DEGREE, 3_600_000_000);
    assert_eq!(deg_to_microarcseconds(0), 0);
    assert_eq!(deg_to_microarcseconds(1), 3_600_000_000);
    assert_eq!(deg_to_microarcseconds(540), 1_944_000_000_000);
    assert_eq!(deg_to_microarcseconds(u32::MAX), 15_461_882_262_000_000_000);
}

#[test]
fn scale_deg_divides_the_product_and_rounds_down() {
    assert_eq!(scale_deg(128, 256, 1000), 500);
    assert_eq!(scale_deg(1, 256, 255), 0);
    assert_eq!(scale_deg(255, 256, 256), 255);
    assert_eq!(scale_deg(3, 2, 5), 7);
    assert_eq!(scale_deg(0, 7, u64::MAX), 0);
}

#[test]
fn scale_deg_forms_the_product_in_128_bits() {
    assert_eq!(scale_deg(u64::MAX, u64::MAX, u64::MAX), u64::MAX);
    assert_eq!(scale_deg(u64::MAX, 256, 256), u64::MAX);
}

#[test]
fn scale_deg_keeps_the_low_64_bits_of_the_quotient() {
    assert_eq!(scale_deg(u64::MAX, 1, 2), u64::MAX - 1);
}

#[test]
fn a_full_continuous_range_gives_the_byte_back() {
    let range = Range::with_continuous(true, 0, 255, SimpleAction::Speed);
    assert_eq!(range.scale_to_range(128, nothing_selected()), 128);
    assert_eq!(range.scale_to_range(0, nothing_selected()), 0);
    for input in 0u64..=255 {
        assert_eq!(u64::from(range.scale_to_range(input, nothing_selected())), input);
    }
}

#[test]
fn a_continuous_range_maps_255_to_its_end() {
    let range = Range::new(100, 200, SimpleAction::Strobo);
    assert_eq!(range.scale_to_range(255, nothing_selected()), 200);
    assert_eq!(range.scale_to_range(0, nothing_selected()), 100);
    assert_eq!(range.scale_to_range(128, nothing_selected()), 150);
}

#[test]
fn an_inverted_range_runs_downwards() {
    let range = Range::new(200, 100, SimpleAction::Strobo);
    assert!(range.is_inverted());
    assert_eq!(range.scale_to_range(0, nothing_selected()), 200);
    assert_eq!(range.scale_to_range(255, nothing_selected()), 100);
    assert_eq!(range.scale_to_range(128, nothing_selected()), 150);
    let upright = Range::new(100, 200, SimpleAction::Strobo);
    for input in 0u64..=255 {
        let down = u16::from(range.scale_to_range(input, nothing_selected()));
        let up = u16::from(upright.scale_to_range(input, nothing_selected()));
        assert_eq!(down + up, 300);
    }
}

#[test]
fn a_discrete_range_gives_one_value_for_every_input() {
    let range = Range::new(43, 85, SimpleAction::GOBOSelection);
    assert!(!range.is_continuous());
    let at_43 = range.scale_to_range(43, nothing_selected());
    let at_84 = range.scale_to_range(84, nothing_selected());
    assert_eq!(at_43, at_84);
    assert_eq!(at_43, 64);
    assert_eq!(range.scale_to_range(0, nothing_selected()), 64);
    assert_eq!(range.scale_to_range(u64::MAX, nothing_selected()), 64);
}

#[test]
fn a_discrete_range_at_an_edge_gives_the_edge() {
    let low = Range::new(0, 42, SimpleAction::GOBOSelection);
    assert_eq!(low.scale_to_range(17, nothing_selected()), 0);
    let high = Range::new(213, 255, SimpleAction::GOBOSelection);
    assert_eq!(high.scale_to_range(230, nothing_selected()), 255);
    let all = Range::new(0, 255, SimpleAction::NoOp);
    assert_eq!(all.scale_to_range(99, nothing_selected()), 0);
    let single = Range::new(7, 7, SimpleAction::NoOp);
    assert_eq!(single.scale_to_range(7, nothing_selected()), 7);
}

#[test]
fn the_flag_makes_a_discrete_action_continuous() {
    let range = Range::with_continuous(true, 10, 20, SimpleAction::NoOp);
    assert!(range.is_continuous());
    assert_eq!(range.scale_to_range(255, nothing_selected()), 20);
    let by_action = Range::with_continuous(false, 10, 20, SimpleAction::Speed);
    assert!(by_action.is_continuous());
    assert_eq!(by_action.scale_to_range(255, nothing_selected()), 20);
}

#[test]
fn a_range_knows_its_ends_and_its_length() {
    let upright = Range::new(10, 126, SimpleAction::SpinLeft);
    assert!(!upright.is_inverted());
    assert_eq!((upright.get_start(), upright.get_end(), upright.len()), (10, 126, 117));
    let inverted = Range::new(126, 10, SimpleAction::SpinLeft);
    assert!(inverted.is_inverted());
    assert_eq!((inverted.get_start(), inverted.get_end(), inverted.len()), (10, 126, 117));
    assert_eq!(Range::new(0, 255, SimpleAction::Speed).len(), 256);
    assert_eq!(Range::new(5, 5, SimpleAction::Speed).len(), 1);
    assert!(upright.contains(10) && upright.contains(126));
    assert!(!upright.contains(9) && !upright.contains(127));
}

#[test]
fn range_new_takes_the_flag_from_the_action() {
    assert_eq!(
        Range::new(1, 2, SimpleAction::NoOp),
        Range::with_continuous(false, 1, 2, SimpleAction::NoOp)
    );
    assert_eq!(
        Range::new(1, 2, SimpleAction::BeamZoom),
        Range::with_continuous(true, 1, 2, SimpleAction::BeamZoom)
    );
}

#[test]
fn only_gobo_selection_and_no_op_are_discrete() {
    let colour = SimpleAction::IntensityColor(Color::Rgb(ColorRGB::Red));
    let pan = SimpleAction::VariableChannelAction(VariableChannelAction::PositionPan(
        Variable::Fixed(1),
    ));
    for action in [
        SimpleAction::Speed,
        SimpleAction::Strobo,
        SimpleAction::SpinRight,
        SimpleAction::SpinLeft,
        SimpleAction::BeamZoom,
        SimpleAction::IntensityMasterDimmer,
        colour,
        pan.clone(),
    ] {
        assert!(action.is_continuous());
    }
    assert!(!SimpleAction::GOBOSelection.is_continuous());
    assert!(!SimpleAction::NoOp.is_continuous());
    assert!(pan.auto_conversion());
    assert!(!SimpleAction::Speed.auto_conversion());
    assert!(!SimpleAction::NoOp.auto_conversion());
}

#[test]
fn a_plain_action_passes_the_byte_through() {
    for input in [0u64, 1, 128, 255] {
        assert_eq!(u64::from(SimpleAction::NoOp.scale_to_range(input, nothing_selected())), input);
        assert_eq!(
            u64::from(SimpleAction::IntensityMasterDimmer.scale_to_range(input, nothing_selected())),
            input
        );
    }
    assert_eq!(SimpleAction::Speed.scale_to_range(256, nothing_selected()), 0);
    assert_eq!(SimpleAction::Speed.scale_to_range(0x1234, nothing_selected()), 0x34);
}

#[test]
fn a_position_channel_scales_its_travel() {
    let travel = deg_to_microarcseconds(540);
    let resolved = ResolvedVariableChannelAction::PositionPan(travel);
    assert_eq!(resolved.scale_to_range(0), 0);
    assert_eq!(resolved.scale_to_range(128), travel / 2);
    assert_eq!(resolved.scale_to_range(255), 1_936_406_250_000);
    assert_eq!(ResolvedVariableChannelAction::PositionTiltFine(1000).scale_to_range(64), 250);
}

#[test]
fn a_position_action_gives_the_low_byte_of_the_position() {
    let action = SimpleAction::VariableChannelAction(VariableChannelAction::PositionTilt(
        Variable::Fixed(1000),
    ));
    assert_eq!(action.scale_to_range(64, nothing_selected()), 250);
    assert_eq!(action.scale_to_range(128, nothing_selected()), 244);
    let range = Range::new(10, 20, action);
    assert_eq!(range.scale_to_range(64, nothing_selected()), 250);
}

#[test]
fn a_selection_hands_the_byte_to_the_range_that_holds_it() {
    let action = Action::Selection(Arc::from(vec![
        Range::with_continuous(false, 0, 9, SimpleAction::NoOp),
        Range::with_continuous(true, 10, 255, SimpleAction::Strobo),
    ]));
    assert_eq!(action.scale(5, nothing_selected()), Some(0));
    assert_eq!(action.scale(9, nothing_selected()), Some(0));
    assert_eq!(action.scale(10, nothing_selected()), Some(19));
    assert_eq!(action.scale(255, nothing_selected()), Some(255));
}

#[test]
fn a_byte_in_no_range_has_no_meaning() {
    let action = Action::Selection(Arc::from(vec![
        Range::new(0, 9, SimpleAction::NoOp),
        Range::new(20, 29, SimpleAction::Strobo),
    ]));
    assert_eq!(action.scale(10, nothing_selected()), None);
    assert_eq!(action.scale(19, nothing_selected()), None);
    assert_eq!(action.scale(30, nothing_selected()), None);
    assert_eq!(action.scale(20, nothing_selected()), Some(20));
    let empty = Action::Selection(Arc::from(Vec::new()));
    assert_eq!(empty.scale(0, nothing_selected()), None);
}

#[test]
fn of_overlapping_ranges_the_first_is_taken() {
    let action = Action::Selection(Arc::from(vec![
        Range::with_continuous(false, 50, 100, SimpleAction::GOBOSelection),
        Range::with_continuous(true, 0, 255, SimpleAction::Speed),
    ]));
    assert_eq!(action.scale(60, nothing_selected()), Some(75));
    assert_eq!(action.scale(10, nothing_selected()), Some(10));
}

#[test]
fn a_simple_channel_scales_like_its_action() {
    let channel = Channel::new_simple(SimpleAction::IntensityMasterDimmer);
    assert_eq!(channel, Channel::new(Action::SimpleAction(SimpleAction::IntensityMasterDimmer)));
    assert_eq!(channel.action.scale(200, nothing_selected()), Some(200));
}

#[test]
fn channels_compare_by_what_they_do() {
    let strobe = || {
        Channel::new(Action::Selection(Arc::from(vec![
            Range::with_continuous(false, 0, 9, SimpleAction::NoOp),
            Range::with_continuous(true, 10, 255, SimpleAction::Strobo),
        ])))
    };
    assert!(strobe().same_as(&strobe()));
    let shorter = Channel::new(Action::Selection(Arc::from(vec![Range::with_continuous(
        false,
        0,
        9,
        SimpleAction::NoOp,
    )])));
    assert!(!strobe().same_as(&shorter));
    let other_end = Channel::new(Action::Selection(Arc::from(vec![
        Range::with_continuous(false, 0, 9, SimpleAction::NoOp),
        Range::with_continuous(true, 10, 254, SimpleAction::Strobo),
    ])));
    assert!(!strobe().same_as(&other_end));
    let red = Channel::new_simple(SimpleAction::IntensityColor(Color::Rgb(ColorRGB::Red)));
    let blue = Channel::new_simple(SimpleAction::IntensityColor(Color::Rgb(ColorRGB::Blue)));
    assert!(red.same_as(&red.clone()));
    assert!(!red.same_as(&blue));
    assert!(!red.same_as(&strobe()));
}
