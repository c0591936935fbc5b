use dmx_patch::artnet::fixture::variables::{
    ResolvedVariableChannelAction, Variable, VariableChannelAction, VariableSelection,
};
use std::sync::Arc;

fn presets() -> Variable<u64> {
    Variable::Selection(Arc::from(vec![180u64, 360, 540]), 180)
}

#[test]
fn an_index_past_the_presets_gives_the_default() {
    assert_eq!(*presets().select(Some(5)), 180);
    assert_eq!(*presets().select(Some(3)), 180);
    assert_eq!(*presets().select(Some(usize::MAX)), 180);
}

#[test]
fn no_index_gives_the_default() {
    assert_eq!(*presets().select(None), 180);
    let other_default: Variable<u64> = Variable::Selection(Arc::from(vec![1u64, 2]), 99);
    assert_eq!(*other_default.select(None), 99);
    assert_eq!(*other_default.select(Some(2)), 99);
}

#[test]
fn an_index_picks_its_preset() {
    assert_eq!(*presets().select(Some(0)), 180);
    assert_eq!(*presets().select(Some(1)), 360);
    assert_eq!(*presets().select(Some(2)), 540);
}

#[test]
fn a_fixed_value_ignores_the_index() {
    let fixed = Variable::Fixed(250u64);
    assert_eq!(*fixed.select(None), 250);
    assert_eq!(*fixed.select(Some(0)), 250);
    assert_eq!(*fixed.select(Some(7)), 250);
}

#[test]
fn a_selection_without_presets_is_its_default() {
    let empty: Variable<u64> = Variable::Selection(Arc::from(Vec::new()), 42);
    assert_eq!(*empty.select(Some(0)), 42);
    assert_eq!(*empty.select(None), 42);
}

#[test]
fn each_axis_reads_its_own_entry_of_the_selection() {
    let selection = VariableSelection::new(Some(0), Some(1), Some(2), None);
    assert_eq!(
        VariableChannelAction::PositionPan(presets()).resolve(selection),
        ResolvedVariableChannelAction::PositionPan(180)
    );
    assert_eq!(
        VariableChannelAction::PositionPanFine(presets()).resolve(selection),
        ResolvedVariableChannelAction::PositionPanFine(360)
    );
    assert_eq!(
        VariableChannelAction::PositionTilt(presets()).resolve(selection),
        ResolvedVariableChannelAction::PositionTilt(540)
    );
    assert_eq!(
        VariableChannelAction::PositionTiltFine(presets()).resolve(selection),
        ResolvedVariableChannelAction::PositionTiltFine(180)
    );
}

#[test]
fn a_selection_remembers_what_was_chosen() {
    let selection = VariableSelection::new(Some(1), None, Some(3), Some(4));
    assert_eq!(selection.pan, Some(1));
    assert_eq!(selection.panfine, None);
    assert_eq!(selection.tilt, Some(3));
    assert_eq!(selection.tiltfine, Some(4));
}

#[test]
fn variables_compare_by_value() {
    assert!(presets().same_as(&presets()));
    assert!(!presets().same_as(&Variable::Fixed(180)));
    assert!(!presets().same_as(&Variable::Selection(Arc::from(vec![180u64, 360, 541]), 180)));
    assert!(!presets().same_as(&Variable::Selection(Arc::from(vec![180u64, 360]), 180)));
    assert!(!presets().same_as(&Variable::Selection(Arc::from(vec![180u64, 360, 540]), 181)));
    assert!(Variable::Fixed(5u64).same_as(&Variable::Fixed(5)));
    assert!(!Variable::Fixed(5u64).same_as(&Variable::Fixed(6)));
    let pan = VariableChannelAction::PositionPan(presets());
    let tilt = VariableChannelAction::PositionTilt(presets());
    assert!(pan.same_as(&pan.clone()));
    assert!(!pan.same_as(&tilt));
}
