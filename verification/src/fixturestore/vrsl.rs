//! The fixtures of the VRSL lighting system that every catalogue starts with.

use crate::artnet::fixture::channel::plan;
use crate::artnet::fixture::channel::Action;
use crate::artnet::fixture::channel::ActionModel;
use crate::artnet::fixture::channel::Channel;
use crate::artnet::fixture::channel::Color;
use crate::artnet::fixture::channel::ColorRGB;
use crate::artnet::fixture::channel::Range;
use crate::artnet::fixture::channel::SimpleAction;
use crate::artnet::fixture::variables::Variable;
use crate::artnet::fixture::variables::VariableChannelAction;
use crate::artnet::fixture::Fixture;
use crate::artnet::fixture::FixtureModel;
use crate::degree::deg_to_microarcseconds;
use crate::degree::MICROARCSECONDS_PER_DEGREE;
use crate::sharing::share_items;
use crate::sharing::share_text;
use std::sync::Arc;
use vstd::prelude::*;

verus! {

/// A channel that does one thing.
pub open spec fn simple(action: SimpleAction) -> ActionModel {
    ActionModel::Simple(action)
}

/// The travel of an axis that turns by the given degrees.
pub open spec fn travel(degrees: u32) -> Variable<u64> {
    Variable::Fixed((degrees * MICROARCSECONDS_PER_DEGREE) as u64)
}

pub open spec fn pan(degrees: u32) -> ActionModel {
    simple(SimpleAction::VariableChannelAction(VariableChannelAction::PositionPan(travel(degrees))))
}

pub open spec fn pan_fine(degrees: u32) -> ActionModel {
    simple(
        SimpleAction::VariableChannelAction(VariableChannelAction::PositionPanFine(travel(degrees))),
    )
}

pub open spec fn tilt(degrees: u32) -> ActionModel {
    simple(SimpleAction::VariableChannelAction(VariableChannelAction::PositionTilt(travel(degrees))))
}

pub open spec fn tilt_fine(degrees: u32) -> ActionModel {
    simple(
        SimpleAction::VariableChannelAction(VariableChannelAction::PositionTiltFine(travel(degrees))),
    )
}

pub open spec fn colour(component: ColorRGB) -> ActionModel {
    simple(SimpleAction::IntensityColor(Color::Rgb(component)))
}

pub open spec fn stretch(continuous: bool, start: u8, end: u8, action: SimpleAction) -> Range {
    Range { continuous, start, end, action }
}

/// Off up to 9, and from 10 on a strobe that gets faster.
pub open spec fn strobe() -> ActionModel {
    ActionModel::Selection(
        seq![
            stretch(false, 0, 9, SimpleAction::NoOp),
            stretch(true, 10, 255, SimpleAction::Strobo),
        ],
    )
}

/// Still up to 9, then spinning left, and from 127 on spinning right.
pub open spec fn spin() -> ActionModel {
    ActionModel::Selection(
        seq![
            stretch(false, 0, 9, SimpleAction::NoOp),
            stretch(true, 10, 126, SimpleAction::SpinLeft),
            stretch(true, 127, 255, SimpleAction::SpinRight),
        ],
    )
}

/// Five patterns, each on its own stretch of the channel.
pub open spec fn gobo() -> ActionModel {
    ActionModel::Selection(
        seq![
            stretch(false, 0, 42, SimpleAction::GOBOSelection),
            stretch(false, 43, 85, SimpleAction::GOBOSelection),
            stretch(false, 86, 127, SimpleAction::GOBOSelection),
            stretch(false, 128, 212, SimpleAction::GOBOSelection),
            stretch(false, 213, 255, SimpleAction::GOBOSelection),
        ],
    )
}

/// The thirteen channels of a moving head.
pub open spec fn moving_head_plan(max_pan: u32, max_tilt: u32) -> Seq<ActionModel> {
    seq![
        pan(max_pan),
        pan_fine(0),
        tilt(max_tilt),
        tilt_fine(0),
        simple(SimpleAction::BeamZoom),
        simple(SimpleAction::IntensityMasterDimmer),
        strobe(),
        colour(ColorRGB::Red),
        colour(ColorRGB::Green),
        colour(ColorRGB::Blue),
        spin(),
        gobo(),
        simple(SimpleAction::Speed),
    ]
}

/// The thirteen channels that the par light, the bar light and the blinder
/// have in common.
pub open spec fn wash_plan() -> Seq<ActionModel> {
    seq![
        simple(SimpleAction::NoOp),
        simple(SimpleAction::NoOp),
        simple(SimpleAction::NoOp),
        simple(SimpleAction::NoOp),
        simple(SimpleAction::NoOp),
        simple(SimpleAction::IntensityMasterDimmer),
        strobe(),
        colour(ColorRGB::Red),
        colour(ColorRGB::Green),
        colour(ColorRGB::Blue),
        simple(SimpleAction::NoOp),
        simple(SimpleAction::NoOp),
        simple(SimpleAction::NoOp),
    ]
}

/// The thirteen channels of a laser.
pub open spec fn laser_plan(max_pan: u32, max_tilt: u32) -> Seq<ActionModel> {
    seq![
        pan(max_pan),
        tilt(max_tilt),
        simple(SimpleAction::NoOp),
        simple(SimpleAction::NoOp),
        simple(SimpleAction::NoOp),
        simple(SimpleAction::SpinLeft),
        simple(SimpleAction::IntensityMasterDimmer),
        colour(ColorRGB::Red),
        colour(ColorRGB::Green),
        colour(ColorRGB::Blue),
        simple(SimpleAction::NoOp),
        simple(SimpleAction::NoOp),
        simple(SimpleAction::Speed),
    ]
}

/// A VRSL fixture that is filed directly below its manufacturer.
pub open spec fn vrsl(model: Seq<char>, kind: Seq<char>, channels: Seq<ActionModel>) -> FixtureModel {
    FixtureModel { manufacturer: "VRSL"@, extra_path: Seq::empty(), model, kind, channels }
}

pub open spec fn moving_head(max_pan: u32, max_tilt: u32) -> FixtureModel {
    vrsl("Standard Mover Spotlight"@, "Moving Head"@, moving_head_plan(max_pan, max_tilt))
}

pub open spec fn par_light() -> FixtureModel {
    vrsl("Standard Par Light"@, "Color Changer"@, wash_plan())
}

pub open spec fn bar_light() -> FixtureModel {
    vrsl("Standard BarLight"@, "LED Bar (Pixels)"@, wash_plan())
}

pub open spec fn blinder() -> FixtureModel {
    vrsl("Standard Blinder"@, "Strobe"@, wash_plan())
}

pub open spec fn laser(max_pan: u32, max_tilt: u32) -> FixtureModel {
    vrsl("Standard Laser"@, "Laser"@, laser_plan(max_pan, max_tilt))
}

fn simple_channel(action: SimpleAction) -> (r: Channel)
    ensures
        r@ == simple(action),
{
    Channel::new_simple(action)
}

fn pan_channel(degrees: u32) -> (r: Channel)
    ensures
        r@ == pan(degrees),
{
    Channel::new_simple(
        SimpleAction::VariableChannelAction(
            VariableChannelAction::PositionPan(Variable::Fixed(deg_to_microarcseconds(degrees))),
        ),
    )
}

fn pan_fine_channel(degrees: u32) -> (r: Channel)
    ensures
        r@ == pan_fine(degrees),
{
    Channel::new_simple(
        SimpleAction::VariableChannelAction(
            VariableChannelAction::PositionPanFine(Variable::Fixed(deg_to_microarcseconds(degrees))),
        ),
    )
}

fn tilt_channel(degrees: u32) -> (r: Channel)
    ensures
        r@ == tilt(degrees),
{
    Channel::new_simple(
        SimpleAction::VariableChannelAction(
            VariableChannelAction::PositionTilt(Variable::Fixed(deg_to_microarcseconds(degrees))),
        ),
    )
}

fn tilt_fine_channel(degrees: u32) -> (r: Channel)
    ensures
        r@ == tilt_fine(degrees),
{
    Channel::new_simple(
        SimpleAction::VariableChannelAction(
            VariableChannelAction::PositionTiltFine(Variable::Fixed(deg_to_microarcseconds(degrees))),
        ),
    )
}

fn colour_channel(component: ColorRGB) -> (r: Channel)
    ensures
        r@ == colour(component),
{
    Channel::new_simple(SimpleAction::IntensityColor(Color::Rgb(component)))
}

fn selection_channel(ranges: Vec<Range>) -> (r: Channel)
    ensures
        r@ == ActionModel::Selection(ranges@),
{
    Channel::new(Action::Selection(share_items(ranges)))
}

fn strobe_channel() -> (r: Channel)
    ensures
        r@ == strobe(),
{
    let mut ranges: Vec<Range> = Vec::new();
    ranges.push(Range::with_continuous(false, 0, 9, SimpleAction::NoOp));
    ranges.push(Range::with_continuous(true, 10, 255, SimpleAction::Strobo));
    proof {
        assert(ranges@ =~= strobe()->Selection_0);
    }
    selection_channel(ranges)
}

fn spin_channel() -> (r: Channel)
    ensures
        r@ == spin(),
{
    let mut ranges: Vec<Range> = Vec::new();
    ranges.push(Range::with_continuous(false, 0, 9, SimpleAction::NoOp));
    ranges.push(Range::with_continuous(true, 10, 126, SimpleAction::SpinLeft));
    ranges.push(Range::with_continuous(true, 127, 255, SimpleAction::SpinRight));
    proof {
        assert(ranges@ =~= spin()->Selection_0);
    }
    selection_channel(ranges)
}

fn gobo_channel() -> (r: Channel)
    ensures
        r@ == gobo(),
{
    let mut ranges: Vec<Range> = Vec::new();
    ranges.push(Range::with_continuous(false, 0, 42, SimpleAction::GOBOSelection));
    ranges.push(Range::with_continuous(false, 43, 85, SimpleAction::GOBOSelection));
    ranges.push(Range::with_continuous(false, 86, 127, SimpleAction::GOBOSelection));
    ranges.push(Range::with_continuous(false, 128, 212, SimpleAction::GOBOSelection));
    ranges.push(Range::with_continuous(false, 213, 255, SimpleAction::GOBOSelection));
    proof {
        assert(ranges@ =~= gobo()->Selection_0);
    }
    selection_channel(ranges)
}

/// A VRSL fixture with the given channels.
fn vrsl_fixture(model: &str, kind: &str, channels: Vec<Channel>) -> (r: Arc<Fixture>)
    ensures
        r@ == vrsl(model@, kind@, plan(channels@)),
{
    let fixture = Fixture::new(
        share_text("VRSL"),
        share_text(model),
        share_text(kind),
        share_items(channels),
    );
    proof {
        assert(fixture@.extra_path =~= Seq::empty());
        assert(fixture@ =~= vrsl(model@, kind@, plan(channels@)));
    }
    Arc::new(fixture)
}

fn wash_channels() -> (r: Vec<Channel>)
    ensures
        plan(r@) == wash_plan(),
{
    let mut channels: Vec<Channel> = Vec::new();
    channels.push(simple_channel(SimpleAction::NoOp));
    channels.push(simple_channel(SimpleAction::NoOp));
    channels.push(simple_channel(SimpleAction::NoOp));
    channels.push(simple_channel(SimpleAction::NoOp));
    channels.push(simple_channel(SimpleAction::NoOp));
    channels.push(simple_channel(SimpleAction::IntensityMasterDimmer));
    channels.push(strobe_channel());
    channels.push(colour_channel(ColorRGB::Red));
    channels.push(colour_channel(ColorRGB::Green));
    channels.push(colour_channel(ColorRGB::Blue));
    channels.push(simple_channel(SimpleAction::NoOp));
    channels.push(simple_channel(SimpleAction::NoOp));
    channels.push(simple_channel(SimpleAction::NoOp));
    proof {
        assert(plan(channels@) =~= wash_plan());
    }
    channels
}

/// A moving head whose pan and tilt travel are the given degrees.
pub fn vrsl_moving_head(max_pan: u32, max_tilt: u32) -> (r: Arc<Fixture>)
    ensures
        r@ == moving_head(max_pan, max_tilt),
{
    let mut channels: Vec<Channel> = Vec::new();
    channels.push(pan_channel(max_pan));
    channels.push(pan_fine_channel(0));
    channels.push(tilt_channel(max_tilt));
    channels.push(tilt_fine_channel(0));
    channels.push(simple_channel(SimpleAction::BeamZoom));
    channels.push(simple_channel(SimpleAction::IntensityMasterDimmer));
    channels.push(strobe_channel());
    channels.push(colour_channel(ColorRGB::Red));
    channels.push(colour_channel(ColorRGB::Green));
    channels.push(colour_channel(ColorRGB::Blue));
    channels.push(spin_channel());
    channels.push(gobo_channel());
    channels.push(simple_channel(SimpleAction::Speed));
    proof {
        assert(plan(channels@) =~= moving_head_plan(max_pan, max_tilt));
    }
    vrsl_fixture("Standard Mover Spotlight", "Moving Head", channels)
}

pub fn vrsl_par_light() -> (r: Arc<Fixture>)
    ensures
        r@ == par_light(),
{
    vrsl_fixture("Standard Par Light", "Color Changer", wash_channels())
}

pub fn vrsl_bar_light() -> (r: Arc<Fixture>)
    ensures
        r@ == bar_light(),
{
    vrsl_fixture("Standard BarLight", "LED Bar (Pixels)", wash_channels())
}

pub fn vrsl_blinder() -> (r: Arc<Fixture>)
    ensures
        r@ == blinder(),
{
    vrsl_fixture("Standard Blinder", "Strobe", wash_channels())
}

/// A laser whose pan and tilt travel are the given degrees.
pub fn vrsl_laser(max_pan: u32, max_tilt: u32) -> (r: Arc<Fixture>)
    ensures
        r@ == laser(max_pan, max_tilt),
{
    let mut channels: Vec<Channel> = Vec::new();
    channels.push(pan_channel(max_pan));
    channels.push(tilt_channel(max_tilt));
    channels.push(simple_channel(SimpleAction::NoOp));
    channels.push(simple_channel(SimpleAction::NoOp));
    channels.push(simple_channel(SimpleAction::NoOp));
    channels.push(simple_channel(SimpleAction::SpinLeft));
    channels.push(simple_channel(SimpleAction::IntensityMasterDimmer));
    channels.push(colour_channel(ColorRGB::Red));
    channels.push(colour_channel(ColorRGB::Green));
    channels.push(colour_channel(ColorRGB::Blue));
    channels.push(simple_channel(SimpleAction::NoOp));
    channels.push(simple_channel(SimpleAction::NoOp));
    channels.push(simple_channel(SimpleAction::Speed));
    proof {
        assert(plan(channels@) =~= laser_plan(max_pan, max_tilt));
    }
    vrsl_fixture("Standard Laser", "Laser", channels)
}

} // verus!
