//! What one channel of a fixture means, and how a channel byte is turned
//! into the value that the action behind it is driven with.

use crate::artnet::fixture::variables::VariableChannelAction;
use crate::artnet::fixture::variables::VariableSelection;
use std::sync::Arc;
use vstd::prelude::*;

verus! {

/// One channel of a fixture. Its place in the fixture's channel list is its
/// offset from the start channel of a device.
#[derive(Debug, Clone, PartialEq, Eq, PartialOrd, Ord, Hash)]
pub struct Channel {
    pub action: Action,
}

impl View for Channel {
    type V = ActionModel;

    open spec fn view(&self) -> ActionModel {
        self.action@
    }
}

/// What the channels of a list do.
pub open spec fn plan(channels: Seq<Channel>) -> Seq<ActionModel> {
    channels.map_values(|channel: Channel| channel@)
}

impl Channel {
    pub fn new(action: Action) -> (r: Self)
        ensures
            r.action == action,
    {
        Self { action }
    }

    pub fn new_simple(action: SimpleAction) -> (r: Self)
        ensures
            r.action == Action::SimpleAction(action),
    {
        Self::new(Action::SimpleAction(action))
    }

    /// Whether two channels do the same.
    pub fn same_as(&self, other: &Self) -> (r: bool)
        ensures
            r == (*self == *other),
    {
        self.action.same_as(&other.action)
    }
}

/// One stretch of the byte values of a channel, with the action it drives.
///
/// `start` and `end` are both part of the stretch, and going from `start` to
/// `end` makes the action stronger. Where `start` is the larger of the two the
/// stretch is inverted: the action gets stronger as the byte gets smaller.
///
/// `continuous` says that different bytes within the stretch have different
/// effects. An action that is continuous by itself makes the stretch
/// continuous whatever the flag says.
#[derive(Debug, Clone, PartialEq, Eq, PartialOrd, Ord, Hash)]
pub struct Range {
    pub continuous: bool,
    pub start: u8,
    pub end: u8,
    pub action: SimpleAction,
}

impl Range {
    /// A stretch that is continuous exactly if its action is.
    pub fn new(start: u8, end: u8, action: SimpleAction) -> (r: Self)
        ensures
            r == (Range { continuous: action.spec_is_continuous(), start, end, action }),
    {
        Self::with_continuous(action.is_continuous(), start, end, action)
    }

    pub fn with_continuous(continuous: bool, start: u8, end: u8, action: SimpleAction) -> (r: Self)
        ensures
            r == (Range { continuous, start, end, action }),
    {
        Self { continuous, start, end, action }
    }

    /// Whether two stretches have the same ends, flag and action.
    pub fn same_as(&self, other: &Self) -> (r: bool)
        ensures
            r == (*self == *other),
    {
        self.continuous == other.continuous && self.start == other.start && self.end == other.end
            && self.action.same_as(&other.action)
    }

    pub open spec fn spec_is_continuous(&self) -> bool {
        self.continuous || self.action.spec_is_continuous()
    }

    #[verifier::when_used_as_spec(spec_is_continuous)]
    pub fn is_continuous(&self) -> (r: bool)
        ensures
            r == self.spec_is_continuous(),
    {
        self.continuous || self.action.is_continuous()
    }

    pub open spec fn spec_is_inverted(&self) -> bool {
        self.start > self.end
    }

    #[verifier::when_used_as_spec(spec_is_inverted)]
    pub fn is_inverted(&self) -> (r: bool)
        ensures
            r == self.spec_is_inverted(),
    {
        self.start > self.end
    }

    /// The smaller of the two ends.
    pub open spec fn spec_get_start(&self) -> u8 {
        if self.start > self.end {
            self.end
        } else {
            self.start
        }
    }

    #[verifier::when_used_as_spec(spec_get_start)]
    pub fn get_start(&self) -> (r: u8)
        ensures
            r == self.spec_get_start(),
    {
        if self.is_inverted() {
            self.end
        } else {
            self.start
        }
    }

    /// The larger of the two ends.
    pub open spec fn spec_get_end(&self) -> u8 {
        if self.start > self.end {
            self.start
        } else {
            self.end
        }
    }

    #[verifier::when_used_as_spec(spec_get_end)]
    pub fn get_end(&self) -> (r: u8)
        ensures
            r == self.spec_get_end(),
    {
        if self.is_inverted() {
            self.start
        } else {
            self.end
        }
    }

    /// How many byte values the stretch holds: both ends count, so at least
    /// 1 and at most 256.
    pub open spec fn spec_len(&self) -> u16 {
        (self.spec_get_end() - self.spec_get_start() + 1) as u16
    }

    #[verifier::when_used_as_spec(spec_len)]
    pub fn len(&self) -> (r: u16)
        ensures
            r == self.spec_len(),
            1 <= r <= 256,
    {
        self.get_end() as u16 + 1 - self.get_start() as u16
    }

    /// Whether `input` lies within the stretch.
    pub open spec fn spec_contains(&self, input: u8) -> bool {
        self.spec_get_start() <= input <= self.spec_get_end()
    }

    #[verifier::when_used_as_spec(spec_contains)]
    pub fn contains(&self, input: u8) -> (r: bool)
        ensures
            r == self.spec_contains(input),
    {
        self.get_start() <= input && input <= self.get_end()
    }

    /// The one value that a stretch without inner differences is driven
    /// with, chosen as far from the neighbouring stretches as possible: 0 or
    /// 255 where the stretch reaches it, else the middle.
    pub open spec fn resting_value(&self) -> u8 {
        if self.spec_get_start() == u8::MIN {
            u8::MIN
        } else if self.spec_get_end() == u8::MAX {
            u8::MAX
        } else {
            (self.spec_get_start() + self.spec_len() / 2) as u8
        }
    }

    /// How far into the stretch the byte `input` reaches:
    /// `input * len / 256`, rounded towards zero.
    pub open spec fn reach(&self, input: u64) -> int {
        input * self.spec_len() / 256
    }

    /// Where the byte `input` falls when the whole byte scale is laid onto
    /// the stretch, from the weak end to the strong end.
    pub open spec fn swept_value(&self, input: u64) -> int {
        if self.spec_is_inverted() {
            self.spec_get_end() - self.reach(input)
        } else {
            self.spec_get_start() + self.reach(input)
        }
    }

    /// The result of [`Range::scale_to_range`].
    pub open spec fn scaled(&self, input: u64, variable_selection: VariableSelection) -> int {
        if self.action.spec_auto_conversion() {
            self.action.scaled(input, variable_selection)
        } else if !self.spec_is_continuous() {
            self.resting_value() as int
        } else {
            self.swept_value(input)
        }
    }

    /// The value that the stretch turns a channel byte into.
    ///
    /// An action that converts by itself does so here too. Otherwise a
    /// stretch without inner differences gives its resting value, whatever
    /// the input; a continuous one lays the byte scale onto itself, turned
    /// round where it is inverted, and its result lies within the stretch.
    ///
    /// A continuous stretch takes a byte: `input` is at most 255 there.
    pub fn scale_to_range(&self, input: u64, variable_selection: VariableSelection) -> (r: u8)
        requires
            input <= u8::MAX || self.action.spec_auto_conversion() || !self.spec_is_continuous(),
        ensures
            r == self.scaled(input, variable_selection),
            !self.action.spec_auto_conversion() ==> self.spec_get_start() <= r
                <= self.spec_get_end(),
    {
        if self.action.auto_conversion() {
            self.action.scale_to_range(input, variable_selection)
        } else if !self.is_continuous() {
            if self.get_start() == u8::MIN {
                u8::MIN
            } else if self.get_end() == u8::MAX {
                u8::MAX
            } else {
                self.get_start() + (self.len() / 2) as u8
            }
        } else {
            let len = self.len();
            proof {
                lemma_reach_is_short(input as int, len as int);
            }
            let reach: u8 = (input as u128 * len as u128 / 256) as u8;
            if self.is_inverted() {
                self.get_end() - reach
            } else {
                self.get_start() + reach
            }
        }
    }
}

/// A byte never reaches past the last value of a stretch:
/// `input * len / 256 < len`.
pub proof fn lemma_reach_is_short(input: int, len: int)
    requires
        0 <= input <= u8::MAX,
        1 <= len,
    ensures
        0 <= input * len,
        input * len <= 255 * len,
        0 <= input * len / 256 < len,
{
    assert(0 <= input * len <= 255 * len) by (nonlinear_arith)
        requires
            0 <= input <= 255,
            1 <= len,
    ;
}

/// A stretch without inner differences is driven with one value: the input
/// has no part in it, nor has the selection of variants.
pub proof fn lemma_resting_value_ignores_input(
    range: Range,
    input_a: u64,
    input_b: u64,
    selection_a: VariableSelection,
    selection_b: VariableSelection,
)
    requires
        !range.action.spec_auto_conversion(),
        !range.spec_is_continuous(),
    ensures
        range.scaled(input_a, selection_a) == range.scaled(input_b, selection_b),
        range.scaled(input_a, selection_a) == range.resting_value(),
        range.spec_get_start() <= range.resting_value() <= range.spec_get_end(),
{
}

/// A continuous stretch sends the ends of the byte scale to its own ends:
/// 0 to `start` and 255 to `end`, as they were given, so that an inverted
/// stretch runs downwards.
pub proof fn lemma_sweep_ends(range: Range, variable_selection: VariableSelection)
    requires
        !range.action.spec_auto_conversion(),
        range.spec_is_continuous(),
    ensures
        range.scaled(0, variable_selection) == range.start,
        range.scaled(255, variable_selection) == range.end,
{
}

/// A continuous stretch over all 256 values gives every byte back.
pub proof fn lemma_full_sweep_is_identity(
    range: Range,
    input: u64,
    variable_selection: VariableSelection,
)
    requires
        !range.action.spec_auto_conversion(),
        range.spec_is_continuous(),
        range.start == u8::MIN,
        range.end == u8::MAX,
        input <= u8::MAX,
    ensures
        range.scaled(input, variable_selection) == input,
{
    assert(range.spec_len() == 256);
    assert(range.reach(input) == input * 256 / 256);
}

/// A continuous stretch keeps the order of bytes, and an inverted one
/// reverses it.
pub proof fn lemma_sweep_is_monotonic(
    range: Range,
    smaller: u64,
    larger: u64,
    variable_selection: VariableSelection,
)
    requires
        !range.action.spec_auto_conversion(),
        range.spec_is_continuous(),
        smaller <= larger <= u8::MAX,
    ensures
        !range.spec_is_inverted() ==> range.scaled(smaller, variable_selection) <= range.scaled(
            larger,
            variable_selection,
        ),
        range.spec_is_inverted() ==> range.scaled(smaller, variable_selection) >= range.scaled(
            larger,
            variable_selection,
        ),
{
    let len = range.spec_len() as int;
    assert(smaller * len <= larger * len) by (nonlinear_arith)
        requires
            smaller <= larger,
            0 <= len,
    ;
}

/// Exchanging `start` and `end` mirrors the result within the stretch.
pub proof fn lemma_inversion_mirrors(
    range: Range,
    mirrored: Range,
    input: u64,
    variable_selection: VariableSelection,
)
    requires
        !range.action.spec_auto_conversion(),
        range.spec_is_continuous(),
        range.start != range.end,
        mirrored == (Range { start: range.end, end: range.start, ..range }),
    ensures
        range.scaled(input, variable_selection) + mirrored.scaled(input, variable_selection)
            == range.start + range.end,
{
}

/// What a channel does: one action, or a different action on each of
/// several stretches of its byte values.
///
/// The stretches of a selection are meant not to overlap. Nothing here
/// checks that, nor that they cover every byte: see [`Action::scale`].
#[derive(Debug, Clone, PartialEq, Eq, PartialOrd, Ord, Hash)]
pub enum Action {
    SimpleAction(SimpleAction),
    Selection(Arc<[Range]>),
}

/// An action as a value: a selection is the list of its stretches.
pub enum ActionModel {
    Simple(SimpleAction),
    Selection(Seq<Range>),
}

impl View for Action {
    type V = ActionModel;

    open spec fn view(&self) -> ActionModel {
        match self {
            Action::SimpleAction(action) => ActionModel::Simple(*action),
            Action::Selection(ranges) => ActionModel::Selection(ranges@),
        }
    }
}

/// An action is known by its value: two selections with the same stretches
/// in the same order are the same action.
pub proof fn lemma_action_by_view(a: Action, b: Action)
    requires
        a@ == b@,
    ensures
        a == b,
{
    match (a, b) {
        (Action::Selection(ranges_a), Action::Selection(ranges_b)) => {
            assert(ranges_a =~= ranges_b);
        },
        _ => {},
    }
}

/// The place of the first stretch, from `from` on, that holds `input`.
pub open spec fn first_holding(ranges: Seq<Range>, input: u8, from: int) -> Option<int>
    decreases ranges.len() - from,
{
    if from < 0 || from >= ranges.len() {
        None
    } else if ranges[from].spec_contains(input) {
        Some(from)
    } else {
        first_holding(ranges, input, from + 1)
    }
}

/// `first_holding` finds a stretch that holds the byte, and none before it
/// does; it finds none only where no stretch holds the byte.
pub proof fn lemma_first_holding(ranges: Seq<Range>, input: u8, from: int)
    requires
        0 <= from,
    ensures
        match first_holding(ranges, input, from) {
            Some(at) => from <= at < ranges.len() && ranges[at].spec_contains(input) && forall|
                i: int,
            |
                from <= i < at ==> !(#[trigger] ranges[i]).spec_contains(input),
            None => forall|i: int|
                from <= i < ranges.len() ==> !(#[trigger] ranges[i]).spec_contains(input),
        },
    decreases ranges.len() - from,
{
    if from < ranges.len() && !ranges[from].spec_contains(input) {
        lemma_first_holding(ranges, input, from + 1);
    }
}

impl Action {
    /// Whether two actions are alike: the same simple action, or the same
    /// stretches in the same order.
    pub fn same_as(&self, other: &Self) -> (r: bool)
        ensures
            r == (*self == *other),
    {
        match (self, other) {
            (Action::SimpleAction(a), Action::SimpleAction(b)) => a.same_as(b),
            (Action::Selection(a), Action::Selection(b)) => {
                if a.len() != b.len() {
                    return false;
                }
                let mut i: usize = 0;
                while i < a.len()
                    invariant
                        i <= a@.len(),
                        a@.len() == b@.len(),
                        *self == Action::Selection(*a),
                        *other == Action::Selection(*b),
                        forall|j: int| 0 <= j < i ==> a@[j] == b@[j],
                    decreases a@.len() - i,
                {
                    if !a[i].same_as(&b[i]) {
                        return false;
                    }
                    i += 1;
                }
                proof {
                    assert(*a =~= *b);
                }
                true
            },
            _ => false,
        }
    }

    /// The result of [`Action::scale`].
    pub open spec fn scaled(&self, input: u8, variable_selection: VariableSelection) -> Option<
        int,
    > {
        match self {
            Action::SimpleAction(action) => Some(action.scaled(input as u64, variable_selection)),
            Action::Selection(ranges) => match first_holding(ranges@, input, 0) {
                Some(at) => Some(ranges@[at].scaled(input as u64, variable_selection)),
                None => None,
            },
        }
    }

    /// The value that the channel turns the byte `input` into.
    ///
    /// A selection hands the byte to the stretch that holds it, the first
    /// such in the list should several overlap. A byte that no stretch
    /// holds has no meaning: the answer is `None`.
    pub fn scale(&self, input: u8, variable_selection: VariableSelection) -> (r: Option<u8>)
        ensures
            r is Some <==> self.scaled(input, variable_selection) is Some,
            r matches Some(value) ==> self.scaled(input, variable_selection) == Some(value as int),
    {
        match self {
            Action::SimpleAction(action) => Some(
                action.scale_to_range(input as u64, variable_selection),
            ),
            Action::Selection(ranges) => {
                let mut at: usize = 0;
                while at < ranges.len()
                    invariant
                        at <= ranges@.len(),
                        *self == Action::Selection(*ranges),
                        first_holding(ranges@, input, 0) == first_holding(ranges@, input, at as int),
                    decreases ranges@.len() - at,
                {
                    if ranges[at].contains(input) {
                        return Some(ranges[at].scale_to_range(input as u64, variable_selection));
                    }
                    at += 1;
                }
                None
            },
        }
    }
}

/// The meaning of a channel's byte. A larger byte means more of the action;
/// where a fixture has it the other way round, an inverted [`Range`] says so.
#[derive(Debug, Clone, PartialEq, Eq, PartialOrd, Ord, Hash)]
pub enum SimpleAction {
    NoOp,
    VariableChannelAction(VariableChannelAction),
    Speed,
    Strobo,
    SpinRight,
    SpinLeft,
    GOBOSelection,
    BeamZoom,
    IntensityMasterDimmer,
    IntensityColor(Color),
}

impl SimpleAction {
    /// Whether two actions are the same, parameters included.
    pub fn same_as(&self, other: &Self) -> (r: bool)
        ensures
            r == (*self == *other),
    {
        match (self, other) {
            (Self::NoOp, Self::NoOp) => true,
            (Self::VariableChannelAction(a), Self::VariableChannelAction(b)) => a.same_as(b),
            (Self::Speed, Self::Speed) => true,
            (Self::Strobo, Self::Strobo) => true,
            (Self::SpinRight, Self::SpinRight) => true,
            (Self::SpinLeft, Self::SpinLeft) => true,
            (Self::GOBOSelection, Self::GOBOSelection) => true,
            (Self::BeamZoom, Self::BeamZoom) => true,
            (Self::IntensityMasterDimmer, Self::IntensityMasterDimmer) => true,
            (Self::IntensityColor(a), Self::IntensityColor(b)) => *a == *b,
            _ => false,
        }
    }

    pub open spec fn spec_auto_conversion(&self) -> bool {
        self is VariableChannelAction
    }

    /// Whether the action converts the byte by a rule of its own.
    #[verifier::when_used_as_spec(spec_auto_conversion)]
    pub fn auto_conversion(&self) -> (r: bool)
        ensures
            r == self.spec_auto_conversion(),
    {
        matches!(self, Self::VariableChannelAction(_))
    }

    pub open spec fn spec_is_continuous(&self) -> bool {
        !(self is GOBOSelection || self is NoOp)
    }

    /// Whether different bytes have different effects.
    #[verifier::when_used_as_spec(spec_is_continuous)]
    pub fn is_continuous(&self) -> (r: bool)
        ensures
            r == self.spec_is_continuous(),
    {
        !matches!(self, Self::GOBOSelection | Self::NoOp)
    }

    /// The result of [`SimpleAction::scale_to_range`]: the low eight bits of
    /// the axis position for a position channel, of the input for any other.
    pub open spec fn scaled(&self, input: u64, variable_selection: VariableSelection) -> int {
        match self {
            SimpleAction::VariableChannelAction(var) => var.resolved(variable_selection).position(
                input,
            ) % 256,
            _ => input as int % 256,
        }
    }

    /// The byte that the action is driven with. An action without a rule of
    /// its own passes a channel byte through unchanged.
    pub fn scale_to_range(&self, input: u64, variable_selection: VariableSelection) -> (r: u8)
        ensures
            r == self.scaled(input, variable_selection),
            !self.spec_auto_conversion() && input <= u8::MAX ==> r == input,
    {
        let wide: u64 = match self {
            Self::VariableChannelAction(var) => var.resolve(variable_selection).scale_to_range(
                input,
            ),
            Self::NoOp
            | Self::Speed
            | Self::Strobo
            | Self::SpinRight
            | Self::SpinLeft
            | Self::GOBOSelection
            | Self::BeamZoom
            | Self::IntensityMasterDimmer
            | Self::IntensityColor(_) => input,
        };
        let low: u8 = #[verifier::truncate] (wide as u8);
        assert(low == wide % 256) by (bit_vector)
            requires
                low == wide as u8,
        ;
        low
    }
}

/// A colour component, in one of four colour models.
#[derive(Debug, Clone, Copy, PartialEq, Eq, PartialOrd, Ord, Hash, Structural)]
pub enum Color {
    Rgb(ColorRGB),
    Hsv(ColorHSV),
    Hsl(ColorHSL),
    Hsi(ColorHSI),
}

#[derive(Debug, Clone, Copy, PartialEq, Eq, PartialOrd, Ord, Hash, Structural)]
pub enum ColorRGB {
    Red,
    Green,
    Blue,
}

#[derive(Debug, Clone, Copy, PartialEq, Eq, PartialOrd, Ord, Hash, Structural)]
pub enum ColorHSV {
    Hue,
    Saturation,
    Value,
}

#[derive(Debug, Clone, Copy, PartialEq, Eq, PartialOrd, Ord, Hash, Structural)]
pub enum ColorHSL {
    Hue,
    Saturation,
    Lightness,
}

#[derive(Debug, Clone, Copy, PartialEq, Eq, PartialOrd, Ord, Hash, Structural)]
pub enum ColorHSI {
    Hue,
    Saturation,
    Intensity,
}

} // verus!
