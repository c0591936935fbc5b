//! Channel parameters that a fixture offers in several variants, and the
//! channel actions that depend on one.

use crate::degree::scale_deg;
use crate::degree::scaled;
use std::sync::Arc;
use vstd::prelude::*;

verus! {

/// A parameter of a fixture: fixed, or one of a list of presets.
#[derive(Debug, Clone, PartialEq, Eq, PartialOrd, Ord, Hash)]
pub enum Variable<T> {
    /// The parameter has this value, whatever is selected.
    Fixed(T),
    /// The presets to choose from by index, and the value used when nothing
    /// valid is chosen.
    Selection(Arc<[T]>, T),
}

impl<T> Variable<T> {
    /// The value that `index` stands for: the fixed value; else the preset at
    /// `index`; else, with no index or one past the presets, the default.
    pub open spec fn selected(&self, index: Option<usize>) -> T {
        match self {
            Variable::Fixed(value) => *value,
            Variable::Selection(values, default) => match index {
                Some(i) if i < values@.len() => values@[i as int],
                _ => *default,
            },
        }
    }

    /// Resolves the parameter. This never fails: an index that names no
    /// preset gives the default.
    pub fn select(&self, index: Option<usize>) -> (r: &T)
        ensures
            *r == self.selected(index),
    {
        match self {
            Variable::Fixed(value) => value,
            Variable::Selection(values, default) => match index {
                Some(i) => if i < values.len() {
                    &values[i]
                } else {
                    default
                },
                None => default,
            },
        }
    }
}

impl Variable<u64> {
    /// Whether two parameters are alike: both fixed at one value, or both a
    /// choice among the same presets with the same default.
    pub fn same_as(&self, other: &Self) -> (r: bool)
        ensures
            r == (*self == *other),
    {
        match (self, other) {
            (Variable::Fixed(a), Variable::Fixed(b)) => *a == *b,
            (Variable::Selection(a, default_a), Variable::Selection(b, default_b)) => {
                if *default_a != *default_b || a.len() != b.len() {
                    return false;
                }
                let mut i: usize = 0;
                while i < a.len()
                    invariant
                        i <= a@.len(),
                        a@.len() == b@.len(),
                        *self == Variable::Selection(*a, *default_a),
                        *other == Variable::Selection(*b, *default_b),
                        forall|j: int| 0 <= j < i ==> a@[j] == b@[j],
                    decreases a@.len() - i,
                {
                    if a[i] != b[i] {
                        return false;
                    }
                    i += 1;
                }
                proof {
                    assert(*a =~= *b);
                }
                true
            },
            _ => false,
        }
    }
}

/// Which preset is chosen for each parameter of a moving fixture.
#[derive(Debug, Copy, Clone, PartialEq, Eq, PartialOrd, Ord, Hash)]
pub struct VariableSelection {
    pub pan: Option<usize>,
    pub panfine: Option<usize>,
    pub tilt: Option<usize>,
    pub tiltfine: Option<usize>,
}

impl VariableSelection {
    pub fn new(
        pan: Option<usize>,
        panfine: Option<usize>,
        tilt: Option<usize>,
        tiltfine: Option<usize>,
    ) -> (r: Self)
        ensures
            r == (VariableSelection { pan, panfine, tilt, tiltfine }),
    {
        Self { pan, panfine, tilt, tiltfine }
    }
}

/// A position channel whose full travel depends on a fixture parameter.
/// The parameter is the travel in micro-arc-seconds.
#[derive(Debug, Clone, PartialEq, Eq, PartialOrd, Ord, Hash)]
pub enum VariableChannelAction {
    PositionPan(Variable<u64>),
    PositionPanFine(Variable<u64>),
    PositionTilt(Variable<u64>),
    PositionTiltFine(Variable<u64>),
}

impl VariableChannelAction {
    /// The action with its parameter resolved: each axis reads its own entry
    /// of the selection.
    pub open spec fn resolved(&self, selection: VariableSelection) -> ResolvedVariableChannelAction {
        match self {
            VariableChannelAction::PositionPan(v) => ResolvedVariableChannelAction::PositionPan(
                v.selected(selection.pan),
            ),
            VariableChannelAction::PositionPanFine(v) => ResolvedVariableChannelAction::PositionPanFine(
                v.selected(selection.panfine),
            ),
            VariableChannelAction::PositionTilt(v) => ResolvedVariableChannelAction::PositionTilt(
                v.selected(selection.tilt),
            ),
            VariableChannelAction::PositionTiltFine(v) => ResolvedVariableChannelAction::PositionTiltFine(
                v.selected(selection.tiltfine),
            ),
        }
    }

    /// Whether two actions move the same axis by the same parameter.
    pub fn same_as(&self, other: &Self) -> (r: bool)
        ensures
            r == (*self == *other),
    {
        match (self, other) {
            (Self::PositionPan(a), Self::PositionPan(b)) => a.same_as(b),
            (Self::PositionPanFine(a), Self::PositionPanFine(b)) => a.same_as(b),
            (Self::PositionTilt(a), Self::PositionTilt(b)) => a.same_as(b),
            (Self::PositionTiltFine(a), Self::PositionTiltFine(b)) => a.same_as(b),
            _ => false,
        }
    }

    pub fn resolve(&self, variable_selection: VariableSelection) -> (r:
        ResolvedVariableChannelAction)
        ensures
            r == self.resolved(variable_selection),
    {
        match self {
            Self::PositionPan(v) => ResolvedVariableChannelAction::PositionPan(
                *v.select(variable_selection.pan),
            ),
            Self::PositionPanFine(v) => ResolvedVariableChannelAction::PositionPanFine(
                *v.select(variable_selection.panfine),
            ),
            Self::PositionTilt(v) => ResolvedVariableChannelAction::PositionTilt(
                *v.select(variable_selection.tilt),
            ),
            Self::PositionTiltFine(v) => ResolvedVariableChannelAction::PositionTiltFine(
                *v.select(variable_selection.tiltfine),
            ),
        }
    }
}

/// A position channel with its full travel known, in micro-arc-seconds.
#[derive(Debug, Copy, Clone, PartialEq, Eq, PartialOrd, Ord, Hash)]
pub enum ResolvedVariableChannelAction {
    PositionPan(u64),
    PositionPanFine(u64),
    PositionTilt(u64),
    PositionTiltFine(u64),
}

impl ResolvedVariableChannelAction {
    /// The full travel of the axis.
    pub open spec fn range(&self) -> u64 {
        match self {
            ResolvedVariableChannelAction::PositionPan(range) => *range,
            ResolvedVariableChannelAction::PositionPanFine(range) => *range,
            ResolvedVariableChannelAction::PositionTilt(range) => *range,
            ResolvedVariableChannelAction::PositionTiltFine(range) => *range,
        }
    }

    /// Where the axis stands for a channel value: `range * input / 256`,
    /// rounded towards zero, of which the low 64 bits are kept. For a channel
    /// byte nothing is cut off, see [`lemma_byte_stays_within_travel`].
    pub open spec fn position(&self, input: u64) -> int {
        scaled(input as int, 256, self.range() as int) % 0x1_0000_0000_0000_0000
    }

    pub fn scale_to_range(&self, input: u64) -> (r: u64)
        ensures
            r == self.position(input),
    {
        match self {
            Self::PositionPan(range)
            | Self::PositionPanFine(range)
            | Self::PositionTilt(range)
            | Self::PositionTiltFine(range) => scale_deg(input, 256, *range),
        }
    }
}

/// A channel byte moves the axis to `range * input / 256` exactly, which lies
/// below the full travel.
pub proof fn lemma_byte_stays_within_travel(action: ResolvedVariableChannelAction, input: u64)
    requires
        input <= u8::MAX,
    ensures
        action.position(input) == action.range() * input / 256,
        action.position(input) <= action.range(),
        action.range() > 0 ==> action.position(input) < action.range(),
{
    let range = action.range() as int;
    let input = input as int;
    assert(input * range == range * input) by (nonlinear_arith);
    assert(0 <= range * input <= range * 255) by (nonlinear_arith)
        requires
            0 <= input <= 255,
            0 <= range,
    ;
}

} // verus!
