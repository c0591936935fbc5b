//! A nine-bit unsigned integer: the number of a channel within one universe.

use core::cmp::Ordering;
use vstd::prelude::*;
use vstd::std_specs::cmp::PartialOrdSpecImpl;
use vstd::std_specs::convert::FromSpecImpl;
use vstd::std_specs::convert::TryFromSpecImpl;

verus! {

/// A channel number, `0 ..= 511`.
///
/// A value can only be made through [`TryFrom<u16>`] or [`From<u8>`], so one
/// that exists is always in range.
#[derive(Debug, Copy, Clone, PartialEq, Eq, Structural, Ord, Hash)]
pub struct U9(u16);

/// Why a number could not become a [`U9`].
#[derive(Debug, Copy, Clone, PartialEq, Eq, PartialOrd, Ord, Hash)]
pub enum ConvertError {
    /// The number is above 511.
    NumberTooBig(u16),
}

impl View for U9 {
    type V = u16;

    closed spec fn view(&self) -> u16 {
        self.0
    }
}

impl U9 {
    /// The largest channel number.
    pub const MAX: u16 = 511;

    #[verifier::type_invariant]
    spec fn in_range(self) -> bool {
        self.0 <= Self::MAX
    }

    /// The value that stands for `value`.
    pub closed spec fn of(value: u16) -> U9 {
        U9(value)
    }

    /// A value is known by its number: `of` undoes the view.
    pub broadcast proof fn lemma_of_view(self)
        ensures
            #[trigger] Self::of(self@) == self,
    {
    }

    /// The view undoes `of`.
    pub broadcast proof fn lemma_view_of(value: u16)
        ensures
            #[trigger] Self::of(value)@ == value,
    {
    }

    /// The number, which is at most 511.
    pub fn get(self) -> (r: u16)
        ensures
            r == self@,
            r <= Self::MAX,
    {
        proof {
            use_type_invariant(&self);
        }
        self.0
    }
}

/// How two numbers compare.
pub open spec fn compare(a: u16, b: u16) -> Ordering {
    if a < b {
        Ordering::Less
    } else if a == b {
        Ordering::Equal
    } else {
        Ordering::Greater
    }
}

impl PartialOrdSpecImpl for U9 {
    open spec fn obeys_partial_cmp_spec() -> bool {
        true
    }

    /// Channel numbers compare as their numbers do.
    open spec fn partial_cmp_spec(&self, other: &U9) -> Option<Ordering> {
        Some(compare(self@, other@))
    }
}

impl PartialOrd for U9 {
    fn partial_cmp(&self, other: &Self) -> (r: Option<Ordering>) {
        if self.0 < other.0 {
            Some(Ordering::Less)
        } else if self.0 == other.0 {
            Some(Ordering::Equal)
        } else {
            Some(Ordering::Greater)
        }
    }
}

/// Whether `a < b` holds of two channel numbers.
pub open spec fn is_below(a: U9, b: U9) -> bool {
    vstd::std_specs::cmp::PartialOrdSpec::partial_cmp_spec(&a, &b) == Some(Ordering::Less)
}

/// Channel numbers are in one line: of two, one is the smaller or they are
/// the same, and what is below a number is below all that the number is
/// below.
pub proof fn lemma_channel_numbers_are_in_order(a: U9, b: U9, c: U9)
    ensures
        is_below(a, b) || is_below(b, a) || a == b,
        !(is_below(a, b) && is_below(b, a)),
        !is_below(a, a),
        is_below(a, b) && is_below(b, c) ==> is_below(a, c),
{
}

impl TryFromSpecImpl<u16> for U9 {
    open spec fn obeys_try_from_spec() -> bool {
        true
    }

    open spec fn try_from_spec(value: u16) -> Result<Self, ConvertError> {
        if value <= U9::MAX {
            Ok(U9::of(value))
        } else {
            Err(ConvertError::NumberTooBig(value))
        }
    }
}

impl TryFrom<u16> for U9 {
    type Error = ConvertError;

    /// Succeeds exactly on `0 ..= 511`; a larger number comes back in the error.
    fn try_from(value: u16) -> (r: Result<Self, ConvertError>)
        ensures
            value <= U9::MAX ==> r is Ok && r->Ok_0@ == value,
            value > U9::MAX ==> r == Err::<U9, ConvertError>(ConvertError::NumberTooBig(value)),
    {
        if value <= Self::MAX {
            Ok(Self(value))
        } else {
            Err(ConvertError::NumberTooBig(value))
        }
    }
}

impl Default for U9 {
    /// Channel 0.
    fn default() -> (r: Self)
        ensures
            r@ == 0,
    {
        Self(0)
    }
}

impl FromSpecImpl<u8> for U9 {
    open spec fn obeys_from_spec() -> bool {
        true
    }

    open spec fn from_spec(value: u8) -> Self {
        U9::of(value as u16)
    }
}

impl From<u8> for U9 {
    /// Every byte is a channel number.
    fn from(value: u8) -> (r: Self)
        ensures
            r@ == value,
    {
        Self(value as u16)
    }
}

} // verus!
