//! Fixture templates and the devices made from them.

use crate::artnet::universe::InsertError;
use crate::sharing::share;
use crate::sharing::share_items;
use crate::text::same_text;
use crate::text::texts;
use crate::u9::U9;
use channel::lemma_action_by_view;
use channel::plan;
use channel::ActionModel;
use channel::Channel;
use std::sync::Arc;
use vstd::prelude::*;

pub mod channel;
pub mod variables;

verus! {

/// A kind of lighting instrument: who makes it, what it is called, and what
/// each of its channels does. A template is never changed; devices and the
/// catalogue share it.
#[derive(Debug, Clone, PartialEq, Eq, PartialOrd, Ord, Hash)]
pub struct Fixture {
    pub manufacturer: Arc<str>,
    /// Where the catalogue files the fixture below its manufacturer.
    pub extra_path: Arc<[Arc<str>]>,
    pub model: Arc<str>,
    pub kind: Arc<str>,
    /// The channels in order: a channel's index is its offset from the start
    /// channel of a device.
    pub channels: Arc<[Channel]>,
}

/// A fixture as a value: its names as texts, and what each of its channels
/// does.
#[verifier::ext_equal]
pub struct FixtureModel {
    pub manufacturer: Seq<char>,
    pub extra_path: Seq<Seq<char>>,
    pub model: Seq<char>,
    pub kind: Seq<char>,
    pub channels: Seq<ActionModel>,
}

impl View for Fixture {
    type V = FixtureModel;

    open spec fn view(&self) -> FixtureModel {
        FixtureModel {
            manufacturer: self.manufacturer@,
            extra_path: texts(self.extra_path@),
            model: self.model@,
            kind: self.kind@,
            channels: plan(self.channels@),
        }
    }
}

impl Fixture {
    /// A fixture that the catalogue files directly below its manufacturer.
    pub fn new(manufacturer: Arc<str>, model: Arc<str>, kind: Arc<str>, channels: Arc<[Channel]>) -> (r:
        Self)
        ensures
            r.manufacturer == manufacturer,
            r.extra_path@.len() == 0,
            r.model == model,
            r.kind == kind,
            r.channels == channels,
    {
        Self::new_path(manufacturer, share_items(Vec::new()), model, kind, channels)
    }

    pub fn new_path(
        manufacturer: Arc<str>,
        extra_path: Arc<[Arc<str>]>,
        model: Arc<str>,
        kind: Arc<str>,
        channels: Arc<[Channel]>,
    ) -> (r: Self)
        ensures
            r == (Fixture { manufacturer, extra_path, model, kind, channels }),
    {
        Self { manufacturer, extra_path, model, kind, channels }
    }

    pub fn get_manufacturer(&self) -> (r: &Arc<str>)
        ensures
            *r == self.manufacturer,
    {
        &self.manufacturer
    }

    pub fn get_model(&self) -> (r: &Arc<str>)
        ensures
            *r == self.model,
    {
        &self.model
    }

    pub fn get_type(&self) -> (r: &Arc<str>)
        ensures
            *r == self.kind,
    {
        &self.kind
    }

    pub fn get_channels(&self) -> (r: &Arc<[Channel]>)
        ensures
            *r == self.channels,
    {
        &self.channels
    }

    /// Where the catalogue files the fixture: the manufacturer, then the
    /// extra path.
    pub open spec fn path(&self) -> Seq<Arc<str>> {
        seq![self.manufacturer] + self.extra_path@
    }

    pub fn get_path(&self) -> (r: Arc<[Arc<str>]>)
        ensures
            r@ == self.path(),
    {
        let mut path: Vec<Arc<str>> = Vec::new();
        path.push(share(&self.manufacturer));
        let mut i: usize = 0;
        while i < self.extra_path.len()
            invariant
                i <= self.extra_path@.len(),
                path@ == seq![self.manufacturer] + self.extra_path@.take(i as int),
            decreases self.extra_path@.len() - i,
        {
            path.push(share(&self.extra_path[i]));
            proof {
                assert(self.extra_path@.take(i + 1) =~= self.extra_path@.take(i as int).push(
                    self.extra_path@[i as int],
                ));
            }
            i += 1;
        }
        proof {
            assert(self.extra_path@.take(i as int) =~= self.extra_path@);
        }
        share_items(path)
    }

    /// The highest start channel that the fixture's size leaves open, were
    /// it alone in a universe: `511 - channels`, and 0 for a fixture of 511
    /// channels or more.
    pub open spec fn spec_max_start_channel(&self) -> int {
        if self.channels@.len() >= U9::MAX {
            0
        } else {
            U9::MAX - self.channels@.len()
        }
    }

    pub fn max_start_channel(&self) -> (r: U9)
        ensures
            r@ == self.spec_max_start_channel(),
    {
        let count = self.channels.len();
        let highest: u16 = if count >= U9::MAX as usize {
            0
        } else {
            U9::MAX - count as u16
        };
        match U9::try_from(highest) {
            Ok(channel) => channel,
            Err(_) => U9::from(0u8),
        }
    }

    /// Whether two fixtures are the same template: the same names and the
    /// same channels.
    pub fn same_as(&self, other: &Fixture) -> (r: bool)
        ensures
            r == (self@ == other@),
    {
        if !same_text(&self.manufacturer, &other.manufacturer) {
            return false;
        }
        if !same_text(&self.model, &other.model) {
            return false;
        }
        if !same_text(&self.kind, &other.kind) {
            return false;
        }
        if self.extra_path.len() != other.extra_path.len() {
            assert(self@.extra_path.len() != other@.extra_path.len());
            return false;
        }
        if self.channels.len() != other.channels.len() {
            assert(self@.channels.len() != other@.channels.len());
            return false;
        }
        let mut i: usize = 0;
        while i < self.extra_path.len()
            invariant
                i <= self.extra_path@.len(),
                self.extra_path@.len() == other.extra_path@.len(),
                forall|j: int| 0 <= j < i ==> self.extra_path@[j]@ == other.extra_path@[j]@,
            decreases self.extra_path@.len() - i,
        {
            if !same_text(&self.extra_path[i], &other.extra_path[i]) {
                assert(self@.extra_path[i as int] != other@.extra_path[i as int]);
                return false;
            }
            i += 1;
        }
        let mut k: usize = 0;
        while k < self.channels.len()
            invariant
                k <= self.channels@.len(),
                self.channels@.len() == other.channels@.len(),
                forall|j: int| 0 <= j < k ==> self.channels@[j] == other.channels@[j],
            decreases self.channels@.len() - k,
        {
            if !self.channels[k].same_as(&other.channels[k]) {
                proof {
                    if self@.channels[k as int] == other@.channels[k as int] {
                        lemma_action_by_view(
                            self.channels@[k as int].action,
                            other.channels@[k as int].action,
                        );
                    }
                }
                return false;
            }
            k += 1;
        }
        proof {
            assert(self@.extra_path =~= other@.extra_path);
            assert(self@.channels =~= other@.channels);
            assert(self@ =~= other@);
        }
        true
    }
}

/// Why a number is not the number of a channel.
#[derive(Debug, Copy, Clone, PartialEq, Eq, PartialOrd, Ord, Hash)]
pub enum ChannelError {
    /// The number is above 511.
    ChannelIdTooHigh(u16),
}

/// A fixture placed in a universe: it takes up as many channels as its
/// fixture has, from its start channel on.
///
/// A device is never changed. `end_channel` is the channel after its last,
/// and lies within the channel numbers too: the channels of a device are
/// `start_channel .. end_channel`, and `end_channel` is at most 511.
#[derive(Debug, PartialEq, Eq, PartialOrd, Ord)]
pub struct Device {
    name: Arc<str>,
    start_id: U9,
    end_id: U9,
    fixture: Arc<Fixture>,
}

/// A device as a value.
#[verifier::ext_equal]
pub struct DeviceModel {
    pub name: Seq<char>,
    /// The first channel.
    pub start: int,
    /// The channel after the last.
    pub end: int,
    pub fixture: FixtureModel,
}

impl DeviceModel {
    /// What holds of every device: it ends where its fixture's channels end,
    /// and that is a channel number.
    pub open spec fn wf(self) -> bool {
        &&& 0 <= self.start
        &&& self.end == self.start + self.fixture.channels.len()
        &&& self.end <= U9::MAX
    }
}

/// The channel after the last of a device, as far as 64 bits reach.
pub open spec fn end_id(start: int, channels: int) -> u64 {
    if start + channels > u64::MAX {
        u64::MAX
    } else {
        (start + channels) as u64
    }
}

/// The device that `Device::new_u16` makes or the reason why it makes none.
pub open spec fn placement(name: Seq<char>, start: int, fixture: FixtureModel) -> Result<
    DeviceModel,
    InsertError,
> {
    if start > U9::MAX {
        Err(InsertError::StartIdTooBig(start as u16))
    } else if start + fixture.channels.len() > U9::MAX {
        Err(InsertError::EndIdTooBig(end_id(start, fixture.channels.len() as int)))
    } else {
        Ok(DeviceModel { name, start, end: start + fixture.channels.len(), fixture })
    }
}

/// A fixture can be placed at a start channel exactly if the start is no
/// higher than the fixture's highest start, and the fixture has no more
/// than 511 channels.
pub proof fn lemma_placement_fits(name: Seq<char>, start: int, fixture: Fixture)
    requires
        0 <= start <= U9::MAX,
    ensures
        placement(name, start, fixture@) is Ok <==> start <= fixture.spec_max_start_channel()
            && fixture.channels@.len() <= U9::MAX,
{
}

impl View for Device {
    type V = DeviceModel;

    closed spec fn view(&self) -> DeviceModel {
        DeviceModel {
            name: self.name@,
            start: self.start_id@ as int,
            end: self.end_id@ as int,
            fixture: self.fixture@,
        }
    }
}

impl Clone for Device {
    /// The same device again; the fixture is shared, not copied.
    fn clone(&self) -> (r: Self)
        ensures
            r@ == self@,
    {
        proof {
            use_type_invariant(self);
        }
        Self {
            name: share(&self.name),
            start_id: self.start_id,
            end_id: self.end_id,
            fixture: share(&self.fixture),
        }
    }
}

impl Device {
    #[verifier::type_invariant]
    spec fn inv(self) -> bool {
        self@.wf()
    }

    /// Places a fixture at a start channel given as a plain number.
    ///
    /// Fails with `StartIdTooBig` where the start is above 511, else with
    /// `EndIdTooBig` where the fixture's channels would reach past 511.
    pub fn new_u16(name: Arc<str>, start_id: u16, fixture: Arc<Fixture>) -> (r: Result<
        Self,
        InsertError,
    >)
        ensures
            match placement(name@, start_id as int, fixture@) {
                Ok(device) => r is Ok && r->Ok_0@ == device,
                Err(error) => r == Err::<Device, InsertError>(error),
            },
    {
        match U9::try_from(start_id) {
            Ok(start) => Self::new(name, start, fixture),
            Err(_) => Err(InsertError::StartIdTooBig(start_id)),
        }
    }

    /// Places a fixture at a start channel.
    ///
    /// Fails with `EndIdTooBig` where the fixture's channels would reach
    /// past 511.
    pub fn new(name: Arc<str>, start_id: U9, fixture: Arc<Fixture>) -> (r: Result<Self, InsertError>)
        ensures
            match placement(name@, start_id@ as int, fixture@) {
                Ok(device) => r is Ok && r->Ok_0@ == device,
                Err(error) => r == Err::<Device, InsertError>(error),
            },
    {
        let start = start_id.get();
        let count = fixture.channels.len();
        if count > (U9::MAX - start) as usize {
            return Err(InsertError::EndIdTooBig((start as u64).saturating_add(count as u64)));
        }
        let end = start + count as u16;
        match U9::try_from(end) {
            Ok(end_id) => Ok(Self { name, start_id, end_id, fixture }),
            Err(_) => Err(InsertError::EndIdTooBig(end as u64)),
        }
    }

    pub fn name(&self) -> (r: &Arc<str>)
        ensures
            r@ == self@.name,
    {
        &self.name
    }

    pub fn fixture(&self) -> (r: &Arc<Fixture>)
        ensures
            r@ == self@.fixture,
    {
        &self.fixture
    }

    /// The first channel of the device.
    pub fn start_channel(&self) -> (r: U9)
        ensures
            r@ == self@.start,
            self@.wf(),
    {
        proof {
            use_type_invariant(self);
        }
        self.start_id
    }

    /// The channel after the last of the device.
    pub fn end_channel(&self) -> (r: U9)
        ensures
            r@ == self@.end,
            self@.wf(),
    {
        proof {
            use_type_invariant(self);
        }
        self.end_id
    }
}

} // verus!
