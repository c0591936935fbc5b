//! Universes: their numbers, and what is placed on the channels of each.

use crate::artnet::fixture::Device;
use crate::artnet::fixture::DeviceModel;
use crate::u9::compare;
use crate::u9::U9;
use core::cmp::Ordering;
use std::slice::Iter;
use vstd::prelude::*;
use vstd::std_specs::cmp::PartialOrdSpecImpl;
use vstd::std_specs::convert::TryFromSpecImpl;
use vstd::std_specs::iter::IteratorSpec;

verus! {

/// The number of a universe, `0 ..= 32767`: fifteen bits.
///
/// A value can only be made through [`TryFrom<u16>`], so one that exists is
/// always in range.
#[derive(Debug, Copy, Clone, PartialEq, Eq, Structural, Ord, Hash)]
pub struct UniverseId(u16);

/// Why a number is not the number of a universe.
#[derive(Debug, Copy, Clone, PartialEq, Eq, PartialOrd, Ord, Hash)]
pub enum UniverseError {
    /// The number is above 32767.
    UniverseIdTooHigh(u16),
}

impl View for UniverseId {
    type V = u16;

    closed spec fn view(&self) -> u16 {
        self.0
    }
}

impl UniverseId {
    /// The largest universe number.
    pub const MAX: u16 = 32767;

    #[verifier::type_invariant]
    spec fn in_range(self) -> bool {
        self.0 <= Self::MAX
    }

    /// The value that stands for `value`.
    pub closed spec fn of(value: u16) -> UniverseId {
        UniverseId(value)
    }

    /// A value is known by its number: `of` undoes the view.
    pub broadcast proof fn lemma_of_view(self)
        ensures
            #[trigger] Self::of(self@) == self,
    {
    }

    /// The view undoes `of`.
    pub broadcast proof fn lemma_view_of(value: u16)
        ensures
            #[trigger] Self::of(value)@ == value,
    {
    }

    /// The number, which is at most 32767.
    pub fn get(self) -> (r: u16)
        ensures
            r == self@,
            r <= Self::MAX,
    {
        proof {
            use_type_invariant(&self);
        }
        self.0
    }
}

impl PartialOrdSpecImpl for UniverseId {
    open spec fn obeys_partial_cmp_spec() -> bool {
        true
    }

    /// Universe numbers compare as their numbers do.
    open spec fn partial_cmp_spec(&self, other: &UniverseId) -> Option<Ordering> {
        Some(compare(self@, other@))
    }
}

impl PartialOrd for UniverseId {
    fn partial_cmp(&self, other: &Self) -> (r: Option<Ordering>) {
        if self.0 < other.0 {
            Some(Ordering::Less)
        } else if self.0 == other.0 {
            Some(Ordering::Equal)
        } else {
            Some(Ordering::Greater)
        }
    }
}

/// Whether `a < b` holds of two universe numbers.
pub open spec fn is_below(a: UniverseId, b: UniverseId) -> bool {
    vstd::std_specs::cmp::PartialOrdSpec::partial_cmp_spec(&a, &b) == Some(Ordering::Less)
}

/// Universe numbers are in one line: of two, one is the smaller or they
/// are the same, and what is below a number is below all that the number is
/// below.
pub proof fn lemma_universe_numbers_are_in_order(a: UniverseId, b: UniverseId, c: UniverseId)
    ensures
        is_below(a, b) || is_below(b, a) || a == b,
        !(is_below(a, b) && is_below(b, a)),
        !is_below(a, a),
        is_below(a, b) && is_below(b, c) ==> is_below(a, c),
{
}

impl TryFromSpecImpl<u16> for UniverseId {
    open spec fn obeys_try_from_spec() -> bool {
        true
    }

    open spec fn try_from_spec(value: u16) -> Result<Self, UniverseError> {
        if value <= UniverseId::MAX {
            Ok(UniverseId::of(value))
        } else {
            Err(UniverseError::UniverseIdTooHigh(value))
        }
    }
}

impl TryFrom<u16> for UniverseId {
    type Error = UniverseError;

    /// Succeeds exactly on `0 ..= 32767`; a larger number comes back in the
    /// error.
    fn try_from(value: u16) -> (r: Result<Self, UniverseError>)
        ensures
            value <= UniverseId::MAX ==> r is Ok && r->Ok_0@ == value,
            value > UniverseId::MAX ==> r == Err::<UniverseId, UniverseError>(
                UniverseError::UniverseIdTooHigh(value),
            ),
    {
        if value <= Self::MAX {
            Ok(Self(value))
        } else {
            Err(UniverseError::UniverseIdTooHigh(value))
        }
    }
}

/// One value for each of the 512 channels of a universe.
#[derive(Debug, Clone, PartialEq, Eq, PartialOrd, Ord, Hash)]
pub struct UniverseChannels<T> {
    channels: UniverseChannelData<T>,
}

/// The 512 values in 16 rows of 32.
#[derive(Debug, Clone, PartialEq, Eq, PartialOrd, Ord, Hash)]
struct UniverseChannelData<T>([[T; 32]; 16]);

impl<T> UniverseChannelData<T> {
    /// The values by channel number.
    spec fn cells(&self) -> Seq<T> {
        Seq::new(512, |channel: int| self.0@[channel / 32]@[channel % 32])
    }

    fn get(&self, index: U9) -> (r: &T)
        ensures
            index@ <= U9::MAX,
            *r == self.cells()[index@ as int],
    {
        let index: u16 = index.get();
        assert((index / 32) & 0x0F == index / 32) by (bit_vector)
            requires
                index <= 511,
        ;
        &self.0[((index / 32) & 0x0F) as usize][(index % 32) as usize]
    }

    fn get_mut(&mut self, index: U9) -> (r: &mut T)
        ensures
            index@ <= U9::MAX,
            *r == old(self).cells()[index@ as int],
            final(self).cells() == old(self).cells().update(index@ as int, *final(r)),
    {
        let index: u16 = index.get();
        assert((index / 32) & 0x0F == index / 32) by (bit_vector)
            requires
                index <= 511,
        ;
        &mut self.0[((index / 32) & 0x0F) as usize][(index % 32) as usize]
    }
}

impl<T> View for UniverseChannels<T> {
    type V = Seq<T>;

    /// The values by channel number.
    closed spec fn view(&self) -> Seq<T> {
        self.channels.cells()
    }
}

impl<T> UniverseChannels<T> {
    /// A table has 512 values.
    pub proof fn lemma_len(&self)
        ensures
            self@.len() == 512,
    {
    }

    /// The value of a channel.
    pub fn get(&self, index: U9) -> (r: &T)
        ensures
            index@ < self@.len(),
            *r == self@[index@ as int],
    {
        self.channels.get(index)
    }

    /// The value of a channel, to be changed in place. No other channel
    /// changes with it.
    pub fn get_mut(&mut self, index: U9) -> (r: &mut T)
        ensures
            index@ < old(self)@.len(),
            *r == old(self)@[index@ as int],
            final(self)@ == old(self)@.update(index@ as int, *final(r)),
    {
        self.channels.get_mut(index)
    }
}

/// The 512 values that a new table starts with.
///
/// Calls `Default::default` for the array of rows. std builds an array of
/// defaults item by item from `T::default`: every value of the result is
/// one that `T::default` returned.
#[verifier::external_body]
fn default_rows<T: Default>() -> (rows: [[T; 32]; 16])
    ensures
        forall|row: int, column: int|
            0 <= row < 16 && 0 <= column < 32 ==> call_ensures(
                T::default,
                (),
                #[trigger] rows@[row]@[column],
            ),
{
    Default::default()
}

impl<T: Default> Default for UniverseChannels<T> {
    /// A table with the default value on every channel.
    fn default() -> (r: Self)
        ensures
            r@.len() == 512,
            forall|channel: int| 0 <= channel < 512 ==> call_ensures(T::default, (), #[trigger] r@[channel]),
    {
        Self { channels: UniverseChannelData(default_rows()) }
    }
}

/// One value for each universe, by universe number. The list reaches as far
/// as the highest universe that was asked for, and never gets shorter.
#[derive(Debug, Clone, PartialEq, Eq, PartialOrd, Ord, Hash)]
pub struct Universes<T> {
    data: Vec<T>,
}

impl<T> View for Universes<T> {
    type V = Seq<T>;

    closed spec fn view(&self) -> Seq<T> {
        self.data@
    }
}

impl<T> Default for Universes<T> {
    /// No universe yet.
    fn default() -> (r: Self)
        ensures
            r@ == Seq::<T>::empty(),
    {
        Self { data: Vec::new() }
    }
}

/// How a list of universes gets long enough for universe `universe`: it
/// reaches one past that number if it did not already, the universes it had
/// stay, and each new one is a value that `T::default` returned.
pub open spec fn grown<T: Default>(before: Seq<T>, after: Seq<T>, universe: int) -> bool {
    &&& after.len() == if before.len() > universe {
        before.len() as int
    } else {
        universe + 1
    }
    &&& forall|i: int| 0 <= i < before.len() ==> after[i] == before[i]
    &&& forall|i: int| before.len() <= i < after.len() ==> call_ensures(T::default, (), #[trigger] after[i])
}

impl<T: Default> Universes<T> {
    fn ensure_size(&mut self, universe: UniverseId)
        ensures
            grown(old(self)@, final(self)@, universe@ as int),
    {
        let wanted: usize = universe.get() as usize + 1;
        while self.data.len() < wanted
            invariant
                wanted == universe@ + 1,
                old(self)@.len() <= self.data@.len(),
                self.data@.len() <= wanted || self.data@.len() == old(self)@.len(),
                forall|i: int| 0 <= i < old(self)@.len() ==> self.data@[i] == old(self)@[i],
                forall|i: int|
                    old(self)@.len() <= i < self.data@.len() ==> call_ensures(
                        T::default,
                        (),
                        #[trigger] self.data@[i],
                    ),
            decreases wanted - self.data@.len(),
        {
            self.data.push(T::default());
        }
    }

    /// The value of a universe, to be changed in place. Where the list does
    /// not reach that far yet, it is first filled up to that universe with
    /// default values (see [`grown`]).
    ///
    /// No other universe changes: what the list holds afterwards is the
    /// grown list with this one value replaced by what the caller made of it.
    pub fn create_or_get_universe(&mut self, universe: UniverseId) -> (slot: &mut T)
        ensures
            universe@ <= UniverseId::MAX,
            final(self)@.len() == if old(self)@.len() > universe@ {
                old(self)@.len() as int
            } else {
                universe@ + 1
            },
            universe@ < old(self)@.len() ==> *slot == old(self)@[universe@ as int],
            universe@ >= old(self)@.len() ==> call_ensures(T::default, (), *slot),
            final(self)@[universe@ as int] == *final(slot),
            forall|i: int|
                0 <= i < old(self)@.len() && i != universe@ ==> final(self)@[i] == old(self)@[i],
            forall|i: int|
                old(self)@.len() <= i < final(self)@.len() && i != universe@ ==> call_ensures(
                    T::default,
                    (),
                    #[trigger] final(self)@[i],
                ),
    {
        self.ensure_size(universe);
        let index: usize = universe.get() as usize;
        &mut self.data[index]
    }
}

impl<T> Universes<T> {
    /// Whether no universe was ever asked for.
    pub fn is_empty(&self) -> (r: bool)
        ensures
            r == (self@.len() == 0),
    {
        self.data.len() == 0
    }

    /// How far the list reaches: one past the highest universe it holds.
    pub fn len(&self) -> (r: usize)
        ensures
            r == self@.len(),
    {
        self.data.len()
    }

    /// The values by universe number, from universe 0 on.
    pub fn iter(&self) -> (r: Iter<'_, T>)
        ensures
            r.remaining().len() == self@.len(),
            forall|i: int| 0 <= i < self@.len() ==> *(#[trigger] r.remaining()[i]) == self@[i],
    {
        self.data.iter()
    }

    /// The value of universe `index`, to be changed in place, if the list
    /// reaches that far. Nothing else changes.
    pub fn get_mut(&mut self, index: usize) -> (r: Option<&mut T>)
        ensures
            index >= old(self)@.len() ==> r is None && final(self)@ == old(self)@,
            index < old(self)@.len() ==> r is Some && *r.unwrap() == old(self)@[index as int]
                && final(self)@ == old(self)@.update(index as int, *final(r.unwrap())),
    {
        if index < self.data.len() {
            Some(&mut self.data[index])
        } else {
            None
        }
    }
}

/// Why a device cannot stand where it was asked to.
#[derive(Debug, Copy, Clone, PartialEq, Eq, PartialOrd, Ord, Hash)]
pub enum InsertError {
    /// The first channel, given here, is above 511.
    StartIdTooBig(u16),
    /// The channel after the last, given here, is above 511.
    EndIdTooBig(u64),
    /// A device that is already placed stands in the way.
    ChannelAlreadyAssigned,
}

/// Whether a list of devices is in placement order: every device sound,
/// the start channels strictly rising, and no device reaching past the start
/// of a later one. No channel then belongs to two devices.
pub open spec fn placed(devices: Seq<DeviceModel>) -> bool {
    &&& forall|i: int| 0 <= i < devices.len() ==> (#[trigger] devices[i]).wf()
    &&& forall|i: int, j: int|
        0 <= i < j < devices.len() ==> (#[trigger] devices[i]).start < (#[trigger] devices[j]).start
            && devices[i].end <= devices[j].start
}

/// Whether the placed device `placed` stands in the way of `device`.
///
/// It does where `device` would start on one of its channels or on the
/// channel after its last, and where it starts on a channel of `device`
/// after the first.
pub open spec fn blocks(placed: DeviceModel, device: DeviceModel) -> bool {
    ||| placed.start <= device.start <= placed.end
    ||| device.start < placed.start < device.end
}

/// Whether any device of the list stands in the way of `device`.
pub open spec fn collides(devices: Seq<DeviceModel>, device: DeviceModel) -> bool {
    exists|i: int| 0 <= i < devices.len() && blocks(#[trigger] devices[i], device)
}

/// How many devices of the list start before the channel `start`: in a
/// placed list, the index at which a device starting there belongs.
pub open spec fn starting_before(devices: Seq<DeviceModel>, start: int) -> int
    decreases devices.len(),
{
    if devices.len() == 0 {
        0
    } else {
        starting_before(devices.drop_last(), start) + if devices.last().start < start {
            1int
        } else {
            0int
        }
    }
}

/// In a list with rising start channels, the devices that start before a
/// channel are those up to the first that does not.
pub proof fn lemma_starting_before(devices: Seq<DeviceModel>, start: int, at: int)
    requires
        0 <= at <= devices.len(),
        forall|i: int| 0 <= i < at ==> (#[trigger] devices[i]).start < start,
        forall|i: int| at <= i < devices.len() ==> (#[trigger] devices[i]).start >= start,
    ensures
        starting_before(devices, start) == at,
    decreases devices.len(),
{
    if devices.len() > 0 {
        let front = devices.drop_last();
        if at == devices.len() {
            lemma_starting_before(front, start, at - 1);
        } else {
            lemma_starting_before(front, start, at);
        }
    }
}

/// Two devices of a placed list share no channel.
pub proof fn lemma_placed_devices_are_disjoint(devices: Seq<DeviceModel>, i: int, j: int, channel: int)
    requires
        placed(devices),
        0 <= i < devices.len(),
        0 <= j < devices.len(),
        i != j,
        devices[i].start <= channel < devices[i].end,
    ensures
        !(devices[j].start <= channel < devices[j].end),
{
    if i < j {
        assert(devices[i].end <= devices[j].start);
    } else {
        assert(devices[j].end <= devices[i].start);
    }
}

/// A device stands in its own way: once it is placed, placing it again is
/// refused.
pub proof fn lemma_placed_device_blocks_itself(devices: Seq<DeviceModel>, device: DeviceModel)
    requires
        device.wf(),
    ensures
        blocks(device, device),
        collides(devices.insert(starting_before(devices, device.start), device), device),
{
    lemma_starting_before_in_range(devices, device.start);
    let at = starting_before(devices, device.start);
    assert(devices.insert(at, device)[at] == device);
}

/// The number of devices that start before a channel is at most the number
/// of devices.
pub proof fn lemma_starting_before_in_range(devices: Seq<DeviceModel>, start: int)
    ensures
        0 <= starting_before(devices, start) <= devices.len(),
    decreases devices.len(),
{
    if devices.len() > 0 {
        lemma_starting_before_in_range(devices.drop_last(), start);
    }
}

/// Taking a device out again where it was put restores the list.
pub proof fn lemma_remove_undoes_insert(devices: Seq<DeviceModel>, device: DeviceModel)
    ensures
        devices.insert(starting_before(devices, device.start), device).remove(
            starting_before(devices, device.start),
        ) == devices,
{
    lemma_starting_before_in_range(devices, device.start);
    let at = starting_before(devices, device.start);
    assert(devices.insert(at, device).remove(at) =~= devices);
}

/// A device that collides with none of a placed list can be added to it in
/// its place, and the list is placed again.
pub proof fn lemma_insert_keeps_placed(devices: Seq<DeviceModel>, device: DeviceModel)
    requires
        placed(devices),
        device.wf(),
        !collides(devices, device),
    ensures
        placed(devices.insert(starting_before(devices, device.start), device)),
{
    let at = lemma_slot(devices, device.start);
    let grown = devices.insert(at, device);
    assert forall|i: int| 0 <= i < devices.len() implies !blocks(#[trigger] devices[i], device) by {}
    assert forall|i: int, j: int| 0 <= i < j < grown.len() implies (#[trigger] grown[i]).start < (
    #[trigger] grown[j]).start && grown[i].end <= grown[j].start by {
        if j < at {
            assert(grown[i] == devices[i] && grown[j] == devices[j]);
        } else if j == at {
            assert(grown[i] == devices[i]);
            assert(!blocks(devices[i], device));
        } else if i < at {
            assert(grown[i] == devices[i] && grown[j] == devices[j - 1]);
        } else if i == at {
            assert(grown[j] == devices[j - 1]);
            assert(!blocks(devices[j - 1], device));
        } else {
            assert(grown[i] == devices[i - 1] && grown[j] == devices[j - 1]);
        }
    }
    assert forall|i: int| 0 <= i < grown.len() implies (#[trigger] grown[i]).wf() by {
        if i < at {
            assert(grown[i] == devices[i]);
        } else if i > at {
            assert(grown[i] == devices[i - 1]);
        }
    }
}

/// The place of a start channel in a placed list.
proof fn lemma_slot(devices: Seq<DeviceModel>, start: int) -> (at: int)
    requires
        placed(devices),
    ensures
        at == starting_before(devices, start),
        0 <= at <= devices.len(),
        forall|i: int| 0 <= i < at ==> (#[trigger] devices[i]).start < start,
        forall|i: int| at <= i < devices.len() ==> (#[trigger] devices[i]).start >= start,
    decreases devices.len(),
{
    if devices.len() == 0 {
        0
    } else {
        let front = devices.drop_last();
        assert forall|i: int, j: int| 0 <= i < j < front.len() implies (#[trigger] front[i]).start < (
        #[trigger] front[j]).start && front[i].end <= front[j].start by {
            assert(front[i] == devices[i] && front[j] == devices[j]);
        }
        assert forall|i: int| 0 <= i < front.len() implies (#[trigger] front[i]).wf() by {
            assert(front[i] == devices[i]);
        }
        let before = lemma_slot(front, start);
        if devices.last().start < start {
            assert forall|i: int| 0 <= i < devices.len() implies (#[trigger] devices[i]).start
                < start by {
                if i < devices.len() - 1 {
                    assert(devices[i].start < devices[devices.len() - 1].start);
                }
            }
            lemma_starting_before(front, start, front.len() as int);
            devices.len() as int
        } else {
            assert forall|i: int| 0 <= i < before implies (#[trigger] devices[i]).start < start by {
                assert(devices[i] == front[i]);
            }
            assert forall|i: int| before <= i < devices.len() implies (#[trigger] devices[i]).start
                >= start by {
                if i < devices.len() - 1 {
                    assert(devices[i] == front[i]);
                }
            }
            before
        }
    }
}

/// The devices of one universe, in the order of their start channels.
///
/// The list is always placed (see [`placed`]): no channel belongs to two
/// devices.
#[derive(Debug, PartialEq, Eq, PartialOrd, Ord)]
pub struct UniverseDevices {
    devices: Vec<Device>,
}

impl View for UniverseDevices {
    type V = Seq<DeviceModel>;

    closed spec fn view(&self) -> Seq<DeviceModel> {
        self.devices@.map_values(|device: Device| device@)
    }
}

impl Clone for UniverseDevices {
    /// The same devices again; the fixtures are shared, not copied.
    fn clone(&self) -> (r: Self)
        ensures
            r@ == self@,
    {
        proof {
            use_type_invariant(self);
        }
        let mut devices: Vec<Device> = Vec::new();
        let mut i: usize = 0;
        while i < self.devices.len()
            invariant
                i <= self.devices@.len(),
                devices@.len() == i,
                forall|j: int| 0 <= j < i ==> (#[trigger] devices@[j])@ == self.devices@[j]@,
            decreases self.devices@.len() - i,
        {
            devices.push(self.devices[i].clone());
            i += 1;
        }
        proof {
            assert(Self::models(devices@) =~= self@);
        }
        Self { devices }
    }
}

impl<'a> IntoIterator for &'a UniverseDevices {
    type Item = &'a Device;

    type IntoIter = Iter<'a, Device>;

    /// The devices in the order of their start channels.
    fn into_iter(self) -> (r: Iter<'a, Device>)
        ensures
            r.remaining().len() == self@.len(),
            forall|i: int| 0 <= i < self@.len() ==> (#[trigger] r.remaining()[i])@ == self@[i],
    {
        self.iter()
    }
}

impl Default for UniverseDevices {
    /// A universe with no device in it.
    fn default() -> (r: Self)
        ensures
            r@ == Seq::<DeviceModel>::empty(),
    {
        let r = Self { devices: Vec::new() };
        assert(r@ =~= Seq::<DeviceModel>::empty());
        r
    }
}

impl UniverseDevices {
    #[verifier::type_invariant]
    spec fn inv(self) -> bool {
        placed(self@)
    }

    /// The views of a list of devices.
    pub open spec fn models(devices: Seq<Device>) -> Seq<DeviceModel> {
        devices.map_values(|device: Device| device@)
    }

    /// Hands out the list and leaves the universe empty, for the list to be
    /// changed and put back.
    fn take_devices(&mut self) -> (list: Vec<Device>)
        ensures
            Self::models(list@) == old(self)@,
            list@.len() == old(self)@.len(),
            final(self)@.len() == 0,
    {
        let mut list: Vec<Device> = Vec::new();
        assert(Self::models(list@) =~= Seq::<DeviceModel>::empty());
        core::mem::swap(&mut self.devices, &mut list);
        list
    }

    /// The universe that holds the given devices, which are in placement
    /// order.
    pub fn new(devices: Vec<Device>) -> (r: Self)
        requires
            placed(Self::models(devices@)),
        ensures
            r@ == Self::models(devices@),
    {
        Self { devices }
    }

    pub fn len(&self) -> (r: usize)
        ensures
            r == self@.len(),
            placed(self@),
    {
        proof {
            use_type_invariant(self);
        }
        self.devices.len()
    }

    pub fn is_empty(&self) -> (r: bool)
        ensures
            r == (self@.len() == 0),
    {
        self.devices.len() == 0
    }

    /// The devices in the order of their start channels.
    pub fn iter(&self) -> (r: Iter<'_, Device>)
        ensures
            r.remaining().len() == self@.len(),
            forall|i: int| 0 <= i < self@.len() ==> (#[trigger] r.remaining()[i])@ == self@[i],
            placed(self@),
    {
        proof {
            use_type_invariant(self);
        }
        self.devices.iter()
    }

    /// Adds devices at the end. They come in placement order, the first of
    /// them clear of the last device already there.
    pub fn extend(&mut self, devices: Vec<Device>)
        requires
            placed(old(self)@ + Self::models(devices@)),
        ensures
            final(self)@ == old(self)@ + Self::models(devices@),
    {
        let mut devices = devices;
        let ghost added = Self::models(devices@);
        let mut list = self.take_devices();
        list.append(&mut devices);
        proof {
            assert(Self::models(list@) =~= old(self)@ + added);
        }
        self.devices = list;
    }

    /// Takes the device at `index` out of the universe. The others stay as
    /// they are, so the list is still placed.
    pub fn remove(&mut self, index: usize) -> (r: Device)
        requires
            index < old(self)@.len(),
        ensures
            r@ == old(self)@[index as int],
            final(self)@ == old(self)@.remove(index as int),
            placed(final(self)@),
    {
        proof {
            use_type_invariant(&*self);
        }
        let ghost before = self@;
        let mut list = self.take_devices();
        let device = list.remove(index);
        proof {
            let after = Self::models(list@);
            assert(after =~= before.remove(index as int));
            assert forall|i: int, j: int| 0 <= i < j < after.len() implies (#[trigger] after[i]).start
                < (#[trigger] after[j]).start && after[i].end <= after[j].start by {
                let from_i = if i < index { i } else { i + 1 };
                let from_j = if j < index { j } else { j + 1 };
                assert(after[i] == before[from_i] && after[j] == before[from_j]);
            }
            assert forall|i: int| 0 <= i < after.len() implies (#[trigger] after[i]).wf() by {
                let from_i = if i < index { i } else { i + 1 };
                assert(after[i] == before[from_i]);
            }
        }
        self.devices = list;
        device
    }

    /// Places a device among those of the universe, at the place that its
    /// start channel gives it.
    ///
    /// The device is refused, and the universe left as it was, exactly where
    /// a device already placed stands in its way (see [`blocks`]): one with
    /// the same start channel, one before it that reaches up to its start
    /// channel, or one after it that starts before its end. A device that
    /// exists lies within the channel numbers, so of the three errors only
    /// `ChannelAlreadyAssigned` is returned here.
    pub fn try_insert(&mut self, device: Device) -> (r: Result<(), InsertError>)
        ensures
            placed(old(self)@),
            placed(final(self)@),
            device@.wf(),
            collides(old(self)@, device@) ==> r == Err::<(), InsertError>(
                InsertError::ChannelAlreadyAssigned,
            ) && final(self)@ == old(self)@,
            !collides(old(self)@, device@) ==> r == Ok::<(), InsertError>(()) && final(self)@ == old(
                self,
            )@.insert(starting_before(old(self)@, device@.start), device@),
    {
        proof {
            use_type_invariant(&*self);
        }
        let ghost before = self@;
        let ghost new = device@;
        let start = device.start_channel().get();
        let end = device.end_channel().get();
        let mut low: usize = 0;
        let mut high: usize = self.devices.len();
        while low < high
            invariant
                low <= high <= self.devices@.len(),
                self@ == before,
                before == old(self)@,
                placed(before),
                new == device@,
                new.wf(),
                new.start == start,
                forall|i: int| 0 <= i < low ==> (#[trigger] before[i]).start < start,
                forall|i: int| high <= i < before.len() ==> (#[trigger] before[i]).start > start,
            decreases high - low,
        {
            let middle = low + (high - low) / 2;
            let there = self.devices[middle].start_channel().get();
            assert(before[middle as int].start == there);
            if there < start {
                assert forall|i: int| 0 <= i < middle + 1 implies (#[trigger] before[i]).start
                    < start by {
                    if i < middle {
                        assert(before[i].start < before[middle as int].start);
                    }
                }
                low = middle + 1;
            } else if there == start {
                assert(blocks(before[middle as int], new));
                return Err(InsertError::ChannelAlreadyAssigned);
            } else {
                assert forall|i: int| middle <= i < before.len() implies (#[trigger] before[i]).start
                    > start by {
                    if i > middle {
                        assert(before[middle as int].start < before[i].start);
                    }
                }
                high = middle;
            }
        }
        let at = low;
        proof {
            lemma_starting_before(before, start as int, at as int);
        }
        if at > 0 {
            let previous = &self.devices[at - 1];
            if previous.end_channel().get() >= start {
                assert(blocks(before[at - 1], new));
                return Err(InsertError::ChannelAlreadyAssigned);
            }
        }
        if at < self.devices.len() {
            let next = &self.devices[at];
            if end > next.start_channel().get() {
                assert(blocks(before[at as int], new));
                return Err(InsertError::ChannelAlreadyAssigned);
            }
        }
        proof {
            assert forall|i: int| 0 <= i < before.len() implies !blocks(#[trigger] before[i], new) by {
                if i < at - 1 {
                    assert(before[i].end <= before[at - 1].start);
                } else if i > at {
                    assert(before[at as int].start < before[i].start);
                }
            }
            assert(!collides(before, new));
            lemma_insert_keeps_placed(before, new);
        }
        let mut list = self.take_devices();
        list.insert(at, device);
        proof {
            assert(Self::models(list@) =~= before.insert(at as int, new));
        }
        self.devices = list;
        Ok(())
    }
}

} // verus!
